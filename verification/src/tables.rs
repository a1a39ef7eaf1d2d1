//! The registry's tables and the queries that its operations share.

use vstd::prelude::*;

use crate::import;
use crate::policy_state::PolicyTables;
use crate::ranking;
use crate::ranking::Ranked;
use crate::rules::Rule;
use crate::text;

verus! {

/// A registered board; its path is the key.
#[derive(Debug)]
pub struct BoardRow {
    pub board_path: String,
    pub name: String,
    pub created_at: i64,
    pub last_used_at: i64,
    pub archived: bool,
    pub archived_at: Option<i64>,
    pub archived_by: Option<String>,
    pub archived_note: Option<String>,
    pub retirement_id: Option<String>,
}

/// A workspace root of a board; its path is the key.
#[derive(Debug)]
pub struct RootRow {
    pub root_path: String,
    pub board_path: String,
    pub created_at: i64,
    pub last_used_at: i64,
}

/// A root that a board once had; the rows stand in the order they were written.
#[derive(Debug)]
pub struct AliasRow {
    pub root_path: String,
    pub name: String,
    pub board_path: String,
    pub created_at: i64,
    pub last_used_at: i64,
    pub archived_at: i64,
    pub archived_by: String,
    pub archived_note: Option<String>,
    pub retirement_id: Option<String>,
}

/// One audited change; the payload is JSON text. The hashes of the audit chain
/// are there once the row is stored.
#[derive(Debug)]
pub struct EventRow {
    pub seq: i64,
    pub rule_id: String,
    pub kind: String,
    pub actor: String,
    pub payload: String,
    pub created_at: i64,
    pub prev_hash: Option<String>,
    pub event_hash: Option<String>,
}

/// What an imported rule came from.
#[derive(Debug)]
pub struct LedgerRow {
    pub source_registry_uuid: String,
    pub source_rule_id: String,
    pub source_content_sha256: String,
    pub destination_rule_id: String,
    pub imported_at: i64,
    pub imported_by: String,
}

/// A source of rules whose consolidation is complete.
#[derive(Debug)]
pub struct MigrationRow {
    pub board_path: String,
    pub board_name: String,
    pub source_count: usize,
    pub actor: String,
    pub migrated_at: i64,
}

/// A rule of the former global table, with its tags as JSON text.
#[derive(Debug)]
pub struct LegacyRule {
    pub id: String,
    pub body: String,
    pub author: String,
    pub archived: bool,
    pub created_at: i64,
    pub updated_at: i64,
    pub board_tags: String,
    pub task_tags: String,
}

/// An event of the former global table.
#[derive(Debug)]
pub struct LegacyEvent {
    pub rule_id: String,
    pub kind: String,
    pub actor: String,
    pub payload: String,
    pub created_at: i64,
}

/// Everything that the registry database holds.
#[derive(Debug)]
pub struct Registry {
    pub data_root: String,
    pub registry_uuid: Option<String>,
    pub boards: Vec<BoardRow>,
    pub roots: Vec<RootRow>,
    pub history: Vec<AliasRow>,
    pub rules: Vec<Rule>,
    pub events: Vec<EventRow>,
    pub ledger: Vec<LedgerRow>,
    pub migrations: Vec<MigrationRow>,
    pub legacy_rules: Vec<LegacyRule>,
    pub legacy_events: Vec<LegacyEvent>,
    pub policy: PolicyTables,
}

// ------------------------------------------------------------- generic queries

/// The index of the first element that `p` holds of, or the length.
pub open spec fn first_index<T>(s: Seq<T>, p: spec_fn(T) -> bool) -> int
    decreases s.len(),
{
    if s.len() == 0 || p(s[0]) {
        0
    } else {
        1 + first_index(s.skip(1), p)
    }
}

pub proof fn lemma_first_index<T>(s: Seq<T>, p: spec_fn(T) -> bool)
    ensures
        0 <= first_index(s, p) <= s.len(),
        first_index(s, p) < s.len() ==> p(s[first_index(s, p)]),
        forall|i: int| 0 <= i < first_index(s, p) ==> !p(#[trigger] s[i]),
    decreases s.len(),
{
    if s.len() > 0 && !p(s[0]) {
        lemma_first_index(s.skip(1), p);
        assert forall|i: int| 0 <= i < first_index(s, p) implies !p(#[trigger] s[i]) by {
            if i > 0 {
                assert(s.skip(1)[i - 1] == s[i]);
            }
        }
    }
}

/// The first index is the only one that fits its description.
pub proof fn lemma_first_index_is<T>(s: Seq<T>, p: spec_fn(T) -> bool, n: int)
    requires
        0 <= n <= s.len(),
        n < s.len() ==> p(s[n]),
        forall|i: int| 0 <= i < n ==> !p(#[trigger] s[i]),
    ensures
        first_index(s, p) == n,
{
    lemma_first_index(s, p);
}

/// No two elements have one key.
pub open spec fn distinct_by<T, K>(s: Seq<T>, key: spec_fn(T) -> K) -> bool {
    forall|i: int, j: int|
        0 <= i < j < s.len() ==> key(#[trigger] s[i]) != key(#[trigger] s[j])
}

/// A reordering of elements with distinct keys has distinct keys.
pub proof fn lemma_reordered_distinct<T, K>(s: Seq<T>, t: Seq<T>, key: spec_fn(T) -> K)
    requires
        distinct_by(s, key),
        s.to_multiset() == t.to_multiset(),
    ensures
        distinct_by(t, key),
{
    broadcast use vstd::seq_lib::group_to_multiset_ensures;

    assert(s.no_duplicates()) by {
        assert forall|i: int, j: int| 0 <= i < s.len() && 0 <= j < s.len() && i != j implies s[i]
            != s[j] by {
            if i < j {
                assert(key(s[i]) != key(s[j]));
            } else {
                assert(key(s[j]) != key(s[i]));
            }
        }
    }
    s.lemma_multiset_has_no_duplicates();
    t.lemma_multiset_has_no_duplicates_conv();
    assert forall|i: int, j: int| 0 <= i < j < t.len() implies key(#[trigger] t[i]) != key(
        #[trigger] t[j],
    ) by {
        assert(t.contains(t[i]) && t.contains(t[j]));
        assert(s.to_multiset().count(t[i]) > 0 && s.to_multiset().count(t[j]) > 0);
        assert(s.contains(t[i]) && s.contains(t[j]));
        let a = choose|a: int| 0 <= a < s.len() && s[a] == t[i];
        let b = choose|b: int| 0 <= b < s.len() && s[b] == t[j];
        if a < b {
            assert(key(s[a]) != key(s[b]));
        } else {
            assert(key(s[b]) != key(s[a]));
        }
    }
}

/// The elements of `s` that `p` holds of, in their order.
pub open spec fn kept<T>(s: Seq<T>, p: spec_fn(T) -> bool) -> Seq<T>
    decreases s.len(),
{
    if s.len() == 0 {
        s
    } else {
        let rest = kept(s.drop_last(), p);
        if p(s.last()) {
            rest.push(s.last())
        } else {
            rest
        }
    }
}

pub proof fn lemma_kept_step<T>(s: Seq<T>, p: spec_fn(T) -> bool, i: int)
    requires
        0 <= i < s.len(),
    ensures
        kept(s.take(i + 1), p) == if p(s[i]) {
            kept(s.take(i), p).push(s[i])
        } else {
            kept(s.take(i), p)
        },
{
    assert(s.take(i + 1).drop_last() =~= s.take(i));
}

/// What is kept is exactly what was there and fits.
pub proof fn lemma_kept<T>(s: Seq<T>, p: spec_fn(T) -> bool)
    ensures
        kept(s, p).len() <= s.len(),
        forall|i: int| 0 <= i < kept(s, p).len() ==> p(#[trigger] kept(s, p)[i]) && s.contains(
            kept(s, p)[i],
        ),
        forall|i: int| 0 <= i < s.len() && p(#[trigger] s[i]) ==> kept(s, p).contains(s[i]),
    decreases s.len(),
{
    if s.len() > 0 {
        let rest = s.drop_last();
        lemma_kept(rest, p);
        let k = kept(s, p);
        assert forall|i: int| 0 <= i < k.len() implies p(#[trigger] k[i]) && s.contains(k[i]) by {
            if i < kept(rest, p).len() {
                assert(k[i] == kept(rest, p)[i]);
                assert(rest.contains(k[i]));
                let j = choose|j: int| 0 <= j < rest.len() && rest[j] == k[i];
                assert(s[j] == k[i]);
            } else {
                assert(s[s.len() - 1] == k[i]);
            }
        }
        assert forall|i: int| 0 <= i < s.len() && p(#[trigger] s[i]) implies k.contains(s[i]) by {
            if i < rest.len() {
                assert(rest[i] == s[i]);
                assert(kept(rest, p).contains(s[i]));
                let j = choose|j: int| 0 <= j < kept(rest, p).len() && kept(rest, p)[j] == s[i];
                assert(k[j] == s[i]);
            } else {
                assert(k[k.len() - 1] == s[i]);
            }
        }
    }
}

/// The first occurrence of each text, in their order.
pub open spec fn deduplicated(s: Seq<Seq<char>>) -> Seq<Seq<char>>
    decreases s.len(),
{
    if s.len() == 0 {
        s
    } else {
        let rest = deduplicated(s.drop_last());
        if rest.contains(s.last()) {
            rest
        } else {
            rest.push(s.last())
        }
    }
}

/// Add a root that is not there yet.
pub fn push_unique_root(roots: &mut Vec<String>, root: String)
    ensures
        text::texts(final(roots)@) == if text::texts(old(roots)@).contains(root@) {
            text::texts(old(roots)@)
        } else {
            text::texts(old(roots)@).push(root@)
        },
{
    if !text::holds(roots.as_slice(), root.as_str()) {
        let ghost before = roots@;
        roots.push(root);
        proof {
            assert(text::texts(roots@) =~= text::texts(before).push(root@));
        }
    }
}

// -------------------------------------------------------------------- row copies

impl Clone for BoardRow {
    fn clone(&self) -> (r: Self)
        ensures
            r == *self,
    {
        BoardRow {
            board_path: self.board_path.clone(),
            name: self.name.clone(),
            created_at: self.created_at,
            last_used_at: self.last_used_at,
            archived: self.archived,
            archived_at: self.archived_at,
            archived_by: self.archived_by.clone(),
            archived_note: self.archived_note.clone(),
            retirement_id: self.retirement_id.clone(),
        }
    }
}

impl Clone for RootRow {
    fn clone(&self) -> (r: Self)
        ensures
            r == *self,
    {
        RootRow {
            root_path: self.root_path.clone(),
            board_path: self.board_path.clone(),
            created_at: self.created_at,
            last_used_at: self.last_used_at,
        }
    }
}

impl Clone for AliasRow {
    fn clone(&self) -> (r: Self)
        ensures
            r == *self,
    {
        AliasRow {
            root_path: self.root_path.clone(),
            name: self.name.clone(),
            board_path: self.board_path.clone(),
            created_at: self.created_at,
            last_used_at: self.last_used_at,
            archived_at: self.archived_at,
            archived_by: self.archived_by.clone(),
            archived_note: self.archived_note.clone(),
            retirement_id: self.retirement_id.clone(),
        }
    }
}

impl Clone for EventRow {
    fn clone(&self) -> (r: Self)
        ensures
            r == *self,
    {
        EventRow {
            seq: self.seq,
            rule_id: self.rule_id.clone(),
            kind: self.kind.clone(),
            actor: self.actor.clone(),
            payload: self.payload.clone(),
            created_at: self.created_at,
            prev_hash: self.prev_hash.clone(),
            event_hash: self.event_hash.clone(),
        }
    }
}

/// Roots stand from the most recently used on, then by path.
impl Ranked for RootRow {
    open spec fn before(self, other: Self) -> bool {
        if self.last_used_at != other.last_used_at {
            self.last_used_at > other.last_used_at
        } else {
            text::text_less(self.root_path@, other.root_path@)
        }
    }

    proof fn lemma_order(a: Self, b: Self, c: Self) {
        text::lemma_text_order(a.root_path@, b.root_path@, c.root_path@);
        text::lemma_text_order(b.root_path@, c.root_path@, a.root_path@);
        text::lemma_text_order(c.root_path@, a.root_path@, b.root_path@);
        text::lemma_text_order(c.root_path@, b.root_path@, a.root_path@);
        text::lemma_text_order(a.root_path@, c.root_path@, b.root_path@);
    }

    fn is_before(&self, other: &Self) -> (r: bool) {
        if self.last_used_at != other.last_used_at {
            self.last_used_at > other.last_used_at
        } else {
            text::less(self.root_path.as_str(), other.root_path.as_str())
        }
    }
}

/// Former roots stand from the most recently used on, then by path.
impl Ranked for AliasRow {
    open spec fn before(self, other: Self) -> bool {
        if self.last_used_at != other.last_used_at {
            self.last_used_at > other.last_used_at
        } else {
            text::text_less(self.root_path@, other.root_path@)
        }
    }

    proof fn lemma_order(a: Self, b: Self, c: Self) {
        text::lemma_text_order(a.root_path@, b.root_path@, c.root_path@);
        text::lemma_text_order(b.root_path@, c.root_path@, a.root_path@);
        text::lemma_text_order(c.root_path@, a.root_path@, b.root_path@);
        text::lemma_text_order(c.root_path@, b.root_path@, a.root_path@);
        text::lemma_text_order(a.root_path@, c.root_path@, b.root_path@);
    }

    fn is_before(&self, other: &Self) -> (r: bool) {
        if self.last_used_at != other.last_used_at {
            self.last_used_at > other.last_used_at
        } else {
            text::less(self.root_path.as_str(), other.root_path.as_str())
        }
    }
}

/// Boards stand from the most recently used on, then by path.
impl Ranked for BoardRow {
    open spec fn before(self, other: Self) -> bool {
        if self.last_used_at != other.last_used_at {
            self.last_used_at > other.last_used_at
        } else {
            text::text_less(self.board_path@, other.board_path@)
        }
    }

    proof fn lemma_order(a: Self, b: Self, c: Self) {
        text::lemma_text_order(a.board_path@, b.board_path@, c.board_path@);
        text::lemma_text_order(b.board_path@, c.board_path@, a.board_path@);
        text::lemma_text_order(c.board_path@, a.board_path@, b.board_path@);
        text::lemma_text_order(c.board_path@, b.board_path@, a.board_path@);
        text::lemma_text_order(a.board_path@, c.board_path@, b.board_path@);
    }

    fn is_before(&self, other: &Self) -> (r: bool) {
        if self.last_used_at != other.last_used_at {
            self.last_used_at > other.last_used_at
        } else {
            text::less(self.board_path.as_str(), other.board_path.as_str())
        }
    }
}

// -------------------------------------------------------------------- predicates

pub open spec fn board_at(path: Seq<char>) -> spec_fn(BoardRow) -> bool {
    |b: BoardRow| b.board_path@ == path
}

pub open spec fn board_listed(include_archived: bool) -> spec_fn(BoardRow) -> bool {
    |b: BoardRow| include_archived || !b.archived
}

pub open spec fn board_named(name: Seq<char>, include_archived: bool) -> spec_fn(BoardRow) -> bool {
    |b: BoardRow| b.name@ == name && (include_archived || !b.archived)
}

pub open spec fn root_at(path: Seq<char>) -> spec_fn(RootRow) -> bool {
    |r: RootRow| r.root_path@ == path
}

pub open spec fn root_on(board_path: Seq<char>) -> spec_fn(RootRow) -> bool {
    |r: RootRow| r.board_path@ == board_path
}

pub open spec fn root_off(board_path: Seq<char>) -> spec_fn(RootRow) -> bool {
    |r: RootRow| r.board_path@ != board_path
}

pub open spec fn alias_of(board_path: Seq<char>, retirement_id: Seq<char>) -> spec_fn(
    AliasRow,
) -> bool {
    |a: AliasRow|
        a.board_path@ == board_path && text::text_of(a.retirement_id) == Some(retirement_id)
}

/// The index of the board at `path`, or the number of boards.
pub fn find_board(boards: &[BoardRow], path: &str) -> (r: usize)
    ensures
        r == first_index(boards@, board_at(path@)),
        r <= boards@.len(),
        r < boards@.len() ==> boards@[r as int].board_path@ == path@,
{
    let mut i: usize = 0;
    while i < boards.len()
        invariant
            i <= boards@.len(),
            forall|k: int| 0 <= k < i ==> (#[trigger] boards@[k]).board_path@ != path@,
        decreases boards.len() - i,
    {
        if text::same(boards[i].board_path.as_str(), path) {
            proof {
                lemma_first_index_is(boards@, board_at(path@), i as int);
            }
            return i;
        }
        i = i + 1;
    }
    proof {
        lemma_first_index_is(boards@, board_at(path@), i as int);
    }
    i
}

/// The index of the root at `path`, or the number of roots.
pub fn find_root(roots: &[RootRow], path: &str) -> (r: usize)
    ensures
        r == first_index(roots@, root_at(path@)),
        r <= roots@.len(),
        r < roots@.len() ==> roots@[r as int].root_path@ == path@,
{
    let mut i: usize = 0;
    while i < roots.len()
        invariant
            i <= roots@.len(),
            forall|k: int| 0 <= k < i ==> (#[trigger] roots@[k]).root_path@ != path@,
        decreases roots.len() - i,
    {
        if text::same(roots[i].root_path.as_str(), path) {
            proof {
                lemma_first_index_is(roots@, root_at(path@), i as int);
            }
            return i;
        }
        i = i + 1;
    }
    proof {
        lemma_first_index_is(roots@, root_at(path@), i as int);
    }
    i
}

/// Whether an active board other than the one at `except` is named `name`.
pub open spec fn has_active_name(
    boards: Seq<BoardRow>,
    name: Seq<char>,
    except: Option<Seq<char>>,
) -> bool {
    exists|i: int|
        0 <= i < boards.len() && !(#[trigger] boards[i]).archived && boards[i].name@ == name
            && except != Some(boards[i].board_path@)
}

pub fn active_named(
    boards: &[BoardRow],
    name: &str,
    exclude_board_path: Option<&str>,
) -> (r: bool)
    ensures
        r == has_active_name(boards@, name@, text::str_of(exclude_board_path)),
{
    let mut i: usize = 0;
    while i < boards.len()
        invariant
            i <= boards@.len(),
            forall|k: int|
                0 <= k < i ==> (#[trigger] boards@[k]).archived || boards@[k].name@ != name@
                    || text::str_of(exclude_board_path) == Some(boards@[k].board_path@),
        decreases boards.len() - i,
    {
        let board = &boards[i];
        if !board.archived && text::same(board.name.as_str(), name) {
            let excluded = match exclude_board_path {
                Some(path) => text::same(path, board.board_path.as_str()),
                None => false,
            };
            if !excluded {
                return true;
            }
        }
        i = i + 1;
    }
    false
}

/// The board is archived, where there is one.
pub open spec fn archived_at_path(boards: Seq<BoardRow>, path: Seq<char>) -> Option<bool> {
    let i = first_index(boards, board_at(path));
    if 0 <= i < boards.len() {
        Some(boards[i].archived)
    } else {
        None
    }
}

pub fn board_archived(boards: &[BoardRow], board_path: &str) -> (r: Option<bool>)
    ensures
        r == archived_at_path(boards@, board_path@),
{
    let i: usize = find_board(boards, board_path);
    if i < boards.len() {
        Some(boards[i].archived)
    } else {
        None
    }
}

/// The roots of a board: those it has, or those its retirement took, without
/// repetition.
pub open spec fn roots_of(
    roots: Seq<RootRow>,
    history: Seq<AliasRow>,
    board_path: Seq<char>,
    retirement_id: Option<Seq<char>>,
) -> Seq<Seq<char>> {
    match retirement_id {
        Some(id) => deduplicated(
            ranking::ranked(kept(history, alias_of(board_path, id))).map_values(
                |a: AliasRow| a.root_path@,
            ),
        ),
        None => deduplicated(
            ranking::ranked(kept(roots, root_on(board_path))).map_values(
                |r: RootRow| r.root_path@,
            ),
        ),
    }
}

/// The roots of the board at `board_path`, in order.
pub fn sorted_roots(roots: &[RootRow], board_path: &str) -> (r: Vec<RootRow>)
    ensures
        r@ == ranking::ranked(kept(roots@, root_on(board_path@))),
{
    let mut out: Vec<RootRow> = Vec::new();
    let mut i: usize = 0;
    while i < roots.len()
        invariant
            i <= roots@.len(),
            out@ == kept(roots@.take(i as int), root_on(board_path@)),
        decreases roots.len() - i,
    {
        proof {
            lemma_kept_step(roots@, root_on(board_path@), i as int);
        }
        if text::same(roots[i].board_path.as_str(), board_path) {
            out.push(roots[i].clone());
        }
        i = i + 1;
    }
    proof {
        assert(roots@.take(roots@.len() as int) =~= roots@);
    }
    ranking::sort_ranked(out)
}

/// The former roots that one retirement of a board took, in order.
pub fn sorted_aliases(
    history: &[AliasRow],
    board_path: &str,
    retirement_id: &str,
) -> (r: Vec<AliasRow>)
    ensures
        r@ == ranking::ranked(kept(history@, alias_of(board_path@, retirement_id@))),
{
    let mut out: Vec<AliasRow> = Vec::new();
    let mut i: usize = 0;
    while i < history.len()
        invariant
            i <= history@.len(),
            out@ == kept(history@.take(i as int), alias_of(board_path@, retirement_id@)),
        decreases history.len() - i,
    {
        proof {
            lemma_kept_step(history@, alias_of(board_path@, retirement_id@), i as int);
        }
        let row = &history[i];
        let taken = match &row.retirement_id {
            Some(id) => text::same(id.as_str(), retirement_id),
            None => false,
        };
        if taken && text::same(row.board_path.as_str(), board_path) {
            out.push(row.clone());
        }
        i = i + 1;
    }
    proof {
        assert(history@.take(history@.len() as int) =~= history@);
    }
    ranking::sort_ranked(out)
}

/// The paths of a board's roots.
pub fn board_roots(
    roots: &[RootRow],
    history: &[AliasRow],
    board_path: &str,
    retirement_id: Option<&str>,
) -> (r: Vec<String>)
    ensures
        text::texts(r@) == roots_of(
            roots@,
            history@,
            board_path@,
            text::str_of(retirement_id),
        ),
{
    let mut out: Vec<String> = Vec::new();
    match retirement_id {
        Some(id) => {
            let rows = sorted_aliases(history, board_path, id);
            let ghost paths = rows@.map_values(|a: AliasRow| a.root_path@);
            let mut i: usize = 0;
            proof {
                assert(text::texts(out@) =~= deduplicated(paths.take(0)));
            }
            while i < rows.len()
                invariant
                    i <= rows@.len(),
                    paths == rows@.map_values(|a: AliasRow| a.root_path@),
                    text::texts(out@) == deduplicated(paths.take(i as int)),
                decreases rows.len() - i,
            {
                proof {
                    assert(paths.take(i as int + 1).drop_last() =~= paths.take(i as int));
                    assert(paths.take(i as int + 1).last() == rows@[i as int].root_path@);
                }
                push_unique_root(&mut out, rows[i].root_path.clone());
                i = i + 1;
            }
            proof {
                assert(paths.take(paths.len() as int) =~= paths);
            }
        },
        None => {
            let rows = sorted_roots(roots, board_path);
            let ghost paths = rows@.map_values(|r: RootRow| r.root_path@);
            let mut i: usize = 0;
            proof {
                assert(text::texts(out@) =~= deduplicated(paths.take(0)));
            }
            while i < rows.len()
                invariant
                    i <= rows@.len(),
                    paths == rows@.map_values(|r: RootRow| r.root_path@),
                    text::texts(out@) == deduplicated(paths.take(i as int)),
                decreases rows.len() - i,
            {
                proof {
                    assert(paths.take(i as int + 1).drop_last() =~= paths.take(i as int));
                    assert(paths.take(i as int + 1).last() == rows@[i as int].root_path@);
                }
                push_unique_root(&mut out, rows[i].root_path.clone());
                i = i + 1;
            }
            proof {
                assert(paths.take(paths.len() as int) =~= paths);
            }
        },
    }
    out
}

// ------------------------------------------------------------------------ events

pub open spec fn next_seq(events: Seq<EventRow>) -> i64 {
    if events.len() == 0 {
        1
    } else if events.last().seq == i64::MAX {
        i64::MAX
    } else {
        (events.last().seq + 1) as i64
    }
}

/// The events stand in the order of their numbers, as far as there are numbers: behind
/// the greatest there is only that one.
pub open spec fn in_sequence(events: Seq<EventRow>) -> bool {
    forall|i: int, j: int|
        0 <= i < j < events.len() ==> (#[trigger] events[i]).seq < (#[trigger] events[j]).seq || (
        events[i].seq == i64::MAX && events[j].seq == i64::MAX)
}

/// `after` is `before` with more events, each numbered on from the one before it.
pub open spec fn numbered_on(before: Seq<EventRow>, after: Seq<EventRow>) -> bool {
    &&& before.is_prefix_of(after)
    &&& forall|k: int|
        before.len() <= k < after.len() ==> (#[trigger] after[k]).seq == next_seq(after.take(k))
}

/// Numbering on keeps events in sequence.
pub proof fn lemma_numbered_on(before: Seq<EventRow>, after: Seq<EventRow>)
    requires
        numbered_on(before, after),
        in_sequence(before),
    ensures
        in_sequence(after),
    decreases after.len(),
{
    if after.len() > before.len() {
        let rest = after.drop_last();
        let n = rest.len() as int;
        assert(before.is_prefix_of(rest)) by {
            assert(rest.subrange(0, before.len() as int) =~= after.subrange(
                0,
                before.len() as int,
            ));
        }
        assert forall|k: int| before.len() <= k < rest.len() implies (#[trigger] rest[k]).seq
            == next_seq(rest.take(k)) by {
            assert(rest[k] == after[k]);
            assert(rest.take(k) =~= after.take(k));
        }
        lemma_numbered_on(before, rest);
        assert(after.take(n) =~= rest);
        assert(after[n].seq == next_seq(rest));
        assert forall|i: int, j: int| 0 <= i < j < after.len() implies (#[trigger] after[i]).seq < (
        #[trigger] after[j]).seq || (after[i].seq == i64::MAX && after[j].seq == i64::MAX) by {
            assert(after[i] == rest[i]);
            if j < n {
                assert(after[j] == rest[j]);
            } else if i < n - 1 {
                assert(rest[i].seq < rest[n - 1].seq || rest[n - 1].seq == i64::MAX);
            }
        }
    } else {
        assert(after =~= before);
    }
}

/// Events numbered on twice are numbered on.
pub proof fn lemma_numbered_further(a: Seq<EventRow>, b: Seq<EventRow>, c: Seq<EventRow>)
    requires
        numbered_on(a, b),
        numbered_on(b, c),
    ensures
        numbered_on(a, c),
{
    assert(c.subrange(0, a.len() as int) =~= a) by {
        assert forall|i: int| 0 <= i < a.len() implies c[i] == #[trigger] a[i] by {
            assert(b.subrange(0, a.len() as int)[i] == b[i]);
            assert(c.subrange(0, b.len() as int)[i] == c[i]);
        }
    }
    assert forall|k: int| a.len() <= k < c.len() implies (#[trigger] c[k]).seq == next_seq(
        c.take(k),
    ) by {
        if k < b.len() {
            assert(c.subrange(0, b.len() as int)[k] == c[k]);
            assert(b[k] == c[k]);
            assert(b.take(k) =~= c.take(k)) by {
                assert forall|i: int| 0 <= i < k implies b[i] == #[trigger] c[i] by {
                    assert(c.subrange(0, b.len() as int)[i] == c[i]);
                }
            }
        }
    }
}

/// `e` is the row that the given change is audited with behind `events`.
pub open spec fn is_event(
    e: EventRow,
    events: Seq<EventRow>,
    subject: Seq<char>,
    kind: Seq<char>,
    actor: Seq<char>,
    payload: Seq<char>,
    at: i64,
) -> bool {
    &&& e.seq == next_seq(events)
    &&& e.rule_id@ == subject
    &&& e.kind@ == kind
    &&& e.actor@ == actor
    &&& e.payload@ == payload
    &&& e.created_at == at
    &&& e.prev_hash is None
    &&& e.event_hash is None
}

/// `after` is `before` with one more event.
pub open spec fn audited(
    before: Seq<EventRow>,
    after: Seq<EventRow>,
    subject: Seq<char>,
    kind: Seq<char>,
    actor: Seq<char>,
    payload: Seq<char>,
    at: i64,
) -> bool {
    &&& after.len() == before.len() + 1
    &&& after == before.push(after.last())
    &&& is_event(after.last(), before, subject, kind, actor, payload, at)
}

/// Audit one change.
pub fn append_registry_event(
    events: &mut Vec<EventRow>,
    subject: &str,
    kind: &str,
    actor: &str,
    payload: &str,
    at: i64,
)
    ensures
        audited(old(events)@, final(events)@, subject@, kind@, actor@, payload@, at),
{
    let n: usize = events.len();
    let seq: i64 = if n == 0 {
        1
    } else if events[n - 1].seq == i64::MAX {
        i64::MAX
    } else {
        events[n - 1].seq + 1
    };
    let row = EventRow {
        seq,
        rule_id: subject.to_owned(),
        kind: kind.to_owned(),
        actor: actor.to_owned(),
        payload: payload.to_owned(),
        created_at: at,
        prev_hash: None,
        event_hash: None,
    };
    events.push(row);
}

/// A change to be audited.
#[derive(Debug)]
pub struct Entry {
    pub subject: String,
    pub kind: String,
    pub actor: String,
    pub payload: String,
    pub at: i64,
}

/// What an entry says.
pub struct EntryView {
    pub subject: Seq<char>,
    pub kind: Seq<char>,
    pub actor: Seq<char>,
    pub payload: Seq<char>,
    pub at: i64,
}

impl View for Entry {
    type V = EntryView;

    open spec fn view(&self) -> EntryView {
        EntryView {
            subject: self.subject@,
            kind: self.kind@,
            actor: self.actor@,
            payload: self.payload@,
            at: self.at,
        }
    }
}

pub open spec fn entry_views(s: Seq<Entry>) -> Seq<EntryView> {
    s.map_values(|e: Entry| e@)
}

/// `after` is `before` with one more event for each entry.
pub open spec fn all_audited(
    before: Seq<EventRow>,
    after: Seq<EventRow>,
    entries: Seq<EntryView>,
) -> bool {
    &&& after.len() == before.len() + entries.len()
    &&& after.take(before.len() as int) == before
    &&& forall|i: int|
        0 <= i < entries.len() ==> is_event(
            after[before.len() + i],
            after.take(before.len() + i),
            (#[trigger] entries[i]).subject,
            entries[i].kind,
            entries[i].actor,
            entries[i].payload,
            entries[i].at,
        )
}

/// Audit several changes.
pub fn append_all(events: &mut Vec<EventRow>, entries: &[Entry])
    ensures
        all_audited(old(events)@, final(events)@, entry_views(entries@)),
{
    let ghost before = events@;
    let ghost views = entry_views(entries@);
    let mut i: usize = 0;
    proof {
        assert(events@.take(before.len() as int) =~= before);
    }
    while i < entries.len()
        invariant
            i <= entries@.len(),
            views == entry_views(entries@),
            events@.len() == before.len() + i,
            events@.take(before.len() as int) == before,
            forall|k: int|
                0 <= k < i ==> is_event(
                    events@[before.len() + k],
                    events@.take(before.len() + k),
                    (#[trigger] views[k]).subject,
                    views[k].kind,
                    views[k].actor,
                    views[k].payload,
                    views[k].at,
                ),
        decreases entries.len() - i,
    {
        let ghost mid = events@;
        append_registry_event(
            events,
            entries[i].subject.as_str(),
            entries[i].kind.as_str(),
            entries[i].actor.as_str(),
            entries[i].payload.as_str(),
            entries[i].at,
        );
        proof {
            assert(events@.take(before.len() as int) =~= before);
            assert forall|k: int| 0 <= k < i + 1 implies is_event(
                events@[before.len() + k],
                events@.take(before.len() + k),
                (#[trigger] views[k]).subject,
                views[k].kind,
                views[k].actor,
                views[k].payload,
                views[k].at,
            ) by {
                if k < i {
                    assert(events@.take(before.len() + k) =~= mid.take(before.len() + k));
                } else {
                    assert(events@.take(before.len() + k) =~= mid);
                }
            }
        }
        i = i + 1;
    }
}

// ---------------------------------------------------------------- well-formedness

pub open spec fn unique_boards(boards: Seq<BoardRow>) -> bool {
    forall|i: int, j: int|
        0 <= i < j < boards.len() ==> (#[trigger] boards[i]).board_path@ != (
        #[trigger] boards[j]).board_path@
}

pub open spec fn unique_roots(roots: Seq<RootRow>) -> bool {
    forall|i: int, j: int|
        0 <= i < j < roots.len() ==> (#[trigger] roots[i]).root_path@ != (
        #[trigger] roots[j]).root_path@
}

/// Every root belongs to a registered board that is not retired.
pub open spec fn roots_are_active(roots: Seq<RootRow>, boards: Seq<BoardRow>) -> bool {
    forall|i: int|
        0 <= i < roots.len() ==> archived_at_path(boards, (#[trigger] roots[i]).board_path@) == Some(
            false,
        )
}

pub open spec fn unique_rules(rules: Seq<Rule>) -> bool {
    forall|i: int, j: int|
        0 <= i < j < rules.len() ==> (#[trigger] rules[i]).id@ != (#[trigger] rules[j]).id@
}

/// Every row of the ledger belongs to a rule that the registry holds.
pub open spec fn ledger_backed(ledger: Seq<LedgerRow>, rules: Seq<Rule>) -> bool {
    forall|i: int|
        0 <= i < ledger.len() ==> first_index(
            rules,
            import::rule_from(
                (#[trigger] ledger[i]).source_registry_uuid@,
                ledger[i].source_rule_id@,
            ),
        ) < rules.len()
}

impl Registry {
    /// The keys of the tables are unique, only active boards have roots, and what the
    /// ledger says was imported is there.
    pub open spec fn wf(self) -> bool {
        &&& unique_boards(self.boards@)
        &&& unique_roots(self.roots@)
        &&& roots_are_active(self.roots@, self.boards@)
        &&& unique_rules(self.rules@)
        &&& ledger_backed(self.ledger@, self.rules@)
    }

    /// An empty registry.
    pub fn new(data_root: String, registry_uuid: Option<String>) -> (r: Registry)
        ensures
            r.wf(),
            r.data_root == data_root,
            r.registry_uuid == registry_uuid,
            r.boards@.len() == 0,
            r.roots@.len() == 0,
            r.history@.len() == 0,
            r.rules@.len() == 0,
            r.events@.len() == 0,
            r.ledger@.len() == 0,
            r.migrations@.len() == 0,
            r.legacy_rules@.len() == 0,
            r.legacy_events@.len() == 0,
            r.policy.is_empty(),
    {
        Registry {
            data_root,
            registry_uuid,
            boards: Vec::new(),
            roots: Vec::new(),
            history: Vec::new(),
            rules: Vec::new(),
            events: Vec::new(),
            ledger: Vec::new(),
            migrations: Vec::new(),
            legacy_rules: Vec::new(),
            legacy_events: Vec::new(),
            policy: PolicyTables::new(),
        }
    }
}

} // verus!
