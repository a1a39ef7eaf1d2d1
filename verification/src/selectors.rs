//! Named selectors of active rules: each must name exactly one active board.

use vstd::prelude::*;

use crate::rules;
use crate::rules::ActiveRuleSelectorError;
use crate::rules::ActiveRuleSelectorHealth;
use crate::rules::Rule;
use crate::tables;
use crate::tables::BoardRow;
use crate::tables::Registry;
use crate::text;
use crate::text::Error;

verus! {

/// A selector that does not name exactly one active board.
pub struct Fault {
    pub rule_id: Seq<char>,
    pub selector: Seq<char>,
    pub count: int,
}

impl View for ActiveRuleSelectorError {
    type V = Fault;

    open spec fn view(&self) -> Fault {
        Fault {
            rule_id: self.rule_id@,
            selector: self.selector@,
            count: self.active_board_count as int,
        }
    }
}

pub open spec fn faults_of(errors: Seq<ActiveRuleSelectorError>) -> Seq<Fault> {
    errors.map_values(|e: ActiveRuleSelectorError| e@)
}

/// Faults stand by rule, then by selector, then by count.
pub open spec fn fault_before(a: Fault, b: Fault) -> bool {
    if a.rule_id != b.rule_id {
        text::text_less(a.rule_id, b.rule_id)
    } else if a.selector != b.selector {
        text::text_less(a.selector, b.selector)
    } else {
        a.count < b.count
    }
}

proof fn lemma_fault_order(a: Fault, b: Fault, c: Fault)
    ensures
        !fault_before(a, a),
        fault_before(a, b) ==> !fault_before(b, a),
        fault_before(a, b) && fault_before(b, c) ==> fault_before(a, c),
        !fault_before(a, b) && !fault_before(b, a) ==> a == b,
{
    text::lemma_text_order(a.rule_id, b.rule_id, c.rule_id);
    text::lemma_text_order(b.rule_id, c.rule_id, a.rule_id);
    text::lemma_text_order(a.selector, b.selector, c.selector);
    text::lemma_text_order(b.selector, c.selector, a.selector);
}

/// A sorted list without repetition, with `x` in its place.
pub open spec fn with_fault(s: Seq<Fault>, x: Fault) -> Seq<Fault>
    decreases s.len(),
{
    if s.len() == 0 || fault_before(s.last(), x) {
        s.push(x)
    } else if s.last() == x {
        s
    } else {
        with_fault(s.drop_last(), x).push(s.last())
    }
}

/// Each fault stands strictly before every later one.
pub open spec fn faults_sorted(s: Seq<Fault>) -> bool {
    forall|i: int, j: int|
        0 <= i < j < s.len() ==> fault_before(#[trigger] s[i], #[trigger] s[j])
}

proof fn lemma_with_fault(s: Seq<Fault>, x: Fault)
    requires
        faults_sorted(s),
    ensures
        faults_sorted(with_fault(s, x)),
        forall|y: Fault| #[trigger] with_fault(s, x).contains(y) <==> s.contains(y) || y == x,
    decreases s.len(),
{
    let t = with_fault(s, x);
    if s.len() == 0 || fault_before(s.last(), x) {
        assert forall|i: int, j: int| 0 <= i < j < t.len() implies fault_before(
            #[trigger] t[i],
            #[trigger] t[j],
        ) by {
            if j == s.len() && i < s.len() - 1 {
                lemma_fault_order(s[i], s.last(), x);
            }
        }
        assert forall|y: Fault| #[trigger] t.contains(y) <==> s.contains(y) || y == x by {
            if s.contains(y) {
                let k = choose|k: int| 0 <= k < s.len() && s[k] == y;
                assert(t[k] == y);
            }
            if y == x {
                assert(t[s.len() as int] == y);
            }
        }
    } else if s.last() == x {
        assert(s[s.len() - 1] == x);
    } else {
        let rest = s.drop_last();
        lemma_fault_order(s.last(), x, x);
        assert(fault_before(x, s.last()));
        lemma_with_fault(rest, x);
        let inner = with_fault(rest, x);
        assert forall|i: int| 0 <= i < inner.len() implies fault_before(
            #[trigger] inner[i],
            s.last(),
        ) by {
            assert(inner.contains(inner[i]));
            if rest.contains(inner[i]) {
                let k = choose|k: int| 0 <= k < rest.len() && rest[k] == inner[i];
                assert(fault_before(s[k], s[s.len() - 1]));
            }
        }
        assert forall|y: Fault| #[trigger] t.contains(y) <==> s.contains(y) || y == x by {
            if t.contains(y) {
                let k = choose|k: int| 0 <= k < t.len() && t[k] == y;
                if k < inner.len() {
                    assert(inner.contains(y));
                    if rest.contains(y) {
                        let m = choose|m: int| 0 <= m < rest.len() && rest[m] == y;
                        assert(s[m] == y);
                    }
                } else {
                    assert(s[s.len() - 1] == y);
                }
            }
            if s.contains(y) || y == x {
                if y == s.last() {
                    assert(t[inner.len() as int] == y);
                } else {
                    if s.contains(y) {
                        let m = choose|m: int| 0 <= m < s.len() && s[m] == y;
                        assert(rest[m] == y);
                    }
                    assert(inner.contains(y));
                    let k = choose|k: int| 0 <= k < inner.len() && inner[k] == y;
                    assert(t[k] == y);
                }
            }
        }
    }
}

pub open spec fn counted(name: Seq<char>, excluded: Option<Seq<char>>) -> spec_fn(
    BoardRow,
) -> bool {
    |b: BoardRow| b.name@ == name && !b.archived && excluded != Some(b.board_path@)
}

/// How many active boards carry a name, one path left out.
pub open spec fn active_count(
    boards: Seq<BoardRow>,
    name: Seq<char>,
    excluded: Option<Seq<char>>,
) -> i64 {
    tables::kept(boards, counted(name, excluded)).len() as i64
}

/// How many active boards carry a name, one path left out.
pub fn active_board_count(
    boards: &[BoardRow],
    board_name: &str,
    excluded_board_path: Option<&str>,
) -> (r: i64)
    ensures
        r == active_count(boards@, board_name@, text::str_of(excluded_board_path)),
{
    let ghost p = counted(board_name@, text::str_of(excluded_board_path));
    let mut count: usize = 0;
    let mut i: usize = 0;
    while i < boards.len()
        invariant
            i <= boards@.len(),
            p == counted(board_name@, text::str_of(excluded_board_path)),
            count == tables::kept(boards@.take(i as int), p).len(),
            count <= i,
        decreases boards.len() - i,
    {
        proof {
            tables::lemma_kept_step(boards@, p, i as int);
        }
        let board = &boards[i];
        let excluded = match excluded_board_path {
            Some(path) => text::same(path, board.board_path.as_str()),
            None => false,
        };
        if text::same(board.name.as_str(), board_name) && !board.archived && !excluded {
            count = count + 1;
        }
        i = i + 1;
    }
    proof {
        assert(boards@.take(boards@.len() as int) =~= boards@);
    }
    count as i64
}

/// Where faults are looked for.
pub struct Scope {
    pub only: Option<Seq<char>>,
    pub excluded: Option<Seq<char>>,
}

/// The fault of one tag of a rule, if it has one.
pub open spec fn tag_fault(
    rule_id: Seq<char>,
    tag: Seq<char>,
    boards: Seq<BoardRow>,
    scope: Scope,
) -> Option<Fault> {
    match rules::selector_board(tag) {
        Some(board) => {
            let count = active_count(boards, board, scope.excluded);
            if (scope.only is None || scope.only == Some(board)) && count != 1 {
                Some(Fault { rule_id, selector: tag, count: count as int })
            } else {
                None
            }
        },
        None => None,
    }
}

/// `s` with the faults of the tags of one rule.
pub open spec fn with_tag_faults(
    s: Seq<Fault>,
    rule_id: Seq<char>,
    tags: Seq<Seq<char>>,
    boards: Seq<BoardRow>,
    scope: Scope,
) -> Seq<Fault>
    decreases tags.len(),
{
    if tags.len() == 0 {
        s
    } else {
        let rest = with_tag_faults(s, rule_id, tags.drop_last(), boards, scope);
        match tag_fault(rule_id, tags.last(), boards, scope) {
            Some(fault) => with_fault(rest, fault),
            None => rest,
        }
    }
}

/// The faults of the active rules, sorted and without repetition.
pub open spec fn rule_faults(all: Seq<Rule>, boards: Seq<BoardRow>, scope: Scope) -> Seq<Fault>
    decreases all.len(),
{
    if all.len() == 0 {
        seq![]
    } else {
        let rest = rule_faults(all.drop_last(), boards, scope);
        if all.last().archived {
            rest
        } else {
            with_tag_faults(rest, all.last().id@, text::texts(all.last().tags@), boards, scope)
        }
    }
}

pub(crate) proof fn lemma_with_tag_faults(
    s: Seq<Fault>,
    rule_id: Seq<char>,
    tags: Seq<Seq<char>>,
    boards: Seq<BoardRow>,
    scope: Scope,
)
    requires
        faults_sorted(s),
    ensures
        faults_sorted(with_tag_faults(s, rule_id, tags, boards, scope)),
        forall|y: Fault|
            #[trigger] with_tag_faults(s, rule_id, tags, boards, scope).contains(y) <==> s.contains(
                y,
            ) || exists|i: int|
                0 <= i < tags.len() && tag_fault(rule_id, #[trigger] tags[i], boards, scope) == Some(
                    y,
                ),
    decreases tags.len(),
{
    if tags.len() > 0 {
        let rest = tags.drop_last();
        lemma_with_tag_faults(s, rule_id, rest, boards, scope);
        let before = with_tag_faults(s, rule_id, rest, boards, scope);
        let last = tag_fault(rule_id, tags.last(), boards, scope);
        if last is Some {
            lemma_with_fault(before, last->0);
        }
        let after = with_tag_faults(s, rule_id, tags, boards, scope);
        assert forall|y: Fault| #[trigger] after.contains(y) <==> s.contains(y) || exists|i: int|
            0 <= i < tags.len() && tag_fault(rule_id, #[trigger] tags[i], boards, scope) == Some(
                y,
            ) by {
            if after.contains(y) {
                if before.contains(y) {
                    if !s.contains(y) {
                        let k = choose|k: int|
                            0 <= k < rest.len() && tag_fault(
                                rule_id,
                                #[trigger] rest[k],
                                boards,
                                scope,
                            ) == Some(y);
                        assert(tag_fault(rule_id, tags[k], boards, scope) == Some(y));
                    }
                } else {
                    assert(tag_fault(rule_id, tags[tags.len() - 1], boards, scope) == Some(y));
                }
            }
            if exists|i: int|
                0 <= i < tags.len() && tag_fault(rule_id, #[trigger] tags[i], boards, scope)
                    == Some(y) {
                let k = choose|k: int|
                    0 <= k < tags.len() && tag_fault(rule_id, #[trigger] tags[k], boards, scope)
                        == Some(y);
                if k < rest.len() {
                    assert(tag_fault(rule_id, rest[k], boards, scope) == Some(y));
                    assert(before.contains(y));
                }
            }
            if s.contains(y) {
                assert(before.contains(y));
            }
        }
    }
}

/// A rule that is active has a tag at fault.
pub open spec fn at_fault(
    all: Seq<Rule>,
    boards: Seq<BoardRow>,
    scope: Scope,
    fault: Fault,
    i: int,
    j: int,
) -> bool {
    &&& 0 <= i < all.len()
    &&& !all[i].archived
    &&& 0 <= j < all[i].tags@.len()
    &&& tag_fault(all[i].id@, all[i].tags@[j]@, boards, scope) == Some(fault)
}

/// The faults of a rule set are strictly sorted, and they are exactly the faults
/// of the tags of its active rules.
pub proof fn law_rule_faults(all: Seq<Rule>, boards: Seq<BoardRow>, scope: Scope)
    ensures
        faults_sorted(rule_faults(all, boards, scope)),
        forall|y: Fault|
            #[trigger] rule_faults(all, boards, scope).contains(y) <==> exists|i: int, j: int|
                at_fault(all, boards, scope, y, i, j),
    decreases all.len(),
{
    if all.len() > 0 {
        let rest = all.drop_last();
        law_rule_faults(rest, boards, scope);
        let before = rule_faults(rest, boards, scope);
        let after = rule_faults(all, boards, scope);
        let last = all.last();
        let tags = text::texts(last.tags@);
        if !last.archived {
            lemma_with_tag_faults(before, last.id@, tags, boards, scope);
        }
        assert forall|y: Fault| #[trigger] after.contains(y) <==> exists|i: int, j: int|
            at_fault(all, boards, scope, y, i, j) by {
            if after.contains(y) {
                if before.contains(y) {
                    let (i, j) = choose|i: int, j: int| at_fault(rest, boards, scope, y, i, j);
                    assert(at_fault(all, boards, scope, y, i, j));
                } else {
                    let k = choose|k: int|
                        0 <= k < tags.len() && tag_fault(last.id@, #[trigger] tags[k], boards, scope)
                            == Some(y);
                    assert(at_fault(all, boards, scope, y, all.len() - 1, k));
                }
            }
            if exists|i: int, j: int| at_fault(all, boards, scope, y, i, j) {
                let (i, j) = choose|i: int, j: int| at_fault(all, boards, scope, y, i, j);
                if i < rest.len() {
                    assert(at_fault(rest, boards, scope, y, i, j));
                    assert(before.contains(y));
                } else {
                    assert(tag_fault(last.id@, tags[j], boards, scope) == Some(y));
                }
            }
        }
    }
}

fn insert_fault(out: &mut Vec<ActiveRuleSelectorError>, x: ActiveRuleSelectorError)
    ensures
        faults_of(final(out)@) == with_fault(faults_of(old(out)@), x@),
{
    let ghost whole = faults_of(out@);
    let ghost first = out@;
    let mut at: usize = out.len();
    proof {
        assert(whole.take(whole.len() as int) =~= whole);
        assert(with_fault(whole, x@) =~= with_fault(whole, x@) + whole.skip(whole.len() as int));
    }
    loop
        invariant
            at <= out@.len(),
            out@ == first,
            first == old(out)@,
            whole == faults_of(out@),
            whole == faults_of(first),
            with_fault(whole, x@) == with_fault(whole.take(at as int), x@) + whole.skip(at as int),
        decreases at,
    {
        let ghost head = whole.take(at as int);
        if at == 0 || fault_is_before(&out[at - 1], &x) {
            proof {
                assert(at > 0 ==> head.last() == whole[at - 1]);
                assert(with_fault(head, x@) == head.push(x@));
                assert(faults_of(first.insert(at as int, x)) =~= head.push(x@) + whole.skip(
                    at as int,
                ));
            }
            out.insert(at, x);
            return;
        }
        proof {
            assert(head.last() == whole[at - 1]);
        }
        if same_fault(&out[at - 1], &x) {
            proof {
                assert(with_fault(head, x@) == head);
                assert(head + whole.skip(at as int) =~= whole);
            }
            return;
        }
        proof {
            assert(head.drop_last() =~= whole.take(at - 1));
            assert(with_fault(head.drop_last(), x@).push(head.last()) + whole.skip(at as int)
                =~= with_fault(head.drop_last(), x@) + whole.skip(at - 1));
        }
        at = at - 1;
    }
}

fn fault_is_before(a: &ActiveRuleSelectorError, b: &ActiveRuleSelectorError) -> (r: bool)
    ensures
        r == fault_before(a@, b@),
{
    if !text::same(a.rule_id.as_str(), b.rule_id.as_str()) {
        text::less(a.rule_id.as_str(), b.rule_id.as_str())
    } else if !text::same(a.selector.as_str(), b.selector.as_str()) {
        text::less(a.selector.as_str(), b.selector.as_str())
    } else {
        a.active_board_count < b.active_board_count
    }
}

fn same_fault(a: &ActiveRuleSelectorError, b: &ActiveRuleSelectorError) -> (r: bool)
    ensures
        r == (a@ == b@),
{
    text::same(a.rule_id.as_str(), b.rule_id.as_str()) && text::same(
        a.selector.as_str(),
        b.selector.as_str(),
    ) && a.active_board_count == b.active_board_count
}

pub open spec fn scope_of(only: Option<&str>, excluded: Option<&str>) -> Scope {
    Scope { only: text::str_of(only), excluded: text::str_of(excluded) }
}

fn add_tag_faults(
    out: &mut Vec<ActiveRuleSelectorError>,
    rule_id: &str,
    tags: &[String],
    boards: &[BoardRow],
    selector_board: Option<&str>,
    excluded_board_path: Option<&str>,
)
    ensures
        faults_of(final(out)@) == with_tag_faults(
            faults_of(old(out)@),
            rule_id@,
            text::texts(tags@),
            boards@,
            scope_of(selector_board, excluded_board_path),
        ),
{
    let ghost first = faults_of(out@);
    let ghost all = text::texts(tags@);
    let ghost scope = scope_of(selector_board, excluded_board_path);
    let mut i: usize = 0;
    while i < tags.len()
        invariant
            i <= tags@.len(),
            all == text::texts(tags@),
            scope == scope_of(selector_board, excluded_board_path),
            faults_of(out@) == with_tag_faults(first, rule_id@, all.take(i as int), boards@, scope),
        decreases tags.len() - i,
    {
        proof {
            assert(all.take(i as int + 1).drop_last() =~= all.take(i as int));
            assert(all.take(i as int + 1).last() == tags@[i as int]@);
        }
        if let Some(board) = rules::named_selector_board(tags[i].as_str()) {
            let wanted = match selector_board {
                Some(selected) => text::same(selected, board),
                None => true,
            };
            let count: i64 = active_board_count(boards, board, excluded_board_path);
            if wanted && count != 1 {
                insert_fault(
                    out,
                    ActiveRuleSelectorError {
                        rule_id: rule_id.to_owned(),
                        selector: tags[i].clone(),
                        active_board_count: count,
                    },
                );
            }
        }
        i = i + 1;
    }
    proof {
        assert(all.take(all.len() as int) =~= all);
    }
}

/// The faults of the active rules: in one board's selectors where one is given,
/// with one board path left out of the count where one is given.
pub fn active_named_selector_errors(
    all: &[Rule],
    boards: &[BoardRow],
    selector_board: Option<&str>,
    excluded_board_path: Option<&str>,
) -> (r: Vec<ActiveRuleSelectorError>)
    ensures
        faults_of(r@) == rule_faults(
            all@,
            boards@,
            scope_of(selector_board, excluded_board_path),
        ),
{
    let ghost scope = scope_of(selector_board, excluded_board_path);
    let mut out: Vec<ActiveRuleSelectorError> = Vec::new();
    let mut i: usize = 0;
    proof {
        assert(faults_of(out@) =~= rule_faults(all@.take(0), boards@, scope));
    }
    while i < all.len()
        invariant
            i <= all@.len(),
            scope == scope_of(selector_board, excluded_board_path),
            faults_of(out@) == rule_faults(all@.take(i as int), boards@, scope),
        decreases all.len() - i,
    {
        proof {
            assert(all@.take(i as int + 1).drop_last() =~= all@.take(i as int));
        }
        if !all[i].archived {
            add_tag_faults(
                &mut out,
                all[i].id.as_str(),
                all[i].tags.as_slice(),
                boards,
                selector_board,
                excluded_board_path,
            );
        }
        i = i + 1;
    }
    proof {
        assert(all@.take(all@.len() as int) =~= all@);
    }
    out
}

/// The faults of the tags that one rule is to have.
pub open spec fn tags_at_fault(
    rule_id: Seq<char>,
    tags: Seq<Seq<char>>,
    boards: Seq<BoardRow>,
) -> Seq<Fault> {
    with_tag_faults(seq![], rule_id, tags, boards, Scope { only: None, excluded: None })
}

/// Why a rule cannot have the given tags.
pub open spec fn selectors_refusal(
    rule_id: Seq<char>,
    tags: Seq<Seq<char>>,
    boards: Seq<BoardRow>,
) -> Option<Seq<char>> {
    let faults = tags_at_fault(rule_id, tags, boards);
    if faults.len() == 0 {
        None
    } else {
        Some(
            "rule "@ + faults[0].rule_id + " selector "@ + faults[0].selector
                + " requires exactly one active board, but found "@ + text::decimal(
                faults[0].count,
            ),
        )
    }
}

/// Every named selector of a rule must name exactly one active board.
pub fn validate_active_rule_selectors(
    boards: &[BoardRow],
    rule_id: &str,
    tags: &[String],
) -> (r: Result<(), Error>)
    ensures
        match selectors_refusal(rule_id@, text::texts(tags@), boards@) {
            Some(m) => text::refused(r, m),
            None => r is Ok,
        },
{
    let mut errors: Vec<ActiveRuleSelectorError> = Vec::new();
    proof {
        assert(faults_of(errors@) =~= seq![]);
    }
    add_tag_faults(&mut errors, rule_id, tags, boards, None, None);
    proof {
        assert(errors@.len() == faults_of(errors@).len());
        assert(errors@.len() > 0 ==> faults_of(errors@)[0] == errors@[0]@);
    }
    if errors.len() > 0 {
        let e = &errors[0];
        return text::refuse(
            "rule ".to_owned().concat(e.rule_id.as_str()).concat(" selector ").concat(
                e.selector.as_str(),
            ).concat(" requires exactly one active board, but found ").concat(
                text::show_i64(e.active_board_count).as_str(),
            ),
        );
    }
    Ok(())
}

impl Registry {
    /// Whether every named selector of an active rule names exactly one active
    /// board.
    pub fn active_rule_selector_health(&self) -> (r: ActiveRuleSelectorHealth)
        ensures
            faults_of(r.errors@) == rule_faults(
                self.rules@,
                self.boards@,
                Scope { only: None, excluded: None },
            ),
            r.healthy == (r.errors@.len() == 0),
    {
        let errors = active_named_selector_errors(
            self.rules.as_slice(),
            self.boards.as_slice(),
            None,
            None,
        );
        ActiveRuleSelectorHealth { healthy: errors.len() == 0, errors }
    }
}

} // verus!
