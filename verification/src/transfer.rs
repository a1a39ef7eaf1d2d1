//! Moving rules from one registry to another.

use vstd::prelude::*;

use crate::clock;
use crate::outside;
use crate::ranking;
use crate::ranking::Ranked;
use crate::rulebook;
use crate::rulebook::RuleView;
use crate::rules;
use crate::rules::AuditReport;
use crate::rules::Rule;
use crate::rules::RuleTransferBundle;
use crate::rules::RuleTransferItem;
use crate::tables;
use crate::tables::LedgerRow;
use crate::tables::Registry;
use crate::text;
use crate::text::Error;

verus! {

// ------------------------------------------------------------------------- views

/// What an item of a bundle says.
pub struct ItemView {
    pub source_board: Option<Seq<char>>,
    pub source_registry_uuid: Seq<char>,
    pub source_rule_id: Seq<char>,
    pub source_boards: Seq<Seq<char>>,
    pub source_content_sha256: Seq<char>,
    pub body: Seq<char>,
    pub author: Seq<char>,
    pub archived: bool,
    pub created_at: i64,
    pub updated_at: i64,
    pub tags: Seq<Seq<char>>,
}

impl View for RuleTransferItem {
    type V = ItemView;

    open spec fn view(&self) -> ItemView {
        ItemView {
            source_board: text::text_of(self.source_board),
            source_registry_uuid: self.source_registry_uuid@,
            source_rule_id: self.source_rule_id@,
            source_boards: text::texts(self.source_boards@),
            source_content_sha256: self.source_content_sha256@,
            body: self.body@,
            author: self.author@,
            archived: self.archived,
            created_at: self.created_at,
            updated_at: self.updated_at,
            tags: text::texts(self.tags@),
        }
    }
}

pub open spec fn item_views(s: Seq<RuleTransferItem>) -> Seq<ItemView> {
    s.map_values(|i: RuleTransferItem| i@)
}

/// What a row of the import ledger says.
pub struct LedgerView {
    pub source_registry_uuid: Seq<char>,
    pub source_rule_id: Seq<char>,
    pub source_content_sha256: Seq<char>,
    pub destination_rule_id: Seq<char>,
    pub imported_at: i64,
    pub imported_by: Seq<char>,
}

impl View for LedgerRow {
    type V = LedgerView;

    open spec fn view(&self) -> LedgerView {
        LedgerView {
            source_registry_uuid: self.source_registry_uuid@,
            source_rule_id: self.source_rule_id@,
            source_content_sha256: self.source_content_sha256@,
            destination_rule_id: self.destination_rule_id@,
            imported_at: self.imported_at,
            imported_by: self.imported_by@,
        }
    }
}

pub open spec fn ledger_views(s: Seq<LedgerRow>) -> Seq<LedgerView> {
    s.map_values(|l: LedgerRow| l@)
}

// ------------------------------------------------------------------------- boards

/// A board whose rules may be transferred.
#[derive(Debug)]
pub struct TransferBoard {
    pub name: String,
    pub board_path: String,
}

pub open spec fn board_names(s: Seq<TransferBoard>) -> Seq<Seq<char>> {
    s.map_values(|b: TransferBoard| b.name@)
}

impl Registry {
    /// Why rules cannot be transferred for a board. `readable` holds the board
    /// paths that are readable files.
    pub open spec fn transfer_board_refusal(
        self,
        name: Seq<char>,
        readable: Seq<Seq<char>>,
    ) -> Option<Seq<char>> {
        let active = self.named_boards(name, false);
        let head = "cannot transfer rules for board "@ + name + ": "@;
        if active.len() == 0 {
            Some(head + "it is not registered in this registry"@)
        } else if active.len() > 1 {
            Some(
                head + text::decimal(active.len() as int) + " active boards share that name"@,
            )
        } else if !readable.contains(active[0].board_path@) {
            Some(head + active[0].board_path@ + " is not a readable board file"@)
        } else {
            None
        }
    }

    /// The refusal of the first of the requested boards that has one.
    pub open spec fn transfer_refusal(
        self,
        names: Seq<Seq<char>>,
        readable: Seq<Seq<char>>,
    ) -> Option<Seq<char>>
        decreases names.len(),
    {
        if names.len() == 0 {
            None
        } else {
            match self.transfer_refusal(names.drop_last(), readable) {
                Some(m) => Some(m),
                None => if names.drop_last().contains(names.last()) {
                    Some(
                        "board "@ + outside::debug_text(names.last())
                            + " was given more than once"@,
                    )
                } else {
                    self.transfer_board_refusal(names.last(), readable)
                },
            }
        }
    }

    fn check_transfer_board(&self, name: &str, readable: &[String]) -> (r: Result<(), Error>)
        ensures
            match self.transfer_board_refusal(name@, text::texts(readable@)) {
                Some(m) => text::refused(r, m),
                None => r is Ok,
            },
    {
        let active = self.boards_named(name, false);
        let head = "cannot transfer rules for board ".to_owned().concat(name).concat(": ");
        if active.len() == 0 {
            return text::refuse(head.concat("it is not registered in this registry"));
        }
        if active.len() > 1 {
            return text::refuse(
                head.concat(text::show_u64(active.len() as u64).as_str()).concat(
                    " active boards share that name",
                ),
            );
        }
        if !text::holds(readable, active[0].board_path.as_str()) {
            return text::refuse(
                head.concat(active[0].board_path.as_str()).concat(
                    " is not a readable board file",
                ),
            );
        }
        Ok(())
    }

    fn check_transfer(&self, names: &[String], readable: &[String]) -> (r: Result<(), Error>)
        ensures
            match self.transfer_refusal(text::texts(names@), text::texts(readable@)) {
                Some(m) => text::refused(r, m),
                None => r is Ok,
            },
    {
        let ghost all = text::texts(names@);
        let ghost files = text::texts(readable@);
        let mut seen: Vec<String> = Vec::new();
        let mut i: usize = 0;
        proof {
            assert(text::texts(seen@) =~= all.take(0));
        }
        while i < names.len()
            invariant
                i <= names@.len(),
                all == text::texts(names@),
                files == text::texts(readable@),
                text::texts(seen@) == all.take(i as int),
                self.transfer_refusal(all.take(i as int), files) is None,
            decreases names.len() - i,
        {
            proof {
                assert(all.take(i as int + 1).drop_last() =~= all.take(i as int));
                assert(all.take(i as int + 1).last() == names@[i as int]@);
                lemma_transfer_refusal_stays(*self, all, files, i as int + 1);
            }
            if text::holds(seen.as_slice(), names[i].as_str()) {
                return text::refuse(
                    "board ".to_owned().concat(outside::debug(names[i].as_str()).as_str()).concat(
                        " was given more than once",
                    ),
                );
            }
            match self.check_transfer_board(names[i].as_str(), readable) {
                Ok(_) => {},
                Err(e) => {
                    return Err(e);
                },
            }
            seen.push(names[i].clone());
            proof {
                assert(text::texts(seen@) =~= all.take(i as int + 1));
            }
            i = i + 1;
        }
        proof {
            assert(all.take(all.len() as int) =~= all);
        }
        Ok(())
    }

    /// What the boards of a transfer are.
    pub open spec fn are_transfer_boards(
        self,
        list: Seq<TransferBoard>,
        names: Seq<Seq<char>>,
    ) -> bool {
        &&& board_names(list) == ranking::sorted_texts(names)
        &&& forall|i: int|
            0 <= i < list.len() ==> {
                let active = self.named_boards((#[trigger] list[i]).name@, false);
                active.len() > 0 ==> list[i].board_path@ == active[0].board_path@
            }
    }

    /// The requested boards in order: each registered once, active and readable.
    pub fn transfer_rule_boards(&self, requested_boards: &[String], readable: &[String]) -> (r:
        Result<Vec<TransferBoard>, Error>)
        ensures
            match self.transfer_refusal(text::texts(requested_boards@), text::texts(readable@)) {
                Some(m) => text::refused(r, m),
                None => r is Ok && self.are_transfer_boards(
                    r->Ok_0@,
                    text::texts(requested_boards@),
                ),
            },
    {
        match self.check_transfer(requested_boards, readable) {
            Ok(_) => {},
            Err(e) => {
                return Err(e);
            },
        }
        let sorted = ranking::sort_texts(text::copy_list(requested_boards));
        let ghost names = text::texts(sorted@);
        let mut out: Vec<TransferBoard> = Vec::new();
        let mut i: usize = 0;
        proof {
            assert(board_names(out@) =~= names.take(0));
        }
        while i < sorted.len()
            invariant
                i <= sorted@.len(),
                names == text::texts(sorted@),
                board_names(out@) == names.take(i as int),
                forall|k: int|
                    0 <= k < out@.len() ==> {
                        let active = self.named_boards((#[trigger] out@[k]).name@, false);
                        active.len() > 0 ==> out@[k].board_path@ == active[0].board_path@
                    },
            decreases sorted.len() - i,
        {
            let ghost before = out@;
            let active = self.boards_named(sorted[i].as_str(), false);
            let board_path = if active.len() > 0 {
                active[0].board_path.clone()
            } else {
                String::new()
            };
            out.push(TransferBoard { name: sorted[i].clone(), board_path });
            proof {
                assert(board_names(out@) =~= board_names(before).push(sorted@[i as int]@));
                assert(names.take(i as int + 1) =~= names.take(i as int).push(names[i as int]));
            }
            i = i + 1;
        }
        proof {
            assert(names.take(names.len() as int) =~= names);
        }
        Ok(out)
    }

    /// Why the registry has no valid identity.
    pub open spec fn identity_refusal(self) -> Option<Seq<char>> {
        match self.registry_uuid {
            None => Some("registry_uuid metadata is missing"@),
            Some(value) => rules::uuid_refusal(value@),
        }
    }

    /// The identity of this registry.
    pub fn own_uuid(&self) -> (r: Result<String, Error>)
        ensures
            match self.identity_refusal() {
                Some(m) => text::refused(r, m),
                None => r is Ok && r->Ok_0@ == text::trimmed(self.registry_uuid->0@),
            },
    {
        match &self.registry_uuid {
            None => text::refuse("registry_uuid metadata is missing".to_owned()),
            Some(value) => match rules::validate_registry_uuid(value.as_str()) {
                Ok(uuid) => Ok(uuid.to_owned()),
                Err(e) => Err(e),
            },
        }
    }
}

proof fn lemma_transfer_refusal_stays(
    reg: Registry,
    names: Seq<Seq<char>>,
    readable: Seq<Seq<char>>,
    n: int,
)
    requires
        0 <= n <= names.len(),
    ensures
        reg.transfer_refusal(names.take(n), readable) is Some ==> reg.transfer_refusal(
            names,
            readable,
        ) == reg.transfer_refusal(names.take(n), readable),
    decreases names.len(),
{
    if n < names.len() {
        lemma_transfer_refusal_stays(reg, names.drop_last(), readable, n);
        assert(names.drop_last().take(n) =~= names.take(n));
    } else {
        assert(names.take(n) =~= names);
    }
}

// ------------------------------------------------------------------------ selectors

/// A rule with such a tag must not leave the registry.
pub open spec fn is_unbounded(tag: Seq<char>) -> bool {
    tag == "ALL"@ || "EXCEPT:"@.is_prefix_of(tag)
}

pub open spec fn has_unbounded(tags: Seq<Seq<char>>) -> bool {
    exists|i: int| 0 <= i < tags.len() && is_unbounded(#[trigger] tags[i])
}

/// The tag selects a board that is not allowed.
pub open spec fn reaches_out(allowed: Seq<Seq<char>>) -> spec_fn(Seq<char>) -> bool {
    |tag: Seq<char>|
        match text::stripped_prefix(tag, "ONLY:"@) {
            Some(board) => !allowed.contains(board),
            None => false,
        }
}

pub(crate) fn is_unbounded_rule(tags: &[String]) -> (r: bool)
    ensures
        r == has_unbounded(text::texts(tags@)),
{
    let ghost all = text::texts(tags@);
    let mut i: usize = 0;
    while i < tags.len()
        invariant
            i <= tags@.len(),
            all == text::texts(tags@),
            forall|k: int| 0 <= k < i ==> !is_unbounded(#[trigger] all[k]),
        decreases tags.len() - i,
    {
        if text::same(tags[i].as_str(), "ALL") || text::starts_with(tags[i].as_str(), "EXCEPT:") {
            proof {
                assert(is_unbounded(all[i as int]));
            }
            return true;
        }
        i = i + 1;
    }
    false
}

/// The first tag that selects a board that is not allowed.
pub(crate) fn reaching_tag(tags: &[String], allowed: &[String]) -> (r: Option<usize>)
    ensures
        ({
            let n = tables::first_index(text::texts(tags@), reaches_out(text::texts(allowed@)));
            match r {
                Some(i) => i == n && i < tags@.len(),
                None => n == tags@.len(),
            }
        }),
{
    let ghost all = text::texts(tags@);
    let ghost p = reaches_out(text::texts(allowed@));
    let mut i: usize = 0;
    while i < tags.len()
        invariant
            i <= tags@.len(),
            all == text::texts(tags@),
            p == reaches_out(text::texts(allowed@)),
            forall|k: int| 0 <= k < i ==> !p(#[trigger] all[k]),
        decreases tags.len() - i,
    {
        let out = match text::strip_prefix(tags[i].as_str(), "ONLY:") {
            Some(board) => !text::holds(allowed, board),
            None => false,
        };
        if out {
            proof {
                assert(p(all[i as int]));
                tables::lemma_first_index_is(all, p, i as int);
            }
            return Some(i);
        }
        i = i + 1;
    }
    proof {
        tables::lemma_first_index_is(all, p, i as int);
    }
    None
}

/// The board admits the rule.
pub open spec fn admits(tags: Seq<Seq<char>>) -> spec_fn(Seq<char>) -> bool {
    |board: Seq<char>| rules::selectors_apply(tags, Some(board))
}

fn admitting_board(tags: &[String], boards: &[String]) -> (r: Option<usize>)
    ensures
        ({
            let n = tables::first_index(text::texts(boards@), admits(text::texts(tags@)));
            match r {
                Some(i) => i == n && i < boards@.len(),
                None => n == boards@.len(),
            }
        }),
{
    let ghost all = text::texts(boards@);
    let ghost p = admits(text::texts(tags@));
    let mut i: usize = 0;
    while i < boards.len()
        invariant
            i <= boards@.len(),
            all == text::texts(boards@),
            p == admits(text::texts(tags@)),
            forall|k: int| 0 <= k < i ==> !p(#[trigger] all[k]),
        decreases boards.len() - i,
    {
        if rules::selector_tags_apply(tags, Some(boards[i].as_str())) {
            proof {
                assert(p(all[i as int]));
                tables::lemma_first_index_is(all, p, i as int);
            }
            return Some(i);
        }
        i = i + 1;
    }
    proof {
        tables::lemma_first_index_is(all, p, i as int);
    }
    None
}

// -------------------------------------------------------------------------- export

/// The identity that a rule goes out under.
pub open spec fn export_uuid(rule: RuleView, own: Seq<char>) -> Seq<char> {
    match rule.source_registry_uuid {
        Some(uuid) => uuid,
        None => own,
    }
}

pub open spec fn export_id(rule: RuleView) -> Seq<char> {
    match rule.source_rule_id {
        Some(id) => id,
        None => rule.id,
    }
}

pub open spec fn rule_print(rule: RuleView, uuid: Seq<char>, id: Seq<char>) -> Seq<char> {
    rules::fingerprint(
        uuid,
        id,
        rule.body,
        rule.author,
        rule.archived,
        rule.created_at,
        rule.updated_at,
        rule.tags,
    )
}

/// Why a rule must not leave, for the boards of a bundle.
pub open spec fn export_refusal(
    rule: RuleView,
    boards: Seq<Seq<char>>,
    own: Seq<char>,
) -> Option<Seq<char>> {
    let selected = tables::first_index(boards, admits(rule.tags));
    let uuid = export_uuid(rule, own);
    if rules::carries_secret(outside::lowercase(rule.body)) {
        Some("rule body contains secret material"@)
    } else if has_unbounded(rule.tags) {
        Some("rule "@ + rule.id + " has selectors outside the allowlisted board set"@)
    } else if tables::first_index(rule.tags, reaches_out(boards)) < rule.tags.len() {
        Some("rule "@ + rule.id + " reaches outside the requested board allowlist"@)
    } else if selected >= boards.len() {
        None
    } else if rules::uuid_refusal(uuid) is Some {
        rules::uuid_refusal(uuid)
    } else if rule.source_content_sha256 is Some && rule.source_content_sha256->0 != rule_print(
        rule,
        uuid,
        export_id(rule),
    ) {
        Some(
            "rule "@ + rule.id
                + " source content hash does not match its canonical fingerprint"@,
        )
    } else {
        None
    }
}

/// The item of a rule, where a board of the bundle admits it.
pub open spec fn export_item(
    rule: RuleView,
    boards: Seq<Seq<char>>,
    own: Seq<char>,
) -> Option<ItemView> {
    let selected = tables::first_index(boards, admits(rule.tags));
    if selected >= boards.len() {
        None
    } else {
        let uuid = export_uuid(rule, own);
        let id = export_id(rule);
        Some(
            ItemView {
                source_board: Some(boards[selected]),
                source_registry_uuid: uuid,
                source_rule_id: id,
                source_boards: boards,
                source_content_sha256: rule_print(rule, uuid, id),
                body: rule.body,
                author: rule.author,
                archived: rule.archived,
                created_at: rule.created_at,
                updated_at: rule.updated_at,
                tags: rule.tags,
            },
        )
    }
}

/// The items of the rules, or the refusal of the first that must not leave.
pub open spec fn export_items(
    all: Seq<RuleView>,
    boards: Seq<Seq<char>>,
    own: Seq<char>,
) -> Result<Seq<ItemView>, Seq<char>>
    decreases all.len(),
{
    if all.len() == 0 {
        Ok(seq![])
    } else {
        match export_items(all.drop_last(), boards, own) {
            Err(m) => Err(m),
            Ok(done) => match export_refusal(all.last(), boards, own) {
                Some(m) => Err(m),
                None => match export_item(all.last(), boards, own) {
                    Some(item) => Ok(done.push(item)),
                    None => Ok(done),
                },
            },
        }
    }
}

proof fn lemma_export_stays(all: Seq<RuleView>, boards: Seq<Seq<char>>, own: Seq<char>, n: int)
    requires
        0 <= n <= all.len(),
    ensures
        export_items(all.take(n), boards, own) is Err ==> export_items(all, boards, own)
            == export_items(all.take(n), boards, own),
    decreases all.len(),
{
    if n < all.len() {
        lemma_export_stays(all.drop_last(), boards, own, n);
        assert(all.drop_last().take(n) =~= all.take(n));
    } else {
        assert(all.take(n) =~= all);
    }
}

/// Items stand by board, then by rule, then by fingerprint; an item without a
/// board stands first.
impl Ranked for RuleTransferItem {
    open spec fn before(self, other: Self) -> bool {
        if text::text_of(self.source_board) != text::text_of(other.source_board) {
            match (text::text_of(self.source_board), text::text_of(other.source_board)) {
                (None, _) => true,
                (Some(_), None) => false,
                (Some(a), Some(b)) => text::text_less(a, b),
            }
        } else if self.source_rule_id@ != other.source_rule_id@ {
            text::text_less(self.source_rule_id@, other.source_rule_id@)
        } else {
            text::text_less(self.source_content_sha256@, other.source_content_sha256@)
        }
    }

    proof fn lemma_order(a: Self, b: Self, c: Self) {
        let x = text::text_of(a.source_board);
        let y = text::text_of(b.source_board);
        let z = text::text_of(c.source_board);
        if x is Some && y is Some {
            text::lemma_text_order(x->0, y->0, y->0);
            text::lemma_text_order(y->0, x->0, x->0);
            if z is Some {
                text::lemma_text_order(x->0, y->0, z->0);
                text::lemma_text_order(y->0, z->0, x->0);
                text::lemma_text_order(z->0, y->0, x->0);
                text::lemma_text_order(z->0, x->0, y->0);
                text::lemma_text_order(x->0, z->0, y->0);
            }
        }
        if x is Some && z is Some {
            text::lemma_text_order(x->0, z->0, z->0);
            text::lemma_text_order(z->0, x->0, x->0);
        }
        if y is Some && z is Some {
            text::lemma_text_order(y->0, z->0, z->0);
            text::lemma_text_order(z->0, y->0, y->0);
        }
        lemma_three(a.source_rule_id@, b.source_rule_id@, c.source_rule_id@);
        lemma_three(
            a.source_content_sha256@,
            b.source_content_sha256@,
            c.source_content_sha256@,
        );
    }

    fn is_before(&self, other: &Self) -> (r: bool) {
        if !text::same_option(&self.source_board, &other.source_board) {
            match (&self.source_board, &other.source_board) {
                (None, _) => true,
                (Some(_), None) => false,
                (Some(a), Some(b)) => text::less(a.as_str(), b.as_str()),
            }
        } else if !text::same(self.source_rule_id.as_str(), other.source_rule_id.as_str()) {
            text::less(self.source_rule_id.as_str(), other.source_rule_id.as_str())
        } else {
            text::less(
                self.source_content_sha256.as_str(),
                other.source_content_sha256.as_str(),
            )
        }
    }
}

proof fn lemma_three(a: Seq<char>, b: Seq<char>, c: Seq<char>)
    ensures
        !text::text_less(a, a),
        text::text_less(a, b) ==> !text::text_less(b, a),
        text::text_less(a, b) && text::text_less(b, c) ==> text::text_less(a, c),
        !text::text_less(a, b) && !text::text_less(b, c) ==> !text::text_less(a, c),
        !text::text_less(a, b) && !text::text_less(b, a) ==> a == b,
{
    text::lemma_text_order(a, b, c);
    text::lemma_text_order(b, c, a);
    text::lemma_text_order(c, b, a);
    text::lemma_text_order(c, a, b);
    text::lemma_text_order(a, c, b);
}

/// The item of one rule, or why it must not leave.
fn export_rule(rule: &Rule, boards: &[String], own: &str) -> (r: Result<
    Option<RuleTransferItem>,
    Error,
>)
    ensures
        match export_refusal(rule@, text::texts(boards@), own@) {
            Some(m) => text::refused(r, m),
            None => r is Ok && match export_item(rule@, text::texts(boards@), own@) {
                Some(item) => r->Ok_0 is Some && r->Ok_0->0@ == item,
                None => r->Ok_0 is None,
            },
        },
{
    let ghost view = rule@;
    match rules::deny_secret_material(rule.body.as_str()) {
        Ok(_) => {},
        Err(e) => {
            return Err(e);
        },
    }
    if is_unbounded_rule(rule.tags.as_slice()) {
        return text::refuse(
            "rule ".to_owned().concat(rule.id.as_str()).concat(
                " has selectors outside the allowlisted board set",
            ),
        );
    }
    if reaching_tag(rule.tags.as_slice(), boards).is_some() {
        return text::refuse(
            "rule ".to_owned().concat(rule.id.as_str()).concat(
                " reaches outside the requested board allowlist",
            ),
        );
    }
    let selected = match admitting_board(rule.tags.as_slice(), boards) {
        Some(i) => i,
        None => {
            return Ok(None);
        },
    };
    let uuid = match &rule.source_registry_uuid {
        Some(uuid) => uuid.clone(),
        None => own.to_owned(),
    };
    match rules::validate_registry_uuid(uuid.as_str()) {
        Ok(_) => {},
        Err(e) => {
            return Err(e);
        },
    }
    let id = match &rule.source_rule_id {
        Some(id) => id.clone(),
        None => rule.id.clone(),
    };
    let expected = rules::rule_fingerprint(
        uuid.as_str(),
        id.as_str(),
        rule.body.as_str(),
        rule.author.as_str(),
        rule.archived,
        rule.created_at,
        rule.updated_at,
        rule.tags.as_slice(),
    );
    if let Some(stored) = &rule.source_content_sha256 {
        if !text::same(stored.as_str(), expected.as_str()) {
            return text::refuse(
                "rule ".to_owned().concat(rule.id.as_str()).concat(
                    " source content hash does not match its canonical fingerprint",
                ),
            );
        }
    }
    Ok(
        Some(
            RuleTransferItem {
                source_board: Some(boards[selected].clone()),
                source_registry_uuid: uuid,
                source_rule_id: id,
                source_boards: text::copy_list(boards),
                source_content_sha256: expected,
                body: rule.body.clone(),
                author: rule.author.clone(),
                archived: rule.archived,
                created_at: rule.created_at,
                updated_at: rule.updated_at,
                tags: text::copy_list(rule.tags.as_slice()),
            },
        ),
    )
}

fn export_all(all: &[Rule], boards: &[String], own: &str) -> (r: Result<
    Vec<RuleTransferItem>,
    Error,
>)
    ensures
        match export_items(rulebook::rule_views(all@), text::texts(boards@), own@) {
            Err(m) => text::refused(r, m),
            Ok(items) => r is Ok && item_views(r->Ok_0@) == items,
        },
{
    let ghost views = rulebook::rule_views(all@);
    let ghost names = text::texts(boards@);
    let mut out: Vec<RuleTransferItem> = Vec::new();
    let mut i: usize = 0;
    proof {
        assert(views.take(0) =~= Seq::<RuleView>::empty());
        assert(item_views(out@) =~= seq![]);
    }
    while i < all.len()
        invariant
            i <= all@.len(),
            views == rulebook::rule_views(all@),
            names == text::texts(boards@),
            export_items(views.take(i as int), names, own@) == Ok::<Seq<ItemView>, Seq<char>>(
                item_views(out@),
            ),
        decreases all.len() - i,
    {
        proof {
            assert(views.take(i as int + 1).drop_last() =~= views.take(i as int));
            assert(views.take(i as int + 1).last() == all@[i as int]@);
            lemma_export_stays(views, names, own@, i as int + 1);
        }
        match export_rule(&all[i], boards, own) {
            Err(e) => {
                return Err(e);
            },
            Ok(None) => {},
            Ok(Some(item)) => {
                let ghost before = out@;
                out.push(item);
                proof {
                    assert(item_views(out@) =~= item_views(before).push(item@));
                }
            },
        }
        i = i + 1;
    }
    proof {
        assert(views.take(views.len() as int) =~= views);
    }
    Ok(out)
}

/// The texts of a list in `Debug` notation.
pub open spec fn debug_list(items: Seq<Seq<char>>) -> Seq<char> {
    "["@ + text::joined(items.map_values(|s: Seq<char>| outside::debug_text(s)), ", "@) + "]"@
}

pub(crate) fn show_debug_list(items: &[String]) -> (r: String)
    ensures
        r@ == debug_list(text::texts(items@)),
{
    let ghost wanted = text::texts(items@).map_values(|s: Seq<char>| outside::debug_text(s));
    let mut quoted: Vec<String> = Vec::new();
    let mut i: usize = 0;
    while i < items.len()
        invariant
            i <= items@.len(),
            wanted == text::texts(items@).map_values(|s: Seq<char>| outside::debug_text(s)),
            text::texts(quoted@) == wanted.take(i as int),
        decreases items.len() - i,
    {
        let ghost before = quoted@;
        let one = outside::debug(items[i].as_str());
        quoted.push(one);
        proof {
            assert(text::texts(quoted@) =~= text::texts(before).push(one@));
            assert(wanted.take(i as int + 1) =~= wanted.take(i as int).push(wanted[i as int]));
        }
        i = i + 1;
    }
    proof {
        assert(wanted.take(wanted.len() as int) =~= wanted);
    }
    "[".to_owned().concat(text::join(quoted.as_slice(), ", ").as_str()).concat("]")
}

impl Registry {
    /// Why nothing is exported at all.
    pub open spec fn bundle_out_refusal(
        self,
        actor: Seq<char>,
        requested: Seq<Seq<char>>,
        readable: Seq<Seq<char>>,
        audit: AuditReport,
    ) -> Option<Seq<char>> {
        if text::trimmed(actor).len() == 0 {
            Some("author is required"@)
        } else if self.transfer_refusal(requested, readable) is Some {
            self.transfer_refusal(requested, readable)
        } else if self.identity_refusal() is Some {
            self.identity_refusal()
        } else if !audit.healthy {
            Some(
                "source registry audit is unhealthy: "@ + debug_list(text::texts(audit.errors@)),
            )
        } else {
            None
        }
    }

    /// The active rules for the requested boards, as a bundle made at a given
    /// time, with the audit report of this registry.
    pub fn export_rules_at(
        &self,
        actor: &str,
        requested_boards: &[String],
        readable: &[String],
        audit: AuditReport,
        now: i64,
    ) -> (r: Result<RuleTransferBundle, Error>)
        ensures
            exported(
                *self,
                r,
                actor@,
                text::texts(requested_boards@),
                text::texts(readable@),
                audit,
                now,
            ),
    {
        let by = match rules::validate_rule_actor(actor) {
            Ok(by) => by,
            Err(e) => {
                return Err(e);
            },
        };
        let boards = match self.transfer_rule_boards(requested_boards, readable) {
            Ok(boards) => boards,
            Err(e) => {
                return Err(e);
            },
        };
        let own = match self.own_uuid() {
            Ok(own) => own,
            Err(e) => {
                return Err(e);
            },
        };
        if !audit.healthy {
            return text::refuse(
                "source registry audit is unhealthy: ".to_owned().concat(
                    show_debug_list(audit.errors.as_slice()).as_str(),
                ),
            );
        }
        let names = names_of(boards.as_slice());
        let all = self.rules(false);
        let items = match export_all(all.as_slice(), names.as_slice(), own.as_str()) {
            Ok(items) => items,
            Err(e) => {
                return Err(e);
            },
        };
        let sorted = ranking::sort_ranked(items);
        Ok(
            RuleTransferBundle {
                format_version: 1,
                exported_by: by.to_owned(),
                exported_at: now,
                source_registry_uuid: own,
                source_registry_audit: audit,
                source_boards: names,
                rules: sorted,
            },
        )
    }

    /// The active rules for the requested boards, as a bundle.
    pub fn export_rules(
        &self,
        actor: &str,
        requested_boards: &[String],
        readable: &[String],
        audit: AuditReport,
    ) -> (r: Result<RuleTransferBundle, Error>)
        ensures
            exists|now: i64|
                exported(
                    *self,
                    r,
                    actor@,
                    text::texts(requested_boards@),
                    text::texts(readable@),
                    audit,
                    now,
                ),
    {
        let now: i64 = clock::now_ms();
        self.export_rules_at(actor, requested_boards, readable, audit, now)
    }
}

pub(crate) fn names_of(boards: &[TransferBoard]) -> (r: Vec<String>)
    ensures
        text::texts(r@) == board_names(boards@),
{
    let ghost wanted = board_names(boards@);
    let mut out: Vec<String> = Vec::new();
    let mut i: usize = 0;
    while i < boards.len()
        invariant
            i <= boards@.len(),
            wanted == board_names(boards@),
            text::texts(out@) == wanted.take(i as int),
        decreases boards.len() - i,
    {
        let ghost before = out@;
        out.push(boards[i].name.clone());
        proof {
            assert(text::texts(out@) =~= text::texts(before).push(boards@[i as int].name@));
            assert(wanted.take(i as int + 1) =~= wanted.take(i as int).push(wanted[i as int]));
        }
        i = i + 1;
    }
    proof {
        assert(wanted.take(wanted.len() as int) =~= wanted);
    }
    out
}

/// What an export returns.
pub open spec fn exported(
    reg: Registry,
    r: Result<RuleTransferBundle, Error>,
    actor: Seq<char>,
    requested: Seq<Seq<char>>,
    readable: Seq<Seq<char>>,
    audit: AuditReport,
    now: i64,
) -> bool {
    let names = ranking::sorted_texts(requested);
    let own = text::trimmed(reg.registry_uuid->0@);
    match reg.bundle_out_refusal(actor, requested, readable, audit) {
        Some(m) => text::refused(r, m),
        None => match export_items(
            rulebook::rule_views(reg.listed_rules(false)),
            names,
            own,
        ) {
            Err(m) => text::refused(r, m),
            Ok(items) => {
                &&& r is Ok
                &&& r->Ok_0.format_version == 1
                &&& r->Ok_0.exported_by@ == text::trimmed(actor)
                &&& r->Ok_0.exported_at == now
                &&& r->Ok_0.source_registry_uuid@ == own
                &&& r->Ok_0.source_registry_audit == audit
                &&& text::texts(r->Ok_0.source_boards@) == names
                &&& exists|unsorted: Seq<RuleTransferItem>|
                    item_views(unsorted) == items && r->Ok_0.rules@ == #[trigger] ranking::ranked(
                        unsorted,
                    )
            },
        },
    }
}

} // verus!
