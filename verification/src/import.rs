//! Taking in a bundle of rules from another registry.

use vstd::prelude::*;

use crate::clock;
use crate::json;
use crate::ledger;
use crate::outside;
use crate::ranking;
use crate::rulebook;
use crate::rulebook::RuleView;
use crate::rules;
use crate::rules::Rule;
use crate::rules::RuleTransferBundle;
use crate::rules::RuleTransferItem;
use crate::rules::RuleTransferReport;
use crate::selectors;
use crate::tables;
use crate::tables::BoardRow;
use crate::tables::Entry;
use crate::tables::EntryView;
use crate::tables::LedgerRow;
use crate::tables::Registry;
use crate::text;
use crate::text::Error;
use crate::transfer;
use crate::transfer::ItemView;
use crate::transfer::LedgerView;

verus! {

/// Why an item of a bundle is refused.
pub open spec fn item_refusal(
    item: ItemView,
    uuid: Seq<char>,
    boards: Seq<Seq<char>>,
) -> Option<Seq<char>> {
    let head = "rule transfer bundle item "@ + item.source_rule_id;
    let reaching = tables::first_index(item.tags, transfer::reaches_out(boards));
    if rules::uuid_refusal(item.source_registry_uuid) is Some {
        rules::uuid_refusal(item.source_registry_uuid)
    } else if item.source_registry_uuid != uuid {
        Some(
            head + " claims source registry "@ + item.source_registry_uuid
                + " but the bundle sourceRegistryUuid is "@ + uuid,
        )
    } else if rules::carries_secret(outside::lowercase(item.body)) {
        Some("rule body contains secret material"@)
    } else if item.source_boards != boards {
        Some(head + " does not carry the full source board selector set"@)
    } else if item.source_board is None {
        Some("rule transfer bundle item is missing sourceBoard"@)
    } else if !boards.contains(item.source_board->0) {
        Some(
            "rule transfer bundle references board "@ + item.source_board->0
                + " that was not exported"@,
        )
    } else if !rules::selectors_apply(item.tags, item.source_board) {
        Some(head + " does not apply to source board "@ + item.source_board->0)
    } else if transfer::has_unbounded(item.tags) {
        Some(head + " contains forbidden selector tags"@)
    } else if reaching < item.tags.len() {
        Some(
            head + " selector "@ + item.tags[reaching]
                + " reaches outside the bundle sourceBoards allowlist ["@ + text::joined(
                boards,
                ", "@,
            ) + "]; re-export from the source registry with `rule export --board "@ + text::joined(
                boards.push(item.tags[reaching].skip("ONLY:"@.len() as int)),
                " --board "@,
            )
                + " --as ACTOR` naming every board the rule selects, or drop that selector from the source rule before exporting"@,
        )
    } else if item.source_content_sha256 != rules::fingerprint(
        item.source_registry_uuid,
        item.source_rule_id,
        item.body,
        item.author,
        item.archived,
        item.created_at,
        item.updated_at,
        item.tags,
    ) {
        Some(head + " has a content hash mismatch"@)
    } else if item.archived {
        Some(
            "rule transfer bundle contains archived rule "@ + item.source_rule_id + " from "@
                + item.source_board->0,
        )
    } else {
        None
    }
}

/// The refusal of the first item that has one.
pub open spec fn items_refusal(
    items: Seq<ItemView>,
    uuid: Seq<char>,
    boards: Seq<Seq<char>>,
) -> Option<Seq<char>>
    decreases items.len(),
{
    if items.len() == 0 {
        None
    } else {
        match items_refusal(items.drop_last(), uuid, boards) {
            Some(m) => Some(m),
            None => item_refusal(items.last(), uuid, boards),
        }
    }
}

proof fn lemma_items_refusal_stays(
    items: Seq<ItemView>,
    uuid: Seq<char>,
    boards: Seq<Seq<char>>,
    n: int,
)
    requires
        0 <= n <= items.len(),
    ensures
        items_refusal(items.take(n), uuid, boards) is Some ==> items_refusal(items, uuid, boards)
            == items_refusal(items.take(n), uuid, boards),
    decreases items.len(),
{
    if n < items.len() {
        lemma_items_refusal_stays(items.drop_last(), uuid, boards, n);
        assert(items.drop_last().take(n) =~= items.take(n));
    } else {
        assert(items.take(n) =~= items);
    }
}

/// Once no item is refused, each of them passes by itself.
proof fn lemma_items_pass(items: Seq<ItemView>, uuid: Seq<char>, boards: Seq<Seq<char>>, i: int)
    requires
        0 <= i < items.len(),
        items_refusal(items, uuid, boards) is None,
    ensures
        item_refusal(items[i], uuid, boards) is None,
    decreases items.len(),
{
    if i < items.len() - 1 {
        lemma_items_pass(items.drop_last(), uuid, boards, i);
    }
}

fn check_item(item: &RuleTransferItem, uuid: &str, boards: &[String]) -> (r: Result<(), Error>)
    ensures
        match item_refusal(item@, uuid@, text::texts(boards@)) {
            Some(m) => text::refused(r, m),
            None => r is Ok,
        },
{
    let ghost view = item@;
    let ghost names = text::texts(boards@);
    match rules::validate_registry_uuid(item.source_registry_uuid.as_str()) {
        Ok(_) => {},
        Err(e) => {
            return Err(e);
        },
    }
    let head = "rule transfer bundle item ".to_owned().concat(item.source_rule_id.as_str());
    if !text::same(item.source_registry_uuid.as_str(), uuid) {
        return text::refuse(
            head.concat(" claims source registry ").concat(
                item.source_registry_uuid.as_str(),
            ).concat(" but the bundle sourceRegistryUuid is ").concat(uuid),
        );
    }
    match rules::deny_secret_material(item.body.as_str()) {
        Ok(_) => {},
        Err(e) => {
            return Err(e);
        },
    }
    if !text::same_list(item.source_boards.as_slice(), boards) {
        return text::refuse(
            head.concat(" does not carry the full source board selector set"),
        );
    }
    let board = match &item.source_board {
        Some(board) => board.as_str(),
        None => {
            return text::refuse("rule transfer bundle item is missing sourceBoard".to_owned());
        },
    };
    if !text::holds(boards, board) {
        return text::refuse(
            "rule transfer bundle references board ".to_owned().concat(board).concat(
                " that was not exported",
            ),
        );
    }
    if !rules::selector_tags_apply(item.tags.as_slice(), Some(board)) {
        return text::refuse(head.concat(" does not apply to source board ").concat(board));
    }
    if transfer::is_unbounded_rule(item.tags.as_slice()) {
        return text::refuse(head.concat(" contains forbidden selector tags"));
    }
    if let Some(i) = transfer::reaching_tag(item.tags.as_slice(), boards) {
        let tag = item.tags[i].as_str();
        proof {
            assert(view.tags[i as int] == tag@);
        }
        let mut wanted = text::copy_list(boards);
        let ghost first = wanted@;
        let n: usize = tag.unicode_len();
        proof {
            tables::lemma_first_index(view.tags, transfer::reaches_out(names));
            assert("ONLY:"@.is_prefix_of(tag@));
            reveal_strlit("ONLY:");
            assert("ONLY:"@.len() == 5);
        }
        let beyond = tag.substring_char(5, n).to_owned();
        wanted.push(beyond);
        proof {
            assert(beyond@ =~= tag@.skip("ONLY:"@.len() as int));
            assert(text::texts(wanted@) =~= names.push(beyond@));
        }
        return text::refuse(
            head.concat(" selector ").concat(tag).concat(
                " reaches outside the bundle sourceBoards allowlist [",
            ).concat(text::join(boards, ", ").as_str()).concat(
                "]; re-export from the source registry with `rule export --board ",
            ).concat(text::join(wanted.as_slice(), " --board ").as_str()).concat(
                " --as ACTOR` naming every board the rule selects, or drop that selector from the source rule before exporting",
            ),
        );
    }
    let expected = rules::rule_fingerprint(
        item.source_registry_uuid.as_str(),
        item.source_rule_id.as_str(),
        item.body.as_str(),
        item.author.as_str(),
        item.archived,
        item.created_at,
        item.updated_at,
        item.tags.as_slice(),
    );
    if !text::same(item.source_content_sha256.as_str(), expected.as_str()) {
        return text::refuse(head.concat(" has a content hash mismatch"));
    }
    if item.archived {
        return text::refuse(
            "rule transfer bundle contains archived rule ".to_owned().concat(
                item.source_rule_id.as_str(),
            ).concat(" from ").concat(board),
        );
    }
    Ok(())
}

fn check_items(items: &[RuleTransferItem], uuid: &str, boards: &[String]) -> (r: Result<(), Error>)
    ensures
        match items_refusal(transfer::item_views(items@), uuid@, text::texts(boards@)) {
            Some(m) => text::refused(r, m),
            None => r is Ok,
        },
{
    let ghost views = transfer::item_views(items@);
    let ghost names = text::texts(boards@);
    let mut i: usize = 0;
    proof {
        assert(views.take(0) =~= Seq::<ItemView>::empty());
    }
    while i < items.len()
        invariant
            i <= items@.len(),
            views == transfer::item_views(items@),
            names == text::texts(boards@),
            items_refusal(views.take(i as int), uuid@, names) is None,
        decreases items.len() - i,
    {
        proof {
            assert(views.take(i as int + 1).drop_last() =~= views.take(i as int));
            assert(views.take(i as int + 1).last() == items@[i as int]@);
            lemma_items_refusal_stays(views, uuid@, names, i as int + 1);
        }
        match check_item(&items[i], uuid, boards) {
            Ok(_) => {},
            Err(e) => {
                return Err(e);
            },
        }
        i = i + 1;
    }
    proof {
        assert(views.take(views.len() as int) =~= views);
    }
    Ok(())
}

/// The rule, the ledger rows and the events that an import has staged so far.
pub struct Import {
    pub rules: Seq<RuleView>,
    pub ledger: Seq<LedgerView>,
    pub events: Seq<EntryView>,
    pub already: nat,
    pub seen: Seq<(Seq<char>, Seq<char>)>,
}

/// What an import works against.
pub struct ImportContext {
    pub boards: Seq<BoardRow>,
    pub rules: Seq<Rule>,
    pub ledger: Seq<LedgerRow>,
    pub verified: Seq<Seq<char>>,
    pub ids: Seq<Seq<char>>,
    pub actor: Seq<char>,
    pub audit_head: Seq<char>,
    pub exported_by: Seq<char>,
    pub exported_at: i64,
    pub now: i64,
}

pub open spec fn rule_from(uuid: Seq<char>, id: Seq<char>) -> spec_fn(Rule) -> bool {
    |r: Rule|
        text::text_of(r.source_registry_uuid) == Some(uuid) && text::text_of(r.source_rule_id)
            == Some(id)
}

pub open spec fn ledger_from(uuid: Seq<char>, id: Seq<char>) -> spec_fn(LedgerRow) -> bool {
    |l: LedgerRow| l.source_registry_uuid@ == uuid && l.source_rule_id@ == id
}

/// The rule is what the item would make of it.
pub open spec fn rule_matches(rule: RuleView, item: ItemView) -> bool {
    &&& rule.body == item.body
    &&& rule.author == item.author
    &&& rule.archived == item.archived
    &&& rule.created_at == item.created_at
    &&& rule.updated_at == item.updated_at
    &&& rule.tags == item.tags
    &&& rule.source_board == item.source_board
    &&& rule.source_registry_uuid == Some(item.source_registry_uuid)
    &&& rule.source_content_sha256 == Some(item.source_content_sha256)
    &&& item.source_boards == match rule.source_boards {
        Some(list) => list,
        None => seq![],
    }
}

/// The rule that an item becomes under a new id.
pub open spec fn imported_rule(item: ItemView, id: Seq<char>) -> RuleView {
    RuleView {
        id,
        body: item.body,
        author: item.author,
        archived: item.archived,
        created_at: item.created_at,
        updated_at: item.updated_at,
        tags: item.tags,
        source_board: item.source_board,
        source_rule_id: Some(item.source_rule_id),
        source_registry_uuid: Some(item.source_registry_uuid),
        source_boards: Some(item.source_boards),
        source_content_sha256: Some(item.source_content_sha256),
    }
}

pub open spec fn ledger_entry(item: ItemView, id: Seq<char>, c: ImportContext) -> LedgerView {
    LedgerView {
        source_registry_uuid: item.source_registry_uuid,
        source_rule_id: item.source_rule_id,
        source_content_sha256: item.source_content_sha256,
        destination_rule_id: id,
        imported_at: c.now,
        imported_by: c.actor,
    }
}

/// The payload that the import of an item is audited with.
pub open spec fn import_payload(item: ItemView, id: Seq<char>, c: ImportContext) -> Seq<char> {
    json::object(
        seq![
            json::member("exportedAt"@, text::decimal(c.exported_at as int)),
            json::member("exportedBy"@, outside::json_text(c.exported_by)),
            json::member("ruleID"@, outside::json_text(id)),
            json::member("sourceBoard"@, outside::json_text(item.source_registry_uuid)),
            json::member("sourceBoards"@, json::array(item.source_boards)),
            json::member("sourceContentSHA256"@, outside::json_text(item.source_content_sha256)),
            json::member("sourceRegistryAuditHead"@, outside::json_text(c.audit_head)),
            json::member("sourceRegistryUUID"@, outside::json_text(item.source_registry_uuid)),
            json::member("sourceRuleID"@, outside::json_text(item.source_rule_id)),
            json::member("tags"@, json::array(item.tags)),
        ],
    )
}

/// One more item of an import: refused, recognised, or staged as a new rule.
pub open spec fn import_item(st: Import, item: ItemView, c: ImportContext) -> Result<
    Import,
    Seq<char>,
> {
    let key = (item.source_registry_uuid, item.source_rule_id);
    let from = item.source_rule_id + " from registry "@ + item.source_registry_uuid;
    let existing = tables::first_index(c.rules, rule_from(key.0, key.1));
    let entry = tables::first_index(c.ledger, ledger_from(key.0, key.1));
    let seen = st.seen.push(key);
    if st.seen.contains(key) {
        Err("rule transfer bundle contains duplicate source rule "@ + from)
    } else if selectors::selectors_refusal(item.source_rule_id, item.tags, c.boards) is Some {
        Err(selectors::selectors_refusal(item.source_rule_id, item.tags, c.boards)->0)
    } else if !c.verified.contains(item.source_board->0) {
        Err(
            "cannot import rule "@ + item.source_rule_id + " from "@ + item.source_board->0
                + ": it is not registered in the destination registry"@,
        )
    } else if existing < c.rules.len() {
        if !rule_matches(c.rules[existing]@, item) {
            Err("destination already has source rule "@ + from + " with different content"@)
        } else if entry < c.ledger.len() {
            if c.ledger[entry].destination_rule_id@ != c.rules[existing].id@
                || c.ledger[entry].source_content_sha256@ != item.source_content_sha256 {
                Err(
                    "destination already has source rule "@ + from
                        + " with different ledger content"@,
                )
            } else {
                Ok(Import { already: st.already + 1, seen, ..st })
            }
        } else {
            Ok(
                Import {
                    already: st.already + 1,
                    ledger: st.ledger.push(ledger_entry(item, c.rules[existing].id@, c)),
                    seen,
                    ..st
                },
            )
        }
    } else {
        let id = c.ids[st.rules.len() as int];
        Ok(
            Import {
                rules: st.rules.push(imported_rule(item, id)),
                ledger: st.ledger.push(ledger_entry(item, id, c)),
                events: st.events.push(
                    EntryView {
                        subject: id,
                        kind: "rule_imported"@,
                        actor: c.actor,
                        payload: import_payload(item, id, c),
                        at: c.now,
                    },
                ),
                seen,
                ..st
            },
        )
    }
}

/// All items of an import, or the refusal of the first that has one.
pub open spec fn import_items(items: Seq<ItemView>, c: ImportContext) -> Result<Import, Seq<char>>
    decreases items.len(),
{
    if items.len() == 0 {
        Ok(
            Import {
                rules: seq![],
                ledger: seq![],
                events: seq![],
                already: 0,
                seen: seq![],
            },
        )
    } else {
        match import_items(items.drop_last(), c) {
            Err(m) => Err(m),
            Ok(st) => import_item(st, items.last(), c),
        }
    }
}

proof fn lemma_import_stays(items: Seq<ItemView>, c: ImportContext, n: int)
    requires
        0 <= n <= items.len(),
    ensures
        import_items(items.take(n), c) is Err ==> import_items(items, c) == import_items(
            items.take(n),
            c,
        ),
    decreases items.len(),
{
    if n < items.len() {
        lemma_import_stays(items.drop_last(), c, n);
        assert(items.drop_last().take(n) =~= items.take(n));
    } else {
        assert(items.take(n) =~= items);
    }
}

/// The ids are new to the registry and pairwise distinct.
pub open spec fn fresh_ids(ids: Seq<Seq<char>>, all: Seq<Rule>) -> bool {
    rulebook::are_free(ids, rulebook::rule_ids(all))
}

/// The staged part of an import.
/// No rule comes from the source rule of the item.
pub open spec fn is_new_to(rules: Seq<Rule>) -> spec_fn(ItemView) -> bool {
    |item: ItemView|
        tables::first_index(rules, rule_from(item.source_registry_uuid, item.source_rule_id))
            >= rules.len()
}

/// How many of the items become new rules, each with an id of its own.
pub open spec fn ids_needed(items: Seq<ItemView>, rules: Seq<Rule>) -> nat {
    tables::kept(items, is_new_to(rules)).len()
}

struct Staged {
    rules: Vec<Rule>,
    ledger: Vec<LedgerRow>,
    entries: Vec<Entry>,
    already: usize,
    uuids: Vec<String>,
    source_ids: Vec<String>,
}

impl Staged {
    spec fn shows(self, st: Import) -> bool {
        &&& rulebook::rule_views(self.rules@) == st.rules
        &&& transfer::ledger_views(self.ledger@) == st.ledger
        &&& tables::entry_views(self.entries@) == st.events
        &&& self.already == st.already
        &&& self.uuids@.len() == st.seen.len()
        &&& self.source_ids@.len() == st.seen.len()
        &&& forall|i: int|
            0 <= i < st.seen.len() ==> (#[trigger] st.seen[i]).0 == self.uuids@[i]@
                && st.seen[i].1 == self.source_ids@[i]@
    }

    fn has_seen(&self, uuid: &str, id: &str, Ghost(st): Ghost<Import>) -> (r: bool)
        requires
            self.shows(st),
        ensures
            r == st.seen.contains((uuid@, id@)),
    {
        let mut i: usize = 0;
        while i < self.uuids.len()
            invariant
                i <= self.uuids@.len(),
                self.shows(st),
                forall|k: int| 0 <= k < i ==> #[trigger] st.seen[k] != (uuid@, id@),
            decreases self.uuids.len() - i,
        {
            proof {
                assert(st.seen[i as int].0 == self.uuids@[i as int]@);
            }
            if text::same(self.uuids[i].as_str(), uuid) && text::same(
                self.source_ids[i].as_str(),
                id,
            ) {
                proof {
                    assert(st.seen[i as int] == (uuid@, id@));
                }
                return true;
            }
            i = i + 1;
        }
        false
    }
}

fn find_rule_from(all: &[Rule], uuid: &str, id: &str) -> (r: usize)
    ensures
        r == tables::first_index(all@, rule_from(uuid@, id@)),
        r <= all@.len(),
{
    let ghost p = rule_from(uuid@, id@);
    let mut i: usize = 0;
    while i < all.len()
        invariant
            i <= all@.len(),
            p == rule_from(uuid@, id@),
            forall|k: int| 0 <= k < i ==> !p(#[trigger] all@[k]),
        decreases all.len() - i,
    {
        let found = match (&all[i].source_registry_uuid, &all[i].source_rule_id) {
            (Some(a), Some(b)) => text::same(a.as_str(), uuid) && text::same(b.as_str(), id),
            _ => false,
        };
        if found {
            proof {
                assert(p(all@[i as int]));
                tables::lemma_first_index_is(all@, p, i as int);
            }
            return i;
        }
        i = i + 1;
    }
    proof {
        tables::lemma_first_index_is(all@, p, i as int);
    }
    i
}

fn find_ledger_from(all: &[LedgerRow], uuid: &str, id: &str) -> (r: usize)
    ensures
        r == tables::first_index(all@, ledger_from(uuid@, id@)),
        r <= all@.len(),
{
    let ghost p = ledger_from(uuid@, id@);
    let mut i: usize = 0;
    while i < all.len()
        invariant
            i <= all@.len(),
            p == ledger_from(uuid@, id@),
            forall|k: int| 0 <= k < i ==> !p(#[trigger] all@[k]),
        decreases all.len() - i,
    {
        if text::same(all[i].source_registry_uuid.as_str(), uuid) && text::same(
            all[i].source_rule_id.as_str(),
            id,
        ) {
            proof {
                assert(p(all@[i as int]));
                tables::lemma_first_index_is(all@, p, i as int);
            }
            return i;
        }
        i = i + 1;
    }
    proof {
        tables::lemma_first_index_is(all@, p, i as int);
    }
    i
}

fn is_match(rule: &Rule, item: &RuleTransferItem) -> (r: bool)
    ensures
        r == rule_matches(rule@, item@),
{
    let uuid = match &rule.source_registry_uuid {
        Some(uuid) => text::same(uuid.as_str(), item.source_registry_uuid.as_str()),
        None => false,
    };
    let sha = match &rule.source_content_sha256 {
        Some(sha) => text::same(sha.as_str(), item.source_content_sha256.as_str()),
        None => false,
    };
    let boards = match &rule.source_boards {
        Some(list) => text::same_list(list.as_slice(), item.source_boards.as_slice()),
        None => {
            proof {
                assert(item@.source_boards.len() == item.source_boards@.len());
                if item.source_boards@.len() == 0 {
                    assert(item@.source_boards =~= seq![]);
                }
            }
            item.source_boards.len() == 0
        },
    };
    text::same(rule.body.as_str(), item.body.as_str()) && text::same(
        rule.author.as_str(),
        item.author.as_str(),
    ) && rule.archived == item.archived && rule.created_at == item.created_at && rule.updated_at
        == item.updated_at && text::same_list(rule.tags.as_slice(), item.tags.as_slice())
        && text::same_option(&rule.source_board, &item.source_board) && uuid && sha && boards
}

/// What an import works against.
struct Destination<'a> {
    boards: &'a [BoardRow],
    rules: &'a [Rule],
    ledger: &'a [LedgerRow],
    verified: &'a [String],
    ids: &'a [String],
    actor: &'a str,
    audit_head: &'a str,
    exported_by: &'a str,
    exported_at: i64,
    now: i64,
}

impl<'a> Destination<'a> {
    spec fn context(self) -> ImportContext {
        ImportContext {
            boards: self.boards@,
            rules: self.rules@,
            ledger: self.ledger@,
            verified: text::texts(self.verified@),
            ids: text::texts(self.ids@),
            actor: self.actor@,
            audit_head: self.audit_head@,
            exported_by: self.exported_by@,
            exported_at: self.exported_at,
            now: self.now,
        }
    }

    fn payload(&self, item: &RuleTransferItem, id: &str) -> (r: String)
        ensures
            r@ == import_payload(item@, id@, self.context()),
    {
        let boards = json::write_array(item.source_boards.as_slice());
        let tags = json::write_array(item.tags.as_slice());
        let at = text::show_i64(self.exported_at);
        let members: Vec<String> = vec![
            json::write_member("exportedAt", at.as_str()),
            json::text_member("exportedBy", self.exported_by),
            json::text_member("ruleID", id),
            json::text_member("sourceBoard", item.source_registry_uuid.as_str()),
            json::write_member("sourceBoards", boards.as_str()),
            json::text_member("sourceContentSHA256", item.source_content_sha256.as_str()),
            json::text_member("sourceRegistryAuditHead", self.audit_head),
            json::text_member("sourceRegistryUUID", item.source_registry_uuid.as_str()),
            json::text_member("sourceRuleID", item.source_rule_id.as_str()),
            json::write_member("tags", tags.as_str()),
        ];
        proof {
            let v = item@;
            assert(text::texts(members@) =~= seq![
                json::member("exportedAt"@, text::decimal(self.exported_at as int)),
                json::member("exportedBy"@, outside::json_text(self.exported_by@)),
                json::member("ruleID"@, outside::json_text(id@)),
                json::member("sourceBoard"@, outside::json_text(v.source_registry_uuid)),
                json::member("sourceBoards"@, json::array(v.source_boards)),
                json::member(
                    "sourceContentSHA256"@,
                    outside::json_text(v.source_content_sha256),
                ),
                json::member("sourceRegistryAuditHead"@, outside::json_text(self.audit_head@)),
                json::member("sourceRegistryUUID"@, outside::json_text(v.source_registry_uuid)),
                json::member("sourceRuleID"@, outside::json_text(v.source_rule_id)),
                json::member("tags"@, json::array(v.tags)),
            ]);
        }
        json::write_object(members.as_slice())
    }

    fn ledger_row(&self, item: &RuleTransferItem, id: &str) -> (r: LedgerRow)
        ensures
            r@ == ledger_entry(item@, id@, self.context()),
    {
        LedgerRow {
            source_registry_uuid: item.source_registry_uuid.clone(),
            source_rule_id: item.source_rule_id.clone(),
            source_content_sha256: item.source_content_sha256.clone(),
            destination_rule_id: id.to_owned(),
            imported_at: self.now,
            imported_by: self.actor.to_owned(),
        }
    }

    fn new_rule(&self, item: &RuleTransferItem, id: &str) -> (r: Rule)
        ensures
            r@ == imported_rule(item@, id@),
    {
        Rule {
            id: id.to_owned(),
            body: item.body.clone(),
            author: item.author.clone(),
            archived: item.archived,
            created_at: item.created_at,
            updated_at: item.updated_at,
            tags: text::copy_list(item.tags.as_slice()),
            source_board: item.source_board.clone(),
            source_rule_id: Some(item.source_rule_id.clone()),
            source_registry_uuid: Some(item.source_registry_uuid.clone()),
            source_boards: Some(text::copy_list(item.source_boards.as_slice())),
            source_content_sha256: Some(item.source_content_sha256.clone()),
        }
    }
}

impl Staged {
    fn see(&mut self, item: &RuleTransferItem, Ghost(st): Ghost<Import>)
        requires
            old(self).shows(st),
        ensures
            final(self).shows(
                Import {
                    seen: st.seen.push((item@.source_registry_uuid, item@.source_rule_id)),
                    ..st
                },
            ),
    {
        self.uuids.push(item.source_registry_uuid.clone());
        self.source_ids.push(item.source_rule_id.clone());
    }

    fn record(&mut self, row: LedgerRow, Ghost(st): Ghost<Import>)
        requires
            old(self).shows(st),
        ensures
            final(self).shows(Import { ledger: st.ledger.push(row@), ..st }),
    {
        self.ledger.push(row);
        proof {
            assert(transfer::ledger_views(self.ledger@) =~= st.ledger.push(row@));
        }
    }

    fn add(&mut self, rule: Rule, entry: Entry, Ghost(st): Ghost<Import>)
        requires
            old(self).shows(st),
        ensures
            final(self).shows(
                Import {
                    rules: st.rules.push(rule@),
                    events: st.events.push(entry@),
                    ..st
                },
            ),
    {
        self.entries.push(entry);
        self.rules.push(rule);
        proof {
            assert(tables::entry_views(self.entries@) =~= st.events.push(entry@));
            assert(rulebook::rule_views(self.rules@) =~= st.rules.push(rule@));
        }
    }

    /// Stage one item.
    fn stage(&mut self, item: &RuleTransferItem, to: &Destination, Ghost(st): Ghost<Import>) -> (r:
        Result<(), Error>)
        requires
            old(self).shows(st),
            is_new_to(to.rules@)(item@) ==> st.rules.len() < to.ids@.len(),
            st.already < usize::MAX,
            item@.source_board is Some,
        ensures
            match import_item(st, item@, to.context()) {
                Err(m) => text::refused(r, m),
                Ok(next) => r is Ok && final(self).shows(next),
            },
    {
        let ghost c = to.context();
        let ghost v = item@;
        let uuid = item.source_registry_uuid.as_str();
        let id = item.source_rule_id.as_str();
        let from = id.to_owned().concat(" from registry ").concat(uuid);
        if self.has_seen(uuid, id, Ghost(st)) {
            return text::refuse(
                "rule transfer bundle contains duplicate source rule ".to_owned().concat(
                    from.as_str(),
                ),
            );
        }
        match selectors::validate_active_rule_selectors(to.boards, id, item.tags.as_slice()) {
            Ok(_) => {},
            Err(e) => {
                return Err(e);
            },
        }
        let board = match &item.source_board {
            Some(board) => board.as_str(),
            None => {
                return text::refuse("".to_owned());
            },
        };
        if !text::holds(to.verified, board) {
            return text::refuse(
                "cannot import rule ".to_owned().concat(id).concat(" from ").concat(board).concat(
                    ": it is not registered in the destination registry",
                ),
            );
        }
        self.see(item, Ghost(st));
        let ghost seen = Import {
            seen: st.seen.push((v.source_registry_uuid, v.source_rule_id)),
            ..st
        };
        let existing: usize = find_rule_from(to.rules, uuid, id);
        if existing < to.rules.len() {
            let head = "destination already has source rule ".to_owned().concat(from.as_str());
            if !is_match(&to.rules[existing], item) {
                return text::refuse(head.concat(" with different content"));
            }
            let entry: usize = find_ledger_from(to.ledger, uuid, id);
            if entry < to.ledger.len() {
                if !text::same(
                    to.ledger[entry].destination_rule_id.as_str(),
                    to.rules[existing].id.as_str(),
                ) || !text::same(
                    to.ledger[entry].source_content_sha256.as_str(),
                    item.source_content_sha256.as_str(),
                ) {
                    return text::refuse(head.concat(" with different ledger content"));
                }
                self.already = self.already + 1;
                return Ok(());
            }
            let row = to.ledger_row(item, to.rules[existing].id.as_str());
            self.record(row, Ghost(seen));
            self.already = self.already + 1;
            return Ok(());
        }
        let k: usize = self.rules.len();
        proof {
            assert(k == st.rules.len());
            assert(c.ids[k as int] == to.ids@[k as int]@);
        }
        let new_id = to.ids[k].as_str();
        let row = to.ledger_row(item, new_id);
        let entry = Entry {
            subject: new_id.to_owned(),
            kind: "rule_imported".to_owned(),
            actor: to.actor.to_owned(),
            payload: to.payload(item, new_id),
            at: to.now,
        };
        let rule = to.new_rule(item, new_id);
        self.record(row, Ghost(seen));
        self.add(rule, entry, Ghost(Import { ledger: seen.ledger.push(row@), ..seen }));
        Ok(())
    }
}

/// An import stages a rule for each new item.
pub(crate) proof fn lemma_import_bounds(items: Seq<ItemView>, c: ImportContext)
    ensures
        import_items(items, c) matches Ok(st) ==> {
            &&& st.rules.len() == ids_needed(items, c.rules)
            &&& st.rules.len() + st.already == items.len()
            &&& st.events.len() == st.rules.len()
            &&& st.seen.len() == items.len()
        },
    decreases items.len(),
{
    if items.len() > 0 {
        lemma_import_bounds(items.drop_last(), c);
    }
}

proof fn lemma_needed_grows(items: Seq<ItemView>, rules: Seq<Rule>, n: int)
    requires
        0 <= n <= items.len(),
    ensures
        ids_needed(items.take(n), rules) <= ids_needed(items, rules),
    decreases items.len(),
{
    if n < items.len() {
        lemma_needed_grows(items.drop_last(), rules, n);
        assert(items.drop_last().take(n) =~= items.take(n));
    } else {
        assert(items.take(n) =~= items);
    }
}

/// How many of the items become new rules.
fn count_new(items: &[RuleTransferItem], rules: &[Rule]) -> (r: usize)
    ensures
        r == ids_needed(transfer::item_views(items@), rules@),
{
    let ghost views = transfer::item_views(items@);
    let mut count: usize = 0;
    let mut i: usize = 0;
    proof {
        assert(views.take(0) =~= Seq::<ItemView>::empty());
    }
    while i < items.len()
        invariant
            count <= i <= items@.len(),
            views == transfer::item_views(items@),
            count == ids_needed(views.take(i as int), rules@),
        decreases items.len() - i,
    {
        proof {
            tables::lemma_kept_step(views, is_new_to(rules@), i as int);
            assert(views[i as int] == items@[i as int]@);
        }
        if find_rule_from(
            rules,
            items[i].source_registry_uuid.as_str(),
            items[i].source_rule_id.as_str(),
        ) >= rules.len() {
            count = count + 1;
        }
        i = i + 1;
    }
    proof {
        assert(views.take(views.len() as int) =~= views);
    }
    count
}

fn stage_all(items: &[RuleTransferItem], to: &Destination) -> (r: Result<Staged, Error>)
    requires
        to.ids@.len() >= ids_needed(transfer::item_views(items@), to.rules@),
        forall|i: int| 0 <= i < items@.len() ==> (#[trigger] items@[i])@.source_board is Some,
    ensures
        match import_items(transfer::item_views(items@), to.context()) {
            Err(m) => text::refused(r, m),
            Ok(st) => r is Ok && r->Ok_0.shows(st),
        },
{
    let ghost views = transfer::item_views(items@);
    let ghost c = to.context();
    let mut staged = Staged {
        rules: Vec::new(),
        ledger: Vec::new(),
        entries: Vec::new(),
        already: 0,
        uuids: Vec::new(),
        source_ids: Vec::new(),
    };
    let ghost mut st = Import {
        rules: seq![],
        ledger: seq![],
        events: seq![],
        already: 0,
        seen: seq![],
    };
    let mut i: usize = 0;
    proof {
        assert(views.take(0) =~= Seq::<ItemView>::empty());
        assert(rulebook::rule_views(staged.rules@) =~= seq![]);
        assert(transfer::ledger_views(staged.ledger@) =~= seq![]);
        assert(tables::entry_views(staged.entries@) =~= seq![]);
    }
    while i < items.len()
        invariant
            i <= items@.len(),
            to.ids@.len() >= ids_needed(views, to.rules@),
            forall|k: int| 0 <= k < items@.len() ==> (#[trigger] items@[k])@.source_board is Some,
            views == transfer::item_views(items@),
            c == to.context(),
            import_items(views.take(i as int), c) == Ok::<Import, Seq<char>>(st),
            staged.shows(st),
        decreases items.len() - i,
    {
        proof {
            assert(views.take(i as int + 1).drop_last() =~= views.take(i as int));
            assert(views.take(i as int + 1).last() == items@[i as int]@);
            lemma_import_bounds(views.take(i as int), c);
            lemma_import_stays(views, c, i as int + 1);
            lemma_needed_grows(views, to.rules@, i as int + 1);
            tables::lemma_kept_step(views, is_new_to(to.rules@), i as int);
        }
        match staged.stage(&items[i], to, Ghost(st)) {
            Ok(_) => {},
            Err(e) => {
                return Err(e);
            },
        }
        proof {
            st = import_item(st, items@[i as int]@, c)->Ok_0;
        }
        i = i + 1;
    }
    proof {
        assert(views.take(views.len() as int) =~= views);
    }
    Ok(staged)
}

impl Registry {
    /// Why a bundle is refused before any of its rules is taken in.
    pub open spec fn bundle_refusal(
        self,
        actor: Seq<char>,
        bundle: RuleTransferBundle,
        readable: Seq<Seq<char>>,
    ) -> Option<Seq<char>> {
        let boards = text::texts(bundle.source_boards@);
        if text::trimmed(actor).len() == 0 {
            Some("author is required"@)
        } else if bundle.format_version != 1 {
            Some(
                "rule transfer bundle version "@ + text::decimal(bundle.format_version as int)
                    + " is not supported"@,
            )
        } else if text::trimmed(bundle.exported_by@).len() == 0 {
            Some("rule transfer bundle is missing exportedBy"@)
        } else if rules::uuid_refusal(bundle.source_registry_uuid@) is Some {
            rules::uuid_refusal(bundle.source_registry_uuid@)
        } else if !bundle.source_registry_audit.healthy {
            Some(
                "rule transfer bundle source registry audit is unhealthy: "@ + transfer::debug_list(
                    text::texts(bundle.source_registry_audit.errors@),
                ),
            )
        } else if rules::source_boards_refusal(boards) is Some {
            rules::source_boards_refusal(boards)
        } else if self.transfer_refusal(boards, readable) is Some {
            self.transfer_refusal(boards, readable)
        } else {
            items_refusal(
                transfer::item_views(bundle.rules@),
                bundle.source_registry_uuid@,
                boards,
            )
        }
    }

    /// What an import of the bundle works against.
    pub open spec fn import_context(
        self,
        actor: Seq<char>,
        bundle: RuleTransferBundle,
        ids: Seq<Seq<char>>,
        now: i64,
    ) -> ImportContext {
        ImportContext {
            boards: self.boards@,
            rules: self.rules@,
            ledger: self.ledger@,
            verified: ranking::sorted_texts(text::texts(bundle.source_boards@)),
            ids,
            actor: text::trimmed(actor),
            audit_head: bundle.source_registry_audit.head@,
            exported_by: bundle.exported_by@,
            exported_at: bundle.exported_at,
            now,
        }
    }

    fn check_bundle(&self, actor: &str, bundle: &RuleTransferBundle, readable: &[String]) -> (r:
        Result<Vec<String>, Error>)
        ensures
            match self.bundle_refusal(actor@, *bundle, text::texts(readable@)) {
                Some(m) => text::refused(r, m),
                None => r is Ok && text::texts(r->Ok_0@) == ranking::sorted_texts(
                    text::texts(bundle.source_boards@),
                ),
            },
    {
        match rules::validate_rule_actor(actor) {
            Ok(_) => {},
            Err(e) => {
                return Err(e);
            },
        }
        if bundle.format_version != 1 {
            return text::refuse(
                "rule transfer bundle version ".to_owned().concat(
                    text::show_u64(bundle.format_version as u64).as_str(),
                ).concat(" is not supported"),
            );
        }
        if text::trim(bundle.exported_by.as_str()).unicode_len() == 0 {
            return text::refuse("rule transfer bundle is missing exportedBy".to_owned());
        }
        match rules::validate_registry_uuid(bundle.source_registry_uuid.as_str()) {
            Ok(_) => {},
            Err(e) => {
                return Err(e);
            },
        }
        if !bundle.source_registry_audit.healthy {
            return text::refuse(
                "rule transfer bundle source registry audit is unhealthy: ".to_owned().concat(
                    transfer::show_debug_list(
                        bundle.source_registry_audit.errors.as_slice(),
                    ).as_str(),
                ),
            );
        }
        let boards = match rules::sorted_unique_boards(bundle.source_boards.as_slice()) {
            Ok(boards) => boards,
            Err(e) => {
                return Err(e);
            },
        };
        let verified = match self.transfer_rule_boards(boards.as_slice(), readable) {
            Ok(verified) => verified,
            Err(e) => {
                return Err(e);
            },
        };
        match check_items(
            bundle.rules.as_slice(),
            bundle.source_registry_uuid.as_str(),
            boards.as_slice(),
        ) {
            Ok(_) => {},
            Err(e) => {
                return Err(e);
            },
        }
        Ok(transfer::names_of(verified.as_slice()))
    }

    /// Take in a bundle under given ids at a given time: all of it or nothing.
    pub fn import_rules_as(
        &mut self,
        actor: &str,
        bundle: RuleTransferBundle,
        readable: &[String],
        ids: &[String],
        now: i64,
    ) -> (r: Result<RuleTransferReport, Error>)
        requires
            ids@.len() >= ids_needed(transfer::item_views(bundle.rules@), old(self).rules@),
            fresh_ids(text::texts(ids@), old(self).rules@),
        ensures
            rules_imported(
                *old(self),
                *final(self),
                r,
                actor@,
                bundle,
                text::texts(readable@),
                text::texts(ids@),
                now,
            ),
            old(self).wf() ==> final(self).wf(),
    {
        let ghost pre = *self;
        let verified = match self.check_bundle(actor, &bundle, readable) {
            Ok(verified) => verified,
            Err(e) => {
                return Err(e);
            },
        };
        let ghost c = pre.import_context(actor@, bundle, text::texts(ids@), now);
        let ghost views = transfer::item_views(bundle.rules@);
        let by = text::trim(actor);
        let to = Destination {
            boards: self.boards.as_slice(),
            rules: self.rules.as_slice(),
            ledger: self.ledger.as_slice(),
            verified: verified.as_slice(),
            ids,
            actor: by,
            audit_head: bundle.source_registry_audit.head.as_str(),
            exported_by: bundle.exported_by.as_str(),
            exported_at: bundle.exported_at,
            now,
        };
        proof {
            assert(to.context() == c);
            assert forall|i: int| 0 <= i < bundle.rules@.len() implies (
            #[trigger] bundle.rules@[i])@.source_board is Some by {
                lemma_items_pass(
                    views,
                    bundle.source_registry_uuid@,
                    text::texts(bundle.source_boards@),
                    i,
                );
                assert(views[i] == bundle.rules@[i]@);
            }
        }
        let staged = match stage_all(bundle.rules.as_slice(), &to) {
            Ok(staged) => staged,
            Err(e) => {
                return Err(e);
            },
        };
        let ghost st = import_items(views, c)->Ok_0;
        proof {
            lemma_import_bounds(views, c);
        }
        let Staged { rules: new_rules, ledger: new_ledger, entries, already, .. } =
            staged;
        let imported: usize = new_rules.len();
        let mut new_rules = new_rules;
        let mut new_ledger = new_ledger;
        let ghost added = new_rules@;
        let ghost recorded = new_ledger@;
        self.rules.append(&mut new_rules);
        self.ledger.append(&mut new_ledger);
        tables::append_all(&mut self.events, entries.as_slice());
        proof {
            assert(self.rules@.take(pre.rules@.len() as int) =~= pre.rules@);
            assert(self.rules@.skip(pre.rules@.len() as int) =~= added);
            assert(self.ledger@.take(pre.ledger@.len() as int) =~= pre.ledger@);
            assert(self.ledger@.skip(pre.ledger@.len() as int) =~= recorded);
            ranking::law_sorted_texts(text::texts(bundle.source_boards@));
            assert(text::texts(verified@).len() == verified@.len());
            lemma_imported_ids(views, c);
            ledger::lemma_import_backed(pre, *self, views, c);
            lemma_imported_wf(pre, *self, st, text::texts(ids@));
        }
        Ok(
            RuleTransferReport {
                imported_rules: imported,
                already_imported_rules: already,
                destination_boards_verified: verified.len(),
                source_registry_uuid: bundle.source_registry_uuid,
                source_registry_audit_head: bundle.source_registry_audit.head,
            },
        )
    }

    /// Take in a bundle: all of it or nothing. The ids of its new rules are drawn.
    pub fn import_rules(
        &mut self,
        actor: &str,
        bundle: RuleTransferBundle,
        readable: &[String],
    ) -> (r: Result<RuleTransferReport, Error>)
        ensures
            rules_drawn(*old(self), *final(self), r, actor@, bundle, text::texts(readable@)),
            old(self).wf() ==> final(self).wf(),
    {
        if let Err(e) = self.check_bundle(actor, &bundle, readable) {
            return Err(e);
        }
        let needed: usize = count_new(bundle.rules.as_slice(), self.rules.as_slice());
        let taken = rulebook::ids_of(self.rules.as_slice());
        proof {
            assert(text::texts(taken@).len() == self.rules@.len());
        }
        let ids = match rulebook::draw_rule_ids(taken.as_slice(), needed) {
            Some(ids) => ids,
            None => {
                return text::refuse("no free rule id".to_owned());
            },
        };
        let now: i64 = clock::now_ms();
        let ghost pre = *self;
        let r = self.import_rules_as(actor, bundle, readable, ids.as_slice(), now);
        proof {
            assert(text::texts(ids@).len() == needed);
            assert(rules_imported(
                pre,
                *self,
                r,
                actor@,
                bundle,
                text::texts(readable@),
                text::texts(ids@),
                now,
            ));
        }
        r
    }
}

/// The staged rules have the given ids, in order.
proof fn lemma_imported_ids(items: Seq<ItemView>, c: ImportContext)
    ensures
        import_items(items, c) matches Ok(st) ==> forall|i: int|
            0 <= i < st.rules.len() ==> (#[trigger] st.rules[i]).id == c.ids[i],
    decreases items.len(),
{
    if items.len() > 0 {
        lemma_imported_ids(items.drop_last(), c);
    }
}

proof fn lemma_imported_wf(pre: Registry, post: Registry, st: Import, ids: Seq<Seq<char>>)
    requires
        fresh_ids(ids, pre.rules@),
        st.rules.len() <= ids.len(),
        forall|i: int| 0 <= i < st.rules.len() ==> (#[trigger] st.rules[i]).id == ids[i],
        post == (Registry {
            rules: post.rules,
            ledger: post.ledger,
            events: post.events,
            ..pre
        }),
        post.rules@.take(pre.rules@.len() as int) == pre.rules@,
        rulebook::rule_views(post.rules@.skip(pre.rules@.len() as int)) == st.rules,
        post.rules@.len() == pre.rules@.len() + st.rules.len(),
        ledger::keeps_ledger(pre, post),
    ensures
        pre.wf() ==> post.wf(),
{
    let n = pre.rules@.len() as int;
    let added = post.rules@.skip(n);
    assert forall|i: int, j: int| pre.wf() && 0 <= i < j < post.rules@.len() implies (
    #[trigger] post.rules@[i]).id@ != (#[trigger] post.rules@[j]).id@ by {
        if j < n {
            assert(post.rules@.take(n)[i] == post.rules@[i]);
            assert(post.rules@.take(n)[j] == post.rules@[j]);
        } else {
            assert(added[j - n] == post.rules@[j]);
            assert(st.rules[j - n] == added[j - n]@);
            assert(post.rules@[j].id@ == ids[j - n]);
            if i < n {
                assert(post.rules@.take(n)[i] == post.rules@[i]);
                assert(rulebook::rule_ids(pre.rules@)[i] == pre.rules@[i].id@);
                assert(rulebook::rule_ids(pre.rules@).contains(pre.rules@[i].id@));
            } else {
                assert(added[i - n] == post.rules@[i]);
                assert(st.rules[i - n] == added[i - n]@);
                assert(ids[i - n] != ids[j - n]);
            }
        }
    }
}

/// What an import that draws its ids returns and changes: it is refused, or new rules
/// get drawn ids, which there are unless too many are taken.
pub open spec fn rules_drawn(
    pre: Registry,
    post: Registry,
    r: Result<RuleTransferReport, Error>,
    actor: Seq<char>,
    bundle: RuleTransferBundle,
    readable: Seq<Seq<char>>,
) -> bool {
    let needed = ids_needed(transfer::item_views(bundle.rules@), pre.rules@);
    match pre.bundle_refusal(actor, bundle, readable) {
        Some(m) => post == pre && text::refused(r, m),
        None => if rulebook::is_exhausted(pre.rules@.len(), needed) {
            post == pre && text::refused(r, "no free rule id"@)
        } else {
            exists|ids: Seq<Seq<char>>, now: i64|
                {
                    &&& ids.len() == needed
                    &&& fresh_ids(ids, pre.rules@)
                    &&& forall|i: int|
                        0 <= i < ids.len() ==> rulebook::is_rule_id(#[trigger] ids[i])
                    &&& #[trigger] rules_imported(
                        pre,
                        post,
                        r,
                        actor,
                        bundle,
                        readable,
                        ids,
                        now,
                    )
                }
        },
    }
}

/// What an import returns and changes.
pub open spec fn rules_imported(
    pre: Registry,
    post: Registry,
    r: Result<RuleTransferReport, Error>,
    actor: Seq<char>,
    bundle: RuleTransferBundle,
    readable: Seq<Seq<char>>,
    ids: Seq<Seq<char>>,
    now: i64,
) -> bool {
    match pre.bundle_refusal(actor, bundle, readable) {
        Some(m) => post == pre && text::refused(r, m),
        None => match import_items(
            transfer::item_views(bundle.rules@),
            pre.import_context(actor, bundle, ids, now),
        ) {
            Err(m) => post == pre && text::refused(r, m),
            Ok(st) => {
                &&& post == Registry {
                    rules: post.rules,
                    ledger: post.ledger,
                    events: post.events,
                    ..pre
                }
                &&& post.rules@.len() == pre.rules@.len() + st.rules.len()
                &&& post.rules@.take(pre.rules@.len() as int) == pre.rules@
                &&& rulebook::rule_views(post.rules@.skip(pre.rules@.len() as int)) == st.rules
                &&& post.ledger@.len() == pre.ledger@.len() + st.ledger.len()
                &&& post.ledger@.take(pre.ledger@.len() as int) == pre.ledger@
                &&& transfer::ledger_views(post.ledger@.skip(pre.ledger@.len() as int))
                    == st.ledger
                &&& tables::all_audited(pre.events@, post.events@, st.events)
                &&& r is Ok
                &&& r->Ok_0.imported_rules == st.rules.len()
                &&& r->Ok_0.already_imported_rules == st.already
                &&& r->Ok_0.destination_boards_verified == bundle.source_boards@.len()
                &&& r->Ok_0.source_registry_uuid@ == bundle.source_registry_uuid@
                &&& r->Ok_0.source_registry_audit_head@ == bundle.source_registry_audit.head@
            },
        },
    }
}

} // verus!
