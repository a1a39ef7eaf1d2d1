//! What holds of one import after another.

use vstd::prelude::*;

use crate::import;
use crate::import::Import;
use crate::import::ImportContext;
use crate::ranking;
use crate::rulebook;
use crate::rulebook::RuleView;
use crate::rules;
use crate::rules::AuditReport;
use crate::rules::Rule;
use crate::rules::RuleTransferBundle;
use crate::rules::RuleTransferItem;
use crate::rules::RuleTransferReport;
use crate::tables;
use crate::tables::LedgerRow;
use crate::tables::Registry;
use crate::text;
use crate::text::Error;
use crate::transfer;
use crate::transfer::ItemView;
use crate::transfer::LedgerView;

verus! {

spec fn key_of(item: ItemView) -> (Seq<char>, Seq<char>) {
    (item.source_registry_uuid, item.source_rule_id)
}

spec fn ledger_key(row: LedgerView) -> (Seq<char>, Seq<char>) {
    (row.source_registry_uuid, row.source_rule_id)
}

/// The staged rows belong to items seen so far, one per item.
spec fn tidy(st: Import) -> bool {
    &&& forall|n: int|
        0 <= n < st.rules.len() ==> (#[trigger] st.rules[n]).source_registry_uuid is Some
            && st.rules[n].source_rule_id is Some && st.seen.contains(
            (st.rules[n].source_registry_uuid->0, st.rules[n].source_rule_id->0),
        )
    &&& forall|n: int, m: int|
        0 <= n < m < st.rules.len() ==> ((#[trigger] st.rules[n]).source_registry_uuid
            != (#[trigger] st.rules[m]).source_registry_uuid || st.rules[n].source_rule_id
            != st.rules[m].source_rule_id)
    &&& forall|n: int|
        0 <= n < st.ledger.len() ==> st.seen.contains(ledger_key(#[trigger] st.ledger[n]))
    &&& forall|n: int, m: int|
        0 <= n < m < st.ledger.len() ==> ledger_key(#[trigger] st.ledger[n]) != ledger_key(
            #[trigger] st.ledger[m],
        )
}

/// The registry or what is staged holds the item's rule and ledger row.
spec fn settled(st: Import, item: ItemView, c: ImportContext) -> bool {
    let key = key_of(item);
    let e = tables::first_index(c.rules, import::rule_from(key.0, key.1));
    let l = tables::first_index(c.ledger, import::ledger_from(key.0, key.1));
    if e < c.rules.len() {
        &&& import::rule_matches(c.rules[e]@, item)
        &&& if l < c.ledger.len() {
            &&& c.ledger[l].destination_rule_id@ == c.rules[e].id@
            &&& c.ledger[l].source_content_sha256@ == item.source_content_sha256
        } else {
            st.ledger.contains(import::ledger_entry(item, c.rules[e].id@, c))
        }
    } else {
        exists|id: Seq<char>|
            st.rules.contains(#[trigger] import::imported_rule(item, id)) && st.ledger.contains(
                import::ledger_entry(item, id, c),
            )
    }
}

spec fn no_import() -> Import {
    Import { rules: seq![], ledger: seq![], events: seq![], already: 0, seen: seq![] }
}

proof fn lemma_push_contains<T>(s: Seq<T>, x: T)
    ensures
        s.push(x).contains(x),
        forall|y: T| #[trigger] s.contains(y) ==> s.push(x).contains(y),
{
    assert(s.push(x)[s.len() as int] == x);
    assert forall|y: T| #[trigger] s.contains(y) implies s.push(x).contains(y) by {
        let i = choose|i: int| 0 <= i < s.len() && s[i] == y;
        assert(s.push(x)[i] == y);
    }
}

proof fn lemma_step(st: Import, item: ItemView, c: ImportContext)
    requires
        tidy(st),
        import::import_item(st, item, c) is Ok,
    ensures
        tidy(import::import_item(st, item, c)->Ok_0),
        settled(import::import_item(st, item, c)->Ok_0, item, c),
        import::import_item(st, item, c)->Ok_0.seen == st.seen.push(key_of(item)),
{
    let next = import::import_item(st, item, c)->Ok_0;
    let key = key_of(item);
    let e = tables::first_index(c.rules, import::rule_from(key.0, key.1));
    let l = tables::first_index(c.ledger, import::ledger_from(key.0, key.1));
    lemma_push_contains(st.seen, key);
    assert(!st.seen.contains(key));
    if e < c.rules.len() {
        if l >= c.ledger.len() {
            lemma_push_contains(st.ledger, import::ledger_entry(item, c.rules[e].id@, c));
        }
    } else {
        let id = c.ids[st.rules.len() as int];
        lemma_push_contains(st.ledger, import::ledger_entry(item, id, c));
        lemma_push_contains(st.rules, import::imported_rule(item, id));
        assert(next.rules.contains(import::imported_rule(item, id)));
    }
}

proof fn lemma_settled_stays(st: Import, other: ItemView, item: ItemView, c: ImportContext)
    requires
        settled(st, other, c),
        import::import_item(st, item, c) is Ok,
    ensures
        settled(import::import_item(st, item, c)->Ok_0, other, c),
{
    let next = import::import_item(st, item, c)->Ok_0;
    assert forall|x: RuleView| #[trigger] st.rules.contains(x) implies next.rules.contains(x) by {
        if next.rules != st.rules {
            lemma_push_contains(st.rules, next.rules.last());
            assert(next.rules =~= st.rules.push(next.rules.last()));
        }
    }
    assert forall|x: LedgerView| #[trigger] st.ledger.contains(x) implies next.ledger.contains(
        x,
    ) by {
        if next.ledger != st.ledger {
            lemma_push_contains(st.ledger, next.ledger.last());
            assert(next.ledger =~= st.ledger.push(next.ledger.last()));
        }
    }
    let key = key_of(other);
    let e = tables::first_index(c.rules, import::rule_from(key.0, key.1));
    if e >= c.rules.len() {
        let id = choose|id: Seq<char>|
            st.rules.contains(#[trigger] import::imported_rule(other, id)) && st.ledger.contains(
                import::ledger_entry(other, id, c),
            );
        assert(next.rules.contains(import::imported_rule(other, id)));
    }
}

/// After a complete import every item is settled and was seen, in order.
proof fn lemma_all_settled(items: Seq<ItemView>, c: ImportContext)
    requires
        import::import_items(items, c) is Ok,
    ensures
        tidy(import::import_items(items, c)->Ok_0),
        import::import_items(items, c)->Ok_0.seen == items.map_values(|i: ItemView| key_of(i)),
        forall|j: int|
            0 <= j < items.len() ==> settled(
                import::import_items(items, c)->Ok_0,
                #[trigger] items[j],
                c,
            ),
    decreases items.len(),
{
    let keys = items.map_values(|i: ItemView| key_of(i));
    if items.len() == 0 {
        assert(keys =~= seq![]);
    } else {
        let rest = items.drop_last();
        let st = import::import_items(rest, c)->Ok_0;
        lemma_all_settled(rest, c);
        lemma_step(st, items.last(), c);
        assert(keys =~= rest.map_values(|i: ItemView| key_of(i)).push(key_of(items.last())));
        assert forall|j: int| 0 <= j < items.len() implies settled(
            import::import_items(items, c)->Ok_0,
            #[trigger] items[j],
            c,
        ) by {
            if j < rest.len() {
                assert(rest[j] == items[j]);
                lemma_settled_stays(st, items[j], items.last(), c);
            }
        }
    }
}

/// No item passes twice: a completed import saw no source rule a second time, and
/// every item had selectors and a board that the registry accepts.
proof fn lemma_each_passed(items: Seq<ItemView>, c: ImportContext, j: int)
    requires
        import::import_items(items, c) is Ok,
        0 <= j < items.len(),
    ensures
        import::import_items(items.take(j), c) is Ok,
        import::import_item(import::import_items(items.take(j), c)->Ok_0, items[j], c) is Ok,
    decreases items.len(),
{
    if j < items.len() - 1 {
        lemma_each_passed(items.drop_last(), c, j);
        assert(items.drop_last().take(j) =~= items.take(j));
    } else {
        assert(items.drop_last() =~= items.take(j));
    }
}

/// The rule of a settled item, found in the registry after the import.
proof fn lemma_rule_found(
    st: Import,
    item: ItemView,
    c: ImportContext,
    after: Seq<Rule>,
    rows: Seq<LedgerRow>,
)
    requires
        tidy(st),
        settled(st, item, c),
        after.len() == c.rules.len() + st.rules.len(),
        after.take(c.rules.len() as int) == c.rules,
        rulebook::rule_views(after.skip(c.rules.len() as int)) == st.rules,
        rows.len() == c.ledger.len() + st.ledger.len(),
        rows.take(c.ledger.len() as int) == c.ledger,
        transfer::ledger_views(rows.skip(c.ledger.len() as int)) == st.ledger,
        tables::first_index(
            c.rules,
            import::rule_from(item.source_registry_uuid, item.source_rule_id),
        ) >= c.rules.len() ==> tables::first_index(
            c.ledger,
            import::ledger_from(item.source_registry_uuid, item.source_rule_id),
        ) >= c.ledger.len(),
    ensures
        ({
            let e = tables::first_index(
                after,
                import::rule_from(item.source_registry_uuid, item.source_rule_id),
            );
            let l = tables::first_index(
                rows,
                import::ledger_from(item.source_registry_uuid, item.source_rule_id),
            );
            &&& 0 <= e < after.len()
            &&& 0 <= l < rows.len()
            &&& import::rule_matches(after[e]@, item)
            &&& rows[l].destination_rule_id@ == after[e].id@
            &&& rows[l].source_content_sha256@ == item.source_content_sha256
        }),
{
    let key = key_of(item);
    let p = import::rule_from(key.0, key.1);
    let q = import::ledger_from(key.0, key.1);
    let n = c.rules.len() as int;
    let m = c.ledger.len() as int;
    let e = tables::first_index(c.rules, p);
    let l = tables::first_index(c.ledger, q);
    tables::lemma_first_index(c.rules, p);
    tables::lemma_first_index(c.ledger, q);
    assert forall|i: int| 0 <= i < n implies #[trigger] after[i] == c.rules[i] by {
        assert(after.take(n)[i] == after[i]);
    }
    assert forall|i: int| 0 <= i < m implies #[trigger] rows[i] == c.ledger[i] by {
        assert(rows.take(m)[i] == rows[i]);
    }
    assert forall|i: int| 0 <= i < st.rules.len() implies #[trigger] st.rules[i] == after[n
        + i]@ by {
        assert(after.skip(n)[i] == after[n + i]);
    }
    assert forall|i: int| 0 <= i < st.ledger.len() implies #[trigger] st.ledger[i] == rows[m
        + i]@ by {
        assert(rows.skip(m)[i] == rows[m + i]);
    }
    let id = if e < n {
        c.rules[e].id@
    } else {
        choose|id: Seq<char>|
            st.rules.contains(#[trigger] import::imported_rule(item, id)) && st.ledger.contains(
                import::ledger_entry(item, id, c),
            )
    };
    if e < n {
        tables::lemma_first_index_is(after, p, e);
    } else {
        let k = choose|k: int|
            0 <= k < st.rules.len() && st.rules[k] == import::imported_rule(item, id);
        assert(st.rules[k] == after[n + k]@);
        assert(p(after[n + k]));
        assert forall|i: int| 0 <= i < n + k implies !p(#[trigger] after[i]) by {
            if i >= n {
                assert(st.rules[i - n] == after[i]@);
                assert(st.rules[i - n].source_registry_uuid != st.rules[k].source_registry_uuid
                    || st.rules[i - n].source_rule_id != st.rules[k].source_rule_id);
            }
        }
        tables::lemma_first_index_is(after, p, n + k);
    }
    if l < m {
        tables::lemma_first_index_is(rows, q, l);
    } else {
        let entry = import::ledger_entry(item, id, c);
        assert(st.ledger.contains(entry));
        let k = choose|k: int| 0 <= k < st.ledger.len() && st.ledger[k] == entry;
        assert(st.ledger[k] == rows[m + k]@);
        assert(q(rows[m + k]));
        assert forall|i: int| 0 <= i < m + k implies !q(#[trigger] rows[i]) by {
            if i >= m {
                assert(st.ledger[i - m] == rows[i]@);
                assert(ledger_key(st.ledger[i - m]) != ledger_key(st.ledger[k]));
            }
        }
        tables::lemma_first_index_is(rows, q, m + k);
    }
}

/// Which boards rules may be transferred for depends on the boards alone.
proof fn lemma_transfer_refusal_same(
    a: Registry,
    b: Registry,
    names: Seq<Seq<char>>,
    readable: Seq<Seq<char>>,
)
    requires
        a.boards == b.boards,
    ensures
        a.transfer_refusal(names, readable) == b.transfer_refusal(names, readable),
    decreases names.len(),
{
    if names.len() > 0 {
        lemma_transfer_refusal_same(a, b, names.drop_last(), readable);
        assert(a.named_boards(names.last(), false) == b.named_boards(names.last(), false));
    }
}

/// The import of items that are all settled recognises each of them and stages
/// nothing.
proof fn lemma_again(
    items: Seq<ItemView>,
    st: Import,
    c: ImportContext,
    again: ImportContext,
    n: int,
)
    requires
        0 <= n <= items.len(),
        import::import_items(items, c) == Ok::<Import, Seq<char>>(st),
        again.boards == c.boards,
        again.verified == c.verified,
        again.rules.len() == c.rules.len() + st.rules.len(),
        again.rules.take(c.rules.len() as int) == c.rules,
        rulebook::rule_views(again.rules.skip(c.rules.len() as int)) == st.rules,
        again.ledger.len() == c.ledger.len() + st.ledger.len(),
        again.ledger.take(c.ledger.len() as int) == c.ledger,
        transfer::ledger_views(again.ledger.skip(c.ledger.len() as int)) == st.ledger,
        forall|j: int|
            0 <= j < items.len() ==> tables::first_index(
                c.rules,
                import::rule_from(
                    (#[trigger] items[j]).source_registry_uuid,
                    items[j].source_rule_id,
                ),
            ) >= c.rules.len() ==> tables::first_index(
                c.ledger,
                import::ledger_from(items[j].source_registry_uuid, items[j].source_rule_id),
            ) >= c.ledger.len(),
    ensures
        import::import_items(items.take(n), again) == Ok::<Import, Seq<char>>(
            Import {
                already: n as nat,
                seen: items.take(n).map_values(|i: ItemView| key_of(i)),
                ..no_import()
            },
        ),
    decreases n,
{
    let keys = items.take(n).map_values(|i: ItemView| key_of(i));
    if n == 0 {
        assert(keys =~= seq![]);
        assert(items.take(n) =~= Seq::<ItemView>::empty());
    } else {
        let item = items[n - 1];
        lemma_again(items, st, c, again, n - 1);
        assert(items.take(n).drop_last() =~= items.take(n - 1));
        assert(items.take(n).last() == item);
        let before = items.take(n - 1).map_values(|i: ItemView| key_of(i));
        assert(keys =~= before.push(key_of(item)));
        lemma_each_passed(items, c, n - 1);
        lemma_all_settled(items.take(n - 1), c);
        lemma_all_settled(items, c);
        assert(settled(st, items[n - 1], c));
        lemma_rule_found(st, item, c, again.rules, again.ledger);
    }
}

/// What was taken in is found again, and needs no id.
proof fn lemma_found_again(
    pre: Registry,
    mid: Registry,
    first: Result<RuleTransferReport, Error>,
    bundle: RuleTransferBundle,
    readable: Seq<Seq<char>>,
    actors: (Seq<char>, Seq<char>),
    ids: (Seq<Seq<char>>, Seq<Seq<char>>),
    times: (i64, i64),
)
    requires
        pre.wf(),
        import::rules_imported(pre, mid, first, actors.0, bundle, readable, ids.0, times.0),
        first is Ok,
        text::trimmed(actors.1).len() > 0,
    ensures
        first->Ok_0.imported_rules + first->Ok_0.already_imported_rules == bundle.rules@.len(),
        mid.bundle_refusal(actors.1, bundle, readable) is None,
        ({
            let items = transfer::item_views(bundle.rules@);
            let again = mid.import_context(actors.1, bundle, ids.1, times.1);
            &&& import::ids_needed(items, mid.rules@) == 0
            &&& import::import_items(items, again) == Ok::<Import, Seq<char>>(
                Import {
                    already: items.len(),
                    seen: items.map_values(|i: ItemView| key_of(i)),
                    ..no_import()
                },
            )
        }),
{
    let boards = text::texts(bundle.source_boards@);
    let items = transfer::item_views(bundle.rules@);
    let c = pre.import_context(actors.0, bundle, ids.0, times.0);
    let again = mid.import_context(actors.1, bundle, ids.1, times.1);
    lemma_transfer_refusal_same(pre, mid, boards, readable);
    assert(pre.bundle_refusal(actors.0, bundle, readable) is None);
    assert(mid.bundle_refusal(actors.1, bundle, readable) is None);
    let st = import::import_items(items, c)->Ok_0;
    assert forall|j: int|
        0 <= j < items.len() implies tables::first_index(
        c.rules,
        import::rule_from((#[trigger] items[j]).source_registry_uuid, items[j].source_rule_id),
    ) >= c.rules.len() ==> tables::first_index(
        c.ledger,
        import::ledger_from(items[j].source_registry_uuid, items[j].source_rule_id),
    ) >= c.ledger.len() by {
        let q = import::ledger_from(items[j].source_registry_uuid, items[j].source_rule_id);
        let l = tables::first_index(c.ledger, q);
        tables::lemma_first_index(c.ledger, q);
        if l < c.ledger.len() {
            assert(q(c.ledger[l]));
            assert(pre.ledger@[l].source_registry_uuid@ == items[j].source_registry_uuid);
        }
    }
    lemma_again(items, st, c, again, items.len() as int);
    assert(items.take(items.len() as int) =~= items);
    import::lemma_import_bounds(items, c);
    import::lemma_import_bounds(items, again);
}

/// Taking in the same bundle a second time, whoever does it and whenever, finds
/// all of its rules there already and changes nothing.
pub proof fn law_import_again_changes_nothing(
    pre: Registry,
    mid: Registry,
    post: Registry,
    first: Result<RuleTransferReport, Error>,
    second: Result<RuleTransferReport, Error>,
    bundle: RuleTransferBundle,
    readable: Seq<Seq<char>>,
    actors: (Seq<char>, Seq<char>),
    ids: (Seq<Seq<char>>, Seq<Seq<char>>),
    times: (i64, i64),
)
    requires
        pre.wf(),
        import::rules_imported(pre, mid, first, actors.0, bundle, readable, ids.0, times.0),
        first is Ok,
        text::trimmed(actors.1).len() > 0,
        import::rules_imported(mid, post, second, actors.1, bundle, readable, ids.1, times.1),
    ensures
        second is Ok,
        second->Ok_0.imported_rules == 0,
        second->Ok_0.already_imported_rules == bundle.rules@.len(),
        first->Ok_0.imported_rules + first->Ok_0.already_imported_rules == bundle.rules@.len(),
        second->Ok_0.destination_boards_verified == first->Ok_0.destination_boards_verified,
        second->Ok_0.source_registry_uuid@ == first->Ok_0.source_registry_uuid@,
        second->Ok_0.source_registry_audit_head@ == first->Ok_0.source_registry_audit_head@,
        import::ids_needed(transfer::item_views(bundle.rules@), mid.rules@) == 0,
        post.rules@ == mid.rules@,
        post.ledger@ == mid.ledger@,
        post.events@ == mid.events@,
{
    lemma_found_again(pre, mid, first, bundle, readable, actors, ids, times);
    assert(post.rules@ =~= mid.rules@) by {
        assert(post.rules@.take(mid.rules@.len() as int) =~= post.rules@);
    }
    assert(post.ledger@ =~= mid.ledger@) by {
        assert(post.ledger@.take(mid.ledger@.len() as int) =~= post.ledger@);
    }
    assert(post.events@ =~= mid.events@) by {
        assert(post.events@.take(mid.events@.len() as int) =~= post.events@);
    }
}

/// Importing a bundle a second time succeeds whatever is drawn: all of its rules are
/// there already, and nothing is changed.
pub proof fn law_second_import_succeeds(
    pre: Registry,
    mid: Registry,
    post: Registry,
    first: Result<RuleTransferReport, Error>,
    second: Result<RuleTransferReport, Error>,
    bundle: RuleTransferBundle,
    readable: Seq<Seq<char>>,
    actors: (Seq<char>, Seq<char>),
)
    requires
        pre.wf(),
        import::rules_drawn(pre, mid, first, actors.0, bundle, readable),
        first is Ok,
        text::trimmed(actors.1).len() > 0,
        import::rules_drawn(mid, post, second, actors.1, bundle, readable),
    ensures
        second is Ok,
        first->Ok_0.imported_rules + first->Ok_0.already_imported_rules == bundle.rules@.len(),
        second->Ok_0.imported_rules == 0,
        second->Ok_0.already_imported_rules == bundle.rules@.len(),
        second->Ok_0.destination_boards_verified == first->Ok_0.destination_boards_verified,
        second->Ok_0.source_registry_uuid@ == first->Ok_0.source_registry_uuid@,
        second->Ok_0.source_registry_audit_head@ == first->Ok_0.source_registry_audit_head@,
        post.rules@ == mid.rules@,
        post.ledger@ == mid.ledger@,
        post.events@ == mid.events@,
{
    let (ids, now) = choose|ids: Seq<Seq<char>>, now: i64| #[trigger]
        import::rules_imported(pre, mid, first, actors.0, bundle, readable, ids, now);
    lemma_found_again(pre, mid, first, bundle, readable, actors, (ids, ids), (now, now));
    let (more, later) = choose|ids: Seq<Seq<char>>, now: i64| #[trigger]
        import::rules_imported(mid, post, second, actors.1, bundle, readable, ids, now);
    law_import_again_changes_nothing(
        pre,
        mid,
        post,
        first,
        second,
        bundle,
        readable,
        actors,
        (ids, more),
        (now, later),
    );
}

/// Every exported item comes from one of the rules.
proof fn lemma_export_source(
    all: Seq<RuleView>,
    boards: Seq<Seq<char>>,
    own: Seq<char>,
    i: int,
)
    requires
        transfer::export_items(all, boards, own) is Ok,
        0 <= i < transfer::export_items(all, boards, own)->Ok_0.len(),
    ensures
        exists|k: int|
            0 <= k < all.len() && transfer::export_refusal(#[trigger] all[k], boards, own) is None
                && transfer::export_item(all[k], boards, own) == Some(
                transfer::export_items(all, boards, own)->Ok_0[i],
            ),
    decreases all.len(),
{
    let rest = all.drop_last();
    let done = transfer::export_items(rest, boards, own)->Ok_0;
    if i < done.len() {
        lemma_export_source(rest, boards, own, i);
        let k = choose|k: int|
            0 <= k < rest.len() && transfer::export_refusal(#[trigger] rest[k], boards, own) is None
                && transfer::export_item(rest[k], boards, own) == Some(done[i]);
        assert(all[k] == rest[k]);
    } else {
        assert(all[all.len() - 1] == all.last());
    }
}

/// What a rule of the registry's own is exported as passes every check that an
/// import makes of an item.
pub proof fn law_exported_item_is_accepted(
    rule: RuleView,
    boards: Seq<Seq<char>>,
    own: Seq<char>,
)
    requires
        transfer::export_refusal(rule, boards, own) is None,
        transfer::export_item(rule, boards, own) is Some,
        transfer::export_uuid(rule, own) == own,
        !rule.archived,
    ensures
        import::item_refusal(transfer::export_item(rule, boards, own)->0, own, boards) is None,
{
    let selected = tables::first_index(boards, transfer::admits(rule.tags));
    tables::lemma_first_index(boards, transfer::admits(rule.tags));
    assert(transfer::admits(rule.tags)(boards[selected]));
    assert(boards.contains(boards[selected]));
}

proof fn lemma_all_items_pass(items: Seq<ItemView>, uuid: Seq<char>, boards: Seq<Seq<char>>)
    requires
        forall|i: int|
            0 <= i < items.len() ==> import::item_refusal(#[trigger] items[i], uuid, boards) is None,
    ensures
        import::items_refusal(items, uuid, boards) is None,
    decreases items.len(),
{
    if items.len() > 0 {
        lemma_all_items_pass(items.drop_last(), uuid, boards);
    }
}

proof fn lemma_requested_once(reg: Registry, names: Seq<Seq<char>>, readable: Seq<Seq<char>>)
    requires
        reg.transfer_refusal(names, readable) is None,
    ensures
        forall|i: int, j: int| 0 <= i < j < names.len() ==> #[trigger] names[i] != #[trigger] names[j],
    decreases names.len(),
{
    if names.len() > 0 {
        let rest = names.drop_last();
        lemma_requested_once(reg, rest, readable);
        assert forall|i: int, j: int| 0 <= i < j < names.len() implies #[trigger] names[i]
            != #[trigger] names[j] by {
            if j == rest.len() {
                assert(rest.contains(rest[i]));
            } else {
                assert(rest[i] != rest[j]);
            }
        }
    }
}

/// A bundle that one registry exports, with at least one board and rules of its
/// own only, passes every check that another registry with the same boards makes
/// before it takes in the first rule.
pub proof fn law_exported_bundle_is_accepted(
    from: Registry,
    to: Registry,
    exported: Result<RuleTransferBundle, Error>,
    actors: (Seq<char>, Seq<char>),
    requested: Seq<Seq<char>>,
    readable: (Seq<Seq<char>>, Seq<Seq<char>>),
    audit: AuditReport,
    now: i64,
)
    requires
        transfer::exported(from, exported, actors.0, requested, readable.0, audit, now),
        exported is Ok,
        requested.len() > 0,
        forall|i: int|
            0 <= i < from.rules@.len() ==> (#[trigger] from.rules@[i]).source_registry_uuid is None,
        text::trimmed(actors.1).len() > 0,
        to.transfer_refusal(text::texts(exported->Ok_0.source_boards@), readable.1) is None,
    ensures
        to.bundle_refusal(actors.1, exported->Ok_0, readable.1) is None,
{
    let bundle = exported->Ok_0;
    let boards = ranking::sorted_texts(requested);
    let own = text::trimmed(from.registry_uuid->0@);
    let listed = from.listed_rules(false);
    let all = rulebook::rule_views(listed);
    let items = transfer::export_items(all, boards, own)->Ok_0;
    text::law_trimmed_twice(actors.0);
    text::law_trimmed_twice(from.registry_uuid->0@);
    ranking::law_sorted_texts(requested);
    lemma_requested_once(from, requested, readable.0);
    ranking::law_sorted_strictly(requested);
    assert(rules::source_boards_refusal(boards) is None);
    let unsorted = choose|unsorted: Seq<RuleTransferItem>|
        transfer::item_views(unsorted) == items && bundle.rules@ == #[trigger] ranking::ranked(
            unsorted,
        );
    ranking::law_ranked(unsorted);
    ranking::law_ranked(tables::kept(from.rules@, rulebook::is_listed(false)));
    tables::lemma_kept(from.rules@, rulebook::is_listed(false));
    assert forall|k: int| 0 <= k < all.len() implies !(#[trigger] all[k]).archived
        && all[k].source_registry_uuid is None by {
        lemma_listed(from, k);
    }
    let views = transfer::item_views(bundle.rules@);
    assert forall|i: int| 0 <= i < views.len() implies import::item_refusal(
        #[trigger] views[i],
        own,
        boards,
    ) is None by {
        broadcast use vstd::seq_lib::group_to_multiset_ensures;

        assert(bundle.rules@.contains(bundle.rules@[i]));
        assert(unsorted.to_multiset().count(bundle.rules@[i]) > 0);
        assert(unsorted.contains(bundle.rules@[i]));
        let j = choose|j: int| 0 <= j < unsorted.len() && unsorted[j] == bundle.rules@[i];
        assert(items[j] == unsorted[j]@);
        lemma_export_source(all, boards, own, j);
        let k = choose|k: int|
            0 <= k < all.len() && transfer::export_refusal(#[trigger] all[k], boards, own) is None
                && transfer::export_item(all[k], boards, own) == Some(items[j]);
        law_exported_item_is_accepted(all[k], boards, own);
    }
    lemma_all_items_pass(views, own, boards);
}

/// A listed rule is one of the registry's rules and is not retired.
proof fn lemma_listed(reg: Registry, k: int)
    requires
        0 <= k < reg.listed_rules(false).len(),
    ensures
        !reg.listed_rules(false)[k].archived,
        reg.rules@.contains(reg.listed_rules(false)[k]),
{
    broadcast use vstd::seq_lib::group_to_multiset_ensures;

    let kept = tables::kept(reg.rules@, rulebook::is_listed(false));
    let listed = reg.listed_rules(false);
    ranking::law_ranked(kept);
    tables::lemma_kept(reg.rules@, rulebook::is_listed(false));
    assert(listed.contains(listed[k]));
    assert(kept.to_multiset().count(listed[k]) > 0);
    assert(kept.contains(listed[k]));
    let j = choose|j: int| 0 <= j < kept.len() && kept[j] == listed[k];
    assert(rulebook::is_listed(false)(kept[j]));
}

} // verus!
