//! What leaves a registry in a bundle and what a bundle brings, over all registries and
//! requests.

use vstd::prelude::*;

use crate::import;
use crate::import::Import;
use crate::import::ImportContext;
use crate::listing;
use crate::lookup_laws;
use crate::outside;
use crate::ranking;
use crate::ranking::Ranked;
use crate::rule_laws;
use crate::rulebook;
use crate::rulebook::RuleView;
use crate::rules;
use crate::rules::AuditReport;
use crate::rules::Rule;
use crate::rules::RuleTransferBundle;
use crate::rules::RuleTransferItem;
use crate::rules::RuleTransferReport;
use crate::tables;
use crate::tables::LedgerRow;
use crate::tables::Registry;
use crate::text;
use crate::text::Error;
use crate::transfer;
use crate::transfer::ItemView;
use crate::transfer::LedgerView;

verus! {

/// Some of the boards admits a rule with these tags.
pub open spec fn is_admitted(tags: Seq<Seq<char>>, boards: Seq<Seq<char>>) -> bool {
    exists|i: int|
        0 <= i < boards.len() && rules::selectors_apply(tags, Some(#[trigger] boards[i]))
}

/// The board is the first of the boards that admits a rule with these tags.
pub open spec fn admits_first(
    tags: Seq<Seq<char>>,
    boards: Seq<Seq<char>>,
    board: Seq<char>,
) -> bool {
    exists|n: int|
        {
            &&& 0 <= n < boards.len()
            &&& #[trigger] boards[n] == board
            &&& rules::selectors_apply(tags, Some(boards[n]))
            &&& forall|i: int|
                0 <= i < n ==> !rules::selectors_apply(tags, Some(#[trigger] boards[i]))
        }
}

/// Where a rule comes from: the registry and the id that it says, else this registry and
/// its own id.
pub open spec fn identity(x: Rule, own: Seq<char>) -> (Seq<char>, Seq<char>) {
    (
        match x.source_registry_uuid {
            Some(uuid) => uuid@,
            None => own,
        },
        match x.source_rule_id {
            Some(id) => id@,
            None => x.id@,
        },
    )
}

/// The item is that of a rule: it says where the rule comes from and all that the rule
/// says, for the first of the boards that admits it.
pub open spec fn is_item_of(
    item: RuleTransferItem,
    x: Rule,
    boards: Seq<Seq<char>>,
    own: Seq<char>,
) -> bool {
    &&& item.source_board matches Some(board) && admits_first(
        text::texts(x.tags@),
        boards,
        board@,
    )
    &&& (item.source_registry_uuid@, item.source_rule_id@) == identity(x, own)
    &&& text::texts(item.source_boards@) == boards
    &&& item.body@ == x.body@
    &&& item.author@ == x.author@
    &&& item.archived == x.archived
    &&& item.created_at == x.created_at
    &&& item.updated_at == x.updated_at
    &&& text::texts(item.tags@) == text::texts(x.tags@)
}

/// One of the items is that of the rule.
pub open spec fn has_item_among(
    items: Seq<RuleTransferItem>,
    x: Rule,
    boards: Seq<Seq<char>>,
    own: Seq<char>,
) -> bool {
    exists|i: int| 0 <= i < items.len() && is_item_of(#[trigger] items[i], x, boards, own)
}

/// The item is that of an active rule that one of the boards admits.
pub open spec fn has_rule_among(
    all: Seq<Rule>,
    item: RuleTransferItem,
    boards: Seq<Seq<char>>,
    own: Seq<char>,
) -> bool {
    exists|k: int|
        0 <= k < all.len() && !(#[trigger] all[k]).archived && is_admitted(
            text::texts(all[k].tags@),
            boards,
        ) && is_item_of(item, all[k], boards, own)
}

/// Each active rule that one of the boards admits has an item.
pub open spec fn every_rule_has_an_item(
    all: Seq<Rule>,
    items: Seq<RuleTransferItem>,
    boards: Seq<Seq<char>>,
    own: Seq<char>,
) -> bool {
    forall|k: int|
        0 <= k < all.len() && !(#[trigger] all[k]).archived && is_admitted(
            text::texts(all[k].tags@),
            boards,
        ) ==> has_item_among(items, all[k], boards, own)
}

/// Each item is that of an active rule that one of the boards admits.
pub open spec fn every_item_has_a_rule(
    all: Seq<Rule>,
    items: Seq<RuleTransferItem>,
    boards: Seq<Seq<char>>,
    own: Seq<char>,
) -> bool {
    forall|i: int|
        0 <= i < items.len() ==> has_rule_among(all, #[trigger] items[i], boards, own)
}

spec fn has_item(boards: Seq<Seq<char>>, own: Seq<char>) -> spec_fn(RuleView) -> bool {
    |v: RuleView| transfer::export_item(v, boards, own) is Some
}

/// The places of the rules that the items are of.
proof fn lemma_export(all: Seq<RuleView>, boards: Seq<Seq<char>>, own: Seq<char>) -> (of: Seq<int>)
    requires
        transfer::export_items(all, boards, own) is Ok,
    ensures
        ({
            let items = transfer::export_items(all, boards, own)->Ok_0;
            &&& of.len() == items.len()
            &&& items.len() == tables::kept(all, has_item(boards, own)).len()
            &&& forall|i: int|
                0 <= i < of.len() ==> 0 <= #[trigger] of[i] < all.len() && transfer::export_item(
                    all[of[i]],
                    boards,
                    own,
                ) == Some(items[i])
            &&& forall|i: int, j: int|
                0 <= i < j < of.len() ==> #[trigger] of[i] < #[trigger] of[j]
            &&& forall|k: int|
                0 <= k < all.len() && transfer::export_item(#[trigger] all[k], boards, own) is Some
                    ==> of.contains(k)
            &&& forall|k: int|
                0 <= k < all.len() ==> transfer::export_refusal(#[trigger] all[k], boards, own)
                    is None
        }),
    decreases all.len(),
{
    if all.len() == 0 {
        seq![]
    } else {
        let rest = all.drop_last();
        let before = lemma_export(rest, boards, own);
        let items = transfer::export_items(all, boards, own)->Ok_0;
        let n = all.len() - 1;
        let of = if transfer::export_item(all.last(), boards, own) is Some {
            before.push(n)
        } else {
            before
        };
        assert forall|k: int| 0 <= k < all.len() implies transfer::export_refusal(
            #[trigger] all[k],
            boards,
            own,
        ) is None by {
            if k < n {
                assert(rest[k] == all[k]);
            }
        }
        assert forall|k: int|
            0 <= k < all.len() && transfer::export_item(#[trigger] all[k], boards, own) is Some
            implies of.contains(k) by {
            if k < n {
                assert(rest[k] == all[k]);
                let i = choose|i: int| 0 <= i < before.len() && before[i] == k;
                assert(of[i] == k);
            } else {
                assert(of[of.len() - 1] == k);
            }
        }
        assert forall|i: int| 0 <= i < of.len() implies 0 <= #[trigger] of[i] < all.len()
            && transfer::export_item(all[of[i]], boards, own) == Some(items[i]) by {
            if i < before.len() {
                assert(of[i] == before[i]);
                assert(rest[before[i]] == all[before[i]]);
            }
        }
        of
    }
}

proof fn lemma_admits_first(tags: Seq<Seq<char>>, boards: Seq<Seq<char>>)
    ensures
        ({
            let n = tables::first_index(boards, transfer::admits(tags));
            &&& 0 <= n <= boards.len()
            &&& n < boards.len() <==> is_admitted(tags, boards)
            &&& n < boards.len() ==> admits_first(tags, boards, boards[n])
        }),
{
    let p = transfer::admits(tags);
    tables::lemma_first_index(boards, p);
    let n = tables::first_index(boards, p);
    if n < boards.len() {
        assert(p(boards[n]));
        assert forall|i: int| 0 <= i < n implies !rules::selectors_apply(
            tags,
            Some(#[trigger] boards[i]),
        ) by {
            assert(!p(boards[i]));
        }
        assert(boards[n] == boards[n]);
    } else if is_admitted(tags, boards) {
        let i = choose|i: int|
            0 <= i < boards.len() && rules::selectors_apply(tags, Some(#[trigger] boards[i]));
        assert(!p(boards[i]));
    }
}

proof fn lemma_item(item: RuleTransferItem, x: Rule, boards: Seq<Seq<char>>, own: Seq<char>)
    requires
        transfer::export_item(x@, boards, own) == Some(item@),
    ensures
        is_item_of(item, x, boards, own),
        is_admitted(text::texts(x.tags@), boards),
{
    lemma_admits_first(text::texts(x.tags@), boards);
}

spec fn active_and_admitted(boards: Seq<Seq<char>>) -> spec_fn(Rule) -> bool {
    |x: Rule| !x.archived && is_admitted(text::texts(x.tags@), boards)
}

proof fn lemma_rule_has_item(
    reg: Registry,
    unsorted: Seq<RuleTransferItem>,
    boards: Seq<Seq<char>>,
    own: Seq<char>,
    k: int,
)
    requires
        transfer::export_items(
            rulebook::rule_views(reg.listed_rules(false)),
            boards,
            own,
        ) == Ok::<Seq<ItemView>, Seq<char>>(transfer::item_views(unsorted)),
        0 <= k < reg.rules@.len(),
        !reg.rules@[k].archived,
        is_admitted(text::texts(reg.rules@[k].tags@), boards),
    ensures
        has_item_among(ranking::ranked(unsorted), reg.rules@[k], boards, own),
{
    let items = ranking::ranked(unsorted);
    let listed = reg.listed_rules(false);
    let views = rulebook::rule_views(listed);
    let found = transfer::item_views(unsorted);
    let x = reg.rules@[k];
    rule_laws::law_rules_are_listed(reg, false);
    let of = lemma_export(views, boards, own);
    assert(reg.rules@.contains(x));
    assert(listed.contains(x));
    let m = choose|m: int| 0 <= m < listed.len() && listed[m] == x;
    assert(views[m] == x@);
    lemma_admits_first(text::texts(x.tags@), boards);
    assert(transfer::export_item(views[m], boards, own) is Some);
    let j = choose|j: int| 0 <= j < of.len() && of[j] == m;
    assert(transfer::export_item(views[of[j]], boards, own) == Some(found[j]));
    assert(found[j] == unsorted[j]@);
    lemma_item(unsorted[j], x, boards, own);
    assert(unsorted.contains(unsorted[j]));
    listing::lemma_ranked_contains(unsorted, unsorted[j]);
    let i = choose|i: int| 0 <= i < items.len() && items[i] == unsorted[j];
    assert(is_item_of(items[i], x, boards, own));
}

proof fn lemma_item_has_rule(
    reg: Registry,
    unsorted: Seq<RuleTransferItem>,
    boards: Seq<Seq<char>>,
    own: Seq<char>,
    i: int,
)
    requires
        transfer::export_items(
            rulebook::rule_views(reg.listed_rules(false)),
            boards,
            own,
        ) == Ok::<Seq<ItemView>, Seq<char>>(transfer::item_views(unsorted)),
        0 <= i < ranking::ranked(unsorted).len(),
    ensures
        has_rule_among(reg.rules@, ranking::ranked(unsorted)[i], boards, own),
{
    let items = ranking::ranked(unsorted);
    let listed = reg.listed_rules(false);
    let views = rulebook::rule_views(listed);
    let found = transfer::item_views(unsorted);
    rule_laws::law_rules_are_listed(reg, false);
    let of = lemma_export(views, boards, own);
    assert(items.contains(items[i]));
    listing::lemma_ranked_contains(unsorted, items[i]);
    let j = choose|j: int| 0 <= j < unsorted.len() && unsorted[j] == items[i];
    let m = of[j];
    assert(found.len() == unsorted.len());
    assert(listed.len() == views.len());
    assert(0 <= m < listed.len());
    let x = listed[m];
    assert(views[m] == x@);
    assert(found[j] == unsorted[j]@);
    lemma_item(unsorted[j], x, boards, own);
    assert(listed.contains(x));
    assert(reg.rules@.contains(x));
    let k = choose|k: int| 0 <= k < reg.rules@.len() && reg.rules@[k] == x;
    assert(!reg.rules@[k].archived);
}

proof fn lemma_items_and_rules(
    reg: Registry,
    unsorted: Seq<RuleTransferItem>,
    boards: Seq<Seq<char>>,
    own: Seq<char>,
)
    requires
        transfer::export_items(
            rulebook::rule_views(reg.listed_rules(false)),
            boards,
            own,
        ) == Ok::<Seq<ItemView>, Seq<char>>(transfer::item_views(unsorted)),
    ensures
        every_rule_has_an_item(reg.rules@, ranking::ranked(unsorted), boards, own),
        every_item_has_a_rule(reg.rules@, ranking::ranked(unsorted), boards, own),
{
    assert forall|k: int|
        0 <= k < reg.rules@.len() && !(#[trigger] reg.rules@[k]).archived && is_admitted(
            text::texts(reg.rules@[k].tags@),
            boards,
        ) implies has_item_among(ranking::ranked(unsorted), reg.rules@[k], boards, own) by {
        lemma_rule_has_item(reg, unsorted, boards, own, k);
    }
    assert forall|i: int| 0 <= i < ranking::ranked(unsorted).len() implies has_rule_among(
        reg.rules@,
        #[trigger] ranking::ranked(unsorted)[i],
        boards,
        own,
    ) by {
        lemma_item_has_rule(reg, unsorted, boards, own, i);
    }
}

/// A bundle names the requested boards in the order of their names. It has an item for each
/// active rule that one of them admits and no other item, as many as there are such rules;
/// each is for the first of the boards that admits its rule and says all that the rule
/// says. Items of rules that come from different places are different.
pub proof fn law_bundle_holds_every_admitted_rule(
    reg: Registry,
    r: Result<RuleTransferBundle, Error>,
    actor: Seq<char>,
    requested: Seq<Seq<char>>,
    readable: Seq<Seq<char>>,
    audit: AuditReport,
    now: i64,
)
    requires
        transfer::exported(reg, r, actor, requested, readable, audit, now),
        r is Ok,
    ensures
        ({
            let items = r->Ok_0.rules@;
            let boards = text::texts(r->Ok_0.source_boards@);
            let own = r->Ok_0.source_registry_uuid@;
            &&& boards.to_multiset() == requested.to_multiset()
            &&& forall|i: int, j: int|
                0 <= i < j < boards.len() ==> !text::text_less(
                    #[trigger] boards[j],
                    #[trigger] boards[i],
                )
            &&& every_rule_has_an_item(reg.rules@, items, boards, own)
            &&& every_item_has_a_rule(reg.rules@, items, boards, own)
            &&& items.len() == reg.rules@.filter(
                |x: Rule| !x.archived && is_admitted(text::texts(x.tags@), boards),
            ).len()
        }),
{
    let items = r->Ok_0.rules@;
    let boards = text::texts(r->Ok_0.source_boards@);
    let own = r->Ok_0.source_registry_uuid@;
    let listed = reg.listed_rules(false);
    let views = rulebook::rule_views(listed);
    let found = transfer::export_items(views, boards, own)->Ok_0;
    let unsorted = choose|unsorted: Seq<RuleTransferItem>|
        transfer::item_views(unsorted) == found && items == #[trigger] ranking::ranked(unsorted);
    ranking::law_sorted_texts(requested);
    ranking::law_ranked(unsorted);
    assert(unsorted.len() == found.len());
    lemma_items_and_rules(reg, unsorted, boards, own);
    let of = lemma_export(views, boards, own);
    lemma_item_count(reg, boards, own);
    let both = |x: Rule| !x.archived && is_admitted(text::texts(x.tags@), boards);
    assert(active_and_admitted(boards) =~= both);
    listing::lemma_kept_is_filter(reg.rules@, both);
}

proof fn lemma_views_kept(all: Seq<Rule>, p: spec_fn(Rule) -> bool, q: spec_fn(RuleView) -> bool)
    requires
        forall|x: Rule| #[trigger] p(x) <==> q(x@),
    ensures
        tables::kept(rulebook::rule_views(all), q).len() == tables::kept(all, p).len(),
    decreases all.len(),
{
    let views = rulebook::rule_views(all);
    assert(views.len() == all.len());
    if all.len() > 0 {
        lemma_views_kept(all.drop_last(), p, q);
        assert(views.drop_last() =~= rulebook::rule_views(all.drop_last()));
        assert(views.last() == all.last()@);
        assert(p(all.last()) <==> q(all.last()@));
    }
}

proof fn lemma_item_count(reg: Registry, boards: Seq<Seq<char>>, own: Seq<char>)
    ensures
        tables::kept(
            rulebook::rule_views(reg.listed_rules(false)),
            has_item(boards, own),
        ).len() == tables::kept(reg.rules@, active_and_admitted(boards)).len(),
{
    let listed = reg.listed_rules(false);
    let p = |x: Rule| is_admitted(text::texts(x.tags@), boards);
    let q = has_item(boards, own);
    assert forall|x: Rule| #[trigger] p(x) <==> q(x@) by {
        lemma_admits_first(text::texts(x.tags@), boards);
    }
    lemma_views_kept(listed, p, q);
    let l = rulebook::is_listed(false);
    let some = tables::kept(reg.rules@, l);
    ranking::law_ranked(some);
    listing::lemma_kept_as_many(listed, some, p);
    listing::lemma_kept_twice(reg.rules@, l, p, active_and_admitted(boards));
}

/// No two items of a bundle come from one place, where no two active rules of the registry
/// that the boards admit do.
pub proof fn law_items_come_from_different_places(
    reg: Registry,
    r: Result<RuleTransferBundle, Error>,
    actor: Seq<char>,
    requested: Seq<Seq<char>>,
    readable: Seq<Seq<char>>,
    audit: AuditReport,
    now: i64,
)
    requires
        reg.wf(),
        transfer::exported(reg, r, actor, requested, readable, audit, now),
        r is Ok,
        forall|i: int, j: int|
            0 <= i < j < reg.rules@.len() && !(#[trigger] reg.rules@[i]).archived && !(
            #[trigger] reg.rules@[j]).archived ==> identity(
                reg.rules@[i],
                r->Ok_0.source_registry_uuid@,
            ) != identity(reg.rules@[j], r->Ok_0.source_registry_uuid@),
    ensures
        forall|i: int, j: int|
            0 <= i < j < r->Ok_0.rules@.len() ==> {
                let a = #[trigger] r->Ok_0.rules@[i];
                let b = #[trigger] r->Ok_0.rules@[j];
                a.source_registry_uuid@ != b.source_registry_uuid@ || a.source_rule_id@
                    != b.source_rule_id@
            },
{
    let items = r->Ok_0.rules@;
    let boards = text::texts(r->Ok_0.source_boards@);
    let own = r->Ok_0.source_registry_uuid@;
    let listed = reg.listed_rules(false);
    let views = rulebook::rule_views(listed);
    let found = transfer::export_items(views, boards, own)->Ok_0;
    let unsorted = choose|unsorted: Seq<RuleTransferItem>|
        transfer::item_views(unsorted) == found && items == #[trigger] ranking::ranked(unsorted);
    let some = tables::kept(reg.rules@, rulebook::is_listed(false));
    let place = |x: Rule| identity(x, own);
    let key = |i: RuleTransferItem| (i.source_registry_uuid@, i.source_rule_id@);
    lemma_kept_apart(reg.rules@, rulebook::is_listed(false), place);
    ranking::law_ranked(some);
    tables::lemma_reordered_distinct(some, listed, place);
    let of = lemma_export(views, boards, own);
    assert(unsorted.len() == found.len());
    assert(listed.len() == views.len());
    assert forall|i: int, j: int| 0 <= i < j < unsorted.len() implies key(#[trigger] unsorted[i])
        != key(#[trigger] unsorted[j]) by {
        assert(of[i] < of[j]);
        assert(views[of[i]] == listed[of[i]]@ && views[of[j]] == listed[of[j]]@);
        assert(found[i] == unsorted[i]@ && found[j] == unsorted[j]@);
        lemma_item(unsorted[i], listed[of[i]], boards, own);
        lemma_item(unsorted[j], listed[of[j]], boards, own);
        assert(place(listed[of[i]]) != place(listed[of[j]]));
    }
    ranking::law_ranked(unsorted);
    tables::lemma_reordered_distinct(unsorted, items, key);
    assert forall|i: int, j: int| 0 <= i < j < items.len() implies {
        let a = #[trigger] items[i];
        let b = #[trigger] items[j];
        a.source_registry_uuid@ != b.source_registry_uuid@ || a.source_rule_id@
            != b.source_rule_id@
    } by {
        assert(key(items[i]) != key(items[j]));
    }
}

proof fn lemma_kept_apart<T, K>(s: Seq<T>, p: spec_fn(T) -> bool, key: spec_fn(T) -> K)
    requires
        forall|i: int, j: int|
            0 <= i < j < s.len() && p(s[i]) && p(s[j]) ==> key(#[trigger] s[i]) != key(
                #[trigger] s[j],
            ),
    ensures
        tables::distinct_by(tables::kept(s, p), key),
    decreases s.len(),
{
    if s.len() > 0 {
        let rest = s.drop_last();
        lemma_kept_apart(rest, p, key);
        tables::lemma_kept(rest, p);
        let k = tables::kept(rest, p);
        if p(s.last()) {
            let all = k.push(s.last());
            assert forall|i: int, j: int| 0 <= i < j < all.len() implies key(#[trigger] all[i])
                != key(#[trigger] all[j]) by {
                if j == k.len() {
                    assert(rest.contains(k[i]));
                    let m = choose|m: int| 0 <= m < rest.len() && rest[m] == k[i];
                    assert(s[m] == k[i]);
                    assert(s[s.len() - 1] == s.last());
                }
            }
        }
    }
}

/// Nothing leaves with a bundle that a rule reserves: where any active rule is for all
/// boards, or excepts one, or is for a board that was not requested, or holds what looks
/// like a secret, there is no bundle.
pub proof fn law_no_bundle_reaches_further(
    reg: Registry,
    r: Result<RuleTransferBundle, Error>,
    actor: Seq<char>,
    requested: Seq<Seq<char>>,
    readable: Seq<Seq<char>>,
    audit: AuditReport,
    now: i64,
    k: int,
    tag: Seq<char>,
)
    requires
        transfer::exported(reg, r, actor, requested, readable, audit, now),
        r is Ok,
        0 <= k < reg.rules@.len(),
        !reg.rules@[k].archived,
        text::texts(reg.rules@[k].tags@).contains(tag),
    ensures
        tag != "ALL"@,
        forall|name: Seq<char>| tag != #[trigger] ("EXCEPT:"@ + name),
        forall|name: Seq<char>| tag == #[trigger] ("ONLY:"@ + name) ==> requested.contains(name),
        !rules::carries_secret(outside::lowercase(reg.rules@[k].body@)),
        audit.healthy,
        text::trimmed(actor).len() > 0,
{
    let x = reg.rules@[k];
    let tags = text::texts(x.tags@);
    let boards = ranking::sorted_texts(requested);
    let own = text::trimmed(reg.registry_uuid->0@);
    let listed = reg.listed_rules(false);
    let views = rulebook::rule_views(listed);
    rule_laws::law_rules_are_listed(reg, false);
    ranking::law_sorted_texts(requested);
    assert(reg.rules@.contains(x));
    assert(listed.contains(x));
    let m = choose|m: int| 0 <= m < listed.len() && listed[m] == x;
    let of = lemma_export(views, boards, own);
    assert(views[m] == x@);
    assert(transfer::export_refusal(views[m], boards, own) is None);
    let i = choose|i: int| 0 <= i < tags.len() && tags[i] == tag;
    assert(!transfer::is_unbounded(tags[i]));
    assert forall|name: Seq<char>| tag != #[trigger] ("EXCEPT:"@ + name) by {
        if tag == "EXCEPT:"@ + name {
            assert(tag.subrange(0, "EXCEPT:"@.len() as int) =~= "EXCEPT:"@);
        }
    }
    let q = transfer::reaches_out(boards);
    tables::lemma_first_index(tags, q);
    assert(!q(tags[i]));
    assert forall|name: Seq<char>| tag == #[trigger] ("ONLY:"@ + name) implies requested.contains(
        name,
    ) by {
        assert(tag.subrange(0, "ONLY:"@.len() as int) =~= "ONLY:"@);
        assert(tag.skip("ONLY:"@.len() as int) =~= name);
        assert(text::stripped_prefix(tag, "ONLY:"@) == Some(name));
        assert(boards.contains(name));
    }
}

// ---------------------------------------------------------------------------- import

/// The rule is what an item says, under an id of this registry.
pub open spec fn is_rule_of(x: Rule, item: RuleTransferItem) -> bool {
    &&& x.source_registry_uuid matches Some(uuid) && uuid@ == item.source_registry_uuid@
    &&& x.source_rule_id matches Some(id) && id@ == item.source_rule_id@
    &&& x.source_content_sha256 matches Some(print) && print@ == item.source_content_sha256@
    &&& match (x.source_board, item.source_board) {
        (Some(a), Some(b)) => a@ == b@,
        (None, None) => true,
        _ => false,
    }
    &&& x.body@ == item.body@
    &&& x.author@ == item.author@
    &&& x.archived == item.archived
    &&& x.created_at == item.created_at
    &&& x.updated_at == item.updated_at
    &&& text::texts(x.tags@) == text::texts(item.tags@)
}

spec fn is_view_of(v: RuleView, item: ItemView) -> bool {
    &&& v.source_registry_uuid == Some(item.source_registry_uuid)
    &&& v.source_rule_id == Some(item.source_rule_id)
    &&& v.source_content_sha256 == Some(item.source_content_sha256)
    &&& v.source_board == item.source_board
    &&& v.body == item.body
    &&& v.author == item.author
    &&& v.archived == item.archived
    &&& v.created_at == item.created_at
    &&& v.updated_at == item.updated_at
    &&& v.tags == item.tags
}

/// The ledger says that an item is a rule, as the item was.
spec fn is_row_of(l: LedgerView, item: ItemView, id: Seq<char>) -> bool {
    &&& l.source_registry_uuid == item.source_registry_uuid
    &&& l.source_rule_id == item.source_rule_id
    &&& l.source_content_sha256 == item.source_content_sha256
    &&& l.destination_rule_id == id
}

spec fn key_of(item: ItemView) -> (Seq<char>, Seq<char>) {
    (item.source_registry_uuid, item.source_rule_id)
}

/// The item was there, or is staged in a place, and is in the ledger then.
spec fn is_staged(st: Import, c: ImportContext, item: ItemView, k: int) -> bool {
    let known = c.rules.len();
    &&& 0 <= k < known + st.rules.len()
    &&& k < known ==> is_view_of(c.rules[k]@, item) && ((exists|l: int|
        0 <= l < c.ledger.len() && is_row_of((#[trigger] c.ledger[l])@, item, c.rules[k].id@))
        || exists|l: int|
        0 <= l < st.ledger.len() && is_row_of(#[trigger] st.ledger[l], item, c.rules[k].id@))
    &&& k >= known ==> {
        &&& is_view_of(st.rules[k - known], item)
        &&& st.rules[k - known].source_boards == Some(item.source_boards)
        &&& exists|l: int|
            0 <= l < st.ledger.len() && is_row_of(
                #[trigger] st.ledger[l],
                item,
                st.rules[k - known].id,
            )
    }
}

proof fn lemma_staged(items: Seq<ItemView>, c: ImportContext, n: int) -> (k: int)
    requires
        import::import_items(items, c) is Ok,
        0 <= n < items.len(),
    ensures
        is_staged(import::import_items(items, c)->Ok_0, c, items[n], k),
        (exists|j: int|
            0 <= j < c.rules.len() && text::text_of(
                (#[trigger] c.rules[j]).source_registry_uuid,
            ) == Some(items[n].source_registry_uuid) && text::text_of(c.rules[j].source_rule_id)
                == Some(items[n].source_rule_id)) ==> k < c.rules.len(),
    decreases items.len(),
{
    let rest = items.drop_last();
    let before = import::import_items(rest, c)->Ok_0;
    let st = import::import_items(items, c)->Ok_0;
    let known = c.rules.len() as int;
    if n < items.len() - 1 {
        let k = lemma_staged(rest, c, n);
        let item = items[n];
        assert(rest[n] == item);
        if k < known {
            if exists|l: int|
                0 <= l < before.ledger.len() && is_row_of(
                    #[trigger] before.ledger[l],
                    item,
                    c.rules[k].id@,
                ) {
                let l = choose|l: int|
                    0 <= l < before.ledger.len() && is_row_of(
                        #[trigger] before.ledger[l],
                        item,
                        c.rules[k].id@,
                    );
                assert(st.ledger[l] == before.ledger[l]);
            }
        } else {
            let l = choose|l: int|
                0 <= l < before.ledger.len() && is_row_of(
                    #[trigger] before.ledger[l],
                    item,
                    before.rules[k - known].id,
                );
            assert(st.ledger[l] == before.ledger[l]);
            assert(st.rules[k - known] == before.rules[k - known]);
        }
        k
    } else {
        let item = items[n];
        assert(items.last() == item);
        let p = import::rule_from(item.source_registry_uuid, item.source_rule_id);
        let q = import::ledger_from(item.source_registry_uuid, item.source_rule_id);
        tables::lemma_first_index(c.rules, p);
        tables::lemma_first_index(c.ledger, q);
        let at = tables::first_index(c.rules, p);
        let row = tables::first_index(c.ledger, q);
        if at < known {
            assert(p(c.rules[at]));
            if row < c.ledger.len() {
                assert(q(c.ledger[row]));
                assert(is_row_of(c.ledger[row]@, item, c.rules[at].id@));
            } else {
                assert(is_row_of(st.ledger[st.ledger.len() - 1], item, c.rules[at].id@));
            }
            at
        } else {
            let k = known + before.rules.len();
            assert(is_row_of(
                st.ledger[st.ledger.len() - 1],
                item,
                st.rules[before.rules.len() as int].id,
            ));
            assert forall|j: int| 0 <= j < c.rules.len() implies !(text::text_of(
                (#[trigger] c.rules[j]).source_registry_uuid,
            ) == Some(item.source_registry_uuid) && text::text_of(c.rules[j].source_rule_id)
                == Some(item.source_rule_id)) by {
                assert(!p(c.rules[j]));
            }
            k
        }
    }
}

/// Every staged rule is that of an item, with an event that tells of it, and no two are of
/// one item.
proof fn lemma_all_staged(items: Seq<ItemView>, c: ImportContext)
    requires
        import::import_items(items, c) is Ok,
    ensures
        ({
            let st = import::import_items(items, c)->Ok_0;
            &&& st.seen == items.map_values(|i: ItemView| key_of(i))
            &&& forall|i: int, j: int|
                0 <= i < j < items.len() ==> key_of(#[trigger] items[i]) != key_of(
                    #[trigger] items[j],
                )
            &&& st.rules.len() + st.already == items.len()
            &&& st.events.len() == st.rules.len()
            &&& forall|k: int|
                0 <= k < st.rules.len() ==> {
                    let e = st.events[k];
                    &&& e.subject == (#[trigger] st.rules[k]).id
                    &&& e.kind == "rule_imported"@
                    &&& e.actor == c.actor
                    &&& e.at == c.now
                }
            &&& forall|k: int|
                0 <= k < st.rules.len() ==> exists|i: int|
                    0 <= i < items.len() && is_view_of(
                        #[trigger] st.rules[k],
                        #[trigger] items[i],
                    )
            &&& forall|l: int|
                0 <= l < st.ledger.len() ==> (#[trigger] st.ledger[l]).imported_by == c.actor
                    && st.ledger[l].imported_at == c.now
        }),
    decreases items.len(),
{
    let st = import::import_items(items, c)->Ok_0;
    let keys = items.map_values(|i: ItemView| key_of(i));
    if items.len() == 0 {
        assert(st.seen =~= keys);
    } else {
        let rest = items.drop_last();
        let before = import::import_items(rest, c)->Ok_0;
        lemma_all_staged(rest, c);
        assert(keys =~= rest.map_values(|i: ItemView| key_of(i)).push(key_of(items.last())));
        assert forall|i: int, j: int| 0 <= i < j < items.len() implies key_of(#[trigger] items[i])
            != key_of(#[trigger] items[j]) by {
            if j == items.len() - 1 {
                assert(before.seen[i] == key_of(rest[i]));
                assert(rest[i] == items[i]);
                assert(before.seen.contains(key_of(items[i])));
            } else {
                assert(rest[i] == items[i] && rest[j] == items[j]);
            }
        }
        assert forall|k: int| 0 <= k < st.rules.len() implies exists|i: int|
            0 <= i < items.len() && is_view_of(#[trigger] st.rules[k], #[trigger] items[i]) by {
            if k < before.rules.len() {
                assert(st.rules[k] == before.rules[k]);
                let i = choose|i: int|
                    0 <= i < rest.len() && is_view_of(before.rules[k], #[trigger] rest[i]);
                assert(items[i] == rest[i]);
            } else {
                assert(is_view_of(st.rules[k], items[items.len() - 1]));
            }
        }
        assert forall|k: int| 0 <= k < st.rules.len() implies {
            let e = st.events[k];
            &&& e.subject == (#[trigger] st.rules[k]).id
            &&& e.kind == "rule_imported"@
            &&& e.actor == c.actor
            &&& e.at == c.now
        } by {
            if k < before.rules.len() {
                assert(st.rules[k] == before.rules[k]);
                assert(st.events[k] == before.events[k]);
            }
        }
        assert forall|l: int| 0 <= l < st.ledger.len() implies (
        #[trigger] st.ledger[l]).imported_by == c.actor && st.ledger[l].imported_at == c.now by {
            if l < before.ledger.len() {
                assert(st.ledger[l] == before.ledger[l]);
            }
        }
    }
}

/// The ledger holds a row that says which rule an item is.
pub open spec fn is_recorded(ledger: Seq<LedgerRow>, item: RuleTransferItem, id: Seq<char>) -> bool {
    exists|l: int|
        0 <= l < ledger.len() && (#[trigger] ledger[l]).source_registry_uuid@
            == item.source_registry_uuid@ && ledger[l].source_rule_id@ == item.source_rule_id@
            && ledger[l].source_content_sha256@ == item.source_content_sha256@
            && ledger[l].destination_rule_id@ == id
}

/// Each item of a bundle that was taken in is a rule of the registry that says what the item
/// says, the one that it had where it had it, and the ledger says which.
pub proof fn law_each_item_is_a_rule(
    pre: Registry,
    post: Registry,
    r: Result<RuleTransferReport, Error>,
    actor: Seq<char>,
    bundle: RuleTransferBundle,
    readable: Seq<Seq<char>>,
    n: int,
) -> (k: int)
    requires
        import::rules_drawn(pre, post, r, actor, bundle, readable),
        r is Ok,
        0 <= n < bundle.rules@.len(),
    ensures
        0 <= k < post.rules@.len(),
        is_rule_of(post.rules@[k], bundle.rules@[n]),
        is_recorded(post.ledger@, bundle.rules@[n], post.rules@[k].id@),
        (exists|j: int|
            0 <= j < pre.rules@.len() && is_rule_of(
                #[trigger] pre.rules@[j],
                bundle.rules@[n],
            )) ==> k < pre.rules@.len(),
        k >= pre.rules@.len() ==> (post.rules@[k].source_boards matches Some(list) && text::texts(
            list@,
        ) == text::texts(bundle.rules@[n].source_boards@)),
{
    let (ids, now) = choose|ids: Seq<Seq<char>>, now: i64| #[trigger]
        import::rules_imported(pre, post, r, actor, bundle, readable, ids, now);
    let items = transfer::item_views(bundle.rules@);
    let c = pre.import_context(actor, bundle, ids, now);
    let st = import::import_items(items, c)->Ok_0;
    let item = bundle.rules@[n];
    let known = pre.rules@.len() as int;
    let rows = pre.ledger@.len() as int;
    assert(items[n] == item@);
    let k = lemma_staged(items, c, n);
    if k < known {
        assert(post.rules@.take(known)[k] == post.rules@[k]);
        let id = pre.rules@[k].id@;
        if exists|l: int| 0 <= l < c.ledger.len() && is_row_of((#[trigger] c.ledger[l])@, item@, id) {
            let l = choose|l: int|
                0 <= l < c.ledger.len() && is_row_of((#[trigger] c.ledger[l])@, item@, id);
            assert(post.ledger@.take(rows)[l] == post.ledger@[l]);
            assert(post.ledger@[l].destination_rule_id@ == id);
        } else {
            let l = choose|l: int|
                0 <= l < st.ledger.len() && is_row_of(#[trigger] st.ledger[l], item@, id);
            lemma_ledger_row(post.ledger@, rows, st.ledger, l);
            assert(post.ledger@[rows + l].destination_rule_id@ == id);
        }
    } else {
        let m = k - known;
        let views = rulebook::rule_views(post.rules@.skip(known));
        assert(views.len() == st.rules.len());
        assert(views[m] == post.rules@.skip(known)[m]@);
        assert(post.rules@.skip(known)[m] == post.rules@[k]);
        let l = choose|l: int|
            0 <= l < st.ledger.len() && is_row_of(
                #[trigger] st.ledger[l],
                item@,
                st.rules[m].id,
            );
        lemma_ledger_row(post.ledger@, rows, st.ledger, l);
        assert(post.ledger@[rows + l].destination_rule_id@ == post.rules@[k].id@);
    }
    k
}

proof fn lemma_ledger_row(ledger: Seq<LedgerRow>, rows: int, staged: Seq<LedgerView>, l: int)
    requires
        0 <= rows <= ledger.len(),
        transfer::ledger_views(ledger.skip(rows)) == staged,
        0 <= l < staged.len(),
    ensures
        rows + l < ledger.len(),
        ledger[rows + l]@ == staged[l],
{
    let views = transfer::ledger_views(ledger.skip(rows));
    assert(views.len() == ledger.skip(rows).len());
    assert(views[l] == ledger.skip(rows)[l]@);
}

/// A bundle that was taken in leaves every rule as it is. The rules that the registry has
/// more are those that are counted as imported; each is that of an item of the bundle and
/// has an event that tells of it, and there is no other event. No two items come from one
/// place, and each was imported or was there.
pub proof fn law_import_only_adds(
    pre: Registry,
    post: Registry,
    r: Result<RuleTransferReport, Error>,
    actor: Seq<char>,
    bundle: RuleTransferBundle,
    readable: Seq<Seq<char>>,
)
    requires
        import::rules_drawn(pre, post, r, actor, bundle, readable),
        r is Ok,
    ensures
        post.rules@.len() - pre.rules@.len() == r->Ok_0.imported_rules,
        r->Ok_0.imported_rules + r->Ok_0.already_imported_rules == bundle.rules@.len(),
        post.boards == pre.boards && post.roots == pre.roots && post.migrations == pre.migrations,
        forall|k: int| 0 <= k < pre.rules@.len() ==> #[trigger] post.rules@[k] == pre.rules@[k],
        forall|k: int| 0 <= k < pre.ledger@.len() ==> #[trigger] post.ledger@[k] == pre.ledger@[k],
        forall|k: int| 0 <= k < pre.events@.len() ==> #[trigger] post.events@[k] == pre.events@[k],
        forall|k: int|
            pre.rules@.len() <= k < post.rules@.len() ==> comes_with(
                #[trigger] post.rules@[k],
                bundle,
            ),
        forall|i: int, j: int|
            0 <= i < j < bundle.rules@.len() ==> {
                let a = #[trigger] bundle.rules@[i];
                let b = #[trigger] bundle.rules@[j];
                a.source_registry_uuid@ != b.source_registry_uuid@ || a.source_rule_id@
                    != b.source_rule_id@
            },
        post.events@.len() - pre.events@.len() == post.rules@.len() - pre.rules@.len(),
        forall|k: int|
            pre.rules@.len() <= k < post.rules@.len() ==> {
                let e = post.events@[pre.events@.len() + k - pre.rules@.len()];
                &&& e.rule_id@ == (#[trigger] post.rules@[k]).id@
                &&& e.kind@ == "rule_imported"@
                &&& e.actor@ == text::trimmed(actor)
            },
        forall|l: int|
            pre.ledger@.len() <= l < post.ledger@.len() ==> (
            #[trigger] post.ledger@[l]).imported_by@ == text::trimmed(actor),
{
    let (ids, now) = choose|ids: Seq<Seq<char>>, now: i64| #[trigger]
        import::rules_imported(pre, post, r, actor, bundle, readable, ids, now);
    let items = transfer::item_views(bundle.rules@);
    let c = pre.import_context(actor, bundle, ids, now);
    let st = import::import_items(items, c)->Ok_0;
    let known = pre.rules@.len() as int;
    let rows = pre.ledger@.len() as int;
    let old = pre.events@.len() as int;
    lemma_all_staged(items, c);
    assert(items.len() == bundle.rules@.len());
    let views = rulebook::rule_views(post.rules@.skip(known));
    assert forall|k: int| 0 <= k < known implies #[trigger] post.rules@[k] == pre.rules@[k] by {
        assert(post.rules@.take(known)[k] == post.rules@[k]);
    }
    assert forall|k: int| 0 <= k < rows implies #[trigger] post.ledger@[k] == pre.ledger@[k] by {
        assert(post.ledger@.take(rows)[k] == post.ledger@[k]);
    }
    assert forall|k: int| 0 <= k < old implies #[trigger] post.events@[k] == pre.events@[k] by {
        assert(post.events@.take(old)[k] == post.events@[k]);
    }
    assert forall|k: int| known <= k < post.rules@.len() implies comes_with(
        #[trigger] post.rules@[k],
        bundle,
    ) by {
        let m = k - known;
        assert(views[m] == post.rules@.skip(known)[m]@);
        assert(post.rules@.skip(known)[m] == post.rules@[k]);
        let i = choose|i: int|
            0 <= i < items.len() && is_view_of(st.rules[m], #[trigger] items[i]);
        assert(items[i] == bundle.rules@[i]@);
        assert(is_rule_of(post.rules@[k], bundle.rules@[i]));
    }
    assert forall|i: int, j: int| 0 <= i < j < bundle.rules@.len() implies {
        let a = #[trigger] bundle.rules@[i];
        let b = #[trigger] bundle.rules@[j];
        a.source_registry_uuid@ != b.source_registry_uuid@ || a.source_rule_id@
            != b.source_rule_id@
    } by {
        assert(items[i] == bundle.rules@[i]@ && items[j] == bundle.rules@[j]@);
        assert(key_of(items[i]) != key_of(items[j]));
    }
    assert forall|k: int| known <= k < post.rules@.len() implies {
        let e = post.events@[old + k - known];
        &&& e.rule_id@ == (#[trigger] post.rules@[k]).id@
        &&& e.kind@ == "rule_imported"@
        &&& e.actor@ == text::trimmed(actor)
    } by {
        let m = k - known;
        assert(views[m] == post.rules@.skip(known)[m]@);
        assert(post.rules@.skip(known)[m] == post.rules@[k]);
        assert(st.events[m].subject == st.rules[m].id);
    }
    assert forall|l: int| rows <= l < post.ledger@.len() implies (
    #[trigger] post.ledger@[l]).imported_by@ == text::trimmed(actor) by {
        lemma_ledger_row(post.ledger@, rows, st.ledger, l - rows);
        assert(st.ledger[l - rows].imported_by == c.actor);
    }
}

/// The rule is that of an item of the bundle.
pub open spec fn comes_with(x: Rule, bundle: RuleTransferBundle) -> bool {
    exists|i: int| 0 <= i < bundle.rules@.len() && is_rule_of(x, #[trigger] bundle.rules@[i])
}

proof fn lemma_passes(items: Seq<ItemView>, uuid: Seq<char>, boards: Seq<Seq<char>>, i: int)
    requires
        0 <= i < items.len(),
        import::items_refusal(items, uuid, boards) is None,
    ensures
        import::item_refusal(items[i], uuid, boards) is None,
    decreases items.len(),
{
    if i < items.len() - 1 {
        lemma_passes(items.drop_last(), uuid, boards, i);
    }
}

/// Nothing is taken in that a bundle may not bring: every item of a bundle that was taken in
/// is active, comes from the registry that the bundle names, is for boards of the bundle
/// alone and for its own board among them, holds nothing that looks like a secret, and has
/// the fingerprint of what it says.
pub proof fn law_imported_items_are_sound(
    pre: Registry,
    post: Registry,
    r: Result<RuleTransferReport, Error>,
    actor: Seq<char>,
    bundle: RuleTransferBundle,
    readable: Seq<Seq<char>>,
    n: int,
)
    requires
        import::rules_drawn(pre, post, r, actor, bundle, readable),
        r is Ok,
        0 <= n < bundle.rules@.len(),
    ensures
        ({
            let item = bundle.rules@[n];
            let tags = text::texts(item.tags@);
            let boards = text::texts(bundle.source_boards@);
            &&& !item.archived
            &&& item.source_registry_uuid@ == bundle.source_registry_uuid@
            &&& text::texts(item.source_boards@) == boards
            &&& item.source_board matches Some(board) && boards.contains(board@)
                && rules::selectors_apply(tags, Some(board@))
            &&& !tags.contains("ALL"@)
            &&& forall|name: Seq<char>| !tags.contains(#[trigger] ("EXCEPT:"@ + name))
            &&& forall|name: Seq<char>|
                tags.contains(#[trigger] ("ONLY:"@ + name)) ==> boards.contains(name)
            &&& !rules::carries_secret(outside::lowercase(item.body@))
            &&& item.source_content_sha256@ == rules::fingerprint(
                item.source_registry_uuid@,
                item.source_rule_id@,
                item.body@,
                item.author@,
                item.archived,
                item.created_at,
                item.updated_at,
                tags,
            )
        }),
        bundle.format_version == 1,
        bundle.source_registry_audit.healthy,
        text::trimmed(actor).len() > 0,
        text::trimmed(bundle.exported_by@).len() > 0,
        r->Ok_0.source_registry_uuid@ == bundle.source_registry_uuid@,
        r->Ok_0.source_registry_audit_head@ == bundle.source_registry_audit.head@,
        r->Ok_0.destination_boards_verified == bundle.source_boards@.len(),
{
    let (ids, now) = choose|ids: Seq<Seq<char>>, now: i64| #[trigger]
        import::rules_imported(pre, post, r, actor, bundle, readable, ids, now);
    let items = transfer::item_views(bundle.rules@);
    let item = bundle.rules@[n];
    let tags = text::texts(item.tags@);
    let boards = text::texts(bundle.source_boards@);
    assert(items[n] == item@);
    lemma_passes(items, bundle.source_registry_uuid@, boards, n);
    assert(!tags.contains("ALL"@)) by {
        if tags.contains("ALL"@) {
            let i = choose|i: int| 0 <= i < tags.len() && tags[i] == "ALL"@;
            assert(transfer::is_unbounded(tags[i]));
        }
    }
    assert forall|name: Seq<char>| !tags.contains(#[trigger] ("EXCEPT:"@ + name)) by {
        if tags.contains("EXCEPT:"@ + name) {
            let i = choose|i: int| 0 <= i < tags.len() && tags[i] == "EXCEPT:"@ + name;
            assert(tags[i].subrange(0, "EXCEPT:"@.len() as int) =~= "EXCEPT:"@);
            assert(transfer::is_unbounded(tags[i]));
        }
    }
    let q = transfer::reaches_out(boards);
    tables::lemma_first_index(tags, q);
    assert forall|name: Seq<char>|
        tags.contains(#[trigger] ("ONLY:"@ + name)) implies boards.contains(name) by {
        let i = choose|i: int| 0 <= i < tags.len() && tags[i] == "ONLY:"@ + name;
        assert(tags[i].subrange(0, "ONLY:"@.len() as int) =~= "ONLY:"@);
        assert(tags[i].skip("ONLY:"@.len() as int) =~= name);
        assert(!q(tags[i]));
    }
}

// ---------------------------------------------------------------------------- the bundle

/// A bundle says who made it and when, of which registry, that its audit is sound, and of
/// which boards: just those asked for, each once, in order, each active and readable. Its
/// items stand in order of where they come from.
pub proof fn law_bundle_says_where_it_comes_from(
    reg: Registry,
    r: Result<RuleTransferBundle, Error>,
    actor: Seq<char>,
    requested: Seq<Seq<char>>,
    readable: Seq<Seq<char>>,
    audit: AuditReport,
    now: i64,
)
    requires
        transfer::exported(reg, r, actor, requested, readable, audit, now),
        r is Ok,
    ensures
        r->Ok_0.format_version == 1,
        r->Ok_0.exported_by@ == text::trimmed(actor) && text::trimmed(actor).len() > 0,
        r->Ok_0.exported_at == now,
        reg.registry_uuid matches Some(own) && r->Ok_0.source_registry_uuid@ == text::trimmed(own@),
        r->Ok_0.source_registry_audit == audit && audit.healthy,
        r->Ok_0.source_boards@.len() == requested.len(),
        forall|i: int|
            0 <= i < requested.len() ==> text::texts(r->Ok_0.source_boards@).contains(
                #[trigger] requested[i],
            ),
        forall|i: int, j: int|
            0 <= i < j < r->Ok_0.source_boards@.len() ==> text::text_less(
                (#[trigger] r->Ok_0.source_boards@[i])@,
                (#[trigger] r->Ok_0.source_boards@[j])@,
            ),
        forall|i: int|
            0 <= i < requested.len() ==> is_open_board(reg, #[trigger] requested[i], readable),
        forall|i: int, j: int|
            0 <= i < j < r->Ok_0.rules@.len() ==> !stands_behind(
                #[trigger] r->Ok_0.rules@[i],
                #[trigger] r->Ok_0.rules@[j],
            ),
{
    broadcast use vstd::seq_lib::group_to_multiset_ensures;

    let names = ranking::sorted_texts(requested);
    let shown = text::texts(r->Ok_0.source_boards@);
    ranking::law_sorted_texts(requested);
    lookup_laws::lemma_transfer(reg, requested, readable);
    assert(shown.len() == r->Ok_0.source_boards@.len());
    assert forall|i: int| 0 <= i < requested.len() implies shown.contains(
        #[trigger] requested[i],
    ) by {
        assert(requested.contains(requested[i]));
        assert(names.to_multiset().count(requested[i]) == requested.to_multiset().count(
            requested[i],
        ));
    }
    assert forall|i: int| 0 <= i < requested.len() implies is_open_board(
        reg,
        #[trigger] requested[i],
        readable,
    ) by {
        let name = requested[i];
        assert(reg.transfer_board_refusal(requested[i], readable) is None);
        let active = reg.named_boards(name, false);
        let named = tables::kept(reg.boards@, tables::board_named(name, false));
        assert(active.contains(active[0]));
        listing::lemma_ranked_contains(named, active[0]);
        listing::lemma_kept_contains(reg.boards@, tables::board_named(name, false), active[0]);
        let m = choose|m: int| 0 <= m < reg.boards@.len() && reg.boards@[m] == active[0];
        assert(reg.boards@[m].name@ == name);
    }
    ranking::law_sorted_strictly(requested);
    assert forall|i: int, j: int| 0 <= i < j < r->Ok_0.source_boards@.len() implies text::text_less(
        (#[trigger] r->Ok_0.source_boards@[i])@,
        (#[trigger] r->Ok_0.source_boards@[j])@,
    ) by {
        assert(shown[i] == r->Ok_0.source_boards@[i]@ && shown[j] == r->Ok_0.source_boards@[j]@);
    }
    let unsorted = choose|unsorted: Seq<RuleTransferItem>|
        r->Ok_0.rules@ == #[trigger] ranking::ranked(unsorted);
    ranking::law_ranked(unsorted);
    assert forall|i: int, j: int| 0 <= i < j < r->Ok_0.rules@.len() implies !stands_behind(
        #[trigger] r->Ok_0.rules@[i],
        #[trigger] r->Ok_0.rules@[j],
    ) by {
        let a = r->Ok_0.rules@[i];
        let b = r->Ok_0.rules@[j];
        assert(!b.before(a));
        text::lemma_text_order(a.source_rule_id@, a.source_rule_id@, a.source_rule_id@);
        if a.source_board is Some {
            let x = a.source_board->0@;
            text::lemma_text_order(x, x, x);
        }
    }
}

/// One active board of that name is there, and its file can be read.
pub open spec fn is_open_board(reg: Registry, name: Seq<char>, readable: Seq<Seq<char>>) -> bool {
    exists|m: int|
        0 <= m < reg.boards@.len() && (#[trigger] reg.boards@[m]).name@ == name
            && !reg.boards@[m].archived && readable.contains(reg.boards@[m].board_path@)
}

/// The first item belongs behind the other: its source is a board where the other's is none,
/// or a later board; or the source is the same and its id is later.
pub open spec fn stands_behind(a: RuleTransferItem, b: RuleTransferItem) -> bool {
    match (a.source_board, b.source_board) {
        (Some(x), None) => true,
        (None, Some(y)) => false,
        (Some(x), Some(y)) => text::text_less(y@, x@) || (x@ == y@ && text::text_less(
            b.source_rule_id@,
            a.source_rule_id@,
        )),
        (None, None) => text::text_less(b.source_rule_id@, a.source_rule_id@),
    }
}

} // verus!
