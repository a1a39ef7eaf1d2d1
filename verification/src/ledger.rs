//! The ledger of imported rules: each of its rows belongs to a rule of the registry, and
//! stays with it.

use vstd::prelude::*;

use crate::consolidation;
use crate::consolidation::Consolidation;
use crate::consolidation::ConsolidationContext;
use crate::consolidation::NamedBoard;
use crate::consolidation::SourceState;
use crate::import;
use crate::import::ImportContext;
use crate::rulebook;
use crate::rulebook::RuleView;
use crate::tables;
use crate::tables::LegacyRule;
use crate::tables::Registry;
use crate::transfer;
use crate::transfer::ItemView;

verus! {

/// Rows of the ledger that belonged to a rule of the registry, or are new, belong to one.
pub open spec fn keeps_ledger(pre: Registry, post: Registry) -> bool {
    tables::ledger_backed(pre.ledger@, pre.rules@) ==> tables::ledger_backed(
        post.ledger@,
        post.rules@,
    )
}

/// Every rule still says in its place where it comes from.
pub open spec fn keeps_sources(before: Seq<RuleView>, after: Seq<RuleView>) -> bool {
    &&& before.len() <= after.len()
    &&& forall|i: int|
        0 <= i < before.len() ==> (#[trigger] after[i]).source_registry_uuid
            == before[i].source_registry_uuid && after[i].source_rule_id
            == before[i].source_rule_id
}

proof fn lemma_backed(pre: Registry, post: Registry, n: int)
    requires
        keeps_sources(rulebook::rule_views(pre.rules@), rulebook::rule_views(post.rules@)),
        tables::ledger_backed(pre.ledger@, pre.rules@),
        0 <= n < pre.ledger@.len(),
    ensures
        tables::first_index(
            post.rules@,
            import::rule_from(
                pre.ledger@[n].source_registry_uuid@,
                pre.ledger@[n].source_rule_id@,
            ),
        ) < post.rules@.len(),
{
    let q = import::rule_from(
        pre.ledger@[n].source_registry_uuid@,
        pre.ledger@[n].source_rule_id@,
    );
    tables::lemma_first_index(pre.rules@, q);
    tables::lemma_first_index(post.rules@, q);
    let i = tables::first_index(pre.rules@, q);
    assert(q(pre.rules@[i]));
    assert(rulebook::rule_views(post.rules@)[i] == post.rules@[i]@);
    assert(rulebook::rule_views(pre.rules@)[i] == pre.rules@[i]@);
    assert(q(post.rules@[i]));
}

/// An operation that leaves the ledger alone and no rule without its source.
pub(crate) proof fn lemma_ledger_stays(pre: Registry, post: Registry)
    requires
        keeps_sources(rulebook::rule_views(pre.rules@), rulebook::rule_views(post.rules@)),
        post.ledger == pre.ledger,
    ensures
        keeps_ledger(pre, post),
{
    if tables::ledger_backed(pre.ledger@, pre.rules@) {
        assert forall|n: int| 0 <= n < post.ledger@.len() implies tables::first_index(
            post.rules@,
            import::rule_from(
                (#[trigger] post.ledger@[n]).source_registry_uuid@,
                post.ledger@[n].source_rule_id@,
            ),
        ) < post.rules@.len() by {
            lemma_backed(pre, post, n);
        }
    }
}

pub(crate) proof fn lemma_merge_keeps_sources(rules: Seq<RuleView>, legacy: Seq<LegacyRule>)
    ensures
        keeps_sources(rules, consolidation::merge_all_legacy(rules, legacy).rules),
    decreases legacy.len(),
{
    if legacy.len() > 0 {
        lemma_merge_keeps_sources(rules, legacy.drop_last());
        let st = consolidation::merge_all_legacy(rules, legacy.drop_last());
        tables::lemma_first_index(st.rules, consolidation::view_at(legacy.last().id@));
    }
}

proof fn lemma_rules_keep_sources(
    st: Consolidation,
    sources: Seq<RuleView>,
    board: Seq<char>,
    path: Seq<char>,
    c: ConsolidationContext,
)
    ensures
        keeps_sources(
            st.rules,
            consolidation::consolidate_rules(st, sources, board, path, c).rules,
        ),
    decreases sources.len(),
{
    if sources.len() > 0 {
        lemma_rules_keep_sources(st, sources.drop_last(), board, path, c);
    }
}

pub(crate) proof fn lemma_boards_keep_sources(
    st: Consolidation,
    boards: Seq<NamedBoard>,
    c: ConsolidationContext,
)
    ensures
        keeps_sources(st.rules, consolidation::consolidate_boards(st, boards, c).rules),
    decreases boards.len(),
{
    if boards.len() > 0 {
        let before = consolidation::consolidate_boards(st, boards.drop_last(), c);
        let board = boards.last();
        lemma_boards_keep_sources(st, boards.drop_last(), c);
        let i = tables::first_index(c.sources, consolidation::source_at(board.board_path@));
        if i < c.sources.len() {
            match c.sources[i].state {
                SourceState::Rules(rules) => {
                    lemma_rules_keep_sources(
                        before,
                        rulebook::rule_views(rules@),
                        board.name@,
                        board.board_path@,
                        c,
                    );
                },
                _ => {},
            }
        }
    }
}

/// A row that an import adds to the ledger belongs to a rule that was there or that it
/// adds.
proof fn lemma_staged_backed(items: Seq<ItemView>, c: ImportContext, n: int)
    requires
        import::import_items(items, c) is Ok,
        0 <= n < import::import_items(items, c)->Ok_0.ledger.len(),
    ensures
        ({
            let st = import::import_items(items, c)->Ok_0;
            let row = st.ledger[n];
            ||| tables::first_index(
                c.rules,
                import::rule_from(row.source_registry_uuid, row.source_rule_id),
            ) < c.rules.len()
            ||| exists|k: int|
                0 <= k < st.rules.len() && (#[trigger] st.rules[k]).source_registry_uuid == Some(
                    row.source_registry_uuid,
                ) && st.rules[k].source_rule_id == Some(row.source_rule_id)
        }),
    decreases items.len(),
{
    if items.len() > 0 {
        let rest = items.drop_last();
        let before = import::import_items(rest, c)->Ok_0;
        let st = import::import_items(items, c)->Ok_0;
        if n < before.ledger.len() {
            lemma_staged_backed(rest, c, n);
            let row = before.ledger[n];
            assert(st.ledger[n] == row);
            if !(tables::first_index(
                c.rules,
                import::rule_from(row.source_registry_uuid, row.source_rule_id),
            ) < c.rules.len()) {
                let k = choose|k: int|
                    0 <= k < before.rules.len() && (#[trigger] before.rules[k]).source_registry_uuid
                        == Some(row.source_registry_uuid) && before.rules[k].source_rule_id == Some(
                        row.source_rule_id,
                    );
                assert(st.rules[k] == before.rules[k]);
            }
        } else if st.rules.len() > before.rules.len() {
            let k = before.rules.len() as int;
            assert(st.rules[k].source_registry_uuid == Some(st.ledger[n].source_registry_uuid));
        }
    }
}

pub(crate) proof fn lemma_import_backed(
    pre: Registry,
    post: Registry,
    items: Seq<ItemView>,
    c: ImportContext,
)
    requires
        c.rules == pre.rules@,
        import::import_items(items, c) is Ok,
        ({
            let st = import::import_items(items, c)->Ok_0;
            &&& post.rules@.len() == pre.rules@.len() + st.rules.len()
            &&& post.rules@.take(pre.rules@.len() as int) == pre.rules@
            &&& rulebook::rule_views(post.rules@.skip(pre.rules@.len() as int)) == st.rules
            &&& post.ledger@.len() == pre.ledger@.len() + st.ledger.len()
            &&& post.ledger@.take(pre.ledger@.len() as int) == pre.ledger@
            &&& transfer::ledger_views(post.ledger@.skip(pre.ledger@.len() as int)) == st.ledger
        }),
    ensures
        keeps_ledger(pre, post),
{
    let st = import::import_items(items, c)->Ok_0;
    let n = pre.rules@.len() as int;
    let m = pre.ledger@.len() as int;
    assert(keeps_sources(rulebook::rule_views(pre.rules@), rulebook::rule_views(post.rules@))) by {
        assert forall|i: int| 0 <= i < n implies post.rules@[i] == #[trigger] pre.rules@[i] by {
            assert(post.rules@.take(n)[i] == post.rules@[i]);
        }
    }
    if tables::ledger_backed(pre.ledger@, pre.rules@) {
        assert forall|l: int| 0 <= l < post.ledger@.len() implies tables::first_index(
            post.rules@,
            import::rule_from(
                (#[trigger] post.ledger@[l]).source_registry_uuid@,
                post.ledger@[l].source_rule_id@,
            ),
        ) < post.rules@.len() by {
            let q = import::rule_from(
                post.ledger@[l].source_registry_uuid@,
                post.ledger@[l].source_rule_id@,
            );
            tables::lemma_first_index(post.rules@, q);
            if l < m {
                assert(post.ledger@.take(m)[l] == post.ledger@[l]);
                lemma_backed(pre, post, l);
            } else {
                let row = st.ledger[l - m];
                assert(post.ledger@.skip(m)[l - m] == post.ledger@[l]);
                assert(row == post.ledger@[l]@);
                lemma_staged_backed(items, c, l - m);
                if tables::first_index(pre.rules@, q) < n {
                    tables::lemma_first_index(pre.rules@, q);
                    let i = tables::first_index(pre.rules@, q);
                    assert(post.rules@.take(n)[i] == post.rules@[i]);
                    assert(q(post.rules@[i]));
                } else {
                    let k = choose|k: int|
                        0 <= k < st.rules.len() && (#[trigger] st.rules[k]).source_registry_uuid
                            == Some(row.source_registry_uuid) && st.rules[k].source_rule_id
                            == Some(row.source_rule_id);
                    assert(post.rules@.skip(n)[k] == post.rules@[n + k]);
                    assert(st.rules[k] == post.rules@[n + k]@);
                    assert(q(post.rules@[n + k]));
                }
            }
        }
    }
}

} // verus!
