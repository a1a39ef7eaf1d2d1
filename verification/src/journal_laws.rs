//! The journal of a registry: whatever is done, what was recorded stays, and a refusal
//! records nothing.

use vstd::prelude::*;

use crate::adoption;
use crate::adoption::PreparedAdoption;
use crate::attachment;
use crate::consolidation;
use crate::consolidation::BoardSource;
use crate::consolidation::ConsolidationContext;
use crate::consolidation::RetirementView;
use crate::consolidation_ids;
use crate::import;
use crate::ledger;
use crate::ranking;
use crate::retirement;
use crate::rule_history;
use crate::rule_history::Change;
use crate::rulebook;
use crate::rules::Rule;
use crate::rules::RuleMigrationReport;
use crate::rules::RuleTransferBundle;
use crate::rules::RuleTransferReport;
use crate::tables;
use crate::tables::EntryView;
use crate::tables::Registry;
use crate::text;
use crate::text::Error;
use crate::transfer;
use crate::workspace::ProjectRecord;
use crate::workspace::UnreachableRoot;
use crate::workspace::WorkspaceAdoptReceipt;
use crate::workspace::WorkspaceRecord;
use crate::workspace_ops;

verus! {

/// Every recorded event is still recorded, in its place; new ones are numbered on from
/// the last, so that the history stays in the order of its numbers.
pub open spec fn keeps_journal(pre: Registry, post: Registry) -> bool {
    &&& tables::numbered_on(pre.events@, post.events@)
    &&& tables::in_sequence(pre.events@) ==> tables::in_sequence(post.events@)
}

/// The journal as it was, or with one more event.
proof fn lemma_journal(pre: Registry, post: Registry)
    requires
        post.events@ == pre.events@ || {
            &&& post.events@ == pre.events@.push(post.events@.last())
            &&& post.events@.last().seq == tables::next_seq(pre.events@)
        },
    ensures
        keeps_journal(pre, post),
{
    let before = pre.events@;
    let after = post.events@;
    assert(after.subrange(0, before.len() as int) =~= before);
    assert(after.take(before.len() as int) =~= before);
    if tables::in_sequence(before) {
        tables::lemma_numbered_on(before, after);
    }
}

/// The journal with several more events.
proof fn lemma_journal_more(pre: Registry, post: Registry, entries: Seq<EntryView>)
    requires
        tables::all_audited(pre.events@, post.events@, entries),
    ensures
        keeps_journal(pre, post),
{
    let before = pre.events@;
    let after = post.events@;
    assert(after.subrange(0, before.len() as int) =~= after.take(before.len() as int));
    assert forall|k: int| before.len() <= k < after.len() implies (#[trigger] after[k]).seq
        == tables::next_seq(after.take(k)) by {
        let e = entries[k - before.len()];
        assert(after[before.len() + (k - before.len())] == after[k]);
    }
    if tables::in_sequence(before) {
        tables::lemma_numbered_on(before, after);
    }
}

/// Registering keeps the journal.
pub proof fn law_register_keeps_the_journal(
    pre: Registry,
    post: Registry,
    r: Result<ProjectRecord, Error>,
    workspace: Option<Seq<char>>,
    name: Seq<char>,
    force: bool,
    actor: Seq<char>,
    file: Seq<char>,
    now: i64,
)
    requires
        workspace_ops::registered(pre, post, r, workspace, name, force, actor, file, now),
    ensures
        keeps_journal(pre, post),
        ledger::keeps_ledger(pre, post),
        r is Err ==> post.events@ == pre.events@,
{
    lemma_journal(pre, post);
    ledger::lemma_ledger_stays(pre, post);
}

/// Adopting keeps the journal.
pub proof fn law_adopt_keeps_the_journal(
    pre: Registry,
    post: Registry,
    r: Result<WorkspaceAdoptReceipt, Error>,
    prepared: PreparedAdoption,
    root: Option<Seq<char>>,
    rootless: bool,
    actor: Seq<char>,
    digest: (String, u64),
    file: Seq<char>,
    now: i64,
)
    requires
        adoption::adopted(pre, post, r, prepared, root, rootless, actor, digest, file, now),
    ensures
        keeps_journal(pre, post),
        ledger::keeps_ledger(pre, post),
        r is Err ==> post.events@ == pre.events@,
{
    lemma_journal(pre, post);
    ledger::lemma_ledger_stays(pre, post);
}

/// Attaching keeps the journal.
pub proof fn law_attach_keeps_the_journal(
    pre: Registry,
    post: Registry,
    r: Result<WorkspaceRecord, Error>,
    root: Seq<char>,
    target: Seq<char>,
    target_path: Seq<char>,
    actor: Seq<char>,
    now: i64,
)
    requires
        attachment::attach_outcome(pre, post, r, root, target, target_path, actor, now),
    ensures
        keeps_journal(pre, post),
        ledger::keeps_ledger(pre, post),
        r is Err ==> post.events@ == pre.events@,
{
    lemma_journal(pre, post);
    ledger::lemma_ledger_stays(pre, post);
}

/// Repointing keeps the journal.
pub proof fn law_repoint_keeps_the_journal(
    pre: Registry,
    post: Registry,
    r: Result<UnreachableRoot, Error>,
    root: Seq<char>,
    lead: Option<Seq<char>>,
    actor: Seq<char>,
    now: i64,
)
    requires
        attachment::repointed(pre, post, r, root, lead, actor, now),
    ensures
        keeps_journal(pre, post),
        ledger::keeps_ledger(pre, post),
        r is Err ==> post.events@ == pre.events@,
{
    lemma_journal(pre, post);
    ledger::lemma_ledger_stays(pre, post);
}

/// Detaching keeps the journal.
pub proof fn law_detach_keeps_the_journal(
    pre: Registry,
    post: Registry,
    r: Result<WorkspaceRecord, Error>,
    root: Seq<char>,
    actor: Seq<char>,
    now: i64,
)
    requires
        retirement::detached(pre, post, r, root, actor, now),
    ensures
        keeps_journal(pre, post),
        ledger::keeps_ledger(pre, post),
        r is Err ==> post.events@ == pre.events@,
{
    lemma_journal(pre, post);
    ledger::lemma_ledger_stays(pre, post);
}

/// Retiring a project keeps the journal.
pub proof fn law_retire_keeps_the_journal(
    pre: Registry,
    post: Registry,
    r: Result<ProjectRecord, Error>,
    name: Seq<char>,
    actor: Seq<char>,
    note: Seq<char>,
    retirement_id: Seq<char>,
    now: i64,
)
    requires
        retirement::retired(pre, post, r, name, actor, note, retirement_id, now),
    ensures
        keeps_journal(pre, post),
        ledger::keeps_ledger(pre, post),
        r is Err ==> post.events@ == pre.events@,
{
    lemma_journal(pre, post);
    ledger::lemma_ledger_stays(pre, post);
}

/// Bringing a project back keeps the journal.
pub proof fn law_unretire_keeps_the_journal(
    pre: Registry,
    post: Registry,
    r: Result<ProjectRecord, Error>,
    name: Seq<char>,
    actor: Seq<char>,
    now: i64,
)
    requires
        retirement::unretired(pre, post, r, name, actor, now),
    ensures
        keeps_journal(pre, post),
        ledger::keeps_ledger(pre, post),
        r is Err ==> post.events@ == pre.events@,
{
    lemma_journal(pre, post);
    ledger::lemma_ledger_stays(pre, post);
}

/// Adding a rule keeps the journal.
pub proof fn law_add_rule_keeps_the_journal(
    pre: Registry,
    post: Registry,
    r: Result<Rule, Error>,
    body: Seq<char>,
    actor: Seq<char>,
    tags: Seq<Seq<char>>,
    id: Seq<char>,
    now: i64,
)
    requires
        rulebook::rule_added(pre, post, r, body, actor, tags, id, now),
    ensures
        keeps_journal(pre, post),
        ledger::keeps_ledger(pre, post),
        r is Err ==> post.events@ == pre.events@,
{
    lemma_journal(pre, post);
    ledger::lemma_ledger_stays(pre, post);
}

/// Changing a rule keeps the journal.
pub proof fn law_update_rule_keeps_the_journal(
    pre: Registry,
    post: Registry,
    r: Result<Rule, Error>,
    id: Seq<char>,
    change: Change,
    actor: Seq<char>,
    now: i64,
)
    requires
        rule_history::rule_updated(pre, post, r, id, change, actor, now),
    ensures
        keeps_journal(pre, post),
        ledger::keeps_ledger(pre, post),
        r is Err ==> post.events@ == pre.events@,
{
    lemma_journal(pre, post);
    ledger::lemma_ledger_stays(pre, post);
}

/// Retiring a rule keeps the journal.
pub proof fn law_retire_rule_keeps_the_journal(
    pre: Registry,
    post: Registry,
    r: Result<Rule, Error>,
    id: Seq<char>,
    actor: Seq<char>,
    now: i64,
)
    requires
        rulebook::rule_retired(pre, post, r, id, actor, now),
    ensures
        keeps_journal(pre, post),
        ledger::keeps_ledger(pre, post),
        r is Err ==> post.events@ == pre.events@,
{
    lemma_journal(pre, post);
    ledger::lemma_ledger_stays(pre, post);
}

/// An import keeps the journal.
pub proof fn law_import_keeps_the_journal(
    pre: Registry,
    post: Registry,
    r: Result<RuleTransferReport, Error>,
    actor: Seq<char>,
    bundle: RuleTransferBundle,
    readable: Seq<Seq<char>>,
    ids: Seq<Seq<char>>,
    now: i64,
)
    requires
        import::rules_imported(pre, post, r, actor, bundle, readable, ids, now),
    ensures
        keeps_journal(pre, post),
        ledger::keeps_ledger(pre, post),
        r is Err ==> post.events@ == pre.events@,
{
    let items = transfer::item_views(bundle.rules@);
    let c = pre.import_context(actor, bundle, ids, now);
    if r is Ok {
        let st = import::import_items(items, c)->Ok_0;
        lemma_journal_more(pre, post, st.events);
        ledger::lemma_import_backed(pre, post, items, c);
    } else {
        lemma_journal(pre, post);
        ledger::lemma_ledger_stays(pre, post);
    }
}

/// A consolidation keeps the journal, also where it fails: what it took over before that
/// stays recorded.
pub proof fn law_consolidation_keeps_the_journal(
    pre: Registry,
    post: Registry,
    r: Result<RuleMigrationReport, Error>,
    retirements: Seq<RetirementView>,
    actor: Seq<char>,
    sources: Seq<BoardSource>,
    ids: Seq<Seq<char>>,
    now: i64,
)
    requires
        consolidation::rules_consolidated(
            pre,
            post,
            r,
            retirements,
            actor,
            sources,
            ids,
            now,
        ),
    ensures
        keeps_journal(pre, post),
        ledger::keeps_ledger(pre, post),
{
    let by = text::trimmed(actor);
    if by.len() == 0 {
        lemma_journal(pre, post);
        ledger::lemma_ledger_stays(pre, post);
    } else {
        let (mid, done, report) = choose|
            mid: Registry,
            done: Result<(), Error>,
            report: RuleMigrationReport,
        |
            {
                &&& #[trigger] consolidation::legacy_consolidated(
                    pre,
                    mid,
                    done,
                    by,
                    consolidation::empty_report(),
                    report,
                    now,
                )
                &&& match done {
                    Err(e) => post == mid && retirements.len() == 0 && text::refused(r, e.message@),
                    Ok(_) => consolidation::boards_consolidated(
                        mid,
                        post,
                        r,
                        report,
                        retirements,
                        by,
                        sources,
                        ids,
                        now,
                    ),
                }
            };
        lemma_legacy_keeps(pre, mid, done, by, report, now);
        if done is Ok {
            lemma_boards_keep(mid, post, r, report, retirements, by, sources, ids, now);
            tables::lemma_numbered_further(pre.events@, mid.events@, post.events@);
        }
    }
}

/// An import that draws its ids keeps the journal.
pub proof fn law_drawn_import_keeps_the_journal(
    pre: Registry,
    post: Registry,
    r: Result<RuleTransferReport, Error>,
    actor: Seq<char>,
    bundle: RuleTransferBundle,
    readable: Seq<Seq<char>>,
)
    requires
        import::rules_drawn(pre, post, r, actor, bundle, readable),
    ensures
        keeps_journal(pre, post),
        ledger::keeps_ledger(pre, post),
        r is Err ==> post.events@ == pre.events@,
{
    let needed = import::ids_needed(transfer::item_views(bundle.rules@), pre.rules@);
    if pre.bundle_refusal(actor, bundle, readable) is None && !rulebook::is_exhausted(
        pre.rules@.len(),
        needed,
    ) {
        let (ids, now) = choose|ids: Seq<Seq<char>>, now: i64| #[trigger]
            import::rules_imported(pre, post, r, actor, bundle, readable, ids, now);
        law_import_keeps_the_journal(pre, post, r, actor, bundle, readable, ids, now);
    } else {
        lemma_journal(pre, post);
        ledger::lemma_ledger_stays(pre, post);
    }
}

/// A consolidation that draws its ids keeps the journal, also where it fails.
pub proof fn law_drawn_consolidation_keeps_the_journal(
    pre: Registry,
    post: Registry,
    r: Result<RuleMigrationReport, Error>,
    retirements: Seq<RetirementView>,
    actor: Seq<char>,
    sources: Seq<BoardSource>,
)
    requires
        consolidation::rules_drawn(pre, post, r, retirements, actor, sources),
    ensures
        keeps_journal(pre, post),
        ledger::keeps_ledger(pre, post),
{
    let by = text::trimmed(actor);
    if by.len() == 0 {
        lemma_journal(pre, post);
        ledger::lemma_ledger_stays(pre, post);
    } else {
        let (mid, done, report, now) = choose|
            mid: Registry,
            done: Result<(), Error>,
            report: RuleMigrationReport,
            now: i64,
        |
            {
                &&& #[trigger] consolidation::legacy_consolidated(
                    pre,
                    mid,
                    done,
                    by,
                    consolidation::empty_report(),
                    report,
                    now,
                )
                &&& match done {
                    Err(e) => post == mid && retirements.len() == 0 && text::refused(r, e.message@),
                    Ok(_) => consolidation::boards_drawn(
                        pre,
                        mid,
                        post,
                        r,
                        report,
                        retirements,
                        by,
                        sources,
                        now,
                    ),
                }
            };
        lemma_legacy_keeps(pre, mid, done, by, report, now);
        if done is Ok && !rulebook::is_exhausted(
            consolidation::all_ids(pre, sources).len(),
            consolidation_ids::ids_needed(mid, sources),
        ) {
            let ids = choose|ids: Seq<Seq<char>>| #[trigger]
                consolidation::boards_consolidated(
                    mid,
                    post,
                    r,
                    report,
                    retirements,
                    by,
                    sources,
                    ids,
                    now,
                );
            lemma_boards_keep(mid, post, r, report, retirements, by, sources, ids, now);
            tables::lemma_numbered_further(pre.events@, mid.events@, post.events@);
        }
    }
}

proof fn lemma_legacy_keeps(
    pre: Registry,
    post: Registry,
    done: Result<(), Error>,
    actor: Seq<char>,
    report: RuleMigrationReport,
    now: i64,
)
    requires
        consolidation::legacy_consolidated(
            pre,
            post,
            done,
            actor,
            consolidation::empty_report(),
            report,
            now,
        ),
    ensures
        keeps_journal(pre, post),
        ledger::keeps_ledger(pre, post),
{
    if consolidation::is_marked(
        consolidation::migration_views(pre.migrations@),
        consolidation::LEGACY_SOURCE@,
    ) {
        lemma_journal(pre, post);
    } else {
        let rules = rulebook::rule_views(pre.rules@);
        let legacy = ranking::ranked(pre.legacy_rules@);
        ledger::lemma_merge_keeps_sources(rules, legacy);
        if done is Ok {
            lemma_journal_more(
                pre,
                post,
                consolidation::missing_events(
                    consolidation::event_entries(pre.events@),
                    consolidation::legacy_entries(pre.legacy_events@),
                ),
            );
        } else {
            lemma_journal(pre, post);
        }
    }
    ledger::lemma_ledger_stays(pre, post);
}

proof fn lemma_boards_keep(
    pre: Registry,
    post: Registry,
    r: Result<RuleMigrationReport, Error>,
    report: RuleMigrationReport,
    retirements: Seq<RetirementView>,
    actor: Seq<char>,
    sources: Seq<BoardSource>,
    ids: Seq<Seq<char>>,
    now: i64,
)
    requires
        consolidation::boards_consolidated(
            pre,
            post,
            r,
            report,
            retirements,
            actor,
            sources,
            ids,
            now,
        ),
    ensures
        keeps_journal(pre, post),
        ledger::keeps_ledger(pre, post),
{
    let c = ConsolidationContext { boards: pre.boards@, sources, ids, actor, now };
    let start = consolidation::consolidation_start(pre);
    let order = consolidation::board_order(pre.boards@);
    ledger::lemma_boards_keep_sources(start, order, c);
    lemma_journal_more(pre, post, consolidation::consolidate_boards(start, order, c).entries);
    ledger::lemma_ledger_stays(pre, post);
}

/// Auditing a change of the registry as a whole keeps the journal.
pub proof fn law_system_event_keeps_the_journal(
    pre: Registry,
    post: Registry,
    r: Result<(), Error>,
    kind: Seq<char>,
    actor: Seq<char>,
    payload: Seq<char>,
    now: i64,
)
    requires
        rule_history::system_event(pre, post, r, kind, actor, payload, now),
    ensures
        keeps_journal(pre, post),
        ledger::keeps_ledger(pre, post),
        r is Err ==> post.events@ == pre.events@,
{
    lemma_journal(pre, post);
    ledger::lemma_ledger_stays(pre, post);
}

} // verus!
