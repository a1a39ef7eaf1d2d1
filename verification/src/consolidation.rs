//! Consolidating rules that boards and the former global table hold into the
//! registry's own.

use vstd::prelude::*;

use crate::clock;
use crate::consolidation_ids;
use crate::consolidation_ids::Pending;
use crate::consolidation_ids::PendingOver;
use crate::json;
use crate::ledger;
use crate::outside;
use crate::ranking;
use crate::ranking::Ranked;
use crate::rulebook;
use crate::rulebook::RuleView;
use crate::rules;
use crate::rules::Rule;
use crate::rules::RuleMigrationReport;
use crate::tables;
use crate::tables::BoardRow;
use crate::tables::Entry;
use crate::tables::EntryView;
use crate::tables::EventRow;
use crate::tables::LegacyEvent;
use crate::tables::LegacyRule;
use crate::tables::MigrationRow;
use crate::tables::Registry;
use crate::text;
use crate::text::Error;

verus! {

/// What the former global table is marked as once it is consolidated.
pub const LEGACY_SOURCE: &'static str = "registry:global_rules";

pub const LEGACY_NAME: &'static str = "legacy-registry";

// ------------------------------------------------------------------------- views

/// What the mark of a consolidated source says.
pub struct MigrationView {
    pub board_path: Seq<char>,
    pub board_name: Seq<char>,
    pub source_count: nat,
    pub actor: Seq<char>,
    pub migrated_at: i64,
}

impl View for MigrationRow {
    type V = MigrationView;

    open spec fn view(&self) -> MigrationView {
        MigrationView {
            board_path: self.board_path@,
            board_name: self.board_name@,
            source_count: self.source_count as nat,
            actor: self.actor@,
            migrated_at: self.migrated_at,
        }
    }
}

pub open spec fn migration_views(s: Seq<MigrationRow>) -> Seq<MigrationView> {
    s.map_values(|m: MigrationRow| m@)
}

pub open spec fn is_marked(marks: Seq<MigrationView>, path: Seq<char>) -> bool {
    exists|i: int| 0 <= i < marks.len() && (#[trigger] marks[i]).board_path == path
}

pub(crate) fn find_mark(marks: &[MigrationRow], path: &str) -> (r: bool)
    ensures
        r == is_marked(migration_views(marks@), path@),
{
    let ghost views = migration_views(marks@);
    let mut i: usize = 0;
    while i < marks.len()
        invariant
            i <= marks@.len(),
            views == migration_views(marks@),
            forall|k: int| 0 <= k < i ==> (#[trigger] views[k]).board_path != path@,
        decreases marks.len() - i,
    {
        if text::same(marks[i].board_path.as_str(), path) {
            proof {
                assert(views[i as int].board_path == path@);
            }
            return true;
        }
        i = i + 1;
    }
    false
}

/// Legacy rules stand from the oldest on, then by id.
impl Ranked for LegacyRule {
    open spec fn before(self, other: Self) -> bool {
        if self.created_at != other.created_at {
            self.created_at < other.created_at
        } else {
            text::text_less(self.id@, other.id@)
        }
    }

    proof fn lemma_order(a: Self, b: Self, c: Self) {
        text::lemma_text_order(a.id@, b.id@, c.id@);
        text::lemma_text_order(b.id@, c.id@, a.id@);
        text::lemma_text_order(c.id@, a.id@, b.id@);
        text::lemma_text_order(c.id@, b.id@, a.id@);
        text::lemma_text_order(a.id@, c.id@, b.id@);
    }

    fn is_before(&self, other: &Self) -> (r: bool) {
        if self.created_at != other.created_at {
            self.created_at < other.created_at
        } else {
            text::less(self.id.as_str(), other.id.as_str())
        }
    }
}

impl Clone for LegacyRule {
    fn clone(&self) -> (r: Self)
        ensures
            r == *self,
    {
        LegacyRule {
            id: self.id.clone(),
            body: self.body.clone(),
            author: self.author.clone(),
            archived: self.archived,
            created_at: self.created_at,
            updated_at: self.updated_at,
            board_tags: self.board_tags.clone(),
            task_tags: self.task_tags.clone(),
        }
    }
}

// --------------------------------------------------------------------- legacy rules

pub open spec fn view_at(id: Seq<char>) -> spec_fn(RuleView) -> bool {
    |r: RuleView| r.id == id
}

/// Rules merged with legacy rules so far.
pub struct LegacyMerge {
    pub rules: Seq<RuleView>,
    pub imported: nat,
    pub updated: nat,
    pub failed: Option<Seq<char>>,
}

/// The tags of a legacy rule: those of boards, then those of tasks.
pub open spec fn legacy_tags(rule: LegacyRule) -> Result<Seq<Seq<char>>, Seq<char>> {
    match outside::json_strings(rule.board_tags@) {
        Err(m) => Err(m),
        Ok(boards) => match outside::json_strings(rule.task_tags@) {
            Err(m) => Err(m),
            Ok(tasks) => Ok(boards + tasks),
        },
    }
}

/// One more legacy rule: new, newer than what is known, or known.
pub open spec fn merge_legacy(st: LegacyMerge, rule: LegacyRule) -> LegacyMerge {
    if st.failed is Some {
        st
    } else {
        match legacy_tags(rule) {
            Err(m) => LegacyMerge { failed: Some(m), ..st },
            Ok(tags) => {
                let i = tables::first_index(st.rules, view_at(rule.id@));
                if i >= st.rules.len() {
                    LegacyMerge {
                        rules: st.rules.push(
                            RuleView {
                                id: rule.id@,
                                body: rule.body@,
                                author: rule.author@,
                                archived: rule.archived,
                                created_at: rule.created_at,
                                updated_at: rule.updated_at,
                                tags,
                                source_board: None,
                                source_rule_id: None,
                                source_registry_uuid: None,
                                source_boards: None,
                                source_content_sha256: None,
                            },
                        ),
                        imported: st.imported + 1,
                        ..st
                    }
                } else if rule.updated_at > st.rules[i].updated_at {
                    LegacyMerge {
                        rules: st.rules.update(
                            i,
                            RuleView {
                                body: rule.body@,
                                author: rule.author@,
                                archived: rule.archived,
                                updated_at: rule.updated_at,
                                tags,
                                ..st.rules[i]
                            },
                        ),
                        updated: st.updated + 1,
                        ..st
                    }
                } else {
                    st
                }
            },
        }
    }
}

pub open spec fn merge_all_legacy(rules: Seq<RuleView>, legacy: Seq<LegacyRule>) -> LegacyMerge
    decreases legacy.len(),
{
    if legacy.len() == 0 {
        LegacyMerge { rules, imported: 0, updated: 0, failed: None }
    } else {
        merge_legacy(merge_all_legacy(rules, legacy.drop_last()), legacy.last())
    }
}

proof fn lemma_merge_stays(rules: Seq<RuleView>, legacy: Seq<LegacyRule>, n: int)
    requires
        0 <= n <= legacy.len(),
    ensures
        merge_all_legacy(rules, legacy.take(n)).failed is Some ==> merge_all_legacy(rules, legacy)
            == merge_all_legacy(rules, legacy.take(n)),
    decreases legacy.len(),
{
    if n < legacy.len() {
        lemma_merge_stays(rules, legacy.drop_last(), n);
        assert(legacy.drop_last().take(n) =~= legacy.take(n));
    } else {
        assert(legacy.take(n) =~= legacy);
    }
}

proof fn lemma_merge_bounds(rules: Seq<RuleView>, legacy: Seq<LegacyRule>)
    ensures
        merge_all_legacy(rules, legacy).imported + merge_all_legacy(rules, legacy).updated
            <= legacy.len(),
    decreases legacy.len(),
{
    if legacy.len() > 0 {
        lemma_merge_bounds(rules, legacy.drop_last());
    }
}

pub open spec fn distinct_ids(s: Seq<RuleView>) -> bool {
    forall|i: int, j: int| 0 <= i < j < s.len() ==> (#[trigger] s[i]).id != (#[trigger] s[j]).id
}

proof fn lemma_merge_distinct(rules: Seq<RuleView>, legacy: Seq<LegacyRule>)
    requires
        distinct_ids(rules),
    ensures
        distinct_ids(merge_all_legacy(rules, legacy).rules),
    decreases legacy.len(),
{
    if legacy.len() > 0 {
        lemma_merge_distinct(rules, legacy.drop_last());
        let st = merge_all_legacy(rules, legacy.drop_last());
        let id = legacy.last().id@;
        tables::lemma_first_index(st.rules, view_at(id));
        let next = merge_legacy(st, legacy.last()).rules;
        assert forall|i: int, j: int| 0 <= i < j < next.len() implies (#[trigger] next[i]).id != (
        #[trigger] next[j]).id by {
            if j == st.rules.len() {
                assert(!view_at(id)(st.rules[i]));
            } else {
                assert(st.rules[i].id != st.rules[j].id);
            }
        }
    }
}

pub(crate) fn find_view(all: &[Rule], id: &str) -> (r: usize)
    ensures
        r == tables::first_index(rulebook::rule_views(all@), view_at(id@)),
        r <= all@.len(),
{
    let ghost views = rulebook::rule_views(all@);
    let mut i: usize = 0;
    while i < all.len()
        invariant
            i <= all@.len(),
            views == rulebook::rule_views(all@),
            forall|k: int| 0 <= k < i ==> !view_at(id@)(#[trigger] views[k]),
        decreases all.len() - i,
    {
        if text::same(all[i].id.as_str(), id) {
            proof {
                tables::lemma_first_index_is(views, view_at(id@), i as int);
            }
            return i;
        }
        i = i + 1;
    }
    proof {
        tables::lemma_first_index_is(views, view_at(id@), i as int);
    }
    i
}

fn read_legacy_tags(rule: &LegacyRule) -> (r: Result<Vec<String>, Error>)
    ensures
        match legacy_tags(*rule) {
            Err(m) => text::refused(r, m),
            Ok(tags) => r is Ok && text::texts(r->Ok_0@) == tags,
        },
{
    let mut boards = match outside::read_json_strings(rule.board_tags.as_str()) {
        Ok(boards) => boards,
        Err(m) => {
            return text::refuse(m);
        },
    };
    let mut tasks = match outside::read_json_strings(rule.task_tags.as_str()) {
        Ok(tasks) => tasks,
        Err(m) => {
            return text::refuse(m);
        },
    };
    let ghost a = boards@;
    let ghost b = tasks@;
    boards.append(&mut tasks);
    proof {
        assert(text::texts(boards@) =~= text::texts(a) + text::texts(b));
    }
    Ok(boards)
}

/// How many rules a merge added and changed.
struct MergeCounts {
    imported: usize,
    updated: usize,
}

/// Merge one legacy rule into the rules.
fn merge_one(
    all: &mut Vec<Rule>,
    rule: &LegacyRule,
    counts: &mut MergeCounts,
    Ghost(st): Ghost<LegacyMerge>,
) -> (r: Result<(), Error>)
    requires
        rulebook::rule_views(old(all)@) == st.rules,
        st.failed is None,
        old(counts).imported == st.imported,
        old(counts).updated == st.updated,
        st.imported + st.updated < usize::MAX,
    ensures
        rulebook::rule_views(final(all)@) == merge_legacy(st, *rule).rules,
        final(counts).imported == merge_legacy(st, *rule).imported,
        final(counts).updated == merge_legacy(st, *rule).updated,
        match merge_legacy(st, *rule).failed {
            Some(m) => text::refused(r, m),
            None => r is Ok,
        },
{
    let tags = match read_legacy_tags(rule) {
        Ok(tags) => tags,
        Err(e) => {
            return Err(e);
        },
    };
    let i: usize = find_view(all.as_slice(), rule.id.as_str());
    let ghost before = all@;
    if i >= all.len() {
        let new_rule = Rule {
            id: rule.id.clone(),
            body: rule.body.clone(),
            author: rule.author.clone(),
            archived: rule.archived,
            created_at: rule.created_at,
            updated_at: rule.updated_at,
            tags,
            source_board: None,
            source_rule_id: None,
            source_registry_uuid: None,
            source_boards: None,
            source_content_sha256: None,
        };
        all.push(new_rule);
        proof {
            assert(rulebook::rule_views(all@) =~= st.rules.push(new_rule@));
        }
        counts.imported = counts.imported + 1;
        return Ok(());
    }
    proof {
        assert(st.rules[i as int] == before[i as int]@);
    }
    if rule.updated_at > all[i].updated_at {
        let mut changed = rulebook::copy_rule(&all[i]);
        changed.body = rule.body.clone();
        changed.author = rule.author.clone();
        changed.archived = rule.archived;
        changed.updated_at = rule.updated_at;
        changed.tags = tags;
        all.set(i, changed);
        proof {
            assert(rulebook::rule_views(all@) =~= st.rules.update(i as int, changed@));
        }
        counts.updated = counts.updated + 1;
    }
    Ok(())
}

fn merge_rules(all: &mut Vec<Rule>, legacy: &[LegacyRule], counts: &mut MergeCounts) -> (r: Result<
    (),
    Error,
>)
    requires
        old(counts).imported == 0,
        old(counts).updated == 0,
    ensures
        ({
            let merge = merge_all_legacy(rulebook::rule_views(old(all)@), legacy@);
            &&& rulebook::rule_views(final(all)@) == merge.rules
            &&& final(counts).imported == merge.imported
            &&& final(counts).updated == merge.updated
            &&& match merge.failed {
                Some(m) => text::refused(r, m),
                None => r is Ok,
            }
        }),
{
    let ghost first = rulebook::rule_views(all@);
    let mut i: usize = 0;
    proof {
        assert(legacy@.take(0) =~= Seq::<LegacyRule>::empty());
    }
    while i < legacy.len()
        invariant
            i <= legacy@.len(),
            first == rulebook::rule_views(old(all)@),
            rulebook::rule_views(all@) == merge_all_legacy(first, legacy@.take(i as int)).rules,
            counts.imported == merge_all_legacy(first, legacy@.take(i as int)).imported,
            counts.updated == merge_all_legacy(first, legacy@.take(i as int)).updated,
            merge_all_legacy(first, legacy@.take(i as int)).failed is None,
        decreases legacy.len() - i,
    {
        let ghost st = merge_all_legacy(first, legacy@.take(i as int));
        proof {
            assert(legacy@.take(i as int + 1).drop_last() =~= legacy@.take(i as int));
            assert(legacy@.take(i as int + 1).last() == legacy@[i as int]);
            lemma_merge_bounds(first, legacy@.take(i as int));
            lemma_merge_stays(first, legacy@, i as int + 1);
        }
        match merge_one(all, &legacy[i], counts, Ghost(st)) {
            Ok(_) => {},
            Err(e) => {
                return Err(e);
            },
        }
        i = i + 1;
    }
    proof {
        assert(legacy@.take(legacy@.len() as int) =~= legacy@);
    }
    Ok(())
}

// -------------------------------------------------------------------- legacy events

pub open spec fn legacy_entry(e: LegacyEvent) -> EntryView {
    EntryView {
        subject: e.rule_id@,
        kind: e.kind@,
        actor: e.actor@,
        payload: e.payload@,
        at: e.created_at,
    }
}

pub open spec fn event_entry(e: EventRow) -> EntryView {
    EntryView {
        subject: e.rule_id@,
        kind: e.kind@,
        actor: e.actor@,
        payload: e.payload@,
        at: e.created_at,
    }
}

pub open spec fn legacy_entries(s: Seq<LegacyEvent>) -> Seq<EntryView> {
    s.map_values(|e: LegacyEvent| legacy_entry(e))
}

pub open spec fn event_entries(s: Seq<EventRow>) -> Seq<EntryView> {
    s.map_values(|e: EventRow| event_entry(e))
}

/// How often `e` occurs.
pub open spec fn occurrences(s: Seq<EntryView>, e: EntryView) -> nat
    decreases s.len(),
{
    if s.len() == 0 {
        0
    } else {
        occurrences(s.drop_last(), e) + (if s.last() == e {
            1nat
        } else {
            0nat
        })
    }
}

proof fn lemma_occurrences_push(s: Seq<EntryView>, x: EntryView, e: EntryView)
    ensures
        occurrences(s.push(x), e) == occurrences(s, e) + (if x == e {
            1nat
        } else {
            0nat
        }),
{
    assert(s.push(x).drop_last() =~= s);
}

/// The legacy events that the history lacks, counting repetitions.
pub open spec fn missing_events(known: Seq<EntryView>, legacy: Seq<EntryView>) -> Seq<EntryView>
    decreases legacy.len(),
{
    if legacy.len() == 0 {
        seq![]
    } else {
        let done = missing_events(known, legacy.drop_last());
        let e = legacy.last();
        if occurrences(known, e) + occurrences(done, e) < occurrences(legacy, e) {
            done.push(e)
        } else {
            done
        }
    }
}

/// Each legacy event is in the history as often as it was there or in the former
/// table, whichever is more.
pub proof fn law_events_keep_their_multiplicity(
    known: Seq<EntryView>,
    legacy: Seq<EntryView>,
    e: EntryView,
)
    ensures
        occurrences(known, e) + occurrences(missing_events(known, legacy), e) == if occurrences(
            known,
            e,
        ) >= occurrences(legacy, e) {
            occurrences(known, e)
        } else {
            occurrences(legacy, e)
        },
    decreases legacy.len(),
{
    if legacy.len() > 0 {
        let done = missing_events(known, legacy.drop_last());
        law_events_keep_their_multiplicity(known, legacy.drop_last(), e);
        lemma_occurrences_push(done, legacy.last(), e);
    }
}

fn is_entry(e: &LegacyEvent, other: &LegacyEvent) -> (r: bool)
    ensures
        r == (legacy_entry(*e) == legacy_entry(*other)),
{
    text::same(e.rule_id.as_str(), other.rule_id.as_str()) && text::same(
        e.kind.as_str(),
        other.kind.as_str(),
    ) && text::same(e.actor.as_str(), other.actor.as_str()) && text::same(
        e.payload.as_str(),
        other.payload.as_str(),
    ) && e.created_at == other.created_at
}

fn count_legacy(list: &[LegacyEvent], n: usize, e: &LegacyEvent) -> (r: usize)
    requires
        n <= list@.len(),
    ensures
        r == occurrences(legacy_entries(list@.take(n as int)), legacy_entry(*e)),
{
    let ghost wanted = legacy_entry(*e);
    let mut count: usize = 0;
    let mut i: usize = 0;
    while i < n
        invariant
            i <= n <= list@.len(),
            wanted == legacy_entry(*e),
            count <= i,
            count == occurrences(legacy_entries(list@.take(i as int)), wanted),
        decreases n - i,
    {
        proof {
            assert(legacy_entries(list@.take(i as int + 1)) =~= legacy_entries(
                list@.take(i as int),
            ).push(legacy_entry(list@[i as int])));
            lemma_occurrences_push(
                legacy_entries(list@.take(i as int)),
                legacy_entry(list@[i as int]),
                wanted,
            );
        }
        if is_entry(&list[i], e) {
            count = count + 1;
        }
        i = i + 1;
    }
    count
}

fn count_events(list: &[EventRow], e: &LegacyEvent) -> (r: usize)
    ensures
        r == occurrences(event_entries(list@), legacy_entry(*e)),
{
    let ghost wanted = legacy_entry(*e);
    let mut count: usize = 0;
    let mut i: usize = 0;
    while i < list.len()
        invariant
            i <= list@.len(),
            wanted == legacy_entry(*e),
            count <= i,
            count == occurrences(event_entries(list@.take(i as int)), wanted),
        decreases list.len() - i,
    {
        proof {
            assert(event_entries(list@.take(i as int + 1)) =~= event_entries(
                list@.take(i as int),
            ).push(event_entry(list@[i as int])));
            lemma_occurrences_push(
                event_entries(list@.take(i as int)),
                event_entry(list@[i as int]),
                wanted,
            );
        }
        let x = &list[i];
        if text::same(x.rule_id.as_str(), e.rule_id.as_str()) && text::same(
            x.kind.as_str(),
            e.kind.as_str(),
        ) && text::same(x.actor.as_str(), e.actor.as_str()) && text::same(
            x.payload.as_str(),
            e.payload.as_str(),
        ) && x.created_at == e.created_at {
            count = count + 1;
        }
        i = i + 1;
    }
    proof {
        assert(list@.take(list@.len() as int) =~= list@);
    }
    count
}

fn count_entries(list: &[Entry], e: &LegacyEvent) -> (r: usize)
    ensures
        r == occurrences(tables::entry_views(list@), legacy_entry(*e)),
{
    let ghost wanted = legacy_entry(*e);
    let mut count: usize = 0;
    let mut i: usize = 0;
    while i < list.len()
        invariant
            i <= list@.len(),
            wanted == legacy_entry(*e),
            count <= i,
            count == occurrences(tables::entry_views(list@.take(i as int)), wanted),
        decreases list.len() - i,
    {
        proof {
            assert(tables::entry_views(list@.take(i as int + 1)) =~= tables::entry_views(
                list@.take(i as int),
            ).push(list@[i as int]@));
            lemma_occurrences_push(
                tables::entry_views(list@.take(i as int)),
                list@[i as int]@,
                wanted,
            );
        }
        let x = &list[i];
        if text::same(x.subject.as_str(), e.rule_id.as_str()) && text::same(
            x.kind.as_str(),
            e.kind.as_str(),
        ) && text::same(x.actor.as_str(), e.actor.as_str()) && text::same(
            x.payload.as_str(),
            e.payload.as_str(),
        ) && x.at == e.created_at {
            count = count + 1;
        }
        i = i + 1;
    }
    proof {
        assert(list@.take(list@.len() as int) =~= list@);
    }
    count
}

fn find_missing_events(events: &[EventRow], legacy: &[LegacyEvent]) -> (r: Vec<Entry>)
    ensures
        tables::entry_views(r@) == missing_events(event_entries(events@), legacy_entries(legacy@)),
        r@.len() <= legacy@.len(),
{
    let ghost known = event_entries(events@);
    let mut out: Vec<Entry> = Vec::new();
    let mut i: usize = 0;
    proof {
        assert(legacy_entries(legacy@.take(0)) =~= seq![]);
        assert(tables::entry_views(out@) =~= seq![]);
    }
    while i < legacy.len()
        invariant
            i <= legacy@.len(),
            known == event_entries(events@),
            tables::entry_views(out@) == missing_events(
                known,
                legacy_entries(legacy@.take(i as int)),
            ),
            out@.len() <= i,
        decreases legacy.len() - i,
    {
        let ghost before = out@;
        let e = &legacy[i];
        let there: usize = count_events(events, e);
        let added: usize = count_entries(out.as_slice(), e);
        let wanted: usize = count_legacy(legacy, i + 1, e);
        proof {
            let s = legacy_entries(legacy@.take(i as int + 1));
            assert(s.drop_last() =~= legacy_entries(legacy@.take(i as int)));
            assert(s.last() == legacy_entry(*e));
        }
        if there < wanted && added < wanted - there {
            let entry = Entry {
                subject: e.rule_id.clone(),
                kind: e.kind.clone(),
                actor: e.actor.clone(),
                payload: e.payload.clone(),
                at: e.created_at,
            };
            out.push(entry);
            proof {
                assert(tables::entry_views(out@) =~= tables::entry_views(before).push(entry@));
            }
        }
        i = i + 1;
    }
    proof {
        assert(legacy@.take(legacy@.len() as int) =~= legacy@);
    }
    out
}

// ----------------------------------------------------------------- retiring legacy

pub open spec fn all_retired(before: Seq<LegacyRule>, after: Seq<LegacyRule>) -> bool {
    &&& after.len() == before.len()
    &&& forall|i: int|
        0 <= i < before.len() ==> (#[trigger] after[i]) == (LegacyRule {
            archived: true,
            ..before[i]
        })
}

pub open spec fn active_legacy(s: Seq<LegacyRule>) -> nat {
    tables::kept(s, |r: LegacyRule| !r.archived).len()
}

fn retire_legacy(list: &mut Vec<LegacyRule>) -> (r: usize)
    ensures
        all_retired(old(list)@, final(list)@),
        r == active_legacy(old(list)@),
{
    let ghost before = list@;
    let ghost p = |r: LegacyRule| !r.archived;
    let mut count: usize = 0;
    let mut i: usize = 0;
    proof {
        assert(before.take(0) =~= Seq::<LegacyRule>::empty());
    }
    while i < list.len()
        invariant
            i <= list@.len(),
            list@.len() == before.len(),
            p == (|r: LegacyRule| !r.archived),
            forall|k: int|
                0 <= k < i ==> (#[trigger] list@[k]) == (LegacyRule { archived: true, ..before[k] }),
            forall|k: int| i <= k < before.len() ==> (#[trigger] list@[k]) == before[k],
            count <= i,
            count == tables::kept(before.take(i as int), p).len(),
        decreases list.len() - i,
    {
        proof {
            tables::lemma_kept_step(before, p, i as int);
        }
        if !list[i].archived {
            count = count + 1;
        }
        let mut row = list[i].clone();
        row.archived = true;
        list.set(i, row);
        i = i + 1;
    }
    proof {
        assert(before.take(before.len() as int) =~= before);
    }
    count
}

fn copy_legacy(list: &[LegacyRule]) -> (r: Vec<LegacyRule>)
    ensures
        r@ == list@,
{
    let mut out: Vec<LegacyRule> = Vec::new();
    let mut i: usize = 0;
    while i < list.len()
        invariant
            i <= list@.len(),
            out@ == list@.take(i as int),
        decreases list.len() - i,
    {
        out.push(list[i].clone());
        proof {
            assert(out@ =~= list@.take(i as int + 1));
        }
        i = i + 1;
    }
    proof {
        assert(list@.take(list@.len() as int) =~= list@);
    }
    out
}

// ------------------------------------------------------------- the legacy table

/// What consolidating the former global table returns and changes.
pub open spec fn legacy_consolidated(
    pre: Registry,
    post: Registry,
    r: Result<(), Error>,
    actor: Seq<char>,
    before: RuleMigrationReport,
    after: RuleMigrationReport,
    now: i64,
) -> bool {
    if is_marked(migration_views(pre.migrations@), LEGACY_SOURCE@) {
        &&& r is Ok
        &&& post == pre
        &&& after == RuleMigrationReport { legacy_registry_already_migrated: true, ..before }
    } else {
        let merge = merge_all_legacy(
            rulebook::rule_views(pre.rules@),
            ranking::ranked(pre.legacy_rules@),
        );
        let counted = RuleMigrationReport {
            legacy_rules_imported: (before.legacy_rules_imported + merge.imported) as usize,
            legacy_rules_updated: (before.legacy_rules_updated + merge.updated) as usize,
            ..before
        };
        &&& rulebook::rule_views(post.rules@) == merge.rules
        &&& before.legacy_rules_imported + merge.imported <= usize::MAX
        &&& before.legacy_rules_updated + merge.updated <= usize::MAX
        &&& match merge.failed {
            Some(m) => {
                &&& text::refused(r, m)
                &&& post == Registry { rules: post.rules, ..pre }
                &&& after == counted
            },
            None => {
                let missing = missing_events(
                    event_entries(pre.events@),
                    legacy_entries(pre.legacy_events@),
                );
                &&& r is Ok
                &&& post == Registry {
                    rules: post.rules,
                    events: post.events,
                    legacy_rules: post.legacy_rules,
                    migrations: post.migrations,
                    ..pre
                }
                &&& tables::all_audited(pre.events@, post.events@, missing)
                &&& before.legacy_events_imported + missing.len() <= usize::MAX
                &&& all_retired(pre.legacy_rules@, post.legacy_rules@)
                &&& active_legacy(pre.legacy_rules@) <= usize::MAX
                &&& migration_views(post.migrations@) == migration_views(pre.migrations@).push(
                    MigrationView {
                        board_path: LEGACY_SOURCE@,
                        board_name: LEGACY_NAME@,
                        source_count: pre.legacy_rules@.len(),
                        actor,
                        migrated_at: now,
                    },
                )
                &&& after == RuleMigrationReport {
                    legacy_registry_migrated: true,
                    legacy_events_imported: (before.legacy_events_imported
                        + missing.len()) as usize,
                    legacy_rules_retired: active_legacy(pre.legacy_rules@) as usize,
                    ..counted
                }
            },
        }
    }
}

proof fn lemma_distinct_views(a: Seq<Rule>)
    ensures
        tables::unique_rules(a) <==> distinct_ids(rulebook::rule_views(a)),
{
    let v = rulebook::rule_views(a);
    if tables::unique_rules(a) {
        assert forall|i: int, j: int| 0 <= i < j < v.len() implies (#[trigger] v[i]).id != (
        #[trigger] v[j]).id by {
            assert(a[i].id@ != a[j].id@);
        }
    }
    if distinct_ids(v) {
        assert forall|i: int, j: int| 0 <= i < j < a.len() implies (#[trigger] a[i]).id@ != (
        #[trigger] a[j]).id@ by {
            assert(v[i].id != v[j].id);
        }
    }
}

impl Registry {
    /// Take over what the former global table holds, once. Rules merged before
    /// a rule that cannot be read stay merged.
    pub fn consolidate_legacy_registry_rules(
        &mut self,
        actor: &str,
        report: &mut RuleMigrationReport,
        now: i64,
    ) -> (r: Result<(), Error>)
        requires
            old(report).legacy_rules_imported + old(self).legacy_rules@.len() <= usize::MAX,
            old(report).legacy_rules_updated + old(self).legacy_rules@.len() <= usize::MAX,
            old(report).legacy_events_imported + old(self).legacy_events@.len() <= usize::MAX,
        ensures
            legacy_consolidated(
                *old(self),
                *final(self),
                r,
                actor@,
                *old(report),
                *final(report),
                now,
            ),
            old(self).wf() ==> final(self).wf(),
    {
        let ghost pre = *self;
        if find_mark(self.migrations.as_slice(), LEGACY_SOURCE) {
            report.legacy_registry_already_migrated = true;
            return Ok(());
        }
        let sorted = ranking::sort_ranked(copy_legacy(self.legacy_rules.as_slice()));
        let mut counts = MergeCounts { imported: 0, updated: 0 };
        let merged = merge_rules(&mut self.rules, sorted.as_slice(), &mut counts);
        proof {
            ledger::lemma_merge_keeps_sources(rulebook::rule_views(pre.rules@), sorted@);
            ledger::lemma_ledger_stays(pre, *self);
            lemma_distinct_views(pre.rules@);
            lemma_distinct_views(self.rules@);
            if pre.wf() {
                lemma_merge_distinct(rulebook::rule_views(pre.rules@), sorted@);
            }
        }
        proof {
            lemma_merge_bounds(rulebook::rule_views(pre.rules@), sorted@);
            ranking::law_ranked(pre.legacy_rules@);
        }
        report.legacy_rules_imported = report.legacy_rules_imported + counts.imported;
        report.legacy_rules_updated = report.legacy_rules_updated + counts.updated;
        match merged {
            Ok(_) => {},
            Err(e) => {
                return Err(e);
            },
        }
        let missing = find_missing_events(
            self.events.as_slice(),
            self.legacy_events.as_slice(),
        );
        tables::append_all(&mut self.events, missing.as_slice());
        report.legacy_events_imported = report.legacy_events_imported + missing.len();
        report.legacy_rules_retired = retire_legacy(&mut self.legacy_rules);
        let mark = MigrationRow {
            board_path: LEGACY_SOURCE.to_owned(),
            board_name: LEGACY_NAME.to_owned(),
            source_count: self.legacy_rules.len(),
            actor: actor.to_owned(),
            migrated_at: now,
        };
        self.migrations.push(mark);
        proof {
            assert(migration_views(self.migrations@) =~= migration_views(pre.migrations@).push(
                mark@,
            ));
        }
        report.legacy_registry_migrated = true;
        Ok(())
    }
}

/// Consolidating the former global table a second time changes nothing.
pub proof fn law_legacy_table_is_taken_over_once(
    pre: Registry,
    mid: Registry,
    post: Registry,
    results: (Result<(), Error>, Result<(), Error>),
    actors: (Seq<char>, Seq<char>),
    first: (RuleMigrationReport, RuleMigrationReport),
    second: (RuleMigrationReport, RuleMigrationReport),
    times: (i64, i64),
)
    requires
        legacy_consolidated(pre, mid, results.0, actors.0, first.0, first.1, times.0),
        results.0 is Ok,
        legacy_consolidated(mid, post, results.1, actors.1, second.0, second.1, times.1),
    ensures
        results.1 is Ok,
        post == mid,
        second.1.legacy_registry_already_migrated,
{
    if !is_marked(migration_views(pre.migrations@), LEGACY_SOURCE@) {
        let marks = migration_views(mid.migrations@);
        let n = migration_views(pre.migrations@).len() as int;
        assert(marks[n].board_path == LEGACY_SOURCE@);
    }
}

// --------------------------------------------------------------------- board rules

/// What became of reading the rules of a board.
#[derive(Debug)]
pub enum SourceState {
    /// There is no board file.
    Missing,
    /// The board could not be opened.
    Unopened,
    /// The board was opened, and its rules could not be read.
    Unreadable(String),
    Rules(Vec<Rule>),
}

/// The rules that one board holds itself.
#[derive(Debug)]
pub struct BoardSource {
    pub board_path: String,
    pub state: SourceState,
}

/// A board rule to be retired on its board once the registry has it.
#[derive(Debug)]
pub struct SourceRetirement {
    pub board_path: String,
    pub rule_id: String,
    pub canonical_board: String,
    pub canonical_rule_id: String,
}

pub struct RetirementView {
    pub board_path: Seq<char>,
    pub rule_id: Seq<char>,
    pub canonical_board: Seq<char>,
    pub canonical_rule_id: Seq<char>,
}

impl View for SourceRetirement {
    type V = RetirementView;

    open spec fn view(&self) -> RetirementView {
        RetirementView {
            board_path: self.board_path@,
            rule_id: self.rule_id@,
            canonical_board: self.canonical_board@,
            canonical_rule_id: self.canonical_rule_id@,
        }
    }
}

/// The payload of the event that a board records when one of its rules is retired for
/// the rule that the registry has.
pub open spec fn retirement_payload(v: RetirementView) -> Seq<char> {
    json::object(
        seq![
            json::member("canonicalBoard"@, outside::json_text(v.canonical_board)),
            json::member("canonicalRuleID"@, outside::json_text(v.canonical_rule_id)),
            json::member("ruleID"@, outside::json_text(v.rule_id)),
        ],
    )
}

impl SourceRetirement {
    /// The payload of the event that the board records.
    pub fn payload(&self) -> (r: String)
        ensures
            r@ == retirement_payload(self@),
    {
        let members: Vec<String> = vec![
            json::text_member("canonicalBoard", self.canonical_board.as_str()),
            json::text_member("canonicalRuleID", self.canonical_rule_id.as_str()),
            json::text_member("ruleID", self.rule_id.as_str()),
        ];
        proof {
            assert(text::texts(members@) =~= seq![
                json::member("canonicalBoard"@, outside::json_text(self@.canonical_board)),
                json::member("canonicalRuleID"@, outside::json_text(self@.canonical_rule_id)),
                json::member("ruleID"@, outside::json_text(self@.rule_id)),
            ]);
        }
        json::write_object(members.as_slice())
    }
}

pub open spec fn retirement_views(s: Seq<SourceRetirement>) -> Seq<RetirementView> {
    s.map_values(|x: SourceRetirement| x@)
}

/// A board by its name and its path.
#[derive(Debug)]
pub struct NamedBoard {
    pub name: String,
    pub board_path: String,
}

/// Boards stand by name, then by path.
impl Ranked for NamedBoard {
    open spec fn before(self, other: Self) -> bool {
        if self.name@ != other.name@ {
            text::text_less(self.name@, other.name@)
        } else {
            text::text_less(self.board_path@, other.board_path@)
        }
    }

    proof fn lemma_order(a: Self, b: Self, c: Self) {
        text::lemma_text_order(a.name@, b.name@, c.name@);
        text::lemma_text_order(b.name@, c.name@, a.name@);
        text::lemma_text_order(c.name@, a.name@, b.name@);
        text::lemma_text_order(c.name@, b.name@, a.name@);
        text::lemma_text_order(a.name@, c.name@, b.name@);
        text::lemma_text_order(b.name@, a.name@, c.name@);
        text::lemma_text_order(a.board_path@, b.board_path@, c.board_path@);
        text::lemma_text_order(b.board_path@, c.board_path@, a.board_path@);
        text::lemma_text_order(c.board_path@, a.board_path@, b.board_path@);
        text::lemma_text_order(c.board_path@, b.board_path@, a.board_path@);
        text::lemma_text_order(a.board_path@, c.board_path@, b.board_path@);
    }

    fn is_before(&self, other: &Self) -> (r: bool) {
        if !text::same(self.name.as_str(), other.name.as_str()) {
            text::less(self.name.as_str(), other.name.as_str())
        } else {
            text::less(self.board_path.as_str(), other.board_path.as_str())
        }
    }
}

/// The boards by their names and paths.
pub open spec fn named_boards(boards: Seq<BoardRow>) -> Seq<NamedBoard> {
    boards.map_values(|b: BoardRow| NamedBoard { name: b.name, board_path: b.board_path })
}

/// The boards in the order in which their rules are taken over.
pub open spec fn board_order(boards: Seq<BoardRow>) -> Seq<NamedBoard> {
    ranking::ranked(named_boards(boards))
}

fn order_boards(boards: &[BoardRow]) -> (r: Vec<NamedBoard>)
    ensures
        r@ == board_order(boards@),
{
    let ghost wanted = named_boards(boards@);
    let mut out: Vec<NamedBoard> = Vec::new();
    let mut i: usize = 0;
    while i < boards.len()
        invariant
            i <= boards@.len(),
            wanted == named_boards(boards@),
            out@ == wanted.take(i as int),
        decreases boards.len() - i,
    {
        out.push(
            NamedBoard {
                name: boards[i].name.clone(),
                board_path: boards[i].board_path.clone(),
            },
        );
        proof {
            assert(out@ =~= wanted.take(i as int + 1));
        }
        i = i + 1;
    }
    proof {
        assert(wanted.take(wanted.len() as int) =~= wanted);
    }
    ranking::sort_ranked(out)
}

/// How far consolidation has come.
pub struct Consolidation {
    pub rules: Seq<RuleView>,
    pub entries: Seq<EntryView>,
    pub marks: Seq<MigrationView>,
    pub retirements: Seq<RetirementView>,
    pub boards_migrated: nat,
    pub boards_already: nat,
    pub imported: nat,
    pub already: nat,
    pub retired: nat,
    pub used: nat,
    pub failed: Option<Seq<char>>,
}

/// What consolidation works with.
pub struct ConsolidationContext {
    pub boards: Seq<BoardRow>,
    pub sources: Seq<BoardSource>,
    pub ids: Seq<Seq<char>>,
    pub actor: Seq<char>,
    pub now: i64,
}

pub open spec fn view_from(board: Seq<char>, id: Seq<char>) -> spec_fn(RuleView) -> bool {
    |r: RuleView| r.source_board == Some(board) && r.source_rule_id == Some(id)
}

/// The tags of a board rule in the registry: it applies to its board only.
pub open spec fn consolidated_tags(board: Seq<char>, tags: Seq<Seq<char>>) -> Seq<Seq<char>> {
    seq!["ONLY:"@ + board] + tags
}

pub open spec fn consolidation_payload(
    id: Seq<char>,
    board: Seq<char>,
    source_id: Seq<char>,
    tags: Seq<Seq<char>>,
) -> Seq<char> {
    json::object(
        seq![
            json::member("ruleID"@, outside::json_text(id)),
            json::member("sourceBoard"@, outside::json_text(board)),
            json::member("sourceRuleID"@, outside::json_text(source_id)),
            json::member("tags"@, json::array(tags)),
        ],
    )
}

/// The id that a board rule has or gets in the registry: the one that it was
/// taken over under, else its own where that is free.
pub open spec fn canonical_id(
    st: Consolidation,
    source: RuleView,
    board: Seq<char>,
    c: ConsolidationContext,
) -> Seq<char> {
    let known = tables::first_index(st.rules, view_from(board, source.id));
    if known < st.rules.len() {
        st.rules[known].id
    } else if tables::first_index(st.rules, view_at(source.id)) < st.rules.len() {
        c.ids[st.used as int]
    } else {
        source.id
    }
}

/// One more rule of a board.
pub open spec fn consolidate_rule(
    st: Consolidation,
    source: RuleView,
    board: Seq<char>,
    path: Seq<char>,
    c: ConsolidationContext,
) -> Consolidation {
    let known = tables::first_index(st.rules, view_from(board, source.id)) < st.rules.len();
    let taken = tables::first_index(st.rules, view_at(source.id)) < st.rules.len();
    let id = canonical_id(st, source, board, c);
    let tags = consolidated_tags(board, source.tags);
    let held = if known {
        Consolidation { already: st.already + 1, ..st }
    } else {
        Consolidation {
            rules: st.rules.push(
                RuleView {
                    id,
                    body: source.body,
                    author: source.author,
                    archived: source.archived,
                    created_at: source.created_at,
                    updated_at: source.updated_at,
                    tags,
                    source_board: Some(board),
                    source_rule_id: Some(source.id),
                    source_registry_uuid: None,
                    source_boards: None,
                    source_content_sha256: None,
                },
            ),
            entries: st.entries.push(
                EntryView {
                    subject: id,
                    kind: "rule_consolidated"@,
                    actor: c.actor,
                    payload: consolidation_payload(id, board, source.id, tags),
                    at: c.now,
                },
            ),
            imported: st.imported + 1,
            used: if taken {
                st.used + 1
            } else {
                st.used
            },
            ..st
        }
    };
    if source.archived {
        held
    } else {
        Consolidation {
            retirements: held.retirements.push(
                RetirementView {
                    board_path: path,
                    rule_id: source.id,
                    canonical_board: board,
                    canonical_rule_id: id,
                },
            ),
            retired: held.retired + 1,
            ..held
        }
    }
}

/// All rules of a board.
pub open spec fn consolidate_rules(
    st: Consolidation,
    sources: Seq<RuleView>,
    board: Seq<char>,
    path: Seq<char>,
    c: ConsolidationContext,
) -> Consolidation
    decreases sources.len(),
{
    if sources.len() == 0 {
        st
    } else {
        consolidate_rule(
            consolidate_rules(st, sources.drop_last(), board, path, c),
            sources.last(),
            board,
            path,
            c,
        )
    }
}

pub open spec fn source_at(path: Seq<char>) -> spec_fn(BoardSource) -> bool {
    |s: BoardSource| s.board_path@ == path
}

/// One more board.
pub open spec fn consolidate_board(
    st: Consolidation,
    board: NamedBoard,
    c: ConsolidationContext,
) -> Consolidation {
    let name = board.name@;
    let path = board.board_path@;
    let head = "cannot consolidate rules for board "@ + name + ": "@;
    let same = tables::kept(c.boards, tables::board_named(name, true)).len();
    let i = tables::first_index(c.sources, source_at(path));
    if st.failed is Some {
        st
    } else if same != 1 {
        Consolidation {
            failed: Some(head + text::decimal(same as int) + " active boards share that name"@),
            ..st
        }
    } else if is_marked(st.marks, path) {
        Consolidation { boards_already: st.boards_already + 1, ..st }
    } else if i >= c.sources.len() {
        Consolidation { failed: Some(head + path + " is not a readable board file"@), ..st }
    } else {
        match c.sources[i].state {
            SourceState::Missing => Consolidation {
                failed: Some(head + path + " is not a readable board file"@),
                ..st
            },
            SourceState::Unopened => Consolidation {
                failed: Some("open board "@ + name + " for rule consolidation"@),
                ..st
            },
            SourceState::Unreadable(m) => Consolidation { failed: Some(m@), ..st },
            SourceState::Rules(rules) => {
                let done = consolidate_rules(st, rulebook::rule_views(rules@), name, path, c);
                Consolidation {
                    marks: done.marks.push(
                        MigrationView {
                            board_path: path,
                            board_name: name,
                            source_count: rules@.len(),
                            actor: c.actor,
                            migrated_at: c.now,
                        },
                    ),
                    boards_migrated: done.boards_migrated + 1,
                    ..done
                }
            },
        }
    }
}

pub open spec fn consolidate_boards(
    st: Consolidation,
    boards: Seq<NamedBoard>,
    c: ConsolidationContext,
) -> Consolidation
    decreases boards.len(),
{
    if boards.len() == 0 {
        st
    } else {
        consolidate_board(consolidate_boards(st, boards.drop_last(), c), boards.last(), c)
    }
}

proof fn lemma_consolidation_stays(
    st: Consolidation,
    boards: Seq<NamedBoard>,
    c: ConsolidationContext,
    n: int,
)
    requires
        0 <= n <= boards.len(),
    ensures
        consolidate_boards(st, boards.take(n), c).failed is Some ==> consolidate_boards(
            st,
            boards,
            c,
        ) == consolidate_boards(st, boards.take(n), c),
    decreases boards.len(),
{
    if n < boards.len() {
        lemma_consolidation_stays(st, boards.drop_last(), c, n);
        assert(boards.drop_last().take(n) =~= boards.take(n));
    } else {
        assert(boards.take(n) =~= boards);
    }
}

// ------------------------------------------------------------- bounds and distinctness

/// How many rules the boards hold, of those that are read for the given boards.
pub open spec fn source_rules(s: BoardSource) -> nat {
    match s.state {
        SourceState::Rules(rules) => rules@.len(),
        _ => 0,
    }
}

/// How many rules the read boards hold for the given boards.
pub open spec fn rules_for(boards: Seq<NamedBoard>, sources: Seq<BoardSource>) -> nat
    decreases boards.len(),
{
    if boards.len() == 0 {
        0
    } else {
        let i = tables::first_index(sources, source_at(boards.last().board_path@));
        rules_for(boards.drop_last(), sources) + (if i < sources.len() {
            source_rules(sources[i])
        } else {
            0
        })
    }
}

proof fn lemma_rules_for_grows(boards: Seq<NamedBoard>, sources: Seq<BoardSource>, n: int)
    requires
        0 <= n <= boards.len(),
    ensures
        rules_for(boards.take(n), sources) <= rules_for(boards, sources),
    decreases boards.len(),
{
    if n < boards.len() {
        lemma_rules_for_grows(boards.drop_last(), sources, n);
        assert(boards.drop_last().take(n) =~= boards.take(n));
    } else {
        assert(boards.take(n) =~= boards);
    }
}

proof fn lemma_rule_bounds(
    st: Consolidation,
    sources: Seq<RuleView>,
    board: Seq<char>,
    path: Seq<char>,
    c: ConsolidationContext,
)
    ensures
        ({
            let done = consolidate_rules(st, sources, board, path, c);
            &&& done.imported + done.already == st.imported + st.already + sources.len()
            &&& done.retired <= st.retired + sources.len()
            &&& done.used <= st.used + sources.len()
            &&& done.failed == st.failed
            &&& done.marks == st.marks
            &&& done.boards_migrated == st.boards_migrated
            &&& done.boards_already == st.boards_already
        }),
    decreases sources.len(),
{
    if sources.len() > 0 {
        lemma_rule_bounds(st, sources.drop_last(), board, path, c);
    }
}

spec fn within(st: Consolidation, total: nat, boards: nat) -> bool {
    &&& st.imported + st.already <= total
    &&& st.retired <= total
    &&& st.used <= total
    &&& st.boards_migrated + st.boards_already <= boards
}

proof fn lemma_board_bounds(st: Consolidation, boards: Seq<NamedBoard>, c: ConsolidationContext)
    requires
        within(st, 0, 0),
    ensures
        within(
            consolidate_boards(st, boards, c),
            rules_for(boards, c.sources),
            boards.len(),
        ),
    decreases boards.len(),
{
    if boards.len() > 0 {
        let before = consolidate_boards(st, boards.drop_last(), c);
        let board = boards.last();
        lemma_board_bounds(st, boards.drop_last(), c);
        let i = tables::first_index(c.sources, source_at(board.board_path@));
        if i < c.sources.len() {
            match c.sources[i].state {
                SourceState::Rules(rules) => {
                    lemma_rule_bounds(
                        before,
                        rulebook::rule_views(rules@),
                        board.name@,
                        board.board_path@,
                        c,
                    );
                },
                _ => {},
            }
        }
    }
}

/// The ids are neither in use nor those of rules to be taken over.
pub open spec fn spare_ids(
    ids: Seq<Seq<char>>,
    reg: Registry,
    sources: Seq<BoardSource>,
) -> bool {
    &&& rulebook::are_free(ids, rulebook::rule_ids(reg.rules@))
    &&& forall|i: int, k: int|
        0 <= i < ids.len() && 0 <= k < reg.legacy_rules@.len() ==> #[trigger] ids[i] != (
        #[trigger] reg.legacy_rules@[k]).id@
    &&& forall|i: int, k: int|
        0 <= i < ids.len() && 0 <= k < sources.len() ==> is_spare(
            #[trigger] ids[i],
            #[trigger] sources[k],
        )
}

pub open spec fn is_spare(id: Seq<char>, source: BoardSource) -> bool {
    match source.state {
        SourceState::Rules(rules) => !rulebook::rule_ids(rules@).contains(id),
        _ => true,
    }
}

/// No two rules share an id, and none has an id that may still be given.
spec fn sound(st: Consolidation, ids: Seq<Seq<char>>) -> bool {
    &&& distinct_ids(st.rules)
    &&& forall|i: int, k: int|
        0 <= i < st.rules.len() && st.used <= k < ids.len() ==> (#[trigger] st.rules[i]).id
            != #[trigger] ids[k]
}

proof fn lemma_rule_sound(
    st: Consolidation,
    source: RuleView,
    board: Seq<char>,
    path: Seq<char>,
    c: ConsolidationContext,
)
    requires
        sound(st, c.ids),
        !consolidation_ids::has_source(st.rules, board, source.id) && consolidation_ids::has_id(
            st.rules,
            source.id,
        ) ==> st.used < c.ids.len(),
        forall|i: int, j: int|
            0 <= i < j < c.ids.len() ==> #[trigger] c.ids[i] != #[trigger] c.ids[j],
        forall|k: int| 0 <= k < c.ids.len() ==> #[trigger] c.ids[k] != source.id,
    ensures
        sound(consolidate_rule(st, source, board, path, c), c.ids),
{
    let next = consolidate_rule(st, source, board, path, c);
    tables::lemma_first_index(st.rules, view_at(source.id));
    assert forall|i: int, j: int| 0 <= i < j < next.rules.len() implies (
    #[trigger] next.rules[i]).id != (#[trigger] next.rules[j]).id by {
        if j == st.rules.len() {
            assert(next.rules[i] == st.rules[i]);
            if tables::first_index(st.rules, view_at(source.id)) < st.rules.len() {
                assert(st.rules[i].id != c.ids[st.used as int]);
            } else {
                assert(!view_at(source.id)(st.rules[i]));
            }
        } else {
            assert(st.rules[i].id != st.rules[j].id);
        }
    }
    assert forall|i: int, k: int| 0 <= i < next.rules.len() && next.used <= k < c.ids.len() implies (
    #[trigger] next.rules[i]).id != #[trigger] c.ids[k] by {
        if i < st.rules.len() {
            assert(next.rules[i] == st.rules[i]);
        }
    }
}

// ------------------------------------------------------------------- doing the work

pub(crate) fn find_view_from(all: &[Rule], board: &str, id: &str) -> (r: usize)
    ensures
        r == tables::first_index(rulebook::rule_views(all@), view_from(board@, id@)),
        r <= all@.len(),
{
    let ghost views = rulebook::rule_views(all@);
    let ghost p = view_from(board@, id@);
    let mut i: usize = 0;
    while i < all.len()
        invariant
            i <= all@.len(),
            views == rulebook::rule_views(all@),
            p == view_from(board@, id@),
            forall|k: int| 0 <= k < i ==> !p(#[trigger] views[k]),
        decreases all.len() - i,
    {
        let found = match (&all[i].source_board, &all[i].source_rule_id) {
            (Some(a), Some(b)) => text::same(a.as_str(), board) && text::same(b.as_str(), id),
            _ => false,
        };
        if found {
            proof {
                assert(p(views[i as int]));
                tables::lemma_first_index_is(views, p, i as int);
            }
            return i;
        }
        i = i + 1;
    }
    proof {
        tables::lemma_first_index_is(views, p, i as int);
    }
    i
}

fn write_payload(id: &str, board: &str, source_id: &str, tags: &[String]) -> (r: String)
    ensures
        r@ == consolidation_payload(id@, board@, source_id@, text::texts(tags@)),
{
    let list = json::write_array(tags);
    let members: Vec<String> = vec![
        json::text_member("ruleID", id),
        json::text_member("sourceBoard", board),
        json::text_member("sourceRuleID", source_id),
        json::write_member("tags", list.as_str()),
    ];
    proof {
        assert(text::texts(members@) =~= seq![
            json::member("ruleID"@, outside::json_text(id@)),
            json::member("sourceBoard"@, outside::json_text(board@)),
            json::member("sourceRuleID"@, outside::json_text(source_id@)),
            json::member("tags"@, json::array(text::texts(tags@))),
        ]);
    }
    json::write_object(members.as_slice())
}

/// The work in progress.
struct Progress {
    rules: Vec<Rule>,
    entries: Vec<Entry>,
    marks: Vec<MigrationRow>,
    retirements: Vec<SourceRetirement>,
    boards_migrated: usize,
    boards_already: usize,
    imported: usize,
    already: usize,
    retired: usize,
    used: usize,
}

/// What the work is done with.
struct Workbench<'a> {
    boards: &'a [BoardRow],
    sources: &'a [BoardSource],
    ids: &'a [String],
    actor: &'a str,
    now: i64,
}

impl<'a> Workbench<'a> {
    spec fn context(self) -> ConsolidationContext {
        ConsolidationContext {
            boards: self.boards@,
            sources: self.sources@,
            ids: text::texts(self.ids@),
            actor: self.actor@,
            now: self.now,
        }
    }
}

impl Progress {
    spec fn shows(self, st: Consolidation) -> bool {
        &&& rulebook::rule_views(self.rules@) == st.rules
        &&& tables::entry_views(self.entries@) == st.entries
        &&& migration_views(self.marks@) == st.marks
        &&& retirement_views(self.retirements@) == st.retirements
        &&& self.boards_migrated == st.boards_migrated
        &&& self.boards_already == st.boards_already
        &&& self.imported == st.imported
        &&& self.already == st.already
        &&& self.retired == st.retired
        &&& self.used == st.used
    }

    fn take_rule(
        &mut self,
        source: &Rule,
        board: &str,
        path: &str,
        with: &Workbench,
        Ghost(st): Ghost<Consolidation>,
    )
        requires
            old(self).shows(st),
            !consolidation_ids::has_source(st.rules, board@, source@.id)
                && consolidation_ids::has_id(st.rules, source@.id) ==> st.used < with.ids@.len(),
            st.imported + st.already < usize::MAX,
            st.retired < usize::MAX,
        ensures
            final(self).shows(consolidate_rule(st, source@, board@, path@, with.context())),
    {
        let ghost c = with.context();
        let ghost view = source@;
        let known: usize = find_view_from(self.rules.as_slice(), board, source.id.as_str());
        let id: String;
        if known < self.rules.len() {
            proof {
                assert(st.rules[known as int] == self.rules@[known as int]@);
            }
            id = self.rules[known].id.clone();
            self.already = self.already + 1;
        } else {
            let taken = find_view(self.rules.as_slice(), source.id.as_str()) < self.rules.len();
            if taken {
                proof {
                    assert(c.ids[st.used as int] == with.ids@[st.used as int]@);
                }
                id = with.ids[self.used].clone();
                self.used = self.used + 1;
            } else {
                id = source.id.clone();
            }
            let mut tags: Vec<String> = Vec::new();
            tags.push("ONLY:".to_owned().concat(board));
            let mut rest = text::copy_list(source.tags.as_slice());
            let ghost tail = rest@;
            tags.append(&mut rest);
            proof {
                assert(text::texts(tags@) =~= consolidated_tags(board@, view.tags)) by {
                    assert(text::texts(tail) == view.tags);
                    assert(text::texts(tags@) =~= seq!["ONLY:"@ + board@] + text::texts(tail));
                }
            }
            let payload = write_payload(
                id.as_str(),
                board,
                source.id.as_str(),
                tags.as_slice(),
            );
            let entry = Entry {
                subject: id.clone(),
                kind: "rule_consolidated".to_owned(),
                actor: with.actor.to_owned(),
                payload,
                at: with.now,
            };
            let rule = Rule {
                id: id.clone(),
                body: source.body.clone(),
                author: source.author.clone(),
                archived: source.archived,
                created_at: source.created_at,
                updated_at: source.updated_at,
                tags,
                source_board: Some(board.to_owned()),
                source_rule_id: Some(source.id.clone()),
                source_registry_uuid: None,
                source_boards: None,
                source_content_sha256: None,
            };
            self.rules.push(rule);
            self.entries.push(entry);
            proof {
                assert(rulebook::rule_views(self.rules@) =~= st.rules.push(rule@));
                assert(tables::entry_views(self.entries@) =~= st.entries.push(entry@));
            }
            self.imported = self.imported + 1;
        }
        if !source.archived {
            let ghost held = retirement_views(self.retirements@);
            let retirement = SourceRetirement {
                board_path: path.to_owned(),
                rule_id: source.id.clone(),
                canonical_board: board.to_owned(),
                canonical_rule_id: id,
            };
            self.retirements.push(retirement);
            proof {
                assert(retirement_views(self.retirements@) =~= held.push(retirement@));
            }
            self.retired = self.retired + 1;
        }
    }

    fn take_rules(
        &mut self,
        sources: &[Rule],
        board: &str,
        path: &str,
        with: &Workbench,
        Ghost(st): Ghost<Consolidation>,
        Ghost(p): Ghost<Pending>,
        Ghost(over): Ghost<PendingOver>,
    )
        requires
            old(self).shows(st),
            consolidation_ids::keeps_pace(p, st, over, text::texts(with.ids@)),
            consolidation_ids::pend_rules(
                p,
                over.rules,
                board@,
                rulebook::rule_views(sources@),
            ).needed <= with.ids@.len(),
            forall|n: int|
                0 <= n < sources@.len() ==> !text::texts(with.ids@).contains(
                    (#[trigger] rulebook::rule_views(sources@)[n]).id,
                ),
            st.imported + st.already + sources@.len() <= usize::MAX,
            st.retired + sources@.len() <= usize::MAX,
        ensures
            final(self).shows(
                consolidate_rules(
                    st,
                    rulebook::rule_views(sources@),
                    board@,
                    path@,
                    with.context(),
                ),
            ),
    {
        let ghost c = with.context();
        let ghost views = rulebook::rule_views(sources@);
        let mut i: usize = 0;
        proof {
            assert(views.take(0) =~= Seq::<RuleView>::empty());
        }
        while i < sources.len()
            invariant
                i <= sources@.len(),
                c == with.context(),
                views == rulebook::rule_views(sources@),
                consolidation_ids::keeps_pace(p, st, over, c.ids),
                consolidation_ids::pend_rules(p, over.rules, board@, views).needed
                    <= with.ids@.len(),
                forall|n: int|
                    0 <= n < sources@.len() ==> !c.ids.contains((#[trigger] views[n]).id),
                st.imported + st.already + sources@.len() <= usize::MAX,
                st.retired + sources@.len() <= usize::MAX,
                self.shows(consolidate_rules(st, views.take(i as int), board@, path@, c)),
            decreases sources.len() - i,
        {
            let ghost now = consolidate_rules(st, views.take(i as int), board@, path@, c);
            proof {
                assert(views.take(i as int + 1).drop_last() =~= views.take(i as int));
                assert(views.take(i as int + 1).last() == sources@[i as int]@);
                lemma_rule_bounds(st, views.take(i as int), board@, path@, c);
                let done = views.take(i as int);
                consolidation_ids::lemma_rules_grow(p, over.rules, board@, views, i as int);
                consolidation_ids::lemma_rules_grow(p, over.rules, board@, views, i as int + 1);
                assert forall|n: int| 0 <= n < done.len() implies !c.ids.contains(
                    (#[trigger] done[n]).id,
                ) by {
                    assert(done[n] == views[n]);
                }
                consolidation_ids::lemma_pace_rules(p, st, over, done, board@, path@, c);
                assert(!c.ids.contains(views[i as int].id));
                consolidation_ids::lemma_pace_rule(
                    consolidation_ids::pend_rules(p, over.rules, board@, done),
                    now,
                    over,
                    sources@[i as int]@,
                    board@,
                    path@,
                    c,
                );
            }
            self.take_rule(&sources[i], board, path, with, Ghost(now));
            i = i + 1;
        }
        proof {
            assert(views.take(views.len() as int) =~= views);
        }
    }

    fn take_board(
        &mut self,
        board: &NamedBoard,
        with: &Workbench,
        Ghost(st): Ghost<Consolidation>,
        Ghost(p): Ghost<Pending>,
        Ghost(over): Ghost<PendingOver>,
    ) -> (r: Result<(), Error>)
        requires
            old(self).shows(st),
            st.failed is None,
            consolidation_ids::keeps_pace(p, st, over, text::texts(with.ids@)),
            over.boards == with.boards@,
            over.sources == with.sources@,
            consolidation_ids::all_spare(text::texts(with.ids@), with.sources@),
            consolidation_ids::pend_board(p, over, *board).needed <= with.ids@.len(),
            ({
                let i = tables::first_index(with.sources@, source_at(board.board_path@));
                let n = if i < with.sources@.len() {
                    source_rules(with.sources@[i])
                } else {
                    0
                };
                &&& st.imported + st.already + n <= usize::MAX
                &&& st.retired + n <= usize::MAX
            }),
            st.boards_migrated + st.boards_already < usize::MAX,
        ensures
            final(self).shows(consolidate_board(st, *board, with.context())),
            match consolidate_board(st, *board, with.context()).failed {
                Some(m) => text::refused(r, m),
                None => r is Ok,
            },
    {
        let name = board.name.as_str();
        let path = board.board_path.as_str();
        let head = "cannot consolidate rules for board ".to_owned().concat(name).concat(": ");
        let same: usize = count_named(with.boards, name);
        if same != 1 {
            return text::refuse(
                head.concat(text::show_u64(same as u64).as_str()).concat(
                    " active boards share that name",
                ),
            );
        }
        if find_mark(self.marks.as_slice(), path) {
            self.boards_already = self.boards_already + 1;
            return Ok(());
        }
        let i: usize = find_source(with.sources, path);
        if i >= with.sources.len() {
            return text::refuse(head.concat(path).concat(" is not a readable board file"));
        }
        match &with.sources[i].state {
            SourceState::Missing => text::refuse(
                head.concat(path).concat(" is not a readable board file"),
            ),
            SourceState::Unopened => text::refuse(
                "open board ".to_owned().concat(name).concat(" for rule consolidation"),
            ),
            SourceState::Unreadable(m) => text::refuse(m.clone()),
            SourceState::Rules(rules) => {
                proof {
                    consolidation_ids::lemma_source_spare(
                        text::texts(with.ids@),
                        with.sources@,
                        i as int,
                        *rules,
                    );
                    assert(!is_marked(over.marks, path@) && !p.marked.contains(path@));
                }
                self.take_rules(
                    rules.as_slice(),
                    name,
                    path,
                    with,
                    Ghost(st),
                    Ghost(p),
                    Ghost(over),
                );
                let ghost done = consolidate_rules(
                    st,
                    rulebook::rule_views(rules@),
                    name@,
                    path@,
                    with.context(),
                );
                proof {
                    lemma_rule_bounds(
                        st,
                        rulebook::rule_views(rules@),
                        name@,
                        path@,
                        with.context(),
                    );
                }
                let mark = MigrationRow {
                    board_path: path.to_owned(),
                    board_name: name.to_owned(),
                    source_count: rules.len(),
                    actor: with.actor.to_owned(),
                    migrated_at: with.now,
                };
                self.marks.push(mark);
                proof {
                    assert(migration_views(self.marks@) =~= done.marks.push(mark@));
                }
                self.boards_migrated = self.boards_migrated + 1;
                Ok(())
            },
        }
    }

    fn take_boards(
        &mut self,
        boards: &[NamedBoard],
        with: &Workbench,
        Ghost(st): Ghost<Consolidation>,
        Ghost(over): Ghost<PendingOver>,
    ) -> (r: Result<(), Error>)
        requires
            old(self).shows(st),
            st.failed is None,
            within(st, 0, 0),
            rules_for(boards@, with.sources@) <= usize::MAX,
            consolidation_ids::keeps_pace(
                consolidation_ids::nothing_pending(),
                st,
                over,
                text::texts(with.ids@),
            ),
            over.boards == with.boards@,
            over.sources == with.sources@,
            consolidation_ids::all_spare(text::texts(with.ids@), with.sources@),
            consolidation_ids::pend_boards(over, boards@).needed <= with.ids@.len(),
        ensures
            final(self).shows(consolidate_boards(st, boards@, with.context())),
            match consolidate_boards(st, boards@, with.context()).failed {
                Some(m) => text::refused(r, m),
                None => r is Ok,
            },
    {
        let ghost c = with.context();
        let mut i: usize = 0;
        proof {
            assert(boards@.take(0) =~= Seq::<NamedBoard>::empty());
        }
        while i < boards.len()
            invariant
                i <= boards@.len(),
                c == with.context(),
                within(st, 0, 0),
                rules_for(boards@, with.sources@) <= usize::MAX,
                consolidation_ids::keeps_pace(
                    consolidation_ids::nothing_pending(),
                    st,
                    over,
                    c.ids,
                ),
                over.boards == with.boards@,
                over.sources == with.sources@,
                consolidation_ids::all_spare(c.ids, with.sources@),
                consolidation_ids::pend_boards(over, boards@).needed <= with.ids@.len(),
                consolidate_boards(st, boards@.take(i as int), c).failed is None,
                self.shows(consolidate_boards(st, boards@.take(i as int), c)),
            decreases boards.len() - i,
        {
            let ghost now = consolidate_boards(st, boards@.take(i as int), c);
            proof {
                assert(boards@.take(i as int + 1).drop_last() =~= boards@.take(i as int));
                assert(boards@.take(i as int + 1).last() == boards@[i as int]);
                lemma_board_bounds(st, boards@.take(i as int), c);
                lemma_rules_for_grows(boards@, c.sources, i as int + 1);
                lemma_consolidation_stays(st, boards@, c, i as int + 1);
                consolidation_ids::lemma_boards_grow(over, boards@, i as int);
                consolidation_ids::lemma_boards_grow(over, boards@, i as int + 1);
                consolidation_ids::lemma_pace_boards(st, over, boards@.take(i as int), c);
            }
            let ghost p = consolidation_ids::pend_boards(over, boards@.take(i as int));
            match self.take_board(&boards[i], with, Ghost(now), Ghost(p), Ghost(over)) {
                Ok(_) => {},
                Err(e) => {
                    return Err(e);
                },
            }
            i = i + 1;
        }
        proof {
            assert(boards@.take(boards@.len() as int) =~= boards@);
        }
        Ok(())
    }
}

pub(crate) fn count_named(boards: &[BoardRow], name: &str) -> (r: usize)
    ensures
        r == tables::kept(boards@, tables::board_named(name@, true)).len(),
{
    let ghost p = tables::board_named(name@, true);
    let mut count: usize = 0;
    let mut i: usize = 0;
    proof {
        assert(boards@.take(0) =~= Seq::<BoardRow>::empty());
    }
    while i < boards.len()
        invariant
            i <= boards@.len(),
            p == tables::board_named(name@, true),
            count <= i,
            count == tables::kept(boards@.take(i as int), p).len(),
        decreases boards.len() - i,
    {
        proof {
            tables::lemma_kept_step(boards@, p, i as int);
        }
        if text::same(boards[i].name.as_str(), name) {
            count = count + 1;
        }
        i = i + 1;
    }
    proof {
        assert(boards@.take(boards@.len() as int) =~= boards@);
    }
    count
}

pub(crate) fn find_source(sources: &[BoardSource], path: &str) -> (r: usize)
    ensures
        r == tables::first_index(sources@, source_at(path@)),
        r <= sources@.len(),
{
    let mut i: usize = 0;
    while i < sources.len()
        invariant
            i <= sources@.len(),
            forall|k: int| 0 <= k < i ==> !source_at(path@)(#[trigger] sources@[k]),
        decreases sources.len() - i,
    {
        if text::same(sources[i].board_path.as_str(), path) {
            proof {
                tables::lemma_first_index_is(sources@, source_at(path@), i as int);
            }
            return i;
        }
        i = i + 1;
    }
    proof {
        tables::lemma_first_index_is(sources@, source_at(path@), i as int);
    }
    i
}

// ----------------------------------------------------------------- the whole of it

/// The state before the first board.
pub open spec fn consolidation_start(reg: Registry) -> Consolidation {
    Consolidation {
        rules: rulebook::rule_views(reg.rules@),
        entries: seq![],
        marks: migration_views(reg.migrations@),
        retirements: seq![],
        boards_migrated: 0,
        boards_already: 0,
        imported: 0,
        already: 0,
        retired: 0,
        used: 0,
        failed: None,
    }
}

pub open spec fn empty_report() -> RuleMigrationReport {
    RuleMigrationReport {
        legacy_registry_migrated: false,
        legacy_registry_already_migrated: false,
        legacy_rules_imported: 0,
        legacy_rules_updated: 0,
        legacy_events_imported: 0,
        legacy_rules_retired: 0,
        boards_migrated: 0,
        boards_already_migrated: 0,
        rules_imported: 0,
        rules_already_imported: 0,
        source_rules_retired: 0,
    }
}

impl RuleMigrationReport {
    /// Nothing was done yet.
    fn empty() -> (r: Self)
        ensures
            r == empty_report(),
    {
        RuleMigrationReport {
            legacy_registry_migrated: false,
            legacy_registry_already_migrated: false,
            legacy_rules_imported: 0,
            legacy_rules_updated: 0,
            legacy_events_imported: 0,
            legacy_rules_retired: 0,
            boards_migrated: 0,
            boards_already_migrated: 0,
            rules_imported: 0,
            rules_already_imported: 0,
            source_rules_retired: 0,
        }
    }
}

/// What consolidating the rules of the boards returns and changes.
pub open spec fn boards_consolidated(
    pre: Registry,
    post: Registry,
    r: Result<RuleMigrationReport, Error>,
    report: RuleMigrationReport,
    retirements: Seq<RetirementView>,
    actor: Seq<char>,
    sources: Seq<BoardSource>,
    ids: Seq<Seq<char>>,
    now: i64,
) -> bool {
    let c = ConsolidationContext { boards: pre.boards@, sources, ids, actor, now };
    let done = consolidate_boards(consolidation_start(pre), board_order(pre.boards@), c);
    &&& post == Registry {
        rules: post.rules,
        events: post.events,
        migrations: post.migrations,
        ..pre
    }
    &&& rulebook::rule_views(post.rules@) == done.rules
    &&& tables::all_audited(pre.events@, post.events@, done.entries)
    &&& migration_views(post.migrations@) == done.marks
    &&& retirements == done.retirements
    &&& match done.failed {
        Some(m) => text::refused(r, m),
        None => {
            &&& r is Ok
            &&& r->Ok_0.boards_migrated == done.boards_migrated
            &&& r->Ok_0.boards_already_migrated == done.boards_already
            &&& r->Ok_0.rules_imported == done.imported
            &&& r->Ok_0.rules_already_imported == done.already
            &&& r->Ok_0.source_rules_retired == done.retired
            &&& r->Ok_0 == RuleMigrationReport {
                boards_migrated: r->Ok_0.boards_migrated,
                boards_already_migrated: r->Ok_0.boards_already_migrated,
                rules_imported: r->Ok_0.rules_imported,
                rules_already_imported: r->Ok_0.rules_already_imported,
                source_rules_retired: r->Ok_0.source_rules_retired,
                ..report
            }
        },
    }
}

/// What consolidation returns and changes: first the former global table, then
/// the boards.
pub open spec fn rules_consolidated(
    pre: Registry,
    post: Registry,
    r: Result<RuleMigrationReport, Error>,
    retirements: Seq<RetirementView>,
    actor: Seq<char>,
    sources: Seq<BoardSource>,
    ids: Seq<Seq<char>>,
    now: i64,
) -> bool {
    let by = text::trimmed(actor);
    if by.len() == 0 {
        post == pre && retirements.len() == 0 && text::refused(r, "author is required"@)
    } else {
        exists|mid: Registry, done: Result<(), Error>, report: RuleMigrationReport|
            {
                &&& #[trigger] legacy_consolidated(
                    pre,
                    mid,
                    done,
                    by,
                    empty_report(),
                    report,
                    now,
                )
                &&& match done {
                    Err(e) => post == mid && retirements.len() == 0 && text::refused(r, e.message@),
                    Ok(_) => boards_consolidated(
                        mid,
                        post,
                        r,
                        report,
                        retirements,
                        by,
                        sources,
                        ids,
                        now,
                    ),
                }
            }
    }
}

/// What taking over the boards under drawn ids returns and changes. There are ids
/// unless too many are taken.
pub open spec fn boards_drawn(
    pre: Registry,
    mid: Registry,
    post: Registry,
    r: Result<RuleMigrationReport, Error>,
    report: RuleMigrationReport,
    retirements: Seq<RetirementView>,
    actor: Seq<char>,
    sources: Seq<BoardSource>,
    now: i64,
) -> bool {
    let needed = consolidation_ids::ids_needed(mid, sources);
    if rulebook::is_exhausted(all_ids(pre, sources).len(), needed) {
        post == mid && retirements.len() == 0 && text::refused(r, "no free rule id"@)
    } else {
        exists|ids: Seq<Seq<char>>|
            {
                &&& ids.len() == needed
                &&& spare_ids(ids, pre, sources)
                &&& forall|i: int| 0 <= i < ids.len() ==> rulebook::is_rule_id(#[trigger] ids[i])
                &&& #[trigger] boards_consolidated(
                    mid,
                    post,
                    r,
                    report,
                    retirements,
                    actor,
                    sources,
                    ids,
                    now,
                )
            }
    }
}

/// What consolidation under drawn ids returns and changes: first the former global
/// table, then the boards.
pub open spec fn rules_drawn(
    pre: Registry,
    post: Registry,
    r: Result<RuleMigrationReport, Error>,
    retirements: Seq<RetirementView>,
    actor: Seq<char>,
    sources: Seq<BoardSource>,
) -> bool {
    let by = text::trimmed(actor);
    if by.len() == 0 {
        post == pre && retirements.len() == 0 && text::refused(r, "author is required"@)
    } else {
        exists|mid: Registry, done: Result<(), Error>, report: RuleMigrationReport, now: i64|
            {
                &&& #[trigger] legacy_consolidated(
                    pre,
                    mid,
                    done,
                    by,
                    empty_report(),
                    report,
                    now,
                )
                &&& match done {
                    Err(e) => post == mid && retirements.len() == 0 && text::refused(r, e.message@),
                    Ok(_) => boards_drawn(
                        pre,
                        mid,
                        post,
                        r,
                        report,
                        retirements,
                        by,
                        sources,
                        now,
                    ),
                }
            }
    }
}

proof fn lemma_rules_sound(
    st: Consolidation,
    sources: Seq<RuleView>,
    board: Seq<char>,
    path: Seq<char>,
    c: ConsolidationContext,
    p: Pending,
    over: PendingOver,
)
    requires
        sound(st, c.ids),
        consolidation_ids::keeps_pace(p, st, over, c.ids),
        consolidation_ids::pend_rules(p, over.rules, board, sources).needed <= c.ids.len(),
        forall|i: int, j: int|
            0 <= i < j < c.ids.len() ==> #[trigger] c.ids[i] != #[trigger] c.ids[j],
        forall|k: int, n: int|
            0 <= k < c.ids.len() && 0 <= n < sources.len() ==> #[trigger] c.ids[k] != (
            #[trigger] sources[n]).id,
    ensures
        sound(consolidate_rules(st, sources, board, path, c), c.ids),
    decreases sources.len(),
{
    if sources.len() > 0 {
        let rest = sources.drop_last();
        assert forall|k: int, n: int| 0 <= k < c.ids.len() && 0 <= n < rest.len() implies
            #[trigger] c.ids[k] != (#[trigger] rest[n]).id by {
            assert(rest[n] == sources[n]);
        }
        lemma_rules_sound(st, rest, board, path, c, p, over);
        assert(sources.last() == sources[sources.len() - 1]);
        assert forall|n: int| 0 <= n < rest.len() implies !c.ids.contains(
            (#[trigger] rest[n]).id,
        ) by {
            assert(rest[n] == sources[n]);
        }
        assert(!c.ids.contains(sources.last().id));
        consolidation_ids::lemma_pace_rules(p, st, over, rest, board, path, c);
        consolidation_ids::lemma_pace_rule(
            consolidation_ids::pend_rules(p, over.rules, board, rest),
            consolidate_rules(st, rest, board, path, c),
            over,
            sources.last(),
            board,
            path,
            c,
        );
        lemma_rule_sound(
            consolidate_rules(st, rest, board, path, c),
            sources.last(),
            board,
            path,
            c,
        );
    }
}

proof fn lemma_boards_sound(
    st: Consolidation,
    boards: Seq<NamedBoard>,
    c: ConsolidationContext,
    over: PendingOver,
)
    requires
        sound(st, c.ids),
        consolidation_ids::keeps_pace(consolidation_ids::nothing_pending(), st, over, c.ids),
        over.boards == c.boards,
        over.sources == c.sources,
        consolidation_ids::pend_boards(over, boards).needed <= c.ids.len(),
        forall|i: int, j: int|
            0 <= i < j < c.ids.len() ==> #[trigger] c.ids[i] != #[trigger] c.ids[j],
        forall|i: int, k: int|
            0 <= i < c.ids.len() && 0 <= k < c.sources.len() ==> is_spare(
                #[trigger] c.ids[i],
                #[trigger] c.sources[k],
            ),
    ensures
        sound(consolidate_boards(st, boards, c), c.ids),
    decreases boards.len(),
{
    if boards.len() > 0 {
        let rest = boards.drop_last();
        let before = consolidate_boards(st, rest, c);
        let p = consolidation_ids::pend_boards(over, rest);
        consolidation_ids::lemma_boards_grow(over, boards, rest.len() as int);
        assert(boards.take(rest.len() as int) =~= rest);
        lemma_boards_sound(st, rest, c, over);
        consolidation_ids::lemma_pace_boards(st, over, rest, c);
        let i = tables::first_index(c.sources, source_at(boards.last().board_path@));
        tables::lemma_first_index(c.sources, source_at(boards.last().board_path@));
        if i < c.sources.len() {
            match c.sources[i].state {
                SourceState::Rules(rules) => {
                    let views = rulebook::rule_views(rules@);
                    assert forall|k: int, n: int| 0 <= k < c.ids.len() && 0 <= n < views.len() implies
                        #[trigger] c.ids[k] != (#[trigger] views[n]).id by {
                        assert(is_spare(c.ids[k], c.sources[i]));
                        assert(rulebook::rule_ids(rules@)[n] == rules@[n].id@);
                        assert(rulebook::rule_ids(rules@).contains(rules@[n].id@));
                    }
                    let path = boards.last().board_path@;
                    let same = tables::kept(
                        c.boards,
                        tables::board_named(boards.last().name@, true),
                    ).len();
                    if before.failed is None && same == 1 && !is_marked(before.marks, path) {
                        lemma_rules_sound(before, views, boards.last().name@, path, c, p, over);
                    }
                },
                _ => {},
            }
        }
    }
}

/// Merging legacy rules brings in no spare id.
proof fn lemma_merge_spare(
    rules: Seq<RuleView>,
    legacy: Seq<LegacyRule>,
    ids: Seq<Seq<char>>,
)
    requires
        forall|i: int, k: int|
            0 <= i < rules.len() && 0 <= k < ids.len() ==> (#[trigger] rules[i]).id
                != #[trigger] ids[k],
        forall|i: int, k: int|
            0 <= i < legacy.len() && 0 <= k < ids.len() ==> (#[trigger] legacy[i]).id@
                != #[trigger] ids[k],
    ensures
        forall|i: int, k: int|
            0 <= i < merge_all_legacy(rules, legacy).rules.len() && 0 <= k < ids.len() ==> (
            #[trigger] merge_all_legacy(rules, legacy).rules[i]).id != #[trigger] ids[k],
    decreases legacy.len(),
{
    if legacy.len() > 0 {
        let rest = legacy.drop_last();
        assert forall|i: int, k: int| 0 <= i < rest.len() && 0 <= k < ids.len() implies (
        #[trigger] rest[i]).id@ != #[trigger] ids[k] by {
            assert(rest[i] == legacy[i]);
        }
        lemma_merge_spare(rules, rest, ids);
        let st = merge_all_legacy(rules, rest);
        tables::lemma_first_index(st.rules, view_at(legacy.last().id@));
        let next = merge_all_legacy(rules, legacy).rules;
        assert(legacy.last() == legacy[legacy.len() - 1]);
        assert forall|i: int, k: int| 0 <= i < next.len() && 0 <= k < ids.len() implies (
        #[trigger] next[i]).id != #[trigger] ids[k] by {
            if i < st.rules.len() {
                assert(next[i].id == st.rules[i].id);
            }
        }
    }
}

proof fn lemma_spare_after_merge(
    pre: Registry,
    mid: Registry,
    ids: Seq<Seq<char>>,
    sources: Seq<BoardSource>,
)
    requires
        spare_ids(ids, pre, sources),
        pre.wf(),
        rulebook::rule_views(mid.rules@) == rulebook::rule_views(pre.rules@)
            || rulebook::rule_views(mid.rules@) == merge_all_legacy(
            rulebook::rule_views(pre.rules@),
            ranking::ranked(pre.legacy_rules@),
        ).rules,
    ensures
        sound(consolidation_start(mid), ids),
{
    broadcast use vstd::seq_lib::group_to_multiset_ensures;

    let rules = rulebook::rule_views(pre.rules@);
    let legacy = ranking::ranked(pre.legacy_rules@);
    lemma_distinct_views(pre.rules@);
    lemma_merge_distinct(rules, legacy);
    assert forall|i: int, k: int| 0 <= i < rules.len() && 0 <= k < ids.len() implies (
    #[trigger] rules[i]).id != #[trigger] ids[k] by {
        assert(rulebook::rule_ids(pre.rules@)[i] == pre.rules@[i].id@);
        assert(rulebook::rule_ids(pre.rules@).contains(pre.rules@[i].id@));
    }
    ranking::law_ranked(pre.legacy_rules@);
    assert forall|i: int, k: int| 0 <= i < legacy.len() && 0 <= k < ids.len() implies (
    #[trigger] legacy[i]).id@ != #[trigger] ids[k] by {
        assert(legacy.contains(legacy[i]));
        assert(pre.legacy_rules@.to_multiset().count(legacy[i]) > 0);
        assert(pre.legacy_rules@.contains(legacy[i]));
        let n = choose|n: int|
            0 <= n < pre.legacy_rules@.len() && pre.legacy_rules@[n] == legacy[i];
        assert(ids[k] != pre.legacy_rules@[n].id@);
    }
    lemma_merge_spare(rules, legacy, ids);
}

/// Taking over the boards keeps the ids of the rules distinct.
proof fn lemma_consolidated_wf(
    pre: Registry,
    mid: Registry,
    post: Registry,
    sources: Seq<BoardSource>,
    ids: Seq<Seq<char>>,
    actor: Seq<char>,
    now: i64,
)
    requires
        pre.wf(),
        mid.wf(),
        spare_ids(ids, pre, sources),
        rulebook::rule_views(mid.rules@) == rulebook::rule_views(pre.rules@)
            || rulebook::rule_views(mid.rules@) == merge_all_legacy(
            rulebook::rule_views(pre.rules@),
            ranking::ranked(pre.legacy_rules@),
        ).rules,
        consolidation_ids::ids_needed(mid, sources) <= ids.len(),
        post == (Registry {
            rules: post.rules,
            events: post.events,
            migrations: post.migrations,
            ..mid
        }),
        rulebook::rule_views(post.rules@) == consolidate_boards(
            consolidation_start(mid),
            board_order(mid.boards@),
            (ConsolidationContext { boards: mid.boards@, sources, ids, actor, now }),
        ).rules,
    ensures
        post.wf(),
{
    let c = ConsolidationContext { boards: mid.boards@, sources, ids, actor, now };
    let over = consolidation_ids::pending_over(mid, sources);
    ledger::lemma_boards_keep_sources(consolidation_start(mid), board_order(mid.boards@), c);
    ledger::lemma_ledger_stays(mid, post);
    lemma_spare_after_merge(pre, mid, ids, sources);
    consolidation_ids::lemma_pace_start(mid, sources, ids);
    lemma_boards_sound(consolidation_start(mid), board_order(mid.boards@), c, over);
    lemma_distinct_views(post.rules@);
}

impl Registry {
    fn consolidate_boards_as(
        &mut self,
        actor: &str,
        report: RuleMigrationReport,
        sources: &[BoardSource],
        ids: &[String],
        now: i64,
        retirements: &mut Vec<SourceRetirement>,
    ) -> (r: Result<RuleMigrationReport, Error>)
        requires
            rules_for(board_order(old(self).boards@), sources@) <= usize::MAX,
            consolidation_ids::ids_needed(*old(self), sources@) <= ids@.len(),
            consolidation_ids::all_spare(text::texts(ids@), sources@),
        ensures
            boards_consolidated(
                *old(self),
                *final(self),
                r,
                report,
                retirement_views(final(retirements)@),
                actor@,
                sources@,
                text::texts(ids@),
                now,
            ),
    {
        let ghost pre = *self;
        let ghost st = consolidation_start(pre);
        let order = order_boards(self.boards.as_slice());
        let mut progress = Progress {
            rules: Vec::new(),
            entries: Vec::new(),
            marks: Vec::new(),
            retirements: Vec::new(),
            boards_migrated: 0,
            boards_already: 0,
            imported: 0,
            already: 0,
            retired: 0,
            used: 0,
        };
        std::mem::swap(&mut progress.rules, &mut self.rules);
        std::mem::swap(&mut progress.marks, &mut self.migrations);
        let with = Workbench { boards: self.boards.as_slice(), sources, ids, actor, now };
        proof {
            assert(tables::entry_views(progress.entries@) =~= seq![]);
            assert(retirement_views(progress.retirements@) =~= seq![]);
        }
        let ghost over = consolidation_ids::pending_over(pre, sources@);
        proof {
            consolidation_ids::lemma_pace_start(pre, sources@, text::texts(ids@));
        }
        let result = progress.take_boards(order.as_slice(), &with, Ghost(st), Ghost(over));
        std::mem::swap(&mut progress.rules, &mut self.rules);
        std::mem::swap(&mut progress.marks, &mut self.migrations);
        tables::append_all(&mut self.events, progress.entries.as_slice());
        let Progress {
            retirements: due,
            boards_migrated,
            boards_already,
            imported,
            already,
            retired,
            ..
        } = progress;
        *retirements = due;
        match result {
            Ok(_) => {},
            Err(e) => {
                return Err(e);
            },
        }
        let mut report = report;
        report.boards_migrated = boards_migrated;
        report.boards_already_migrated = boards_already;
        report.rules_imported = imported;
        report.rules_already_imported = already;
        report.source_rules_retired = retired;
        Ok(report)
    }

    /// Take over the rules of the former global table and of the boards, under
    /// given ids at a given time. What was taken over before a failure stays.
    /// `retirements` receives the board rules to be retired on their boards.
    pub fn consolidate_board_rules_as(
        &mut self,
        actor: &str,
        sources: &[BoardSource],
        ids: &[String],
        now: i64,
        retirements: &mut Vec<SourceRetirement>,
    ) -> (r: Result<RuleMigrationReport, Error>)
        requires
            rules_for(board_order(old(self).boards@), sources@) <= ids@.len(),
            spare_ids(text::texts(ids@), *old(self), sources@),
        ensures
            rules_consolidated(
                *old(self),
                *final(self),
                r,
                retirement_views(final(retirements)@),
                actor@,
                sources@,
                text::texts(ids@),
                now,
            ),
            old(self).wf() ==> final(self).wf(),
    {
        let ghost pre = *self;
        *retirements = Vec::new();
        let by = match rules::validate_rule_actor(actor) {
            Ok(by) => by,
            Err(e) => {
                return Err(e);
            },
        };
        let mut report = RuleMigrationReport::empty();
        proof {
            assert(self.legacy_rules.len() <= usize::MAX);
            assert(self.legacy_events.len() <= usize::MAX);
        }
        let done = self.consolidate_legacy_registry_rules(by, &mut report, now);
        let ghost mid = *self;
        proof {
            assert(legacy_consolidated(pre, mid, done, by@, empty_report(), report, now));
        }
        match done {
            Ok(_) => {},
            Err(e) => {
                proof {
                    assert(legacy_consolidated(
                        pre,
                        mid,
                        Err::<(), Error>(e),
                        by@,
                        empty_report(),
                        report,
                        now,
                    ));
                }
                return Err(e);
            },
        }
        let ghost legacy_report = report;
        let spare: usize = ids.len();
        proof {
            assert(rules_for(board_order(mid.boards@), sources@) <= spare);
            consolidation_ids::lemma_needed_bound(
                consolidation_ids::pending_over(mid, sources@),
                board_order(mid.boards@),
            );
        }
        let r = self.consolidate_boards_as(by, report, sources, ids, now, retirements);
        proof {
            assert(legacy_consolidated(
                pre,
                mid,
                Ok::<(), Error>(()),
                by@,
                empty_report(),
                legacy_report,
                now,
            ));
            if pre.wf() {
                lemma_consolidated_wf(pre, mid, *self, sources@, text::texts(ids@), by@, now);
            }
        }
        r
    }

    /// Take over the rules of the former global table and of the boards. What was
    /// taken over before a failure stays. `retirements` receives the board rules to be
    /// retired on their boards. Ids are drawn for the board rules whose own are in use.
    pub fn consolidate_board_rules(
        &mut self,
        actor: &str,
        sources: &[BoardSource],
        retirements: &mut Vec<SourceRetirement>,
    ) -> (r: Result<RuleMigrationReport, Error>)
        requires
            rules_for(board_order(old(self).boards@), sources@) <= usize::MAX,
        ensures
            rules_drawn(
                *old(self),
                *final(self),
                r,
                retirement_views(final(retirements)@),
                actor@,
                sources@,
            ),
            old(self).wf() ==> final(self).wf(),
    {
        let ghost pre = *self;
        *retirements = Vec::new();
        let by = match rules::validate_rule_actor(actor) {
            Ok(by) => by,
            Err(e) => {
                return Err(e);
            },
        };
        let taken = self.taken_ids(sources);
        let now: i64 = clock::now_ms();
        let mut report = RuleMigrationReport::empty();
        proof {
            assert(self.legacy_rules.len() <= usize::MAX);
            assert(self.legacy_events.len() <= usize::MAX);
        }
        let done = self.consolidate_legacy_registry_rules(by, &mut report, now);
        let ghost mid = *self;
        proof {
            assert(legacy_consolidated(pre, mid, done, by@, empty_report(), report, now));
        }
        if let Err(e) = done {
            return Err(e);
        }
        let order = order_boards(self.boards.as_slice());
        let needed: usize = consolidation_ids::count_needed(self, order.as_slice(), sources);
        let ids = match rulebook::draw_rule_ids(taken.as_slice(), needed) {
            Some(ids) => ids,
            None => {
                proof {
                    assert(text::texts(taken@).len() == taken@.len());
                }
                return text::refuse("no free rule id".to_owned());
            },
        };
        proof {
            assert(text::texts(taken@).len() == taken@.len());
            assert(text::texts(ids@).len() == needed);
            lemma_spare(text::texts(ids@), text::texts(taken@), pre, sources@);
        }
        let ghost half = report;
        let r = self.consolidate_boards_as(by, report, sources, ids.as_slice(), now, retirements);
        proof {
            let due = retirement_views(retirements@);
            assert(boards_drawn(pre, mid, *self, r, half, due, by@, sources@, now)) by {
                assert(boards_consolidated(
                    mid,
                    *self,
                    r,
                    half,
                    due,
                    by@,
                    sources@,
                    text::texts(ids@),
                    now,
                ));
            }
            if pre.wf() {
                lemma_consolidated_wf(pre, mid, *self, sources@, text::texts(ids@), by@, now);
            }
        }
        r
    }

    /// Every id that a rule has or may be taken over under.
    fn taken_ids(&self, sources: &[BoardSource]) -> (r: Vec<String>)
        ensures
            text::texts(r@) == all_ids(*self, sources@),
    {
        let mut out = rulebook::ids_of(self.rules.as_slice());
        let ghost own = text::texts(out@);
        let ghost legacy = self.legacy_rules@.map_values(|l: LegacyRule| l.id@);
        let mut i: usize = 0;
        proof {
            assert(own + legacy.take(0) =~= own);
        }
        while i < self.legacy_rules.len()
            invariant
                i <= self.legacy_rules@.len(),
                legacy == self.legacy_rules@.map_values(|l: LegacyRule| l.id@),
                text::texts(out@) == own + legacy.take(i as int),
            decreases self.legacy_rules.len() - i,
        {
            let ghost before = out@;
            out.push(self.legacy_rules[i].id.clone());
            proof {
                assert(text::texts(out@) =~= text::texts(before).push(legacy[i as int]));
                assert(own + legacy.take(i as int + 1) =~= (own + legacy.take(i as int)).push(
                    legacy[i as int],
                ));
            }
            i = i + 1;
        }
        proof {
            assert(legacy.take(legacy.len() as int) =~= legacy);
        }
        let ghost base = own + legacy;
        let mut k: usize = 0;
        proof {
            assert(sources@.take(0) =~= Seq::<BoardSource>::empty());
            assert(base + all_source_ids(sources@.take(0)) =~= base);
        }
        while k < sources.len()
            invariant
                k <= sources@.len(),
                text::texts(out@) == base + all_source_ids(sources@.take(k as int)),
            decreases sources.len() - k,
        {
            let ghost before = text::texts(out@);
            let mut more = match &sources[k].state {
                SourceState::Rules(rules) => rulebook::ids_of(rules.as_slice()),
                _ => Vec::new(),
            };
            let ghost added = text::texts(more@);
            out.append(&mut more);
            proof {
                assert(added =~= source_ids(sources@[k as int]));
                assert(text::texts(out@) =~= before + added);
                assert(sources@.take(k as int + 1).drop_last() =~= sources@.take(k as int));
                assert(base + (all_source_ids(sources@.take(k as int)) + added) =~= before + added);
            }
            k = k + 1;
        }
        proof {
            assert(sources@.take(sources@.len() as int) =~= sources@);
        }
        out
    }
}

pub open spec fn source_ids(source: BoardSource) -> Seq<Seq<char>> {
    match source.state {
        SourceState::Rules(rules) => rulebook::rule_ids(rules@),
        _ => seq![],
    }
}

pub open spec fn all_source_ids(sources: Seq<BoardSource>) -> Seq<Seq<char>>
    decreases sources.len(),
{
    if sources.len() == 0 {
        seq![]
    } else {
        all_source_ids(sources.drop_last()) + source_ids(sources.last())
    }
}

/// Every id that a rule has or may be taken over under.
pub open spec fn all_ids(reg: Registry, sources: Seq<BoardSource>) -> Seq<Seq<char>> {
    rulebook::rule_ids(reg.rules@) + reg.legacy_rules@.map_values(|l: LegacyRule| l.id@)
        + all_source_ids(sources)
}

proof fn lemma_source_ids(sources: Seq<BoardSource>, k: int, id: Seq<char>)
    requires
        0 <= k < sources.len(),
        source_ids(sources[k]).contains(id),
    ensures
        all_source_ids(sources).contains(id),
    decreases sources.len(),
{
    let front = all_source_ids(sources.drop_last());
    let back = source_ids(sources.last());
    let all = all_source_ids(sources);
    assert(all == front + back);
    if k < sources.len() - 1 {
        lemma_source_ids(sources.drop_last(), k, id);
        let i = choose|i: int| 0 <= i < front.len() && front[i] == id;
        assert(all[i] == id);
    } else {
        let i = choose|i: int| 0 <= i < back.len() && back[i] == id;
        assert(all[front.len() + i] == id);
    }
}

proof fn lemma_spare(
    ids: Seq<Seq<char>>,
    taken: Seq<Seq<char>>,
    reg: Registry,
    sources: Seq<BoardSource>,
)
    requires
        rulebook::are_free(ids, taken),
        taken == all_ids(reg, sources),
    ensures
        spare_ids(ids, reg, sources),
{
    let own = rulebook::rule_ids(reg.rules@);
    let legacy = reg.legacy_rules@.map_values(|l: LegacyRule| l.id@);
    let rest = all_source_ids(sources);
    assert forall|i: int| 0 <= i < ids.len() implies !own.contains(#[trigger] ids[i]) by {
        if own.contains(ids[i]) {
            let k = choose|k: int| 0 <= k < own.len() && own[k] == ids[i];
            assert(taken[k] == ids[i]);
        }
    }
    assert forall|i: int, k: int|
        0 <= i < ids.len() && 0 <= k < reg.legacy_rules@.len() implies #[trigger] ids[i] != (
    #[trigger] reg.legacy_rules@[k]).id@ by {
        assert(taken[own.len() + k] == legacy[k]);
        assert(taken.contains(legacy[k]));
    }
    assert forall|i: int, k: int| 0 <= i < ids.len() && 0 <= k < sources.len() implies is_spare(
        #[trigger] ids[i],
        #[trigger] sources[k],
    ) by {
        if source_ids(sources[k]).contains(ids[i]) {
            lemma_source_ids(sources, k, ids[i]);
            let n = choose|n: int| 0 <= n < rest.len() && rest[n] == ids[i];
            assert(taken[own.len() + legacy.len() + n] == ids[i]);
            assert(taken.contains(ids[i]));
        }
    }
}

/// After consolidation without a failure every board is marked, and its name is
/// its own.
proof fn lemma_all_marked(st: Consolidation, boards: Seq<NamedBoard>, c: ConsolidationContext)
    requires
        consolidate_boards(st, boards, c).failed is None,
    ensures
        forall|i: int|
            0 <= i < boards.len() ==> is_marked(
                consolidate_boards(st, boards, c).marks,
                (#[trigger] boards[i]).board_path@,
            ) && tables::kept(c.boards, tables::board_named(boards[i].name@, true)).len() == 1,
    decreases boards.len(),
{
    if boards.len() > 0 {
        let rest = boards.drop_last();
        let before = consolidate_boards(st, rest, c);
        let done = consolidate_boards(st, boards, c);
        let path = boards.last().board_path@;
        lemma_all_marked(st, rest, c);
        let i = tables::first_index(c.sources, source_at(path));
        if !is_marked(before.marks, path) {
            match c.sources[i].state {
                SourceState::Rules(rules) => {
                    lemma_rule_bounds(
                        before,
                        rulebook::rule_views(rules@),
                        boards.last().name@,
                        path,
                        c,
                    );
                    assert(done.marks[before.marks.len() as int].board_path == path);
                },
                _ => {},
            }
        }
        assert forall|k: int| 0 <= k < boards.len() implies is_marked(
            done.marks,
            (#[trigger] boards[k]).board_path@,
        ) && tables::kept(c.boards, tables::board_named(boards[k].name@, true)).len() == 1 by {
            if k < rest.len() {
                assert(rest[k] == boards[k]);
                let n = choose|n: int|
                    0 <= n < before.marks.len() && (#[trigger] before.marks[n]).board_path
                        == boards[k].board_path@;
                assert(done.marks[n] == before.marks[n]);
            }
        }
    }
}

proof fn lemma_nothing_left(st: Consolidation, boards: Seq<NamedBoard>, c: ConsolidationContext)
    requires
        st.failed is None,
        forall|i: int|
            0 <= i < boards.len() ==> is_marked(st.marks, (#[trigger] boards[i]).board_path@)
                && tables::kept(c.boards, tables::board_named(boards[i].name@, true)).len() == 1,
    ensures
        consolidate_boards(st, boards, c) == (Consolidation {
            boards_already: st.boards_already + boards.len(),
            ..st
        }),
    decreases boards.len(),
{
    if boards.len() > 0 {
        let rest = boards.drop_last();
        assert forall|i: int| 0 <= i < rest.len() implies is_marked(
            st.marks,
            (#[trigger] rest[i]).board_path@,
        ) && tables::kept(c.boards, tables::board_named(rest[i].name@, true)).len() == 1 by {
            assert(rest[i] == boards[i]);
        }
        lemma_nothing_left(st, rest, c);
        assert(boards.last() == boards[boards.len() - 1]);
    }
}

/// A second consolidation, with whatever the boards hold by then, finds every
/// board marked: it takes over no rule, retires none and audits nothing.
pub proof fn law_boards_are_taken_over_once(
    pre: Registry,
    mid: Registry,
    post: Registry,
    results: (Result<RuleMigrationReport, Error>, Result<RuleMigrationReport, Error>),
    retirements: (Seq<RetirementView>, Seq<RetirementView>),
    actors: (Seq<char>, Seq<char>),
    sources: (Seq<BoardSource>, Seq<BoardSource>),
    ids: (Seq<Seq<char>>, Seq<Seq<char>>),
    times: (i64, i64),
)
    requires
        rules_consolidated(
            pre,
            mid,
            results.0,
            retirements.0,
            actors.0,
            sources.0,
            ids.0,
            times.0,
        ),
        results.0 is Ok,
        text::trimmed(actors.1).len() > 0,
        rules_consolidated(
            mid,
            post,
            results.1,
            retirements.1,
            actors.1,
            sources.1,
            ids.1,
            times.1,
        ),
    ensures
        results.1 is Ok,
        results.1->Ok_0.legacy_registry_already_migrated,
        results.1->Ok_0.boards_migrated == 0,
        results.1->Ok_0.boards_already_migrated == mid.boards@.len(),
        results.1->Ok_0.rules_imported == 0,
        results.1->Ok_0.rules_already_imported == 0,
        results.1->Ok_0.source_rules_retired == 0,
        retirements.1.len() == 0,
        rulebook::rule_views(post.rules@) == rulebook::rule_views(mid.rules@),
        post.events@ == mid.events@,
{
    let by = (text::trimmed(actors.0), text::trimmed(actors.1));
    lemma_all_marked_after(
        pre,
        mid,
        results.0,
        retirements.0,
        actors.0,
        sources.0,
        ids.0,
        times.0,
    );
    let order = board_order(mid.boards@);
    let (half2, done2, report2) = choose|half: Registry, done: Result<(), Error>, report: RuleMigrationReport|
        {
            &&& #[trigger] legacy_consolidated(mid, half, done, by.1, empty_report(), report, times.1)
            &&& match done {
                Err(e) => post == half && retirements.1.len() == 0 && text::refused(
                    results.1,
                    e.message@,
                ),
                Ok(_) => boards_consolidated(
                    half,
                    post,
                    results.1,
                    report,
                    retirements.1,
                    by.1,
                    sources.1,
                    ids.1,
                    times.1,
                ),
            }
        };
    assert(half2 == mid);
    let second = ConsolidationContext {
        boards: mid.boards@,
        sources: sources.1,
        ids: ids.1,
        actor: by.1,
        now: times.1,
    };
    lemma_nothing_left(consolidation_start(mid), order, second);
    ranking::law_ranked(named_boards(mid.boards@));
    assert(post.events@ =~= mid.events@) by {
        assert(post.events@.take(mid.events@.len() as int) =~= post.events@);
    }
}

/// After consolidation every board and the former global table are marked, and every
/// board has a name of its own.
proof fn lemma_all_marked_after(
    pre: Registry,
    mid: Registry,
    r: Result<RuleMigrationReport, Error>,
    retirements: Seq<RetirementView>,
    actor: Seq<char>,
    sources: Seq<BoardSource>,
    ids: Seq<Seq<char>>,
    now: i64,
)
    requires
        rules_consolidated(pre, mid, r, retirements, actor, sources, ids, now),
        r is Ok,
    ensures
        is_marked(migration_views(mid.migrations@), LEGACY_SOURCE@),
        forall|i: int|
            0 <= i < board_order(mid.boards@).len() ==> is_marked(
                migration_views(mid.migrations@),
                (#[trigger] board_order(mid.boards@)[i]).board_path@,
            ) && tables::kept(
                mid.boards@,
                tables::board_named(board_order(mid.boards@)[i].name@, true),
            ).len() == 1,
{
    let by = text::trimmed(actor);
    let (half, done, report) = choose|half: Registry, done: Result<(), Error>, report: RuleMigrationReport|
        {
            &&& #[trigger] legacy_consolidated(pre, half, done, by, empty_report(), report, now)
            &&& match done {
                Err(e) => mid == half && retirements.len() == 0 && text::refused(
                    r,
                    e.message@,
                ),
                Ok(_) => boards_consolidated(
                    half,
                    mid,
                    r,
                    report,
                    retirements,
                    by,
                    sources,
                    ids,
                    now,
                ),
            }
        };
    let order = board_order(mid.boards@);
    let first = ConsolidationContext {
        boards: half.boards@,
        sources,
        ids,
        actor: by,
        now,
    };
    lemma_all_marked(consolidation_start(half), order, first);
    let ended = consolidate_boards(consolidation_start(half), order, first);
    assert(migration_views(mid.migrations@) == ended.marks);
    assert(is_marked(migration_views(half.migrations@), LEGACY_SOURCE@)) by {
        if !is_marked(migration_views(pre.migrations@), LEGACY_SOURCE@) {
            let n = migration_views(pre.migrations@).len() as int;
            assert(migration_views(half.migrations@)[n].board_path == LEGACY_SOURCE@);
        }
    }
    lemma_marks_grow(consolidation_start(half), order, first, LEGACY_SOURCE@);
}

/// Where consolidation was interrupted after rules of a board were taken over and before
/// the board was marked, the next one finishes it: rules that are known are not taken
/// over again, and what is still active on the board is retired there.
pub proof fn law_known_rules_are_only_retired(
    st: Consolidation,
    sources: Seq<RuleView>,
    board: Seq<char>,
    path: Seq<char>,
    c: ConsolidationContext,
)
    requires
        forall|i: int|
            0 <= i < sources.len() ==> consolidation_ids::has_source(
                st.rules,
                board,
                (#[trigger] sources[i]).id,
            ),
    ensures
        ({
            let done = consolidate_rules(st, sources, board, path, c);
            let active = tables::kept(sources, |r: RuleView| !r.archived);
            &&& done.rules == st.rules
            &&& done.entries == st.entries
            &&& done.imported == st.imported
            &&& done.used == st.used
            &&& done.already == st.already + sources.len()
            &&& done.retired == st.retired + active.len()
            &&& done.retirements.len() == st.retirements.len() + active.len()
        }),
    decreases sources.len(),
{
    if sources.len() > 0 {
        let rest = sources.drop_last();
        assert forall|i: int| 0 <= i < rest.len() implies consolidation_ids::has_source(
            st.rules,
            board,
            (#[trigger] rest[i]).id,
        ) by {
            assert(rest[i] == sources[i]);
        }
        law_known_rules_are_only_retired(st, rest, board, path, c);
        assert(consolidation_ids::has_source(st.rules, board, sources[sources.len() - 1].id));
    }
}

/// A second consolidation succeeds whatever is drawn, with whatever the boards hold by
/// then: no board is taken over, no rule is taken over or retired, and nothing is
/// audited.
pub proof fn law_second_consolidation_succeeds(
    pre: Registry,
    mid: Registry,
    post: Registry,
    results: (Result<RuleMigrationReport, Error>, Result<RuleMigrationReport, Error>),
    retirements: (Seq<RetirementView>, Seq<RetirementView>),
    actors: (Seq<char>, Seq<char>),
    sources: (Seq<BoardSource>, Seq<BoardSource>),
)
    requires
        rules_drawn(pre, mid, results.0, retirements.0, actors.0, sources.0),
        results.0 is Ok,
        text::trimmed(actors.1).len() > 0,
        rules_drawn(mid, post, results.1, retirements.1, actors.1, sources.1),
    ensures
        results.1 is Ok,
        results.1->Ok_0.legacy_registry_already_migrated,
        results.1->Ok_0.boards_migrated == 0,
        results.1->Ok_0.boards_already_migrated == mid.boards@.len(),
        results.1->Ok_0.rules_imported == 0,
        results.1->Ok_0.rules_already_imported == 0,
        results.1->Ok_0.source_rules_retired == 0,
        retirements.1.len() == 0,
        rulebook::rule_views(post.rules@) == rulebook::rule_views(mid.rules@),
        post.events@ == mid.events@,
{
    let by = (text::trimmed(actors.0), text::trimmed(actors.1));
    let (half, done, report, now) = choose|
        half: Registry,
        done: Result<(), Error>,
        report: RuleMigrationReport,
        now: i64,
    |
        {
            &&& #[trigger] legacy_consolidated(pre, half, done, by.0, empty_report(), report, now)
            &&& match done {
                Err(e) => mid == half && retirements.0.len() == 0 && text::refused(
                    results.0,
                    e.message@,
                ),
                Ok(_) => boards_drawn(
                    pre,
                    half,
                    mid,
                    results.0,
                    report,
                    retirements.0,
                    by.0,
                    sources.0,
                    now,
                ),
            }
        };
    let ids = choose|ids: Seq<Seq<char>>| #[trigger]
        boards_consolidated(
            half,
            mid,
            results.0,
            report,
            retirements.0,
            by.0,
            sources.0,
            ids,
            now,
        );
    assert(rules_consolidated(
        pre,
        mid,
        results.0,
        retirements.0,
        actors.0,
        sources.0,
        ids,
        now,
    ));
    lemma_all_marked_after(pre, mid, results.0, retirements.0, actors.0, sources.0, ids, now);
    let (half2, done2, report2, later) = choose|
        half: Registry,
        done: Result<(), Error>,
        report: RuleMigrationReport,
        now: i64,
    |
        {
            &&& #[trigger] legacy_consolidated(mid, half, done, by.1, empty_report(), report, now)
            &&& match done {
                Err(e) => post == half && retirements.1.len() == 0 && text::refused(
                    results.1,
                    e.message@,
                ),
                Ok(_) => boards_drawn(
                    mid,
                    half,
                    post,
                    results.1,
                    report,
                    retirements.1,
                    by.1,
                    sources.1,
                    now,
                ),
            }
        };
    assert(half2 == mid);
    consolidation_ids::lemma_marked_need_nothing(
        consolidation_ids::pending_over(mid, sources.1),
        board_order(mid.boards@),
    );
    let more = choose|ids: Seq<Seq<char>>| #[trigger]
        boards_consolidated(
            half2,
            post,
            results.1,
            report2,
            retirements.1,
            by.1,
            sources.1,
            ids,
            later,
        );
    assert(rules_consolidated(
        mid,
        post,
        results.1,
        retirements.1,
        actors.1,
        sources.1,
        more,
        later,
    ));
    law_boards_are_taken_over_once(
        pre,
        mid,
        post,
        results,
        retirements,
        actors,
        sources,
        (ids, more),
        (now, later),
    );
}

proof fn lemma_marks_grow(
    st: Consolidation,
    boards: Seq<NamedBoard>,
    c: ConsolidationContext,
    path: Seq<char>,
)
    requires
        is_marked(st.marks, path),
    ensures
        is_marked(consolidate_boards(st, boards, c).marks, path),
    decreases boards.len(),
{
    if boards.len() > 0 {
        let before = consolidate_boards(st, boards.drop_last(), c);
        let done = consolidate_boards(st, boards, c);
        lemma_marks_grow(st, boards.drop_last(), c, path);
        let n = choose|n: int|
            0 <= n < before.marks.len() && (#[trigger] before.marks[n]).board_path == path;
        let i = tables::first_index(c.sources, source_at(boards.last().board_path@));
        if i < c.sources.len() {
            match c.sources[i].state {
                SourceState::Rules(rules) => {
                    lemma_rule_bounds(
                        before,
                        rulebook::rule_views(rules@),
                        boards.last().name@,
                        boards.last().board_path@,
                        c,
                    );
                },
                _ => {},
            }
        }
        assert(done.marks[n].board_path == path);
    }
}

} // verus!
