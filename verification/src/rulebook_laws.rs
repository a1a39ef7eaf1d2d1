//! What changing the rulebook does, and what its history tells, over all rulebooks.

use vstd::prelude::*;

use crate::listing;
use crate::ranking;
use crate::records::Event;
use crate::rule_history;
use crate::rule_history::Change;
use crate::rule_laws;
use crate::rulebook;
use crate::rulebook::TaskTag;
use crate::rules;
use crate::rules::Rule;
use crate::rules::RuleSummary;
use crate::tables;
use crate::tables::EventRow;
use crate::tables::Registry;
use crate::text;
use crate::text::Error;

verus! {

// ---------------------------------------------------------------------------- changes

/// Nothing but rules and events changed.
pub open spec fn only_rules_changed(pre: Registry, post: Registry) -> bool {
    &&& post.data_root == pre.data_root
    &&& post.registry_uuid == pre.registry_uuid
    &&& post.boards == pre.boards
    &&& post.roots == pre.roots
    &&& post.history == pre.history
    &&& post.ledger == pre.ledger
    &&& post.migrations == pre.migrations
    &&& post.legacy_rules == pre.legacy_rules
    &&& post.legacy_events == pre.legacy_events
    &&& post.policy == pre.policy
}

/// One event more, of a kind, on a rule and by someone; the others stay.
pub open spec fn one_more_event(
    before: Seq<EventRow>,
    after: Seq<EventRow>,
    subject: Seq<char>,
    kind: Seq<char>,
    actor: Seq<char>,
) -> bool {
    &&& after.len() == before.len() + 1
    &&& forall|k: int| 0 <= k < before.len() ==> #[trigger] after[k] == before[k]
    &&& after.last().rule_id@ == subject
    &&& after.last().kind@ == kind
    &&& after.last().actor@ == actor
}

proof fn lemma_newest(all: Seq<Rule>)
    ensures
        rulebook::newest(all) is None <==> all.len() == 0,
        forall|k: int|
            0 <= k < all.len() ==> (#[trigger] all[k]).created_at <= rulebook::newest(all)->0,
    decreases all.len(),
{
    if all.len() > 0 {
        let rest = all.drop_last();
        lemma_newest(rest);
        assert forall|k: int| 0 <= k < all.len() implies (#[trigger] all[k]).created_at
            <= rulebook::newest(all)->0 by {
            if k < rest.len() {
                assert(rest[k] == all[k]);
            }
        }
    }
}

/// A rule that is added is there behind the others, which stay: it says what was asked for,
/// is active, is younger than every other rule as far as times go, and comes from nowhere
/// else. No other rule has its id, and its body has a headline.
pub proof fn law_added_rule_is_there(
    pre: Registry,
    post: Registry,
    r: Result<Rule, Error>,
    body: Seq<char>,
    actor: Seq<char>,
    tags: Seq<Seq<char>>,
    id: Seq<char>,
    now: i64,
)
    requires
        rulebook::rule_added(pre, post, r, body, actor, tags, id, now),
        r is Ok,
    ensures
        post.rules@.len() == pre.rules@.len() + 1,
        forall|k: int| 0 <= k < pre.rules@.len() ==> #[trigger] post.rules@[k] == pre.rules@[k],
        forall|k: int| 0 <= k < pre.rules@.len() ==> (#[trigger] pre.rules@[k]).id@ != id,
        ({
            let x = post.rules@.last();
            &&& x.id@ == id
            &&& x.body@ == body
            &&& x.author@ == text::trimmed(actor)
            &&& !x.archived
            &&& text::texts(x.tags@) == tags
            &&& x.source_board is None && x.source_rule_id is None
            &&& x.source_registry_uuid is None && x.source_content_sha256 is None
            &&& x.source_boards is None
            &&& x.created_at == x.updated_at
            &&& x.created_at >= now
            &&& forall|k: int|
                0 <= k < pre.rules@.len() ==> (#[trigger] pre.rules@[k]).created_at < x.created_at
                    || x.created_at == i64::MAX
            &&& r->Ok_0@ == x@
        }),
        text::trimmed(body).len() > 0,
        text::trimmed(actor).len() > 0,
        text::lines_of(body).len() > 0 && text::trimmed(text::lines_of(body)[0]).len() > 0,
        one_more_event(pre.events@, post.events@, id, "rule_added"@, text::trimmed(actor)),
        only_rules_changed(pre, post),
{
    lemma_newest(pre.rules@);
    let p = rulebook::rule_at(id);
    tables::lemma_first_index(pre.rules@, p);
    assert forall|k: int| 0 <= k < pre.rules@.len() implies (#[trigger] pre.rules@[k]).id@
        != id by {
        assert(!p(pre.rules@[k]));
    }
    let x = post.rules@.last();
    assert(x@.id == x.id@);
    assert(text::text_of(x.source_board) is None);
    assert(text::text_of(x.source_rule_id) is None);
    assert(text::text_of(x.source_registry_uuid) is None);
    assert(text::text_of(x.source_content_sha256) is None);
    assert(rules::lists_of(x.source_boards) is None);
}

/// Retiring a rule retires that rule and no other: it says what it said, and stays, but is
/// no longer listed among the active ones.
pub proof fn law_retired_rule_stays(
    pre: Registry,
    post: Registry,
    r: Result<Rule, Error>,
    id: Seq<char>,
    actor: Seq<char>,
    now: i64,
) -> (k: int)
    requires
        pre.wf(),
        rulebook::rule_retired(pre, post, r, id, actor, now),
        r is Ok,
    ensures
        0 <= k < pre.rules@.len(),
        pre.rules@[k].id@ == id,
        !pre.rules@[k].archived,
        post.rules@.len() == pre.rules@.len(),
        forall|j: int| 0 <= j < pre.rules@.len() && j != k ==> #[trigger] post.rules@[j]
            == pre.rules@[j],
        post.rules@[k].archived,
        post.rules@[k].author@ == text::trimmed(actor),
        post.rules@[k].updated_at == now,
        post.rules@[k].id@ == id,
        post.rules@[k].body@ == pre.rules@[k].body@,
        post.rules@[k].created_at == pre.rules@[k].created_at,
        text::texts(post.rules@[k].tags@) == text::texts(pre.rules@[k].tags@),
        r->Ok_0@ == post.rules@[k]@,
        post.rules@[k]@.source_board == pre.rules@[k]@.source_board,
        post.rules@[k]@.source_rule_id == pre.rules@[k]@.source_rule_id,
        post.rules@[k]@.source_registry_uuid == pre.rules@[k]@.source_registry_uuid,
        post.rules@[k]@.source_content_sha256 == pre.rules@[k]@.source_content_sha256,
        only_rules_changed(pre, post),
        forall|x: Rule| #[trigger] post.listed_rules(false).contains(x) ==> x.id@ != id,
        one_more_event(pre.events@, post.events@, id, "rule_retired"@, text::trimmed(actor)),
{
    let p = rulebook::rule_at(id);
    tables::lemma_first_index(pre.rules@, p);
    let k = tables::first_index(pre.rules@, p);
    assert(p(pre.rules@[k]));
    assert(post.rules@[k]@.id == pre.rules@[k]@.id);
    rule_laws::law_rules_are_listed(post, false);
    assert forall|x: Rule| #[trigger] post.listed_rules(false).contains(x) implies x.id@ != id by {
        assert(post.rules@.contains(x) && !x.archived);
        let j = choose|j: int| 0 <= j < post.rules@.len() && post.rules@[j] == x;
        assert(j != k);
        assert(post.rules@[j] == pre.rules@[j]);
        if j < k {
            assert(pre.rules@[j].id@ != pre.rules@[k].id@);
        } else {
            assert(pre.rules@[k].id@ != pre.rules@[j].id@);
        }
    }
    k
}

/// The tag is the canonical name of one of these.
pub open spec fn is_given(tags: Seq<TaskTag>, tag: Seq<char>) -> bool {
    exists|i: int| 0 <= i < tags.len() && (#[trigger] tags[i]).name is Ok && tags[i].name->Ok_0@ == tag
}

pub(crate) proof fn lemma_split_tags(tags: Seq<Seq<char>>, tag: Seq<char>)
    ensures
        tables::kept(tags, rule_history::selector_tag()).contains(tag) <==> tags.contains(tag)
            && !rule_laws::names_subsystem(tag),
        tables::kept(tags, rule_history::subsystem_tag()).contains(tag) <==> tags.contains(tag)
            && rule_laws::names_subsystem(tag),
{
    listing::lemma_kept_contains(tags, rule_history::selector_tag(), tag);
    listing::lemma_kept_contains(tags, rule_history::subsystem_tag(), tag);
    rule_laws::lemma_named(tag);
}

pub(crate) proof fn lemma_in_sum(a: Seq<Seq<char>>, b: Seq<Seq<char>>, tag: Seq<char>)
    ensures
        (a + b).contains(tag) <==> a.contains(tag) || b.contains(tag),
{
    if a.contains(tag) {
        let i = choose|i: int| 0 <= i < a.len() && a[i] == tag;
        assert((a + b)[i] == tag);
    }
    if b.contains(tag) {
        let i = choose|i: int| 0 <= i < b.len() && b[i] == tag;
        assert((a + b)[a.len() + i] == tag);
    }
    if (a + b).contains(tag) {
        let i = choose|i: int| 0 <= i < (a + b).len() && (a + b)[i] == tag;
        if i < a.len() {
            assert(a[i] == tag);
        } else {
            assert(b[i - a.len()] == tag);
        }
    }
}

/// Changing a rule changes that rule and no other, and of it just what was given: its body
/// where one was given, its selectors where some were given, and its subsystems where some
/// were given. What was not given stays. Its id, its age, where it comes from and whether it
/// is retired stay too.
pub proof fn law_updated_rule_changes_what_is_given(
    pre: Registry,
    post: Registry,
    r: Result<Rule, Error>,
    id: Seq<char>,
    change: Change,
    actor: Seq<char>,
    now: i64,
) -> (k: int)
    requires
        rule_history::rule_updated(pre, post, r, id, change, actor, now),
        r is Ok,
    ensures
        0 <= k < pre.rules@.len(),
        pre.rules@[k].id@ == id,
        post.rules@.len() == pre.rules@.len(),
        forall|j: int| 0 <= j < pre.rules@.len() && j != k ==> #[trigger] post.rules@[j]
            == pre.rules@[j],
        ({
            let a = pre.rules@[k];
            let b = post.rules@[k];
            let old_tags = text::texts(a.tags@);
            let new_tags = text::texts(b.tags@);
            &&& b.id@ == a.id@
            &&& b.archived == a.archived
            &&& b.created_at == a.created_at
            &&& b@.source_board == a@.source_board
            &&& b@.source_rule_id == a@.source_rule_id
            &&& b@.source_registry_uuid == a@.source_registry_uuid
            &&& b.author@ == text::trimmed(actor)
            &&& b.updated_at == now
            &&& change.body matches Some(body) ==> b.body@ == body
            &&& change.body is None ==> b.body@ == a.body@
            &&& change.selectors is None ==> forall|tag: Seq<char>|
                !rule_laws::names_subsystem(tag) && #[trigger] old_tags.contains(tag)
                    ==> new_tags.contains(tag)
            &&& change.subsystems is None ==> forall|tag: Seq<char>|
                rule_laws::names_subsystem(tag) && #[trigger] old_tags.contains(tag)
                    ==> new_tags.contains(tag)
            &&& change.selectors matches Some(given) ==> forall|tag: Seq<char>| #[trigger]
                given.contains(tag) ==> new_tags.contains(tag)
            &&& change.selectors is Some && change.subsystems is None ==> forall|tag: Seq<char>|
                #[trigger] new_tags.contains(tag) ==> change.selectors->0.contains(tag) || (
                old_tags.contains(tag) && rule_laws::names_subsystem(tag))
            &&& change.selectors is None && change.subsystems is None ==> forall|tag: Seq<char>|
                #[trigger] new_tags.contains(tag) ==> old_tags.contains(tag)
            &&& change.subsystems matches Some(given) ==> forall|i: int|
                0 <= i < given.len() ==> (#[trigger] given[i]).name is Ok && new_tags.contains(
                    given[i].name->Ok_0@,
                )
            &&& change.subsystems is Some && change.selectors is None ==> forall|tag: Seq<char>|
                #[trigger] new_tags.contains(tag) ==> (old_tags.contains(tag)
                    && !rule_laws::names_subsystem(tag)) || is_given(change.subsystems->0, tag)
            &&& b@.source_boards == a@.source_boards
            &&& b@.source_content_sha256 == a@.source_content_sha256
            &&& r->Ok_0@ == b@
        }),
        text::trimmed(actor).len() > 0,
        only_rules_changed(pre, post),
        one_more_event(pre.events@, post.events@, id, "rule_updated"@, text::trimmed(actor)),
{
    let p = rulebook::rule_at(id);
    tables::lemma_first_index(pre.rules@, p);
    let k = tables::first_index(pre.rules@, p);
    assert(p(pre.rules@[k]));
    let a = pre.rules@[k];
    let b = post.rules@[k];
    let old_tags = text::texts(a.tags@);
    let new_tags = text::texts(b.tags@);
    let head = match change.selectors {
        Some(tags) => tags,
        None => tables::kept(old_tags, rule_history::selector_tag()),
    };
    let tail = match change.task_tags() {
        Some(tags) => tags,
        None => tables::kept(old_tags, rule_history::subsystem_tag()),
    };
    assert(b@.tags == head + tail);
    assert forall|tag: Seq<char>| #[trigger] new_tags.contains(tag) <==> head.contains(tag)
        || tail.contains(tag) by {
        lemma_in_sum(head, tail, tag);
    }
    assert forall|tag: Seq<char>| #[trigger] old_tags.contains(tag) implies (
    !rule_laws::names_subsystem(tag) && change.selectors is None ==> new_tags.contains(tag)) && (
    rule_laws::names_subsystem(tag) && change.subsystems is None ==> new_tags.contains(tag)) by {
        lemma_split_tags(old_tags, tag);
        lemma_in_sum(head, tail, tag);
    }
    assert forall|tag: Seq<char>| #[trigger] new_tags.contains(tag) implies {
        ||| change.selectors is Some && head.contains(tag)
        ||| change.subsystems is Some && tail.contains(tag)
        ||| change.selectors is None && old_tags.contains(tag) && !rule_laws::names_subsystem(tag)
        ||| change.subsystems is None && old_tags.contains(tag) && rule_laws::names_subsystem(tag)
    } by {
        lemma_split_tags(old_tags, tag);
        lemma_in_sum(head, tail, tag);
    }
    if let Some(given) = change.subsystems {
        law_task_tags_are_registered(given, change.known);
        assert(tail == rulebook::canonical_task_tags(given, change.known)->Ok_0);
        assert forall|i: int| 0 <= i < given.len() implies (#[trigger] given[i]).name is Ok
            && new_tags.contains(given[i].name->Ok_0@) by {
            lemma_in_sum(head, tail, given[i].name->Ok_0@);
        }
        assert forall|tag: Seq<char>| #[trigger] tail.contains(tag) implies is_given(given, tag) by {}
    }
    if let Some(given) = change.selectors {
        assert forall|tag: Seq<char>| #[trigger] given.contains(tag) implies new_tags.contains(
            tag,
        ) by {
            lemma_in_sum(head, tail, tag);
        }
    }
    k
}

proof fn lemma_checked(tags: Seq<TaskTag>, known: Seq<Seq<char>>)
    requires
        rulebook::task_tags_checked(tags, known) is Ok,
    ensures
        ({
            let done = rulebook::task_tags_checked(tags, known)->Ok_0;
            &&& done.len() == tags.len()
            &&& forall|i: int|
                0 <= i < tags.len() ==> (#[trigger] tags[i]).name is Ok && done[i]
                    == tags[i].name->Ok_0@ && known.contains(done[i])
            &&& forall|i: int, j: int| 0 <= i < j < done.len() ==> done[i] != done[j]
        }),
    decreases tags.len(),
{
    if tags.len() > 0 {
        let rest = tags.drop_last();
        lemma_checked(rest, known);
        let before = rulebook::task_tags_checked(rest, known)->Ok_0;
        let done = rulebook::task_tags_checked(tags, known)->Ok_0;
        assert forall|i: int| 0 <= i < tags.len() implies (#[trigger] tags[i]).name is Ok && done[i]
            == tags[i].name->Ok_0@ && known.contains(done[i]) by {
            if i < rest.len() {
                assert(rest[i] == tags[i]);
            }
        }
        assert forall|i: int, j: int| 0 <= i < j < done.len() implies done[i] != done[j] by {
            if j == before.len() {
                assert(before.contains(before[i]));
            }
        }
    }
}

/// The task tags of a rule are those that were given, by their canonical names and in
/// order: each is registered on a board, and none is given twice.
pub proof fn law_task_tags_are_registered(tags: Seq<TaskTag>, known: Seq<Seq<char>>)
    requires
        rulebook::canonical_task_tags(tags, known) is Ok,
    ensures
        ({
            let list = rulebook::canonical_task_tags(tags, known)->Ok_0;
            &&& list.len() == tags.len()
            &&& forall|i: int|
                0 <= i < tags.len() ==> (#[trigger] tags[i]).name is Ok && list.contains(
                    tags[i].name->Ok_0@,
                ) && known.contains(tags[i].name->Ok_0@)
            &&& forall|tag: Seq<char>| #[trigger]
                list.contains(tag) ==> is_given(tags, tag)
            &&& forall|i: int, j: int|
                0 <= i < j < tags.len() ==> (#[trigger] tags[i]).name->Ok_0@ != (
                #[trigger] tags[j]).name->Ok_0@
            &&& forall|i: int, j: int|
                0 <= i < j < list.len() ==> !text::text_less(
                    #[trigger] list[j],
                    #[trigger] list[i],
                )
        }),
{
    lemma_checked(tags, known);
    let done = rulebook::task_tags_checked(tags, known)->Ok_0;
    ranking::law_sorted_texts(done);
    let list = rulebook::canonical_task_tags(tags, known)->Ok_0;
    assert forall|i: int| 0 <= i < tags.len() implies (#[trigger] tags[i]).name is Ok
        && list.contains(tags[i].name->Ok_0@) && known.contains(tags[i].name->Ok_0@) by {
        assert(done.contains(done[i]));
    }
    assert forall|tag: Seq<char>| #[trigger] list.contains(tag) implies is_given(tags, tag) by {
        assert(done.contains(tag));
        let i = choose|i: int| 0 <= i < done.len() && done[i] == tag;
        assert(tags[i].name->Ok_0@ == tag);
    }
    assert forall|i: int, j: int| 0 <= i < j < tags.len() implies (
    #[trigger] tags[i]).name->Ok_0@ != (#[trigger] tags[j]).name->Ok_0@ by {
        assert(done[i] != done[j]);
    }
}

/// The summary of a rule has its id, its tags and its headline.
pub proof fn law_summary_shows_the_headline(s: RuleSummary, rule: Rule)
    requires
        rulebook::summary_of(s, rule@),
    ensures
        s.id@ == rule.id@,
        text::texts(s.tags@) == text::texts(rule.tags@),
        s.bytes == vstd::utf8::encode_utf8(rule.body@).len() as usize,
        text::lines_of(rule.body@).len() > 0,
        s.headline@ == text::trimmed(text::lines_of(rule.body@)[0]),
        s.has_more <==> exists|i: int|
            1 <= i < text::lines_of(rule.body@).len() && text::trimmed(
                #[trigger] text::lines_of(rule.body@)[i],
            ).len() > 0,
{
}

// ---------------------------------------------------------------------------- history

/// The event is on the rule, where one is asked for, of one of the kinds, where some are,
/// and behind the cursor, where there is one.
pub open spec fn is_asked_for(
    e: EventRow,
    rule: Option<Seq<char>>,
    kinds: Seq<Seq<char>>,
    cursor: Option<i64>,
) -> bool {
    &&& rule matches Some(id) ==> e.rule_id@ == id
    &&& kinds.len() > 0 ==> exists|i: int| 0 <= i < kinds.len() && #[trigger] kinds[i] == e.kind@
    &&& cursor matches Some(seq) ==> e.seq > seq
}

proof fn lemma_asked_for(
    e: EventRow,
    rule: Option<Seq<char>>,
    kinds: Seq<Seq<char>>,
    cursor: Option<i64>,
)
    ensures
        rule_history::event_fits(rule, kinds, cursor)(e) <==> is_asked_for(e, rule, kinds, cursor),
{
    if kinds.contains(e.kind@) {
        let i = choose|i: int| 0 <= i < kinds.len() && kinds[i] == e.kind@;
        assert(kinds[i] == e.kind@);
    }
}

/// What is kept stands in the order that it had.
proof fn lemma_kept_in_order(s: Seq<EventRow>, p: spec_fn(EventRow) -> bool)
    requires
        forall|i: int, j: int|
            0 <= i < j < s.len() ==> (#[trigger] s[i]).seq < (#[trigger] s[j]).seq,
    ensures
        forall|i: int, j: int|
            0 <= i < j < tables::kept(s, p).len() ==> (#[trigger] tables::kept(s, p)[i]).seq < (
            #[trigger] tables::kept(s, p)[j]).seq,
    decreases s.len(),
{
    if s.len() > 0 {
        let rest = s.drop_last();
        lemma_kept_in_order(rest, p);
        tables::lemma_kept(rest, p);
        let k = tables::kept(rest, p);
        let all = tables::kept(s, p);
        assert forall|i: int, j: int| 0 <= i < j < all.len() implies (#[trigger] all[i]).seq < (
        #[trigger] all[j]).seq by {
            if j == k.len() {
                assert(rest.contains(k[i]));
                let m = choose|m: int| 0 <= m < rest.len() && rest[m] == k[i];
                assert(s[m] == k[i]);
                assert(s[s.len() - 1] == all[j]);
            } else {
                assert(all[i] == k[i] && all[j] == k[j]);
            }
        }
    }
}

/// Reading the history gives the newest events that were asked for, newest first, and no
/// more than the limit: whatever was asked for and is missing is older than all that is
/// there, and nothing is missing where there is room.
pub proof fn law_history_shows_the_newest(
    events: Seq<EventRow>,
    rule: Option<Seq<char>>,
    kinds: Seq<Seq<char>>,
    limit: i64,
)
    requires
        forall|i: int, j: int|
            0 <= i < j < events.len() ==> (#[trigger] events[i]).seq < (#[trigger] events[j]).seq,
    ensures
        ({
            let shown = rule_history::first_events(
                tables::kept(events, rule_history::event_fits(rule, kinds, None)).reverse(),
                limit,
            );
            &&& limit >= 0 ==> shown.len() <= limit
            &&& forall|i: int|
                0 <= i < shown.len() ==> events.contains(#[trigger] shown[i]) && is_asked_for(
                    shown[i],
                    rule,
                    kinds,
                    None,
                )
            &&& forall|i: int, j: int|
                0 <= i < j < shown.len() ==> (#[trigger] shown[i]).seq > (#[trigger] shown[j]).seq
            &&& forall|k: int|
                0 <= k < events.len() && is_asked_for(#[trigger] events[k], rule, kinds, None)
                    && !shown.contains(events[k]) ==> {
                    &&& shown.len() == limit
                    &&& forall|i: int|
                        0 <= i < shown.len() ==> events[k].seq < (#[trigger] shown[i]).seq
                }
        }),
{
    let p = rule_history::event_fits(rule, kinds, None);
    let all = tables::kept(events, p);
    let back = all.reverse();
    let shown = rule_history::first_events(back, limit);
    tables::lemma_kept(events, p);
    lemma_kept_in_order(events, p);
    assert forall|i: int| 0 <= i < shown.len() implies events.contains(#[trigger] shown[i])
        && is_asked_for(shown[i], rule, kinds, None) by {
        assert(shown[i] == all[all.len() - 1 - i]);
        lemma_asked_for(shown[i], rule, kinds, None);
    }
    assert forall|i: int, j: int| 0 <= i < j < shown.len() implies (#[trigger] shown[i]).seq > (
    #[trigger] shown[j]).seq by {
        assert(shown[i] == all[all.len() - 1 - i] && shown[j] == all[all.len() - 1 - j]);
    }
    assert forall|k: int|
        0 <= k < events.len() && is_asked_for(#[trigger] events[k], rule, kinds, None)
            && !shown.contains(events[k]) implies {
        &&& shown.len() == limit
        &&& forall|i: int| 0 <= i < shown.len() ==> events[k].seq < (#[trigger] shown[i]).seq
    } by {
        lemma_asked_for(events[k], rule, kinds, None);
        assert(p(events[k]));
        let m = choose|m: int| 0 <= m < all.len() && all[m] == events[k];
        let at = all.len() - 1 - m;
        assert(back[at] == events[k]);
        if at < shown.len() {
            assert(shown[at] == events[k]);
        }
        assert forall|i: int| 0 <= i < shown.len() implies events[k].seq < (
        #[trigger] shown[i]).seq by {
            assert(shown[i] == all[all.len() - 1 - i]);
        }
    }
}

/// A page of the history behind a cursor holds the first events that were asked for,
/// oldest first, and no more than the limit.
pub proof fn law_page_shows_the_next(
    reg: Registry,
    r: Result<Vec<Event>, Error>,
    rule: Option<Seq<char>>,
    kinds: Seq<Seq<char>>,
    cursor: i64,
    limit: i64,
)
    requires
        reg.events_page(r, rule, kinds, cursor, limit),
        r is Ok,
        forall|i: int, j: int|
            0 <= i < j < reg.events@.len() ==> (#[trigger] reg.events@[i]).seq < (
            #[trigger] reg.events@[j]).seq,
    ensures
        0 <= limit <= 1000,
        r->Ok_0@.len() <= limit,
        forall|i: int| 0 <= i < r->Ok_0@.len() ==> is_told(#[trigger] r->Ok_0@[i], reg.events@),
        forall|i: int|
            0 <= i < r->Ok_0@.len() ==> (#[trigger] r->Ok_0@[i]).seq > cursor && (kinds.len() > 0
                ==> kinds.contains(r->Ok_0@[i].kind@)),
        forall|i: int, j: int|
            0 <= i < j < r->Ok_0@.len() ==> (#[trigger] r->Ok_0@[i]).seq < (
            #[trigger] r->Ok_0@[j]).seq,
        forall|k: int|
            0 <= k < reg.events@.len() && is_asked_for(
                #[trigger] reg.events@[k],
                rule,
                kinds,
                Some(cursor),
            ) ==> (exists|i: int|
                0 <= i < r->Ok_0@.len() && (#[trigger] r->Ok_0@[i]).seq == reg.events@[k].seq) || (
            r->Ok_0@.len() == limit && forall|i: int|
                0 <= i < r->Ok_0@.len() ==> (#[trigger] r->Ok_0@[i]).seq < reg.events@[k].seq),
{
    let p = rule_history::event_fits(rule, kinds, Some(cursor));
    let all = tables::kept(reg.events@, p);
    let page = rule_history::first_events(all, limit);
    let list = r->Ok_0@;
    tables::lemma_kept(reg.events@, p);
    lemma_kept_in_order(reg.events@, p);
    assert forall|i: int| 0 <= i < list.len() implies is_told(#[trigger] list[i], reg.events@)
        && list[i].seq > cursor && (kinds.len() > 0 ==> kinds.contains(list[i].kind@)) by {
        assert(rule_history::is_event_record(list[i], page[i]));
        assert(page[i] == all[i]);
        assert(p(all[i]));
        assert(reg.events@.contains(all[i]));
        let k = choose|k: int| 0 <= k < reg.events@.len() && reg.events@[k] == all[i];
        assert(reg.events@[k].seq == list[i].seq);
    }
    assert forall|i: int, j: int| 0 <= i < j < list.len() implies (#[trigger] list[i]).seq < (
    #[trigger] list[j]).seq by {
        assert(rule_history::is_event_record(list[i], page[i]));
        assert(rule_history::is_event_record(list[j], page[j]));
        assert(page[i] == all[i] && page[j] == all[j]);
    }
    assert forall|k: int|
        0 <= k < reg.events@.len() && is_asked_for(
            #[trigger] reg.events@[k],
            rule,
            kinds,
            Some(cursor),
        ) implies (exists|i: int|
        0 <= i < list.len() && (#[trigger] list[i]).seq == reg.events@[k].seq) || (list.len()
        == limit && forall|i: int|
        0 <= i < list.len() ==> (#[trigger] list[i]).seq < reg.events@[k].seq) by {
        lemma_asked_for(reg.events@[k], rule, kinds, Some(cursor));
        assert(p(reg.events@[k]));
        let m = choose|m: int| 0 <= m < all.len() && all[m] == reg.events@[k];
        if m < list.len() {
            assert(rule_history::is_event_record(list[m], page[m]));
            assert(page[m] == all[m]);
        } else {
            assert forall|i: int| 0 <= i < list.len() implies (#[trigger] list[i]).seq
                < reg.events@[k].seq by {
                assert(rule_history::is_event_record(list[i], page[i]));
                assert(page[i] == all[i]);
            }
        }
    }
}

/// The event tells what a row of the history says.
pub open spec fn is_told(e: Event, rows: Seq<EventRow>) -> bool {
    exists|k: int|
        {
            &&& 0 <= k < rows.len()
            &&& (#[trigger] rows[k]).seq == e.seq
            &&& rows[k].kind@ == e.kind@
            &&& e.actor matches Some(actor) && actor@ == rows[k].actor@
            &&& e.payload@ == rows[k].payload@
            &&& e.created_at == rows[k].created_at
            &&& e.task_id is None
            &&& !e.archived
        }
}

} // verus!
