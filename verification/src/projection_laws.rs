//! What the projections of boards show, over all that boards can hold.

use vstd::prelude::*;

use crate::listing;
use crate::projection;
use crate::projection::BoardFacts;
use crate::projection::Fetched;
use crate::projection::Urgency;
use crate::ranking;
use crate::ranking::Ranked;
use crate::records::Task;
use crate::tables;

verus! {

// ------------------------------------------------------------------------ board index

/// A row of a board waits with a priority since a time: a task to do, an open item or a
/// pending handoff.
pub open spec fn waits(facts: BoardFacts, priority: i64, since: i64) -> bool {
    ||| exists|i: int|
        0 <= i < facts.tasks@.len() && (#[trigger] facts.tasks@[i]).status@ == "todo"@
            && facts.tasks@[i].priority == priority && facts.tasks@[i].created_at == since
    ||| exists|i: int|
        0 <= i < facts.urgent_attention@.len() && (
        #[trigger] facts.urgent_attention@[i]).priority == priority
            && facts.urgent_attention@[i].created_at == since
    ||| exists|i: int|
        0 <= i < facts.urgent_handoff@.len() && (#[trigger] facts.urgent_handoff@[i]).priority
            == priority && facts.urgent_handoff@[i].created_at == since
}

/// No later and no less urgent: a lower number first, then the older.
pub open spec fn at_least_as_urgent(p: i64, since: i64, q: i64, then_since: i64) -> bool {
    p < q || (p == q && since <= then_since)
}

proof fn lemma_waiting(facts: BoardFacts, u: Urgency)
    ensures
        projection::waiting(facts).contains(u) <==> waits(facts, u.priority, u.created_at),
{
    let p = projection::has_status("todo"@);
    let todo = tables::kept(facts.tasks@, p);
    let first = projection::urgencies(todo);
    let both = first + facts.urgent_attention@;
    let all = projection::waiting(facts);
    tables::lemma_kept(facts.tasks@, p);
    assert(all =~= both + facts.urgent_handoff@);
    if all.contains(u) {
        let i = choose|i: int| 0 <= i < all.len() && all[i] == u;
        if i < first.len() {
            assert(p(todo[i]));
            assert(facts.tasks@.contains(todo[i]));
            let k = choose|k: int| 0 <= k < facts.tasks@.len() && facts.tasks@[k] == todo[i];
            assert(facts.tasks@[k].status@ == "todo"@);
        } else if i < both.len() {
            assert(facts.urgent_attention@[i - first.len()] == u);
        } else {
            assert(facts.urgent_handoff@[i - both.len()] == u);
        }
    }
    if waits(facts, u.priority, u.created_at) {
        if exists|i: int|
            0 <= i < facts.tasks@.len() && (#[trigger] facts.tasks@[i]).status@ == "todo"@
                && facts.tasks@[i].priority == u.priority && facts.tasks@[i].created_at
                == u.created_at {
            let i = choose|i: int|
                0 <= i < facts.tasks@.len() && (#[trigger] facts.tasks@[i]).status@ == "todo"@
                    && facts.tasks@[i].priority == u.priority && facts.tasks@[i].created_at
                    == u.created_at;
            assert(p(facts.tasks@[i]));
            let k = choose|k: int| 0 <= k < todo.len() && todo[k] == facts.tasks@[i];
            assert(first[k] == u);
            assert(all[k] == u);
        } else if exists|i: int|
            0 <= i < facts.urgent_attention@.len() && (
            #[trigger] facts.urgent_attention@[i]).priority == u.priority
                && facts.urgent_attention@[i].created_at == u.created_at {
            let i = choose|i: int|
                0 <= i < facts.urgent_attention@.len() && (
                #[trigger] facts.urgent_attention@[i]).priority == u.priority
                    && facts.urgent_attention@[i].created_at == u.created_at;
            assert(all[first.len() + i] == u);
        } else {
            let i = choose|i: int|
                0 <= i < facts.urgent_handoff@.len() && (
                #[trigger] facts.urgent_handoff@[i]).priority == u.priority
                    && facts.urgent_handoff@[i].created_at == u.created_at;
            assert(all[both.len() + i] == u);
        }
    }
}

proof fn lemma_most_urgent(s: Seq<Urgency>)
    ensures
        forall|i: int|
            0 <= i < s.len() ==> {
                let best = projection::most_urgent(s);
                at_least_as_urgent(
                    best.priority,
                    best.created_at,
                    (#[trigger] s[i]).priority,
                    s[i].created_at,
                )
            },
        s.contains(projection::most_urgent(s)) || projection::most_urgent(s)
            == projection::no_urgency(),
    decreases s.len(),
{
    if s.len() > 0 {
        let rest = s.drop_last();
        lemma_most_urgent(rest);
        let best = projection::most_urgent(s);
        assert forall|i: int| 0 <= i < s.len() implies at_least_as_urgent(
            best.priority,
            best.created_at,
            (#[trigger] s[i]).priority,
            s[i].created_at,
        ) by {
            if i < rest.len() {
                assert(rest[i] == s[i]);
            }
        }
        if projection::more_urgent(s.last(), projection::most_urgent(rest)) {
            assert(s[s.len() - 1] == best);
        } else if rest.contains(best) {
            let k = choose|k: int| 0 <= k < rest.len() && rest[k] == best;
            assert(s[k] == best);
        }
    }
}

/// The urgency that ranks a board is that of a row that waits there, none of which is more
/// urgent; a board where nothing waits has the least urgency that there is.
pub proof fn law_board_is_as_urgent_as_what_waits(facts: BoardFacts)
    ensures
        ({
            let u = projection::summary_of(facts).urgency;
            &&& forall|priority: i64, since: i64| #[trigger]
                waits(facts, priority, since) ==> at_least_as_urgent(
                    u.priority,
                    u.created_at,
                    priority,
                    since,
                )
            &&& waits(facts, u.priority, u.created_at) || (u.priority == i64::MAX && u.created_at
                == i64::MAX)
        }),
{
    let u = projection::summary_of(facts).urgency;
    let all = projection::waiting(facts);
    lemma_most_urgent(all);
    lemma_waiting(facts, u);
    assert forall|priority: i64, since: i64| #[trigger] waits(facts, priority, since) implies
        at_least_as_urgent(u.priority, u.created_at, priority, since) by {
        let w = Urgency { priority, created_at: since };
        lemma_waiting(facts, w);
        let i = choose|i: int| 0 <= i < all.len() && all[i] == w;
        assert(all[i] == w);
    }
}

/// The summary of a board counts its tasks, those to do and those in progress, and says of
/// open items, handoffs and stale tasks what was read.
pub proof fn law_summary_counts_the_board(facts: BoardFacts)
    requires
        facts.tasks@.len() <= usize::MAX,
    ensures
        ({
            let s = projection::summary_of(facts).summary;
            &&& s.board@ == facts.board@
            &&& s.todo == facts.tasks@.filter(|t: Task| t.status@ == "todo"@).len()
            &&& s.in_progress == facts.tasks@.filter(|t: Task| t.status@ == "in_progress"@).len()
            &&& s.tasks == facts.tasks@.len()
            &&& s.open_attention == facts.open_attention
            &&& s.handoffs == facts.pending_handoffs
            &&& s.stale == facts.stale
        }),
{
    let todo = |t: Task| t.status@ == "todo"@;
    let busy = |t: Task| t.status@ == "in_progress"@;
    assert(projection::has_status("todo"@) =~= todo);
    assert(projection::has_status("in_progress"@) =~= busy);
    listing::lemma_kept_is_filter(facts.tasks@, todo);
    listing::lemma_kept_is_filter(facts.tasks@, busy);
    tables::lemma_kept(facts.tasks@, todo);
    tables::lemma_kept(facts.tasks@, busy);
}

proof fn lemma_summaries(boards: Seq<Fetched<BoardFacts>>)
    requires
        projection::summaries(boards) is Ok,
    ensures
        ({
            let rows = projection::summaries(boards)->Ok_0;
            &&& rows.len() == boards.len()
            &&& forall|i: int|
                0 <= i < boards.len() ==> (#[trigger] boards[i]) is Ok && rows[i]
                    == projection::summary_of(boards[i]->Ok_0)
        }),
    decreases boards.len(),
{
    if boards.len() > 0 {
        lemma_summaries(boards.drop_last());
        let before = projection::summaries(boards.drop_last())->Ok_0;
        let rows = projection::summaries(boards)->Ok_0;
        assert forall|i: int| 0 <= i < boards.len() implies (#[trigger] boards[i]) is Ok && rows[i]
            == projection::summary_of(boards[i]->Ok_0) by {
            if i < boards.len() - 1 {
                assert(boards.drop_last()[i] == boards[i]);
                assert(rows[i] == before[i]);
            }
        }
    }
}

/// The board index has one row for each board that was read, and a board where something
/// waits that is more urgent than all that waits on another stands before the other.
pub proof fn law_most_urgent_board_first(boards: Seq<Fetched<BoardFacts>>, x: int, y: int)
    requires
        projection::summaries(boards) is Ok,
        0 <= x < boards.len(),
        0 <= y < boards.len(),
        exists|priority: i64, since: i64|
            #![trigger waits(boards[x]->Ok_0, priority, since)]
            {
                &&& waits(boards[x]->Ok_0, priority, since)
                &&& priority < i64::MAX || since < i64::MAX
                &&& forall|q: i64, s: i64| #[trigger]
                    waits(boards[y]->Ok_0, q, s) ==> !at_least_as_urgent(q, s, priority, since)
            },
    ensures
        ({
            let shown = projection::plain(
                ranking::ranked(projection::summaries(boards)->Ok_0),
            );
            &&& shown.len() == boards.len()
            &&& exists|i: int, j: int|
                0 <= i < j < shown.len() && (#[trigger] shown[i]).board@ == boards[x]->Ok_0.board@
                    && (#[trigger] shown[j]).board@ == boards[y]->Ok_0.board@
        }),
{
    let rows = projection::summaries(boards)->Ok_0;
    let order = ranking::ranked(rows);
    let shown = projection::plain(order);
    lemma_summaries(boards);
    ranking::law_ranked(rows);
    let a = rows[x];
    let b = rows[y];
    assert(boards[x] is Ok && boards[y] is Ok);
    law_board_is_as_urgent_as_what_waits(boards[x]->Ok_0);
    law_board_is_as_urgent_as_what_waits(boards[y]->Ok_0);
    let (priority, since) = choose|priority: i64, since: i64|
        #![trigger waits(boards[x]->Ok_0, priority, since)]
        {
            &&& waits(boards[x]->Ok_0, priority, since)
            &&& priority < i64::MAX || since < i64::MAX
            &&& forall|q: i64, s: i64| #[trigger]
                waits(boards[y]->Ok_0, q, s) ==> !at_least_as_urgent(q, s, priority, since)
        };
    assert(waits(boards[x]->Ok_0, priority, since));
    assert(a == projection::summary_of(boards[x]->Ok_0));
    assert(b == projection::summary_of(boards[y]->Ok_0));
    assert(projection::more_urgent(a.urgency, b.urgency));
    assert(rows.contains(a) && rows.contains(b));
    listing::lemma_ranked_contains(rows, a);
    listing::lemma_ranked_contains(rows, b);
    let i = choose|i: int| 0 <= i < order.len() && order[i] == a;
    let j = choose|j: int| 0 <= j < order.len() && order[j] == b;
    if j < i {
        assert(!order[i].before(order[j]));
    }
    assert(i < j);
    assert(shown[i] == order[i].summary && shown[j] == order[j].summary);
}

} // verus!
