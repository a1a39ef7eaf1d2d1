//! What the needs-you deck, the plans and the sprints show, item by item.

use vstd::prelude::*;

use crate::listing;
use crate::plans;
use crate::plans::PlanCard;
use crate::plans::PlanFacts;
use crate::plans::PlanRow;
use crate::projection;
use crate::projection::AttentionCard;
use crate::projection::BoardQueue;
use crate::projection::BoardSprints;
use crate::projection::OpenItem;
use crate::projection::SprintCard;
use crate::projection::SprintFacts;
use crate::projection::SprintRow;
use crate::ranking;
use crate::ranking::Ranked;
use crate::tables;
use crate::text;

verus! {

// ---------------------------------------------------------------------------- deck

/// The card shows the item of the board, and its task where it is on one that is known.
pub open spec fn shows_item(card: AttentionCard, board: String, item: OpenItem) -> bool {
    &&& card.board == board
    &&& card.attention == item.attention
    &&& card.body_html == item.body_html
    &&& card.task is Some <==> item.attention.task_id is Some && item.task is Some
    &&& card.task matches Some(t) ==> item.task matches Some(task) && t.id == task.id && t.title
        == task.title && t.task_type == task.task_type
}

/// The card shows one of the first items of a board, as many as the limit allows.
pub open spec fn is_dealt(card: AttentionCard, boards: Seq<BoardQueue>, limit: i64) -> bool {
    exists|b: int, k: int|
        0 <= b < boards.len() && 0 <= k < boards[b].rows->Ok_0@.len() && k < limit
            && #[trigger] shows_item(card, boards[b].board, boards[b].rows->Ok_0@[k])
}

/// A card shows the item.
pub open spec fn has_card(cards: Seq<AttentionCard>, board: String, item: OpenItem) -> bool {
    exists|i: int| 0 <= i < cards.len() && shows_item(#[trigger] cards[i], board, item)
}

/// Every item of the first ones of the boards has a card.
pub open spec fn all_dealt(
    cards: Seq<AttentionCard>,
    boards: Seq<BoardQueue>,
    limit: i64,
) -> bool {
    forall|b: int, k: int|
        0 <= b < boards.len() && 0 <= k < boards[b].rows->Ok_0@.len() && k < limit ==> has_card(
            cards,
            boards[b].board,
            #[trigger] boards[b].rows->Ok_0@[k],
        )
}

proof fn lemma_gathered(boards: Seq<BoardQueue>, limit: i64)
    requires
        limit >= 0,
    ensures
        projection::gathered(boards, limit) is Ok <==> forall|b: int|
            0 <= b < boards.len() ==> (#[trigger] boards[b]).rows is Ok,
        projection::gathered(boards, limit) matches Ok((cards, truncated)) ==> {
            &&& forall|i: int| 0 <= i < cards.len() ==> is_dealt(#[trigger] cards[i], boards, limit)
            &&& all_dealt(cards, boards, limit)
            &&& truncated <==> exists|b: int|
                0 <= b < boards.len() && (#[trigger] boards[b]).rows->Ok_0@.len() > limit
        },
        projection::gathered(boards, limit) matches Err(causes) ==> exists|b: int|
            0 <= b < boards.len() && (#[trigger] boards[b]).rows == Err::<Vec<OpenItem>, _>(causes)
                && forall|a: int| 0 <= a < b ==> (#[trigger] boards[a]).rows is Ok,
    decreases boards.len(),
{
    if boards.len() > 0 {
        let rest = boards.drop_last();
        let last = boards.last();
        let n = rest.len() as int;
        lemma_gathered(rest, limit);
        assert(forall|b: int| 0 <= b < n ==> #[trigger] rest[b] == boards[b]);
        assert(boards[n] == last);
        match projection::gathered(rest, limit) {
            Err(causes) => {
                let b = choose|b: int|
                    0 <= b < rest.len() && (#[trigger] rest[b]).rows == Err::<Vec<OpenItem>, _>(
                        causes,
                    ) && forall|a: int| 0 <= a < b ==> (#[trigger] rest[a]).rows is Ok;
                assert(boards[b].rows == Err::<Vec<OpenItem>, _>(causes));
                assert forall|a: int| 0 <= a < b implies (#[trigger] boards[a]).rows is Ok by {
                    assert(rest[a].rows is Ok);
                }
            },
            Ok((cards, truncated)) => {
                assert forall|b: int| 0 <= b < n implies (#[trigger] boards[b]).rows is Ok by {
                    assert(rest[b].rows is Ok);
                }
                if last.rows is Ok {
                    let rows = last.rows->Ok_0@;
                    let more = projection::board_cards(last, limit);
                    let all = cards + more;
                    assert forall|i: int| 0 <= i < all.len() implies is_dealt(
                        #[trigger] all[i],
                        boards,
                        limit,
                    ) by {
                        if i < cards.len() {
                            assert(is_dealt(cards[i], rest, limit));
                            let (b, k) = choose|b: int, k: int|
                                0 <= b < rest.len() && 0 <= k < rest[b].rows->Ok_0@.len() && k
                                    < limit && #[trigger] shows_item(
                                    cards[i],
                                    rest[b].board,
                                    rest[b].rows->Ok_0@[k],
                                );
                            assert(shows_item(all[i], boards[b].board, boards[b].rows->Ok_0@[k]));
                        } else {
                            let k = i - cards.len();
                            assert(all[i] == more[k]);
                            assert(shows_item(all[i], boards[n].board, boards[n].rows->Ok_0@[k]));
                        }
                    }
                    assert forall|b: int, k: int|
                        0 <= b < boards.len() && 0 <= k < boards[b].rows->Ok_0@.len() && k
                            < limit implies has_card(
                        all,
                        boards[b].board,
                        #[trigger] boards[b].rows->Ok_0@[k],
                    ) by {
                        if b < n {
                            assert(has_card(cards, rest[b].board, rest[b].rows->Ok_0@[k]));
                            let i = choose|i: int|
                                0 <= i < cards.len() && shows_item(
                                    #[trigger] cards[i],
                                    rest[b].board,
                                    rest[b].rows->Ok_0@[k],
                                );
                            assert(all[i] == cards[i]);
                        } else {
                            assert(shows_item(
                                all[cards.len() + k],
                                boards[b].board,
                                boards[b].rows->Ok_0@[k],
                            ));
                        }
                    }
                    assert(truncated || rows.len() > limit <==> exists|b: int|
                        0 <= b < boards.len() && (#[trigger] boards[b]).rows->Ok_0@.len() > limit)
                        by {
                        if truncated {
                            let b = choose|b: int|
                                0 <= b < rest.len() && (#[trigger] rest[b]).rows->Ok_0@.len()
                                    > limit;
                            assert(boards[b].rows->Ok_0@.len() > limit);
                        }
                        if rows.len() > limit {
                            assert(boards[n].rows->Ok_0@.len() > limit);
                        }
                        if exists|b: int|
                            0 <= b < boards.len() && (#[trigger] boards[b]).rows->Ok_0@.len()
                                > limit {
                            let b = choose|b: int|
                                0 <= b < boards.len() && (#[trigger] boards[b]).rows->Ok_0@.len()
                                    > limit;
                            if b < n {
                                assert(rest[b].rows->Ok_0@.len() > limit);
                            }
                        }
                    }
                } else {
                    assert(boards[n].rows is Err);
                }
            },
        }
    }
}

/// The deck shows the first open items of every board, as many of each as the limit allows,
/// and says so where a board has more. The most pressing comes first: the lower priority
/// number, then the older item, then the lower id. One board that cannot be read fails it.
pub proof fn law_deck_shows_what_is_open(boards: Seq<BoardQueue>, limit: i64)
    requires
        limit >= 0,
    ensures
        (forall|b: int| 0 <= b < boards.len() ==> (#[trigger] boards[b]).rows is Ok)
            <==> projection::gathered(boards, limit) is Ok,
        projection::gathered(boards, limit) matches Ok((cards, truncated)) ==> {
            let deck = ranking::ranked(cards);
            &&& forall|i: int| 0 <= i < deck.len() ==> is_dealt(#[trigger] deck[i], boards, limit)
            &&& all_dealt(deck, boards, limit)
            &&& truncated <==> exists|b: int|
                0 <= b < boards.len() && (#[trigger] boards[b]).rows->Ok_0@.len() > limit
            &&& forall|i: int, j: int|
                0 <= i < j < deck.len() ==> comes_first(#[trigger] deck[i], #[trigger] deck[j])
        },
        projection::gathered(boards, limit) matches Err(causes) ==> exists|b: int|
            0 <= b < boards.len() && (#[trigger] boards[b]).rows == Err::<Vec<OpenItem>, _>(causes)
                && forall|a: int| 0 <= a < b ==> (#[trigger] boards[a]).rows is Ok,
{
    lemma_gathered(boards, limit);
    if projection::gathered(boards, limit) is Ok {
        let (cards, truncated) = projection::gathered(boards, limit)->Ok_0;
        let deck = ranking::ranked(cards);
        ranking::law_ranked(cards);
        listing::lemma_same_members(cards, deck);
        assert forall|i: int| 0 <= i < deck.len() implies is_dealt(
            #[trigger] deck[i],
            boards,
            limit,
        ) by {
            let k = choose|k: int| 0 <= k < cards.len() && cards[k] == deck[i];
            assert(is_dealt(cards[k], boards, limit));
        }
        assert forall|b: int, k: int|
            0 <= b < boards.len() && 0 <= k < boards[b].rows->Ok_0@.len() && k
                < limit implies has_card(
            deck,
            boards[b].board,
            #[trigger] boards[b].rows->Ok_0@[k],
        ) by {
            assert(has_card(cards, boards[b].board, boards[b].rows->Ok_0@[k]));
            let i = choose|i: int|
                0 <= i < cards.len() && shows_item(
                    #[trigger] cards[i],
                    boards[b].board,
                    boards[b].rows->Ok_0@[k],
                );
            assert(deck.contains(cards[i]));
            let m = choose|m: int| 0 <= m < deck.len() && deck[m] == cards[i];
            assert(shows_item(deck[m], boards[b].board, boards[b].rows->Ok_0@[k]));
        }
        assert forall|i: int, j: int| 0 <= i < j < deck.len() implies comes_first(
            #[trigger] deck[i],
            #[trigger] deck[j],
        ) by {
            assert(!deck[j].before(deck[i]));
        }
    }
}

/// One card may stand before another.
pub open spec fn comes_first(a: AttentionCard, b: AttentionCard) -> bool {
    ||| a.attention.priority < b.attention.priority
    ||| a.attention.priority == b.attention.priority && a.attention.created_at
        < b.attention.created_at
    ||| a.attention.priority == b.attention.priority && a.attention.created_at
        == b.attention.created_at && a.attention.id@ != b.attention.id@ && !text::text_less(
        b.attention.id@,
        a.attention.id@,
    )
    ||| a.attention.priority == b.attention.priority && a.attention.created_at
        == b.attention.created_at && a.attention.id@ == b.attention.id@ && !text::text_less(
        b.board@,
        a.board@,
    )
}

// ---------------------------------------------------------------------------- plans

/// The row is an epic that is still a draft.
pub open spec fn is_draft_epic(row: PlanRow) -> bool {
    row.task.status@ == "draft"@ && row.task.task_type@ == "epic"@
}

/// The row's task is a child of the other's.
pub open spec fn is_child_of(row: PlanRow, plan: PlanRow) -> bool {
    row.task.parent_id matches Some(p) && p@ == plan.task.id@
}

/// The card has the child, with its open questions.
pub open spec fn has_child(card: PlanCard, row: PlanRow) -> bool {
    exists|i: int|
        0 <= i < card.children@.len() && (#[trigger] card.children@[i]).task.id == row.task.id
            && card.children@[i].task.title == row.task.title && card.children@[i].task.status
            == row.task.status && row.open_attention == Ok::<usize, Vec<String>>(
            card.children@[i].open_attention,
        )
}

/// The card shows the plan: its task, its text where it has one, its open questions, and
/// just its children.
pub open spec fn shows_plan(
    card: PlanCard,
    board: String,
    rows: Seq<PlanRow>,
    plan: PlanRow,
) -> bool {
    &&& card.board == board
    &&& card.task.id == plan.task.id
    &&& card.task.title == plan.task.title
    &&& card.task.status == plan.task.status
    &&& card.task.priority == plan.task.priority
    &&& card.body_html is Some <==> plan.task.body is Some
    &&& card.body_html matches Some(html) ==> html == plan.html
    &&& plan.open_attention == Ok::<usize, Vec<String>>(card.open_attention)
    &&& card.children@.len() == rows.filter(|row: PlanRow| is_child_of(row, plan)).len()
    &&& forall|k: int|
        0 <= k < rows.len() && is_child_of(#[trigger] rows[k], plan) ==> has_child(card, rows[k])
}

/// A card shows a plan of one of the boards.
pub open spec fn is_plan_shown(card: PlanCard, boards: Seq<PlanFacts>) -> bool {
    exists|b: int, k: int|
        0 <= b < boards.len() && 0 <= k < boards[b].rows->Ok_0@.len() && is_draft_epic(
            boards[b].rows->Ok_0@[k],
        ) && #[trigger] shows_plan(
            card,
            boards[b].board,
            boards[b].rows->Ok_0@,
            boards[b].rows->Ok_0@[k],
        )
}

/// A card of these shows the plan.
pub open spec fn has_plan_card(
    cards: Seq<PlanCard>,
    board: String,
    rows: Seq<PlanRow>,
    plan: PlanRow,
) -> bool {
    exists|i: int| 0 <= i < cards.len() && shows_plan(#[trigger] cards[i], board, rows, plan)
}

proof fn lemma_plan_card(card: PlanCard, board: String, rows: Seq<PlanRow>, plan: PlanRow)
    requires
        plans::is_plan_card(card, board, rows, plan),
    ensures
        shows_plan(card, board, rows, plan),
{
    let p = plans::is_child(plan.task.id@);
    let q = |row: PlanRow| is_child_of(row, plan);
    let children = tables::kept(rows, p);
    listing::lemma_kept_is_filter(rows, p);
    assert(p =~= q) by {
        assert forall|row: PlanRow| p(row) == #[trigger] q(row) by {}
    }
    assert forall|k: int| 0 <= k < rows.len() && is_child_of(
        #[trigger] rows[k],
        plan,
    ) implies has_child(card, rows[k]) by {
        assert(p(rows[k]));
        assert(rows.contains(rows[k]));
        listing::lemma_kept_contains(rows, p, rows[k]);
        let i = choose|i: int| 0 <= i < children.len() && children[i] == rows[k];
        assert(children[i].task.id == card.children@[i].task.id);
        assert(card.children@[i].task.id == rows[k].task.id);
    }
}

/// The plans that are shown are just the epics that are still drafts, on every board, each
/// with its children.
pub proof fn law_plans_show_the_draft_epics(cards: Seq<PlanCard>, boards: Seq<PlanFacts>)
    requires
        plans::are_cards(cards, boards),
    ensures
        forall|i: int| 0 <= i < cards.len() ==> is_plan_shown(#[trigger] cards[i], boards),
        forall|b: int, k: int|
            0 <= b < boards.len() && 0 <= k < boards[b].rows->Ok_0@.len() && is_draft_epic(
                #[trigger] boards[b].rows->Ok_0@[k],
            ) ==> has_plan_card(
                cards,
                boards[b].board,
                boards[b].rows->Ok_0@,
                boards[b].rows->Ok_0@[k],
            ),
    decreases boards.len(),
{
    if boards.len() > 0 {
        let rest = boards.drop_last();
        let n = rest.len() as int;
        let rows = boards.last().rows->Ok_0@;
        let some = tables::kept(rows, plans::is_plan());
        let before = cards.len() - some.len();
        let head = cards.take(before);
        law_plans_show_the_draft_epics(head, rest);
        assert forall|i: int| 0 <= i < cards.len() implies is_plan_shown(
            #[trigger] cards[i],
            boards,
        ) by {
            if i < before {
                assert(head[i] == cards[i]);
                assert(is_plan_shown(head[i], rest));
                let (b, k) = choose|b: int, k: int|
                    0 <= b < rest.len() && 0 <= k < rest[b].rows->Ok_0@.len() && is_draft_epic(
                        rest[b].rows->Ok_0@[k],
                    ) && #[trigger] shows_plan(
                        head[i],
                        rest[b].board,
                        rest[b].rows->Ok_0@,
                        rest[b].rows->Ok_0@[k],
                    );
                assert(rest[b] == boards[b]);
                assert(shows_plan(
                    cards[i],
                    boards[b].board,
                    boards[b].rows->Ok_0@,
                    boards[b].rows->Ok_0@[k],
                ));
            } else {
                let m = i - before;
                let plan = some[m];
                assert(plans::is_plan_card(cards[before + m], boards.last().board, rows, some[m]));
                lemma_plan_card(cards[i], boards.last().board, rows, plan);
                assert(some.contains(plan));
                listing::lemma_kept_contains(rows, plans::is_plan(), plan);
                let k = choose|k: int| 0 <= k < rows.len() && rows[k] == plan;
                assert(is_draft_epic(boards[n].rows->Ok_0@[k]));
                assert(shows_plan(
                    cards[i],
                    boards[n].board,
                    boards[n].rows->Ok_0@,
                    boards[n].rows->Ok_0@[k],
                ));
            }
        }
        assert forall|b: int, k: int|
            0 <= b < boards.len() && 0 <= k < boards[b].rows->Ok_0@.len() && is_draft_epic(
                #[trigger] boards[b].rows->Ok_0@[k],
            ) implies has_plan_card(
            cards,
            boards[b].board,
            boards[b].rows->Ok_0@,
            boards[b].rows->Ok_0@[k],
        ) by {
            if b < n {
                assert(rest[b] == boards[b]);
                assert(is_draft_epic(rest[b].rows->Ok_0@[k]));
                assert(has_plan_card(
                    head,
                    rest[b].board,
                    rest[b].rows->Ok_0@,
                    rest[b].rows->Ok_0@[k],
                ));
                let i = choose|i: int|
                    0 <= i < head.len() && shows_plan(
                        #[trigger] head[i],
                        rest[b].board,
                        rest[b].rows->Ok_0@,
                        rest[b].rows->Ok_0@[k],
                    );
                assert(cards[i] == head[i]);
            } else {
                let plan = rows[k];
                assert(plans::is_plan()(plan));
                assert(rows.contains(plan));
                listing::lemma_kept_contains(rows, plans::is_plan(), plan);
                let m = choose|m: int| 0 <= m < some.len() && some[m] == plan;
                assert(plans::is_plan_card(cards[before + m], boards.last().board, rows, some[m]));
                lemma_plan_card(cards[before + m], boards.last().board, rows, plan);
            }
        }
    }
}

// ---------------------------------------------------------------------------- sprints

/// The card shows the sprint, with the counts of its tasks, and its goal where it has one.
pub open spec fn shows_sprint(card: SprintCard, row: SprintRow) -> bool {
    &&& card.sprint == row.sprint
    &&& row.counts matches Ok(counts) && card.open_tasks == counts.open_tasks && card.done_tasks
        == counts.done_tasks
    &&& card.goal_html is Some <==> row.sprint.body is Some
    &&& card.goal_html matches Some(html) ==> html == row.html
}

/// The cards show just these rows, in order.
pub open spec fn show_sprints(cards: Seq<SprintCard>, rows: Seq<SprintRow>) -> bool {
    &&& cards.len() == rows.len()
    &&& forall|i: int| 0 <= i < rows.len() ==> shows_sprint(cards[i], #[trigger] rows[i])
}

proof fn lemma_history(rows: Seq<SprintRow>)
    requires
        projection::history_of(rows) is Ok,
    ensures
        show_sprints(
            projection::history_of(rows)->Ok_0,
            rows.filter(|row: SprintRow| row.sprint.status@ != "current"@),
        ),
    decreases rows.len(),
{
    let past = |row: SprintRow| row.sprint.status@ != "current"@;
    reveal(Seq::filter);
    if rows.len() > 0 {
        lemma_history(rows.drop_last());
    }
}

/// A board's sprints are the current one, where there is one, and behind it every sprint
/// that is not current, in order.
pub proof fn law_sprints_are_current_or_past(b: BoardSprints, facts: SprintFacts)
    requires
        projection::is_sprint_state(b, facts),
    ensures
        b.board == facts.board,
        facts.current matches Ok(current) && (b.current is Some <==> current is Some),
        b.current matches Some(card) ==> facts.current matches Ok(Some(row)) && shows_sprint(
            card,
            row,
        ),
        facts.sprints matches Ok(rows) && show_sprints(
            b.history@,
            rows@.filter(|row: SprintRow| row.sprint.status@ != "current"@),
        ),
{
    lemma_history(facts.sprints->Ok_0@);
}

} // verus!
