//! Draft epics and the work that each of them holds back.

use vstd::prelude::*;

use crate::projection;
use crate::projection::Fetched;
use crate::projection::Listing;
use crate::projection::Projected;
use crate::projection::Refusal;
use crate::records;
use crate::records::Task;
use crate::tables;
use crate::text;

verus! {

/// One task as it was read, the typeset form of its body, and how many open items are
/// about it.
#[derive(Debug)]
pub struct PlanRow {
    pub task: Task,
    pub html: String,
    pub open_attention: Fetched<usize>,
}

/// The tasks of one board.
#[derive(Debug)]
pub struct PlanFacts {
    pub board: String,
    pub rows: Fetched<Vec<PlanRow>>,
}

/// One row that a draft plan holds back.
#[derive(Debug)]
pub struct PlanChild {
    pub task: Task,
    pub open_attention: usize,
}

/// One draft epic, and what it holds back.
#[derive(Debug)]
pub struct PlanCard {
    pub board: String,
    pub task: Task,
    pub body_html: Option<String>,
    pub open_attention: usize,
    pub children: Vec<PlanChild>,
}

/// A draft epic.
pub open spec fn is_plan() -> spec_fn(PlanRow) -> bool {
    |row: PlanRow| row.task.status@ == "draft"@ && row.task.task_type@ == "epic"@
}

/// A row below a plan.
pub open spec fn is_child(id: Seq<char>) -> spec_fn(PlanRow) -> bool {
    |row: PlanRow| text::text_of(row.task.parent_id) == Some(id)
}

/// What the first row whose count could not be read failed with.
pub open spec fn first_failure(rows: Seq<PlanRow>) -> Option<Seq<String>>
    decreases rows.len(),
{
    if rows.len() == 0 {
        None
    } else {
        match first_failure(rows.drop_last()) {
            Some(causes) => Some(causes),
            None => match rows.last().open_attention {
                Err(causes) => Some(causes@),
                Ok(_) => None,
            },
        }
    }
}

/// What one plan's card failed with first: a child of it, or the plan itself.
pub open spec fn plan_failure(rows: Seq<PlanRow>, plan: PlanRow) -> Option<Seq<String>> {
    match first_failure(tables::kept(rows, is_child(plan.task.id@))) {
        Some(causes) => Some(causes),
        None => match plan.open_attention {
            Err(causes) => Some(causes@),
            Ok(_) => None,
        },
    }
}

/// What the cards of some plans of a board failed with first.
pub open spec fn plans_failure(rows: Seq<PlanRow>, plans: Seq<PlanRow>) -> Option<Seq<String>>
    decreases plans.len(),
{
    if plans.len() == 0 {
        None
    } else {
        match plans_failure(rows, plans.drop_last()) {
            Some(causes) => Some(causes),
            None => plan_failure(rows, plans.last()),
        }
    }
}

/// What one board failed with first.
pub open spec fn board_failure(facts: PlanFacts) -> Option<Seq<String>> {
    match facts.rows {
        Err(causes) => Some(causes@),
        Ok(rows) => plans_failure(rows@, tables::kept(rows@, is_plan())),
    }
}

/// What some boards failed with first.
pub open spec fn boards_failure(boards: Seq<PlanFacts>) -> Option<Seq<String>>
    decreases boards.len(),
{
    if boards.len() == 0 {
        None
    } else {
        match boards_failure(boards.drop_last()) {
            Some(causes) => Some(causes),
            None => board_failure(boards.last()),
        }
    }
}

/// The children of a card are these rows.
pub open spec fn are_children(children: Seq<PlanChild>, rows: Seq<PlanRow>) -> bool {
    &&& children.len() == rows.len()
    &&& forall|i: int|
        0 <= i < rows.len() ==> records::same_task(
            (#[trigger] rows[i]).task,
            children[i].task,
        ) && rows[i].open_attention == Ok::<usize, Vec<String>>(children[i].open_attention)
}

/// A card shows this plan.
pub open spec fn is_plan_card(
    card: PlanCard,
    board: String,
    rows: Seq<PlanRow>,
    plan: PlanRow,
) -> bool {
    &&& card.board == board
    &&& records::same_task(plan.task, card.task)
    &&& card.body_html == projection::typeset(plan.task.body, plan.html)
    &&& plan.open_attention == Ok::<usize, Vec<String>>(card.open_attention)
    &&& are_children(card.children@, tables::kept(rows, is_child(plan.task.id@)))
}

/// How many plans the boards have.
pub open spec fn count_plans(boards: Seq<PlanFacts>) -> nat
    decreases boards.len(),
{
    if boards.len() == 0 {
        0
    } else {
        count_plans(boards.drop_last()) + tables::kept(
            boards.last().rows->Ok_0@,
            is_plan(),
        ).len()
    }
}

/// The cards show the plans of some boards, board by board.
pub open spec fn are_cards(cards: Seq<PlanCard>, boards: Seq<PlanFacts>) -> bool
    decreases boards.len(),
{
    if boards.len() == 0 {
        cards.len() == 0
    } else {
        let rows = boards.last().rows->Ok_0@;
        let plans = tables::kept(rows, is_plan());
        let before = cards.len() - plans.len();
        &&& before >= 0
        &&& are_cards(cards.take(before), boards.drop_last())
        &&& forall|i: int|
            0 <= i < plans.len() ==> is_plan_card(
                cards[before + i],
                boards.last().board,
                rows,
                #[trigger] plans[i],
            )
    }
}

/// A refusal over causes that were copied.
pub open spec fn refuses_with(refusal: Refusal, causes: Seq<String>) -> bool {
    if projection::is_denial(causes) {
        refusal is DeniedOrNotFound
    } else {
        refusal is Failed && refusal->Failed_0@ == causes
    }
}

proof fn lemma_failure_stays(rows: Seq<PlanRow>, i: int)
    requires
        0 <= i <= rows.len(),
        first_failure(rows.take(i)) is Some,
    ensures
        first_failure(rows) == first_failure(rows.take(i)),
    decreases rows.len() - i,
{
    if i < rows.len() {
        assert(rows.take(i + 1).drop_last() =~= rows.take(i));
        lemma_failure_stays(rows, i + 1);
    } else {
        assert(rows.take(i) =~= rows);
    }
}

proof fn lemma_plans_failure_stays(rows: Seq<PlanRow>, plans: Seq<PlanRow>, i: int)
    requires
        0 <= i <= plans.len(),
        plans_failure(rows, plans.take(i)) is Some,
    ensures
        plans_failure(rows, plans) == plans_failure(rows, plans.take(i)),
    decreases plans.len() - i,
{
    if i < plans.len() {
        assert(plans.take(i + 1).drop_last() =~= plans.take(i));
        lemma_plans_failure_stays(rows, plans, i + 1);
    } else {
        assert(plans.take(i) =~= plans);
    }
}

proof fn lemma_boards_failure_stays(boards: Seq<PlanFacts>, i: int)
    requires
        0 <= i <= boards.len(),
        boards_failure(boards.take(i)) is Some,
    ensures
        boards_failure(boards) == boards_failure(boards.take(i)),
    decreases boards.len() - i,
{
    if i < boards.len() {
        assert(boards.take(i + 1).drop_last() =~= boards.take(i));
        lemma_boards_failure_stays(boards, i + 1);
    } else {
        assert(boards.take(i) =~= boards);
    }
}

/// What is kept of a longer prefix starts with what is kept of a shorter one.
proof fn lemma_kept_prefix<T>(s: Seq<T>, p: spec_fn(T) -> bool, i: int)
    requires
        0 <= i <= s.len(),
    ensures
        tables::kept(s.take(i), p).len() <= tables::kept(s, p).len(),
        tables::kept(s, p).take(tables::kept(s.take(i), p).len() as int) == tables::kept(
            s.take(i),
            p,
        ),
    decreases s.len() - i,
{
    let all = tables::kept(s, p);
    let some = tables::kept(s.take(i), p);
    if i < s.len() {
        lemma_kept_prefix(s, p, i + 1);
        tables::lemma_kept_step(s, p, i);
        let more = tables::kept(s.take(i + 1), p);
        assert(all.take(some.len() as int) =~= all.take(more.len() as int).take(
            some.len() as int,
        ));
        assert(more.take(some.len() as int) =~= some);
    } else {
        assert(s.take(i) =~= s);
        assert(all.take(all.len() as int) =~= all);
    }
}

/// The children of one plan.
fn collect_children(rows: &[PlanRow], id: &str) -> (r: Fetched<Vec<PlanChild>>)
    ensures
        match first_failure(tables::kept(rows@, is_child(id@))) {
            Some(causes) => r is Err && r->Err_0@ == causes,
            None => r is Ok && are_children(r->Ok_0@, tables::kept(rows@, is_child(id@))),
        },
{
    let ghost p = is_child(id@);
    let mut children: Vec<PlanChild> = Vec::new();
    let mut i: usize = 0;
    proof {
        assert(rows@.take(0) =~= Seq::<PlanRow>::empty());
    }
    while i < rows.len()
        invariant
            i <= rows@.len(),
            p == is_child(id@),
            first_failure(tables::kept(rows@.take(i as int), p)) is None,
            are_children(children@, tables::kept(rows@.take(i as int), p)),
        decreases rows.len() - i,
    {
        let ghost before = tables::kept(rows@.take(i as int), p);
        proof {
            tables::lemma_kept_step(rows@, p, i as int);
        }
        let row = &rows[i];
        let below = match &row.task.parent_id {
            Some(parent) => text::same(parent.as_str(), id),
            None => false,
        };
        if below {
            proof {
                assert(before.push(rows@[i as int]).drop_last() =~= before);
            }
            match &row.open_attention {
                Err(causes) => {
                    proof {
                        lemma_kept_prefix(rows@, p, i as int + 1);
                        let all = tables::kept(rows@, p);
                        lemma_failure_stays(all, before.len() as int + 1);
                    }
                    return Err(text::copy_list(causes.as_slice()));
                },
                Ok(count) => {
                    children.push(PlanChild { task: row.task.copy(), open_attention: *count });
                },
            }
        }
        i = i + 1;
    }
    proof {
        assert(rows@.take(rows@.len() as int) =~= rows@);
    }
    Ok(children)
}

/// The card of one plan.
fn plan_card(board: &String, rows: &[PlanRow], plan: &PlanRow) -> (r: Fetched<PlanCard>)
    ensures
        match plan_failure(rows@, *plan) {
            Some(causes) => r is Err && r->Err_0@ == causes,
            None => r is Ok && is_plan_card(r->Ok_0, *board, rows@, *plan),
        },
{
    let children = match collect_children(rows, plan.task.id.as_str()) {
        Err(causes) => {
            return Err(causes);
        },
        Ok(children) => children,
    };
    match &plan.open_attention {
        Err(causes) => Err(text::copy_list(causes.as_slice())),
        Ok(count) => {
            let body_html = if plan.task.body.is_some() {
                Some(plan.html.clone())
            } else {
                None
            };
            Ok(
                PlanCard {
                    board: board.clone(),
                    task: plan.task.copy(),
                    body_html,
                    open_attention: *count,
                    children,
                },
            )
        },
    }
}

/// The cards of the plans of one board.
fn board_plans(board: &String, rows: &[PlanRow]) -> (r: Fetched<Vec<PlanCard>>)
    ensures
        match plans_failure(rows@, tables::kept(rows@, is_plan())) {
            Some(causes) => r is Err && r->Err_0@ == causes,
            None => r is Ok && r->Ok_0@.len() == tables::kept(rows@, is_plan()).len() && forall|
                i: int,
            |
                0 <= i < r->Ok_0@.len() ==> is_plan_card(
                    r->Ok_0@[i],
                    *board,
                    rows@,
                    #[trigger] tables::kept(rows@, is_plan())[i],
                ),
        },
{
    let ghost p = is_plan();
    let mut cards: Vec<PlanCard> = Vec::new();
    let mut i: usize = 0;
    proof {
        assert(rows@.take(0) =~= Seq::<PlanRow>::empty());
    }
    while i < rows.len()
        invariant
            i <= rows@.len(),
            p == is_plan(),
            plans_failure(rows@, tables::kept(rows@.take(i as int), p)) is None,
            cards@.len() == tables::kept(rows@.take(i as int), p).len(),
            forall|k: int|
                0 <= k < cards@.len() ==> is_plan_card(
                    cards@[k],
                    *board,
                    rows@,
                    #[trigger] tables::kept(rows@.take(i as int), p)[k],
                ),
        decreases rows.len() - i,
    {
        let ghost before = tables::kept(rows@.take(i as int), p);
        proof {
            tables::lemma_kept_step(rows@, p, i as int);
        }
        let row = &rows[i];
        if text::same(row.task.status.as_str(), "draft") && text::same(
            row.task.task_type.as_str(),
            "epic",
        ) {
            proof {
                assert(before.push(rows@[i as int]).drop_last() =~= before);
            }
            match plan_card(board, rows, row) {
                Err(causes) => {
                    proof {
                        lemma_kept_prefix(rows@, p, i as int + 1);
                        let all = tables::kept(rows@, p);
                        lemma_plans_failure_stays(rows@, all, before.len() as int + 1);
                    }
                    return Err(causes);
                },
                Ok(card) => {
                    cards.push(card);
                },
            }
        }
        i = i + 1;
    }
    proof {
        assert(rows@.take(rows@.len() as int) =~= rows@);
    }
    Ok(cards)
}

/// Every draft epic of every readable board, with the work that each holds back.
pub fn plans(boards: Fetched<Vec<PlanFacts>>) -> (r: Projected<Listing<PlanCard>>)
    ensures
        match boards {
            Err(causes) => r is Err && refuses_with(r->Err_0, causes@),
            Ok(all) => match boards_failure(all@) {
                Some(causes) => r is Err && refuses_with(r->Err_0, causes),
                None => r is Ok && are_cards(r->Ok_0.items@, all@) && r->Ok_0.returned
                    == r->Ok_0.items@.len() && r->Ok_0.limit is None && !r->Ok_0.truncated,
            },
        },
{
    let list = match boards {
        Err(causes) => {
            return Err(Refusal::from_causes(causes));
        },
        Ok(list) => list,
    };
    let ghost all = list@;
    let mut cards: Vec<PlanCard> = Vec::new();
    proof {
        assert(all.take(0) =~= Seq::<PlanFacts>::empty());
    }
    for facts in it: list
        invariant
            it.seq() == all,
            all == list@,
            boards == Ok::<Vec<PlanFacts>, Vec<String>>(list),
            boards_failure(all.take(it.index() as int)) is None,
            are_cards(cards@, all.take(it.index() as int)),
    {
        let ghost n = it.index() as int;
        proof {
            assert(all.take(n + 1).drop_last() =~= all.take(n));
        }
        let read = match facts.rows {
            Err(causes) => {
                proof {
                    lemma_boards_failure_stays(all, n + 1);
                }
                return Err(Refusal::from_causes(causes));
            },
            Ok(rows) => board_plans(&facts.board, rows.as_slice()),
        };
        match read {
            Err(causes) => {
                proof {
                    lemma_boards_failure_stays(all, n + 1);
                }
                return Err(Refusal::from_causes(causes));
            },
            Ok(more) => {
                let ghost start = cards@;
                let ghost added = more@;
                let mut more = more;
                cards.append(&mut more);
                proof {
                    assert(cards@ =~= start + added);
                    assert(cards@.take(cards@.len() - added.len()) =~= start);
                }
            },
        }
    }
    proof {
        assert(all.take(all.len() as int) =~= all);
    }
    Ok(Listing::complete(cards))
}

/// The listing has one card for each draft epic, and no other.
pub proof fn law_one_card_per_plan(cards: Seq<PlanCard>, boards: Seq<PlanFacts>)
    requires
        are_cards(cards, boards),
    ensures
        cards.len() == count_plans(boards),
    decreases boards.len(),
{
    if boards.len() > 0 {
        let plans = tables::kept(boards.last().rows->Ok_0@, is_plan());
        law_one_card_per_plan(cards.take(cards.len() - plans.len()), boards.drop_last());
    }
}

} // verus!
