//! What the operator's pages read: rows that were fetched already, ordered, bounded and
//! put in shape.

use vstd::prelude::*;

use crate::decisions::Attention;
use crate::deploy::DeploymentAttempt;
use crate::ranking;
use crate::ranking::Ranked;
use crate::records;
use crate::records::Checkpoint;
use crate::records::Claim;
use crate::records::ClaimSummary;
use crate::records::Event;
use crate::records::Sitrep;
use crate::records::Task;
use crate::records::TaskNote;
use crate::rules::RuleSummary;
use crate::tables;
use crate::text;
use crate::workspace::ProjectRecord;

verus! {

// -------------------------------------------------------------------------- refusals

/// What a read gave: its rows, or the messages of its failure from the outermost
/// cause on.
pub type Fetched<T> = Result<T, Vec<String>>;

/// Why a projection could not answer.
#[derive(Debug)]
pub enum Refusal {
    /// What was named is unknown, retired, ambiguous or invisible; one answer for all.
    DeniedOrNotFound,
    /// Anything else. Never shown.
    Failed(Vec<String>),
}

/// What a projection returns.
pub type Projected<T> = Result<T, Refusal>;

/// The one wording of a denial.
pub const DENIED_OR_NOT_FOUND: &'static str = "denied or not found";

/// A cause among them is the denial.
pub open spec fn is_denial(causes: Seq<String>) -> bool {
    exists|i: int|
        0 <= i < causes.len() && text::contains_text(
            (#[trigger] causes[i])@,
            DENIED_OR_NOT_FOUND@,
        )
}

/// The refusal that a failure becomes.
pub open spec fn refusal_for(causes: Vec<String>) -> Refusal {
    if is_denial(causes@) {
        Refusal::DeniedOrNotFound
    } else {
        Refusal::Failed(causes)
    }
}

impl Refusal {
    /// The refusal that a failure becomes, from its causes.
    pub fn from_causes(causes: Vec<String>) -> (r: Refusal)
        ensures
            r == refusal_for(causes),
    {
        let mut i: usize = 0;
        while i < causes.len()
            invariant
                i <= causes@.len(),
                forall|k: int|
                    0 <= k < i ==> !text::contains_text(
                        (#[trigger] causes@[k])@,
                        DENIED_OR_NOT_FOUND@,
                    ),
            decreases causes.len() - i,
        {
            if text::contains(causes[i].as_str(), DENIED_OR_NOT_FOUND) {
                return Refusal::DeniedOrNotFound;
            }
            i = i + 1;
        }
        Refusal::Failed(causes)
    }

    /// The causes that a page shows.
    pub fn into_causes(self) -> (r: Vec<String>)
        ensures
            match self {
                Refusal::DeniedOrNotFound => text::texts(r@) == seq![DENIED_OR_NOT_FOUND@],
                Refusal::Failed(causes) => r == causes,
            },
    {
        match self {
            Refusal::DeniedOrNotFound => {
                let r = vec![DENIED_OR_NOT_FOUND.to_owned()];
                proof {
                    assert(text::texts(r@) =~= seq![DENIED_OR_NOT_FOUND@]);
                }
                r
            },
            Refusal::Failed(causes) => causes,
        }
    }
}

/// A refusal survives being turned into causes and back.
pub proof fn law_refusal_survives_its_causes(refusal: Refusal, causes: Vec<String>)
    requires
        match refusal {
            Refusal::DeniedOrNotFound => text::texts(causes@) == seq![DENIED_OR_NOT_FOUND@],
            Refusal::Failed(own) => causes == own && !is_denial(own@),
        },
    ensures
        refusal_for(causes) == refusal,
{
    if refusal is DeniedOrNotFound {
        assert(text::texts(causes@).len() == 1);
        assert(text::texts(causes@)[0] == DENIED_OR_NOT_FOUND@);
        let s = DENIED_OR_NOT_FOUND@;
        assert(causes@[0]@ == s);
        assert(s.subrange(0, s.len() as int) =~= s);
        assert(text::occurs_at(s, s, 0));
    }
}

// -------------------------------------------------------------------------- listings

/// A listing that says whether it was cut.
#[derive(Debug)]
pub struct Listing<T> {
    pub items: Vec<T>,
    pub returned: usize,
    pub limit: Option<i64>,
    pub truncated: bool,
}

/// So many rows of a limit that is never below zero.
pub open spec fn within_limit(rows: nat, limit: i64) -> int {
    if limit < 0 {
        0
    } else if rows > limit {
        limit as int
    } else {
        rows as int
    }
}

impl<T> Listing<T> {
    /// Rows that one read returned when it was asked for one more than the bound:
    /// whether they were cut is observed, never guessed.
    pub fn capped(rows: Vec<T>, limit: i64) -> (r: Self)
        ensures
            r.items@ == rows@.take(within_limit(rows@.len(), limit)),
            r.returned == r.items@.len(),
            r.limit == Some(limit),
            r.truncated == (rows@.len() > limit),
    {
        let mut items = rows;
        let ghost all = items@;
        let n: usize = items.len();
        let truncated = limit < 0 || (n as u64) > (limit as u64);
        if truncated {
            let bound: usize = if limit < 0 {
                0
            } else {
                limit as usize
            };
            items.truncate(bound);
            proof {
                assert(items@ =~= all.take(within_limit(all.len(), limit)));
            }
        } else {
            proof {
                assert(items@ =~= all.take(within_limit(all.len(), limit)));
            }
        }
        Listing { returned: items.len(), items, limit: Some(limit), truncated }
    }

    /// Rows of several reads, each with the bound; whether one was cut is known.
    pub fn merged(rows: Vec<T>, limit: i64, truncated: bool) -> (r: Self)
        ensures
            r.items == rows,
            r.returned == rows@.len(),
            r.limit == Some(limit),
            r.truncated == truncated,
    {
        Listing { returned: rows.len(), items: rows, limit: Some(limit), truncated }
    }

    /// Rows of a read that cuts nothing.
    pub fn complete(rows: Vec<T>) -> (r: Self)
        ensures
            r.items == rows,
            r.returned == rows@.len(),
            r.limit is None,
            !r.truncated,
    {
        Listing { returned: rows.len(), items: rows, limit: None, truncated: false }
    }
}

// ------------------------------------------------------------------------- needs you

/// What a card says about the task that it is about.
#[derive(Debug)]
pub struct TaskReference {
    pub id: String,
    pub task_type: String,
    pub title: String,
}

/// One item with the board that raised it.
#[derive(Debug)]
pub struct AttentionCard {
    pub board: String,
    pub attention: Attention,
    pub body_html: String,
    pub task: Option<TaskReference>,
}

/// One open row, its typeset body, and its task where that was found.
#[derive(Debug)]
pub struct OpenItem {
    pub attention: Attention,
    pub body_html: String,
    pub task: Option<Task>,
}

/// The open rows of one board, at most one more than the bound.
#[derive(Debug)]
pub struct BoardQueue {
    pub board: String,
    pub rows: Fetched<Vec<OpenItem>>,
}

/// The most urgent first, then the oldest, then by id and board.
impl Ranked for AttentionCard {
    open spec fn before(self, other: Self) -> bool {
        if self.attention.priority != other.attention.priority {
            self.attention.priority < other.attention.priority
        } else if self.attention.created_at != other.attention.created_at {
            self.attention.created_at < other.attention.created_at
        } else if self.attention.id@ != other.attention.id@ {
            text::text_less(self.attention.id@, other.attention.id@)
        } else {
            text::text_less(self.board@, other.board@)
        }
    }

    proof fn lemma_order(a: Self, b: Self, c: Self) {
        text::lemma_text_order(a.attention.id@, b.attention.id@, c.attention.id@);
        text::lemma_text_order(b.attention.id@, c.attention.id@, a.attention.id@);
        text::lemma_text_order(c.attention.id@, a.attention.id@, b.attention.id@);
        text::lemma_text_order(c.attention.id@, b.attention.id@, a.attention.id@);
        text::lemma_text_order(a.board@, b.board@, c.board@);
        text::lemma_text_order(b.board@, c.board@, a.board@);
        text::lemma_text_order(c.board@, a.board@, b.board@);
        text::lemma_text_order(c.board@, b.board@, a.board@);
    }

    fn is_before(&self, other: &Self) -> (r: bool) {
        if self.attention.priority != other.attention.priority {
            self.attention.priority < other.attention.priority
        } else if self.attention.created_at != other.attention.created_at {
            self.attention.created_at < other.attention.created_at
        } else if !text::same(self.attention.id.as_str(), other.attention.id.as_str()) {
            text::less(self.attention.id.as_str(), other.attention.id.as_str())
        } else {
            text::less(self.board.as_str(), other.board.as_str())
        }
    }
}

/// A row names a task, and it was found.
pub open spec fn reference_of(item: OpenItem) -> Option<TaskReference> {
    match (item.attention.task_id, item.task) {
        (Some(_), Some(task)) => Some(
            TaskReference { id: task.id, task_type: task.task_type, title: task.title },
        ),
        _ => None,
    }
}

pub open spec fn card_of(board: String, item: OpenItem) -> AttentionCard {
    AttentionCard {
        board,
        attention: item.attention,
        body_html: item.body_html,
        task: reference_of(item),
    }
}

/// The cards of one board, within the bound.
pub open spec fn board_cards(queue: BoardQueue, limit: i64) -> Seq<AttentionCard> {
    let rows = queue.rows->Ok_0@;
    rows.take(within_limit(rows.len(), limit)).map_values(
        |item: OpenItem| card_of(queue.board, item),
    )
}

/// The cards of all boards in the order of the boards, and whether a board was cut; or
/// the first failure.
pub open spec fn gathered(boards: Seq<BoardQueue>, limit: i64) -> Result<
    (Seq<AttentionCard>, bool),
    Vec<String>,
>
    decreases boards.len(),
{
    if boards.len() == 0 {
        Ok((seq![], false))
    } else {
        match gathered(boards.drop_last(), limit) {
            Err(causes) => Err(causes),
            Ok((cards, truncated)) => match boards.last().rows {
                Err(causes) => Err(causes),
                Ok(rows) => Ok(
                    (
                        cards + board_cards(boards.last(), limit),
                        truncated || rows@.len() > limit,
                    ),
                ),
            },
        }
    }
}

proof fn lemma_gathered_stays(boards: Seq<BoardQueue>, limit: i64, i: int)
    requires
        0 <= i <= boards.len(),
        gathered(boards.take(i), limit) is Err,
    ensures
        gathered(boards, limit) == gathered(boards.take(i), limit),
    decreases boards.len() - i,
{
    if i < boards.len() {
        assert(boards.take(i + 1).drop_last() =~= boards.take(i));
        lemma_gathered_stays(boards, limit, i + 1);
    } else {
        assert(boards.take(i) =~= boards);
    }
}

fn make_card(board: &String, item: OpenItem) -> (r: AttentionCard)
    ensures
        r == card_of(*board, item),
{
    let task = match item.task {
        Some(task) => if item.attention.task_id.is_some() {
            Some(TaskReference { id: task.id, task_type: task.task_type, title: task.title })
        } else {
            None
        },
        None => None,
    };
    AttentionCard {
        board: board.clone(),
        attention: item.attention,
        body_html: item.body_html,
        task,
    }
}

/// Adds the cards of one board, and says whether it was cut.
fn add_cards(cards: &mut Vec<AttentionCard>, queue: BoardQueue, limit: i64) -> (r: Fetched<bool>)
    requires
        limit >= 0,
    ensures
        match queue.rows {
            Err(causes) => r == Err::<bool, Vec<String>>(causes),
            Ok(rows) => r == Ok::<bool, Vec<String>>(rows@.len() > limit) && final(cards)@
                == old(cards)@ + board_cards(queue, limit),
        },
{
    match queue.rows {
        Err(causes) => Err(causes),
        Ok(rows) => {
            let board = queue.board;
            let listing = Listing::capped(rows, limit);
            let ghost start = cards@;
            let ghost kept = listing.items@;
            let ghost wanted = kept.map_values(|item: OpenItem| card_of(board, item));
            proof {
                assert(start + wanted.take(0) =~= start);
            }
            for item in it: listing.items
                invariant
                    it.seq() == kept,
                    wanted == kept.map_values(|item: OpenItem| card_of(board, item)),
                    cards@ == start + wanted.take(it.index() as int),
            {
                let ghost n = it.index() as int;
                cards.push(make_card(&board, item));
                proof {
                    assert(wanted.take(n + 1) =~= wanted.take(n).push(wanted[n]));
                    assert(cards@ =~= start + wanted.take(n + 1));
                }
            }
            proof {
                assert(wanted.take(wanted.len() as int) =~= wanted);
            }
            Ok(listing.truncated)
        },
    }
}

/// Every open item of every board, in the order of the deck.
pub fn needs_you(boards: Fetched<Vec<BoardQueue>>, limit: i64) -> (r: Projected<
    Listing<AttentionCard>,
>)
    requires
        limit >= 0,
    ensures
        match boards {
            Err(causes) => r is Err && r->Err_0 == refusal_for(causes),
            Ok(queues) => match gathered(queues@, limit) {
                Err(causes) => r is Err && r->Err_0 == refusal_for(causes),
                Ok((cards, truncated)) => r is Ok && r->Ok_0.items@ == ranking::ranked(cards)
                    && r->Ok_0.returned == cards.len() && r->Ok_0.limit == Some(limit)
                    && r->Ok_0.truncated == truncated,
            },
        },
{
    let queues = match boards {
        Err(causes) => {
            return Err(Refusal::from_causes(causes));
        },
        Ok(queues) => queues,
    };
    let ghost all = queues@;
    let mut cards: Vec<AttentionCard> = Vec::new();
    let mut truncated = false;
    proof {
        assert(all.take(0) =~= Seq::<BoardQueue>::empty());
    }
    for queue in it: queues
        invariant
            it.seq() == all,
            limit >= 0,
            boards == Ok::<Vec<BoardQueue>, Vec<String>>(queues),
            all == queues@,
            gathered(all.take(it.index() as int), limit) == Ok::<_, Vec<String>>(
                (cards@, truncated),
            ),
    {
        let ghost n = it.index() as int;
        proof {
            assert(all.take(n + 1).drop_last() =~= all.take(n));
        }
        match add_cards(&mut cards, queue, limit) {
            Err(causes) => {
                proof {
                    lemma_gathered_stays(all, limit, n + 1);
                }
                return Err(Refusal::from_causes(causes));
            },
            Ok(cut) => {
                truncated = truncated || cut;
            },
        }
    }
    proof {
        assert(all.take(all.len() as int) =~= all);
        ranking::law_ranked(cards@);
    }
    let sorted = ranking::sort_ranked(cards);
    Ok(Listing::merged(sorted, limit, truncated))
}

/// The deck shows every card once, the most urgent first and the oldest of those
/// before the others.
pub proof fn law_deck_is_in_order(cards: Seq<AttentionCard>)
    ensures
        ranking::ranked(cards).to_multiset() == cards.to_multiset(),
        forall|i: int, j: int|
            0 <= i < j < cards.len() ==> {
                let a = (#[trigger] ranking::ranked(cards)[i]).attention;
                let b = (#[trigger] ranking::ranked(cards)[j]).attention;
                a.priority < b.priority || (a.priority == b.priority && a.created_at
                    <= b.created_at)
            },
{
    ranking::law_ranked(cards);
}

// ---------------------------------------------------------------------- board summary

/// How urgent a waiting row is: its priority, then its age.
#[derive(Debug, Clone, Copy, PartialEq, Eq, Structural)]
pub struct Urgency {
    pub priority: i64,
    pub created_at: i64,
}

pub open spec fn more_urgent(a: Urgency, b: Urgency) -> bool {
    a.priority < b.priority || (a.priority == b.priority && a.created_at < b.created_at)
}

/// Less urgent than anything that waits.
pub open spec fn no_urgency() -> Urgency {
    Urgency { priority: i64::MAX, created_at: i64::MAX }
}

/// The most urgent of some rows.
pub open spec fn most_urgent(s: Seq<Urgency>) -> Urgency
    decreases s.len(),
{
    if s.len() == 0 {
        no_urgency()
    } else {
        let rest = most_urgent(s.drop_last());
        if more_urgent(s.last(), rest) {
            s.last()
        } else {
            rest
        }
    }
}

/// What was read of one board.
#[derive(Debug)]
pub struct BoardFacts {
    pub board: String,
    pub tasks: Vec<Task>,
    pub open_attention: i64,
    pub pending_handoffs: i64,
    pub urgent_attention: Vec<Urgency>,
    pub urgent_handoff: Vec<Urgency>,
    pub stale: usize,
}

/// One row of the board index.
#[derive(Debug)]
pub struct BoardSummary {
    pub board: String,
    pub open_attention: i64,
    pub todo: usize,
    pub in_progress: usize,
    pub stale: usize,
    pub handoffs: i64,
    pub tasks: usize,
}

pub open spec fn has_status(status: Seq<char>) -> spec_fn(Task) -> bool {
    |t: Task| t.status@ == status
}

pub open spec fn urgencies(tasks: Seq<Task>) -> Seq<Urgency> {
    tasks.map_values(|t: Task| Urgency { priority: t.priority, created_at: t.created_at })
}

/// What waits on a board: the tasks to do, and the most urgent item and handoff.
pub open spec fn waiting(facts: BoardFacts) -> Seq<Urgency> {
    urgencies(tables::kept(facts.tasks@, has_status("todo"@))) + facts.urgent_attention@
        + facts.urgent_handoff@
}

/// A summary with what ranks it.
pub struct RankedSummary {
    pub urgency: Urgency,
    pub summary: BoardSummary,
}

pub open spec fn summary_of(facts: BoardFacts) -> RankedSummary {
    RankedSummary {
        urgency: most_urgent(waiting(facts)),
        summary: BoardSummary {
            board: facts.board,
            open_attention: facts.open_attention,
            todo: tables::kept(facts.tasks@, has_status("todo"@)).len() as usize,
            in_progress: tables::kept(facts.tasks@, has_status("in_progress"@)).len() as usize,
            stale: facts.stale,
            handoffs: facts.pending_handoffs,
            tasks: facts.tasks@.len() as usize,
        },
    }
}

/// The most urgent board first, then by name.
impl Ranked for RankedSummary {
    open spec fn before(self, other: Self) -> bool {
        if self.urgency != other.urgency {
            more_urgent(self.urgency, other.urgency)
        } else {
            text::text_less(self.summary.board@, other.summary.board@)
        }
    }

    proof fn lemma_order(a: Self, b: Self, c: Self) {
        text::lemma_text_order(a.summary.board@, b.summary.board@, c.summary.board@);
        text::lemma_text_order(b.summary.board@, c.summary.board@, a.summary.board@);
        text::lemma_text_order(c.summary.board@, a.summary.board@, b.summary.board@);
        text::lemma_text_order(c.summary.board@, b.summary.board@, a.summary.board@);
    }

    fn is_before(&self, other: &Self) -> (r: bool) {
        if self.urgency.priority != other.urgency.priority {
            self.urgency.priority < other.urgency.priority
        } else if self.urgency.created_at != other.urgency.created_at {
            self.urgency.created_at < other.urgency.created_at
        } else {
            text::less(self.summary.board.as_str(), other.summary.board.as_str())
        }
    }
}

fn count_status(tasks: &[Task], status: &str) -> (r: usize)
    ensures
        r == tables::kept(tasks@, has_status(status@)).len(),
{
    let ghost p = has_status(status@);
    let mut count: usize = 0;
    let mut i: usize = 0;
    proof {
        assert(tasks@.take(0) =~= Seq::<Task>::empty());
    }
    while i < tasks.len()
        invariant
            i <= tasks@.len(),
            count <= i,
            p == has_status(status@),
            count == tables::kept(tasks@.take(i as int), p).len(),
        decreases tasks.len() - i,
    {
        proof {
            tables::lemma_kept_step(tasks@, p, i as int);
        }
        if text::same(tasks[i].status.as_str(), status) {
            count = count + 1;
        }
        i = i + 1;
    }
    proof {
        assert(tasks@.take(tasks@.len() as int) =~= tasks@);
    }
    count
}

fn more_urgent_of(a: Urgency, b: Urgency) -> (r: Urgency)
    ensures
        r == if more_urgent(b, a) {
            b
        } else {
            a
        },
{
    if b.priority < a.priority || (b.priority == a.priority && b.created_at < a.created_at) {
        b
    } else {
        a
    }
}

/// The most urgent task to do.
fn urgent_task(tasks: &[Task]) -> (r: Urgency)
    ensures
        r == most_urgent(urgencies(tables::kept(tasks@, has_status("todo"@)))),
{
    let ghost p = has_status("todo"@);
    let mut best = Urgency { priority: i64::MAX, created_at: i64::MAX };
    let mut i: usize = 0;
    proof {
        assert(tasks@.take(0) =~= Seq::<Task>::empty());
        assert(urgencies(tables::kept(tasks@.take(0), p)) =~= seq![]);
    }
    while i < tasks.len()
        invariant
            i <= tasks@.len(),
            p == has_status("todo"@),
            best == most_urgent(urgencies(tables::kept(tasks@.take(i as int), p))),
        decreases tasks.len() - i,
    {
        proof {
            tables::lemma_kept_step(tasks@, p, i as int);
        }
        if text::same(tasks[i].status.as_str(), "todo") {
            let own = Urgency { priority: tasks[i].priority, created_at: tasks[i].created_at };
            proof {
                let before = tables::kept(tasks@.take(i as int), p);
                let after = before.push(tasks@[i as int]);
                assert(urgencies(after).drop_last() =~= urgencies(before));
                assert(urgencies(after).last() == own);
            }
            best = more_urgent_of(best, own);
        }
        i = i + 1;
    }
    proof {
        assert(tasks@.take(tasks@.len() as int) =~= tasks@);
    }
    best
}

/// The most urgent of what was found before and of some more.
fn urgent_among(best: Urgency, more: &[Urgency], Ghost(before): Ghost<Seq<Urgency>>) -> (r: Urgency)
    requires
        best == most_urgent(before),
    ensures
        r == most_urgent(before + more@),
{
    let mut best = best;
    let mut i: usize = 0;
    proof {
        assert(before + more@.take(0) =~= before);
    }
    while i < more.len()
        invariant
            i <= more@.len(),
            best == most_urgent(before + more@.take(i as int)),
        decreases more.len() - i,
    {
        proof {
            let s = before + more@.take(i as int + 1);
            assert(s.drop_last() =~= before + more@.take(i as int));
            assert(s.last() == more@[i as int]);
        }
        best = more_urgent_of(best, more[i]);
        i = i + 1;
    }
    proof {
        assert(more@.take(more@.len() as int) =~= more@);
    }
    best
}

fn summarise(facts: BoardFacts) -> (r: RankedSummary)
    ensures
        r == summary_of(facts),
{
    let tasks = facts.tasks.as_slice();
    let ghost first = urgencies(tables::kept(facts.tasks@, has_status("todo"@)));
    let best = urgent_task(tasks);
    let best = urgent_among(best, facts.urgent_attention.as_slice(), Ghost(first));
    let best = urgent_among(
        best,
        facts.urgent_handoff.as_slice(),
        Ghost(first + facts.urgent_attention@),
    );
    RankedSummary {
        urgency: best,
        summary: BoardSummary {
            open_attention: facts.open_attention,
            todo: count_status(tasks, "todo"),
            in_progress: count_status(tasks, "in_progress"),
            stale: facts.stale,
            handoffs: facts.pending_handoffs,
            tasks: tasks.len(),
            board: facts.board,
        },
    }
}

/// The summaries of all boards in the order of the boards, or the first failure.
pub open spec fn summaries(boards: Seq<Fetched<BoardFacts>>) -> Result<
    Seq<RankedSummary>,
    Vec<String>,
>
    decreases boards.len(),
{
    if boards.len() == 0 {
        Ok(seq![])
    } else {
        match summaries(boards.drop_last()) {
            Err(causes) => Err(causes),
            Ok(before) => match boards.last() {
                Err(causes) => Err(causes),
                Ok(facts) => Ok(before.push(summary_of(facts))),
            },
        }
    }
}

proof fn lemma_summaries_stay(boards: Seq<Fetched<BoardFacts>>, i: int)
    requires
        0 <= i <= boards.len(),
        summaries(boards.take(i)) is Err,
    ensures
        summaries(boards) == summaries(boards.take(i)),
    decreases boards.len() - i,
{
    if i < boards.len() {
        assert(boards.take(i + 1).drop_last() =~= boards.take(i));
        lemma_summaries_stay(boards, i + 1);
    } else {
        assert(boards.take(i) =~= boards);
    }
}

/// The index shows every board once, the most urgent first; of boards that are equally
/// urgent, the one whose name comes first.
pub proof fn law_index_is_in_order(rows: Seq<RankedSummary>)
    ensures
        ranking::ranked(rows).to_multiset() == rows.to_multiset(),
        forall|i: int, j: int|
            0 <= i < j < rows.len() ==> {
                let a = #[trigger] ranking::ranked(rows)[i];
                let b = #[trigger] ranking::ranked(rows)[j];
                !more_urgent(b.urgency, a.urgency) && (a.urgency == b.urgency
                    ==> !text::text_less(b.summary.board@, a.summary.board@))
            },
{
    ranking::law_ranked(rows);
}

/// The rows without what ranks them.
pub open spec fn plain(s: Seq<RankedSummary>) -> Seq<BoardSummary> {
    s.map_values(|x: RankedSummary| x.summary)
}

fn into_plain(rows: Vec<RankedSummary>) -> (r: Vec<BoardSummary>)
    ensures
        r@ == plain(rows@),
{
    let ghost all = rows@;
    let mut out: Vec<BoardSummary> = Vec::new();
    for row in it: rows
        invariant
            it.seq() == all,
            out@ == plain(all).take(it.index() as int),
    {
        let ghost n = it.index() as int;
        out.push(row.summary);
        proof {
            assert(plain(all).take(n + 1) =~= plain(all).take(n).push(plain(all)[n]));
        }
    }
    proof {
        assert(plain(all).take(all.len() as int) =~= plain(all));
    }
    out
}

/// Every readable board at a glance, the most urgent first.
pub fn board_summaries(boards: Fetched<Vec<Fetched<BoardFacts>>>) -> (r: Projected<
    Vec<BoardSummary>,
>)
    ensures
        match boards {
            Err(causes) => r is Err && r->Err_0 == refusal_for(causes),
            Ok(all) => match summaries(all@) {
                Err(causes) => r is Err && r->Err_0 == refusal_for(causes),
                Ok(rows) => r is Ok && r->Ok_0@ == plain(ranking::ranked(rows)),
            },
        },
{
    let list = match boards {
        Err(causes) => {
            return Err(Refusal::from_causes(causes));
        },
        Ok(list) => list,
    };
    let ghost all = list@;
    let mut rows: Vec<RankedSummary> = Vec::new();
    proof {
        assert(all.take(0) =~= Seq::<Fetched<BoardFacts>>::empty());
    }
    for one in it: list
        invariant
            it.seq() == all,
            all == list@,
            boards == Ok::<Vec<Fetched<BoardFacts>>, Vec<String>>(list),
            summaries(all.take(it.index() as int)) == Ok::<_, Vec<String>>(rows@),
    {
        let ghost n = it.index() as int;
        proof {
            assert(all.take(n + 1).drop_last() =~= all.take(n));
        }
        match one {
            Err(causes) => {
                proof {
                    lemma_summaries_stay(all, n + 1);
                }
                return Err(Refusal::from_causes(causes));
            },
            Ok(facts) => {
                rows.push(summarise(facts));
            },
        }
    }
    proof {
        assert(all.take(all.len() as int) =~= all);
    }
    Ok(into_plain(ranking::sort_ranked(rows)))
}

/// The board index.
pub fn boards(readable: Fetched<Vec<Fetched<BoardFacts>>>) -> (r: Projected<Listing<BoardSummary>>)
    ensures
        match readable {
            Err(causes) => r is Err && r->Err_0 == refusal_for(causes),
            Ok(all) => match summaries(all@) {
                Err(causes) => r is Err && r->Err_0 == refusal_for(causes),
                Ok(rows) => r is Ok && r->Ok_0.items@ == plain(ranking::ranked(rows))
                    && r->Ok_0.returned == r->Ok_0.items@.len() && r->Ok_0.limit is None
                    && !r->Ok_0.truncated,
            },
        },
{
    match board_summaries(readable) {
        Err(refusal) => Err(refusal),
        Ok(rows) => Ok(Listing::complete(rows)),
    }
}

// ------------------------------------------------------------------- one board, lanes

/// One board's rows and the rules that frame it.
#[derive(Debug)]
pub struct BoardDetail {
    pub board: String,
    pub roots: Vec<String>,
    pub tasks: Listing<Task>,
    pub rules: Vec<RuleSummary>,
}

/// One board's rows and its rules. Whatever keeps the board from being found is a
/// denial.
pub fn board(
    project: Fetched<ProjectRecord>,
    tasks: Fetched<Vec<Task>>,
    rules: Fetched<Vec<RuleSummary>>,
) -> (r: Projected<BoardDetail>)
    ensures
        match (project, tasks, rules) {
            (Err(_), _, _) => r is Err && r->Err_0 is DeniedOrNotFound,
            (_, Err(causes), _) => r is Err && r->Err_0 == refusal_for(causes),
            (_, _, Err(causes)) => r is Err && r->Err_0 == refusal_for(causes),
            (Ok(p), Ok(rows), Ok(own)) => r is Ok && r->Ok_0.board == p.name && r->Ok_0.roots
                == p.workspace_roots && r->Ok_0.tasks.items == rows && r->Ok_0.tasks.returned
                == rows@.len() && r->Ok_0.tasks.limit is None && !r->Ok_0.tasks.truncated
                && r->Ok_0.rules == own,
        },
{
    match project {
        Err(_) => Err(Refusal::DeniedOrNotFound),
        Ok(p) => match tasks {
            Err(causes) => Err(Refusal::from_causes(causes)),
            Ok(rows) => match rules {
                Err(causes) => Err(Refusal::from_causes(causes)),
                Ok(own) => Ok(
                    BoardDetail {
                        board: p.name,
                        roots: p.workspace_roots,
                        tasks: Listing::complete(rows),
                        rules: own,
                    },
                ),
            },
        },
    }
}

/// One lane of one board and what it last said about itself.
#[derive(Debug)]
pub struct LaneSummary {
    pub board: String,
    pub lane: String,
    pub updates: Vec<Sitrep>,
}

/// The groups of sitreps, the most recently active first, and whether one was cut.
#[derive(Debug)]
pub struct LaneGroups {
    pub groups: Vec<LaneSummary>,
    pub truncated: bool,
}

/// What each lane last said about itself.
pub fn lanes(groups: Fetched<LaneGroups>, limit: i64) -> (r: Projected<Listing<LaneSummary>>)
    ensures
        match groups {
            Err(causes) => r is Err && r->Err_0 == refusal_for(causes),
            Ok(found) => r is Ok && r->Ok_0.items == found.groups && r->Ok_0.returned
                == found.groups@.len() && r->Ok_0.limit == Some(limit) && r->Ok_0.truncated
                == found.truncated,
        },
{
    match groups {
        Err(causes) => Err(Refusal::from_causes(causes)),
        Ok(found) => Ok(Listing::merged(found.groups, limit, found.truncated)),
    }
}

// --------------------------------------------------------------------------- one task

/// One task, who holds it, and its trail. The holder is shown without the lease token.
#[derive(Debug)]
pub struct TaskDetail {
    pub board: String,
    pub task: Task,
    pub claim: Option<ClaimSummary>,
    pub open_attention: Vec<Attention>,
    pub notes: Listing<TaskNote>,
    pub checkpoints: Listing<Checkpoint>,
    pub events: Listing<Event>,
}

/// What was read of one task; notes, checkpoints and events at most one more than
/// their bound.
#[derive(Debug)]
pub struct TaskTrail {
    pub claim: Option<Claim>,
    pub open_attention: Vec<Attention>,
    pub notes: Vec<TaskNote>,
    pub checkpoints: Vec<Checkpoint>,
    pub events: Vec<Event>,
}

/// A listing holds the first rows of a read, and says whether there were more.
pub open spec fn is_capped<T>(listing: Listing<T>, rows: Seq<T>, limit: i64) -> bool {
    &&& listing.items@ == rows.take(within_limit(rows.len(), limit))
    &&& listing.returned == listing.items@.len()
    &&& listing.limit == Some(limit)
    &&& listing.truncated == (rows.len() > limit)
}

/// One task, its holder and its trail. A task that is not found and one that may not be
/// seen are the same denial.
pub fn task(
    project: Fetched<ProjectRecord>,
    found: Fetched<Task>,
    trail: Fetched<TaskTrail>,
    limit: i64,
) -> (r: Projected<TaskDetail>)
    ensures
        match (project, found, trail) {
            (Err(_), _, _) => r is Err && r->Err_0 is DeniedOrNotFound,
            (_, Err(_), _) => r is Err && r->Err_0 is DeniedOrNotFound,
            (_, _, Err(causes)) => r is Err && r->Err_0 == refusal_for(causes),
            (Ok(p), Ok(row), Ok(read)) => r is Ok && r->Ok_0.board == p.name && r->Ok_0.task
                == row && r->Ok_0.claim == match read.claim {
                Some(claim) => Some(records::summary_of(claim)),
                None => None,
            } && r->Ok_0.open_attention == read.open_attention && is_capped(
                r->Ok_0.notes,
                read.notes@,
                limit,
            ) && is_capped(r->Ok_0.checkpoints, read.checkpoints@, limit) && is_capped(
                r->Ok_0.events,
                read.events@,
                limit,
            ),
        },
{
    match project {
        Err(_) => Err(Refusal::DeniedOrNotFound),
        Ok(p) => match found {
            Err(_) => Err(Refusal::DeniedOrNotFound),
            Ok(row) => match trail {
                Err(causes) => Err(Refusal::from_causes(causes)),
                Ok(read) => {
                    let claim = match &read.claim {
                        Some(claim) => Some(ClaimSummary::from(claim)),
                        None => None,
                    };
                    Ok(
                        TaskDetail {
                            board: p.name,
                            task: row,
                            claim,
                            open_attention: read.open_attention,
                            notes: Listing::capped(read.notes, limit),
                            checkpoints: Listing::capped(read.checkpoints, limit),
                            events: Listing::capped(read.events, limit),
                        },
                    )
                },
            },
        },
    }
}

// ---------------------------------------------------------------------------- sprints

/// One sprint: what its pages read of it.
#[derive(Debug)]
pub struct Sprint {
    pub id: String,
    pub status: String,
    pub body: Option<String>,
    pub closed_by_deployment: Option<String>,
}

/// How many tasks of a sprint are open, and how many are done.
#[derive(Debug, Clone, Copy, PartialEq, Eq, Structural)]
pub struct TaskCounts {
    pub open_tasks: i64,
    pub done_tasks: i64,
}

/// A sprint with its counts and the typeset form of its body, where it has one.
#[derive(Debug)]
pub struct SprintRow {
    pub sprint: Sprint,
    pub counts: Fetched<TaskCounts>,
    pub html: String,
}

/// One sprint with the counts that its card shows and its typeset goal.
#[derive(Debug)]
pub struct SprintCard {
    pub sprint: Sprint,
    pub open_tasks: i64,
    pub done_tasks: i64,
    pub goal_html: Option<String>,
}

/// A board's current sprint and all the others.
#[derive(Debug)]
pub struct BoardSprints {
    pub board: String,
    pub current: Option<SprintCard>,
    pub history: Vec<SprintCard>,
}

/// Text is typeset only where there is any.
pub open spec fn typeset(body: Option<String>, html: String) -> Option<String> {
    match body {
        Some(_) => Some(html),
        None => None,
    }
}

pub open spec fn sprint_card_of(row: SprintRow) -> Result<SprintCard, Vec<String>> {
    match row.counts {
        Err(causes) => Err(causes),
        Ok(counts) => Ok(
            SprintCard {
                sprint: row.sprint,
                open_tasks: counts.open_tasks,
                done_tasks: counts.done_tasks,
                goal_html: typeset(row.sprint.body, row.html),
            },
        ),
    }
}

fn sprint_card(row: SprintRow) -> (r: Fetched<SprintCard>)
    ensures
        r == sprint_card_of(row),
{
    match row.counts {
        Err(causes) => Err(causes),
        Ok(counts) => {
            let goal_html = if row.sprint.body.is_some() {
                Some(row.html)
            } else {
                None
            };
            Ok(
                SprintCard {
                    sprint: row.sprint,
                    open_tasks: counts.open_tasks,
                    done_tasks: counts.done_tasks,
                    goal_html,
                },
            )
        },
    }
}

/// The cards of all sprints but the current one, or the first failure.
pub open spec fn history_of(rows: Seq<SprintRow>) -> Result<Seq<SprintCard>, Vec<String>>
    decreases rows.len(),
{
    if rows.len() == 0 {
        Ok(seq![])
    } else {
        match history_of(rows.drop_last()) {
            Err(causes) => Err(causes),
            Ok(cards) => if rows.last().sprint.status@ == "current"@ {
                Ok(cards)
            } else {
                match sprint_card_of(rows.last()) {
                    Err(causes) => Err(causes),
                    Ok(card) => Ok(cards.push(card)),
                }
            },
        }
    }
}

proof fn lemma_history_stays(rows: Seq<SprintRow>, i: int)
    requires
        0 <= i <= rows.len(),
        history_of(rows.take(i)) is Err,
    ensures
        history_of(rows) == history_of(rows.take(i)),
    decreases rows.len() - i,
{
    if i < rows.len() {
        assert(rows.take(i + 1).drop_last() =~= rows.take(i));
        lemma_history_stays(rows, i + 1);
    } else {
        assert(rows.take(i) =~= rows);
    }
}

fn sprint_history(rows: Vec<SprintRow>) -> (r: Fetched<Vec<SprintCard>>)
    ensures
        match history_of(rows@) {
            Err(causes) => r == Err::<Vec<SprintCard>, Vec<String>>(causes),
            Ok(cards) => r is Ok && r->Ok_0@ == cards,
        },
{
    let ghost all = rows@;
    let mut cards: Vec<SprintCard> = Vec::new();
    proof {
        assert(all.take(0) =~= Seq::<SprintRow>::empty());
    }
    for row in it: rows
        invariant
            it.seq() == all,
            all == rows@,
            history_of(all.take(it.index() as int)) == Ok::<_, Vec<String>>(cards@),
    {
        let ghost n = it.index() as int;
        proof {
            assert(all.take(n + 1).drop_last() =~= all.take(n));
        }
        if !text::same(row.sprint.status.as_str(), "current") {
            match sprint_card(row) {
                Err(causes) => {
                    proof {
                        lemma_history_stays(all, n + 1);
                    }
                    return Err(causes);
                },
                Ok(card) => {
                    cards.push(card);
                },
            }
        }
    }
    proof {
        assert(all.take(all.len() as int) =~= all);
    }
    Ok(cards)
}

/// What was read of one board's sprints.
#[derive(Debug)]
pub struct SprintFacts {
    pub board: String,
    pub current: Fetched<Option<SprintRow>>,
    pub sprints: Fetched<Vec<SprintRow>>,
}

/// A board's sprints are these.
pub open spec fn is_sprint_state(b: BoardSprints, facts: SprintFacts) -> bool {
    &&& b.board == facts.board
    &&& facts.current is Ok && match facts.current->Ok_0 {
        None => b.current is None,
        Some(row) => sprint_card_of(row) is Ok && b.current == Some(sprint_card_of(row)->Ok_0),
    }
    &&& facts.sprints is Ok && history_of(facts.sprints->Ok_0@) == Ok::<_, Vec<String>>(
        b.history@,
    )
}

/// What reading a board's sprints failed with first.
pub open spec fn sprint_failure(facts: SprintFacts) -> Option<Vec<String>> {
    match facts.current {
        Err(causes) => Some(causes),
        Ok(current) => match current {
            Some(row) if sprint_card_of(row) is Err => Some(sprint_card_of(row)->Err_0),
            _ => match facts.sprints {
                Err(causes) => Some(causes),
                Ok(rows) => match history_of(rows@) {
                    Err(causes) => Some(causes),
                    Ok(_) => None,
                },
            },
        },
    }
}

/// One board's current sprint, and its history: every sprint that is not the current
/// one.
pub fn board_sprint_state(facts: SprintFacts) -> (r: Fetched<BoardSprints>)
    ensures
        match sprint_failure(facts) {
            Some(causes) => r == Err::<BoardSprints, Vec<String>>(causes),
            None => r is Ok && is_sprint_state(r->Ok_0, facts),
        },
{
    let current = match facts.current {
        Err(causes) => {
            return Err(causes);
        },
        Ok(None) => None,
        Ok(Some(row)) => match sprint_card(row) {
            Err(causes) => {
                return Err(causes);
            },
            Ok(card) => Some(card),
        },
    };
    match facts.sprints {
        Err(causes) => Err(causes),
        Ok(rows) => match sprint_history(rows) {
            Err(causes) => Err(causes),
            Ok(history) => Ok(BoardSprints { board: facts.board, current, history }),
        },
    }
}

/// What reading the sprints of some boards failed with first.
pub open spec fn sprints_failure(boards: Seq<SprintFacts>) -> Option<Vec<String>>
    decreases boards.len(),
{
    if boards.len() == 0 {
        None
    } else {
        match sprints_failure(boards.drop_last()) {
            Some(causes) => Some(causes),
            None => sprint_failure(boards.last()),
        }
    }
}

proof fn lemma_sprints_failure_stays(boards: Seq<SprintFacts>, i: int)
    requires
        0 <= i <= boards.len(),
        sprints_failure(boards.take(i)) is Some,
    ensures
        sprints_failure(boards) == sprints_failure(boards.take(i)),
    decreases boards.len() - i,
{
    if i < boards.len() {
        assert(boards.take(i + 1).drop_last() =~= boards.take(i));
        lemma_sprints_failure_stays(boards, i + 1);
    } else {
        assert(boards.take(i) =~= boards);
    }
}

/// The sprints of every readable board.
pub fn sprints(boards: Fetched<Vec<SprintFacts>>) -> (r: Projected<Listing<BoardSprints>>)
    ensures
        match boards {
            Err(causes) => r is Err && r->Err_0 == refusal_for(causes),
            Ok(all) => match sprints_failure(all@) {
                Some(causes) => r is Err && r->Err_0 == refusal_for(causes),
                None => r is Ok && r->Ok_0.items@.len() == all@.len() && (forall|i: int|
                    0 <= i < all@.len() ==> is_sprint_state(
                        #[trigger] r->Ok_0.items@[i],
                        all@[i],
                    )) && r->Ok_0.returned == all@.len() && r->Ok_0.limit is None
                    && !r->Ok_0.truncated,
            },
        },
{
    let list = match boards {
        Err(causes) => {
            return Err(Refusal::from_causes(causes));
        },
        Ok(list) => list,
    };
    let ghost all = list@;
    let mut out: Vec<BoardSprints> = Vec::new();
    proof {
        assert(all.take(0) =~= Seq::<SprintFacts>::empty());
    }
    for facts in it: list
        invariant
            it.seq() == all,
            all == list@,
            boards == Ok::<Vec<SprintFacts>, Vec<String>>(list),
            sprints_failure(all.take(it.index() as int)) is None,
            out@.len() == it.index(),
            forall|i: int| 0 <= i < out@.len() ==> is_sprint_state(#[trigger] out@[i], all[i]),
    {
        let ghost n = it.index() as int;
        proof {
            assert(all.take(n + 1).drop_last() =~= all.take(n));
        }
        match board_sprint_state(facts) {
            Err(causes) => {
                proof {
                    lemma_sprints_failure_stays(all, n + 1);
                }
                return Err(Refusal::from_causes(causes));
            },
            Ok(state) => {
                out.push(state);
            },
        }
    }
    proof {
        assert(all.take(all.len() as int) =~= all);
    }
    Ok(Listing::complete(out))
}

/// The sprints of one named board; the facts carry the board's own name.
pub fn board_sprints(project: Fetched<SprintFacts>) -> (r: Projected<BoardSprints>)
    ensures
        match project {
            Err(_) => r is Err && r->Err_0 is DeniedOrNotFound,
            Ok(facts) => match sprint_failure(facts) {
                Some(causes) => r is Err && r->Err_0 == refusal_for(causes),
                None => r is Ok && is_sprint_state(r->Ok_0, facts),
            },
        },
{
    match project {
        Err(_) => Err(Refusal::DeniedOrNotFound),
        Ok(facts) => match board_sprint_state(facts) {
            Err(causes) => Err(Refusal::from_causes(causes)),
            Ok(state) => Ok(state),
        },
    }
}

/// One sprint's goal, counts and scope, and the deployment that closed it.
#[derive(Debug)]
pub struct SprintDetail {
    pub board: String,
    pub sprint: Sprint,
    pub open_tasks: i64,
    pub done_tasks: i64,
    pub goal_html: Option<String>,
    pub tasks: Vec<Task>,
    pub closing_deployment: Option<DeploymentAttempt>,
}

/// What was read of one sprint: its tasks, then its counts, then the deployment that it
/// names, which is read only where it names one.
#[derive(Debug)]
pub struct SprintScope {
    pub tasks: Fetched<Vec<Task>>,
    pub counts: Fetched<TaskCounts>,
    pub deployment: Fetched<DeploymentAttempt>,
    pub html: String,
}

/// What reading a sprint's scope failed with first.
pub open spec fn scope_failure(sprint: Sprint, scope: SprintScope) -> Option<Vec<String>> {
    match (scope.tasks, scope.counts, scope.deployment) {
        (Err(causes), _, _) => Some(causes),
        (_, Err(causes), _) => Some(causes),
        (_, _, Err(causes)) => if sprint.closed_by_deployment is Some {
            Some(causes)
        } else {
            None
        },
        _ => None,
    }
}

/// One sprint and what it holds. A sprint that is not found and one that may not be seen
/// are the same denial.
pub fn sprint(project: Fetched<ProjectRecord>, found: Fetched<Sprint>, scope: SprintScope) -> (r:
    Projected<SprintDetail>)
    ensures
        match (project, found) {
            (Err(_), _) => r is Err && r->Err_0 is DeniedOrNotFound,
            (_, Err(_)) => r is Err && r->Err_0 is DeniedOrNotFound,
            (Ok(p), Ok(row)) => match scope_failure(row, scope) {
                Some(causes) => r is Err && r->Err_0 == refusal_for(causes),
                None => r == Ok::<SprintDetail, Refusal>(
                    SprintDetail {
                        board: p.name,
                        sprint: row,
                        open_tasks: scope.counts->Ok_0.open_tasks,
                        done_tasks: scope.counts->Ok_0.done_tasks,
                        goal_html: typeset(row.body, scope.html),
                        tasks: scope.tasks->Ok_0,
                        closing_deployment: match row.closed_by_deployment {
                            Some(_) => Some(scope.deployment->Ok_0),
                            None => None,
                        },
                    },
                ),
            },
        },
{
    let p = match project {
        Err(_) => {
            return Err(Refusal::DeniedOrNotFound);
        },
        Ok(p) => p,
    };
    let row = match found {
        Err(_) => {
            return Err(Refusal::DeniedOrNotFound);
        },
        Ok(row) => row,
    };
    let tasks = match scope.tasks {
        Err(causes) => {
            return Err(Refusal::from_causes(causes));
        },
        Ok(tasks) => tasks,
    };
    let counts = match scope.counts {
        Err(causes) => {
            return Err(Refusal::from_causes(causes));
        },
        Ok(counts) => counts,
    };
    let closing_deployment = if row.closed_by_deployment.is_some() {
        match scope.deployment {
            Err(causes) => {
                return Err(Refusal::from_causes(causes));
            },
            Ok(deployment) => Some(deployment),
        }
    } else {
        None
    };
    let goal_html = if row.body.is_some() {
        Some(scope.html)
    } else {
        None
    };
    Ok(
        SprintDetail {
            board: p.name,
            sprint: row,
            open_tasks: counts.open_tasks,
            done_tasks: counts.done_tasks,
            goal_html,
            tasks,
            closing_deployment,
        },
    )
}

} // verus!
