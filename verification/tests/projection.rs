//! What the boards show, over what was read of them.

use kanban::attention::AttentionChoice;
use kanban::decisions::Attention;
use kanban::plans::plans;
use kanban::plans::PlanFacts;
use kanban::plans::PlanRow;
use kanban::projection::board;
use kanban::projection::board_sprints;
use kanban::projection::boards;
use kanban::projection::lanes;
use kanban::projection::needs_you;
use kanban::projection::sprint;
use kanban::projection::sprints;
use kanban::projection::task;
use kanban::projection::BoardFacts;
use kanban::projection::BoardQueue;
use kanban::projection::Fetched;
use kanban::projection::LaneGroups;
use kanban::projection::LaneSummary;
use kanban::projection::Listing;
use kanban::projection::OpenItem;
use kanban::projection::Projected;
use kanban::projection::Refusal;
use kanban::projection::Sprint;
use kanban::projection::SprintFacts;
use kanban::projection::SprintRow;
use kanban::projection::SprintScope;
use kanban::projection::TaskCounts;
use kanban::projection::TaskTrail;
use kanban::projection::Urgency;
use kanban::projection::DENIED_OR_NOT_FOUND;
use kanban::records::Claim;
use kanban::records::Task;
use kanban::records::TaskNote;
use kanban::rules::RuleSummary;
use kanban::workspace::ProjectRecord;

fn shown<T>(outcome: Projected<T>) -> T {
    match outcome {
        Ok(value) => value,
        Err(refusal) => panic!("refused: {:?}", refusal.into_causes()),
    }
}

fn refused<T>(outcome: Projected<T>) -> Vec<String> {
    match outcome {
        Ok(_) => panic!("the projection was shown"),
        Err(refusal) => refusal.into_causes(),
    }
}

fn failure<T>() -> Fetched<T> {
    Err(vec!["read".to_owned(), "disk".to_owned()])
}

fn open_item(id: &str, priority: i64, created_at: i64) -> OpenItem {
    OpenItem {
        attention: Attention {
            id: id.to_owned(),
            task_id: None,
            kind: "question".to_owned(),
            body: "body".to_owned(),
            question: None,
            context: None,
            choices: Vec::<AttentionChoice>::new(),
            raised_by: "codex".to_owned(),
            created_at,
            status: "open".to_owned(),
            priority,
            priority_level: None,
            resolved_at: None,
            resolved_by: None,
            resolution: None,
            decision: None,
            reopened_at: None,
            reopened_by: None,
            reopen_note: None,
            archived: false,
            tags: Vec::new(),
        },
        body_html: "<p>body</p>".to_owned(),
        task: None,
    }
}

fn one_task(id: &str, status: &str, priority: i64, created_at: i64) -> Task {
    Task {
        id: id.to_owned(),
        task_type: "task".to_owned(),
        parent_id: None,
        title: format!("Task {id}"),
        body: Some("Body.".to_owned()),
        assignee: None,
        lane: None,
        deliverable: None,
        stale_minutes: None,
        driver_only: false,
        status: status.to_owned(),
        priority,
        priority_level: None,
        created_at,
        updated_at: created_at,
        completed_at: None,
        archived: false,
        archived_at: None,
        metadata: "{}".to_owned(),
        tags: Vec::new(),
    }
}

fn project(name: &str) -> ProjectRecord {
    ProjectRecord {
        name: name.to_owned(),
        board_path: format!("/data/boards/{name}.db"),
        workspace_roots: vec!["/work/a".to_owned()],
        last_used_at: 1,
        archived: false,
        archived_at: None,
        archived_by: None,
        archived_note: None,
    }
}

fn facts(name: &str, tasks: Vec<Task>) -> BoardFacts {
    BoardFacts {
        board: name.to_owned(),
        tasks,
        open_attention: 2,
        pending_handoffs: 3,
        urgent_attention: Vec::new(),
        urgent_handoff: Vec::new(),
        stale: 1,
    }
}

#[test]
fn a_refusal_survives_its_causes() {
    let denied = Refusal::from_causes(vec!["outer".to_owned(), DENIED_OR_NOT_FOUND.to_owned()]);
    assert!(matches!(denied, Refusal::DeniedOrNotFound));
    assert_eq!(denied.into_causes(), vec![DENIED_OR_NOT_FOUND]);
    let failed = Refusal::from_causes(vec!["outer".to_owned(), "disk".to_owned()]);
    assert_eq!(failed.into_causes(), vec!["outer", "disk"]);
}

#[test]
fn a_listing_says_whether_it_was_cut() {
    let cut = Listing::capped(vec![1, 2, 3], 2);
    assert_eq!(cut.items, vec![1, 2]);
    assert_eq!(cut.returned, 2);
    assert_eq!(cut.limit, Some(2));
    assert!(cut.truncated);
    let whole = Listing::capped(vec![1, 2], 2);
    assert!(!whole.truncated);
    assert!(Listing::capped(vec![1], -1).items.is_empty());
    let merged = Listing::merged(vec![1, 2, 3], 2, true);
    assert_eq!(merged.returned, 3);
    assert!(merged.truncated);
    let complete = Listing::complete(vec![1]);
    assert_eq!(complete.limit, None);
    assert!(!complete.truncated);
}

#[test]
fn the_deck_is_in_order_over_all_boards() {
    let queues = vec![
        BoardQueue {
            board: "Beta".to_owned(),
            rows: Ok(vec![
                open_item("a-3", 1, 50),
                open_item("a-1", 2, 10),
                open_item("a-9", 4, 1),
            ]),
        },
        BoardQueue {
            board: "Alpha".to_owned(),
            rows: Ok(vec![open_item("a-1", 2, 10), open_item("a-2", 1, 40)]),
        },
    ];
    let deck = shown(needs_you(Ok(queues), 2));
    let order: Vec<(String, String)> = deck
        .items
        .iter()
        .map(|card| (card.attention.id.clone(), card.board.clone()))
        .collect();
    assert_eq!(
        order,
        vec![
            ("a-2".to_owned(), "Alpha".to_owned()),
            ("a-3".to_owned(), "Beta".to_owned()),
            ("a-1".to_owned(), "Alpha".to_owned()),
            ("a-1".to_owned(), "Beta".to_owned()),
        ]
    );
    assert!(deck.truncated, "a board over the bound was not said to be cut");
    assert_eq!(deck.limit, Some(2));
    assert_eq!(refused(needs_you(failure(), 2)), vec!["read", "disk"]);
    let broken = vec![BoardQueue {
        board: "Beta".to_owned(),
        rows: failure(),
    }];
    assert_eq!(refused(needs_you(Ok(broken), 2)), vec!["read", "disk"]);
}

#[test]
fn a_card_carries_the_task_it_speaks_of() {
    let mut item = open_item("a-1", 1, 1);
    item.attention.task_id = Some("t-1".to_owned());
    item.task = Some(one_task("t-1", "todo", 1, 1));
    let mut gone = open_item("a-2", 1, 2);
    gone.attention.task_id = Some("t-2".to_owned());
    let deck = shown(needs_you(
        Ok(vec![BoardQueue {
            board: "Alpha".to_owned(),
            rows: Ok(vec![item, gone]),
        }]),
        10,
    ));
    assert_eq!(deck.items[0].task.as_ref().unwrap().title, "Task t-1");
    assert_eq!(deck.items[0].body_html, "<p>body</p>");
    assert!(deck.items[1].task.is_none());
}

#[test]
fn the_board_index_is_ranked_by_what_waits() {
    let idle = facts("Idle", vec![one_task("t-1", "done", 0, 0)]);
    let busy = facts(
        "Busy",
        vec![
            one_task("t-1", "todo", 2, 9),
            one_task("t-2", "todo", 1, 7),
            one_task("t-3", "in_progress", 0, 0),
        ],
    );
    let mut asked = facts("Asked", Vec::new());
    asked.urgent_attention = vec![Urgency {
        priority: 1,
        created_at: 6,
    }];
    let index = shown(boards(Ok(vec![Ok(idle), Ok(busy), Ok(asked)])));
    let names: Vec<String> = index.items.iter().map(|row| row.board.clone()).collect();
    assert_eq!(names, vec!["Asked", "Busy", "Idle"]);
    let busy = &index.items[1];
    assert_eq!(
        (busy.todo, busy.in_progress, busy.tasks, busy.stale),
        (2, 1, 3, 1)
    );
    assert_eq!((busy.open_attention, busy.handoffs), (2, 3));
    assert_eq!(index.limit, None);
    assert_eq!(
        refused(boards(Ok(vec![failure()]))),
        vec!["read", "disk"]
    );
}

#[test]
fn an_unreadable_board_and_a_missing_one_look_alike() {
    let summary = RuleSummary {
        id: "r-1".to_owned(),
        headline: "Headline.".to_owned(),
        has_more: false,
        bytes: 9,
        tags: Vec::new(),
    };
    let detail = shown(board(
        Ok(project("Alpha")),
        Ok(vec![one_task("t-1", "todo", 1, 1)]),
        Ok(vec![summary]),
    ));
    assert_eq!(detail.board, "Alpha");
    assert_eq!(detail.roots, vec!["/work/a"]);
    assert_eq!(detail.tasks.items.len(), 1);
    assert_eq!(detail.rules.len(), 1);
    assert_eq!(
        refused(board(failure(), Ok(Vec::new()), Ok(Vec::new()))),
        vec![DENIED_OR_NOT_FOUND]
    );
    assert_eq!(
        refused(board(Ok(project("Alpha")), failure(), Ok(Vec::new()))),
        vec!["read", "disk"]
    );
}

#[test]
fn lanes_are_listed_with_their_bound() {
    let groups = LaneGroups {
        groups: vec![LaneSummary {
            board: "Alpha".to_owned(),
            lane: "web".to_owned(),
            updates: Vec::new(),
        }],
        truncated: true,
    };
    let listing = shown(lanes(Ok(groups), 30));
    assert_eq!(listing.items[0].lane, "web");
    assert_eq!(listing.limit, Some(30));
    assert!(listing.truncated);
    assert_eq!(refused(lanes(failure(), 30)), vec!["read", "disk"]);
}

#[test]
fn a_task_is_shown_without_its_lease_token() {
    let claim = Claim {
        task_id: "t-1".to_owned(),
        agent_id: "codex".to_owned(),
        session_id: None,
        lease_token: "lease".to_owned(),
        claimed_at: 1,
        heartbeat_at: 2,
        expires_at: 3,
        worktree: None,
        worktree_kind: None,
        branch: None,
        head_sha: None,
        root_head: None,
    };
    let note = |seq: i64| TaskNote {
        seq,
        task_id: "t-1".to_owned(),
        author: "codex".to_owned(),
        kind: "note".to_owned(),
        body: "x".to_owned(),
        created_at: seq,
    };
    let trail = || TaskTrail {
        claim: None,
        open_attention: Vec::new(),
        notes: vec![note(1), note(2), note(3)],
        checkpoints: Vec::new(),
        events: Vec::new(),
    };
    let mut held = trail();
    held.claim = Some(claim);
    let detail = shown(task(
        Ok(project("Alpha")),
        Ok(one_task("t-1", "todo", 1, 1)),
        Ok(held),
        2,
    ));
    assert_eq!(detail.claim.as_ref().unwrap().agent_id, "codex");
    assert_eq!(detail.claim.as_ref().unwrap().expires_at, 3);
    assert_eq!(detail.notes.items.len(), 2);
    assert!(detail.notes.truncated);
    assert!(!detail.events.truncated);
    assert_eq!(
        refused(task(
            Ok(project("Alpha")),
            failure(),
            Ok(trail()),
            2
        )),
        vec![DENIED_OR_NOT_FOUND]
    );
    assert_eq!(
        refused(task(
            Ok(project("Alpha")),
            Ok(one_task("t-1", "todo", 1, 1)),
            failure(),
            2
        )),
        vec!["read", "disk"]
    );
}

fn sprint_row(id: &str, status: &str, body: Option<&str>) -> SprintRow {
    SprintRow {
        sprint: Sprint {
            id: id.to_owned(),
            status: status.to_owned(),
            body: body.map(str::to_owned),
            closed_by_deployment: None,
        },
        counts: Ok(TaskCounts {
            open_tasks: 4,
            done_tasks: 5,
        }),
        html: "<p>goal</p>".to_owned(),
    }
}

#[test]
fn a_board_has_one_current_sprint_and_a_history() {
    let state = |board: &str| SprintFacts {
        board: board.to_owned(),
        current: Ok(Some(sprint_row("s-2", "current", Some("goal")))),
        sprints: Ok(vec![
            sprint_row("s-2", "current", Some("goal")),
            sprint_row("s-1", "closed", None),
        ]),
    };
    let shown_state = shown(board_sprints(Ok(state("Alpha"))));
    let current = shown_state.current.as_ref().unwrap();
    assert_eq!(current.sprint.id, "s-2");
    assert_eq!((current.open_tasks, current.done_tasks), (4, 5));
    assert_eq!(current.goal_html.as_deref(), Some("<p>goal</p>"));
    let history: Vec<String> = shown_state
        .history
        .iter()
        .map(|card| card.sprint.id.clone())
        .collect();
    assert_eq!(history, vec!["s-1"]);
    assert!(shown_state.history[0].goal_html.is_none());
    let all = shown(sprints(Ok(vec![state("Alpha"), state("Beta")])));
    assert_eq!(all.items.len(), 2);
    assert_eq!(all.items[1].board, "Beta");
    assert_eq!(
        refused(board_sprints(failure())),
        vec![DENIED_OR_NOT_FOUND]
    );
    assert_eq!(refused(sprints(failure())), vec!["read", "disk"]);
}

#[test]
fn a_sprint_is_shown_with_its_scope() {
    let scope = || SprintScope {
        tasks: Ok(vec![one_task("t-1", "todo", 1, 1)]),
        counts: Ok(TaskCounts {
            open_tasks: 1,
            done_tasks: 0,
        }),
        deployment: failure(),
        html: "<p>goal</p>".to_owned(),
    };
    let detail = shown(sprint(
        Ok(project("Alpha")),
        Ok(sprint_row("s-1", "current", Some("goal")).sprint),
        scope(),
    ));
    assert_eq!(detail.board, "Alpha");
    assert_eq!(detail.tasks.len(), 1);
    assert_eq!(detail.open_tasks, 1);
    assert!(
        detail.closing_deployment.is_none(),
        "an open sprint reads no deployment"
    );
    let mut closed = sprint_row("s-1", "closed", None).sprint;
    closed.closed_by_deployment = Some("d-1".to_owned());
    assert_eq!(
        refused(sprint(Ok(project("Alpha")), Ok(closed), scope())),
        vec!["read", "disk"]
    );
    assert_eq!(
        refused(sprint(Ok(project("Alpha")), failure(), scope())),
        vec![DENIED_OR_NOT_FOUND]
    );
}

#[test]
fn every_plan_has_one_card_with_its_children() {
    let row = |id: &str, kind: &str, parent: Option<&str>, open: usize| {
        let mut task = one_task(id, if id == "e-2" { "todo" } else { "draft" }, 1, 1);
        task.task_type = kind.to_owned();
        task.parent_id = parent.map(str::to_owned);
        PlanRow {
            task,
            html: "<p>Body.</p>".to_owned(),
            open_attention: Ok(open),
        }
    };
    let facts = |rows: Fetched<Vec<PlanRow>>| PlanFacts {
        board: "Alpha".to_owned(),
        rows,
    };
    let listing = shown(plans(Ok(vec![facts(Ok(vec![
        row("e-1", "epic", None, 3),
        row("t-1", "task", Some("e-1"), 1),
        row("t-2", "task", None, 0),
        row("t-3", "task", Some("e-1"), 2),
        row("e-2", "epic", None, 0),
    ]))])));
    assert_eq!(listing.items.len(), 1);
    let card = &listing.items[0];
    assert_eq!(card.task.id, "e-1");
    assert_eq!(card.open_attention, 3);
    assert_eq!(card.body_html.as_deref(), Some("<p>Body.</p>"));
    let children: Vec<(String, usize)> = card
        .children
        .iter()
        .map(|child| (child.task.id.clone(), child.open_attention))
        .collect();
    assert_eq!(
        children,
        vec![("t-1".to_owned(), 1), ("t-3".to_owned(), 2)]
    );
    assert_eq!(
        refused(plans(Ok(vec![facts(failure())]))),
        vec!["read", "disk"]
    );
}
