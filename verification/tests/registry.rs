//! Projects and their roots: registering, attaching, retiring, resolving.

use kanban::clock::clock_verdict;
use kanban::clock::millis_of;
use kanban::clock::now_ms;
use kanban::clock::require_sane_clock;
use kanban::clock::saturated_millis;
use kanban::clock::timestamp;
use kanban::paths::adoption_marker_path;
use kanban::paths::adoption_path_within_root;
use kanban::paths::adoption_staging_root;
use kanban::paths::board_id_from_path;
use kanban::paths::board_id_text;
use kanban::paths::components_of;
use kanban::paths::database_artifact_path;
use kanban::paths::has_parent_traversal;
use kanban::paths::parent;
use kanban::paths::path_below;
use kanban::paths::target_looks_like_path;
use kanban::rules::Rule;
use kanban::tables::append_all;
use kanban::tables::append_registry_event;
use kanban::tables::push_unique_root;
use kanban::tables::BoardRow;
use kanban::tables::Entry;
use kanban::tables::EventRow;
use kanban::tables::Registry;
use kanban::tables::RootRow;
use kanban::text::Error;
use kanban::workspace::retired_board_message;
use kanban::workspace::BoardPathState;
use kanban::workspace_ops::hyphenate;
use kanban::workspace_ops::new_uuid;
use std::time::Duration;

fn test_registry() -> Registry {
    Registry::new("/data".to_owned(), None)
}

fn refusal<T>(outcome: Result<T, Error>) -> String {
    match outcome {
        Ok(_) => panic!("the request was accepted"),
        Err(error) => error.to_string(),
    }
}

fn accepted<T>(outcome: Result<T, Error>) -> T {
    match outcome {
        Ok(value) => value,
        Err(error) => panic!("refused: {}", error.to_string()),
    }
}

fn board_row(path: &str, name: &str, last_used_at: i64) -> BoardRow {
    BoardRow {
        board_path: path.to_owned(),
        name: name.to_owned(),
        created_at: 1,
        last_used_at,
        archived: false,
        archived_at: None,
        archived_by: None,
        archived_note: None,
        retirement_id: None,
    }
}

fn root_row(root: &str, board: &str) -> RootRow {
    RootRow {
        root_path: root.to_owned(),
        board_path: board.to_owned(),
        created_at: 1,
        last_used_at: 1,
    }
}

fn rule(id: &str, tags: &[&str]) -> Rule {
    Rule {
        id: id.to_owned(),
        body: "Headline.\n\nBody.".to_owned(),
        author: "codex".to_owned(),
        archived: false,
        created_at: 1,
        updated_at: 1,
        tags: tags.iter().map(|tag| (*tag).to_owned()).collect(),
        source_board: None,
        source_rule_id: None,
        source_registry_uuid: None,
        source_boards: None,
        source_content_sha256: None,
    }
}

fn kinds(registry: &Registry) -> Vec<String> {
    registry.events.iter().map(|e| e.kind.clone()).collect()
}

fn last_event(registry: &Registry) -> EventRow {
    registry.events.last().unwrap().clone()
}

#[test]
fn millis_saturate_instead_of_wrapping() {
    assert_eq!(millis_of(Duration::from_millis(1_234)), 1_234);
    assert_eq!(millis_of(Duration::ZERO), 0);
    // An absurd clock must not read as a small, or negative, instant.
    assert_eq!(millis_of(Duration::MAX), i64::MAX);
    assert!(millis_of(Duration::MAX) > 0);
}

#[test]
fn a_working_clock_is_accepted_and_produces_a_positive_now() {
    assert!(require_sane_clock().is_ok());
    assert!(now_ms() > 1_700_000_000_000, "now_ms went backwards");
}

#[test]
fn the_clock_is_judged_by_whether_it_can_be_read() {
    assert_eq!(saturated_millis(7), 7);
    assert_eq!(saturated_millis(i64::MAX as u128), i64::MAX);
    assert_eq!(saturated_millis(u128::MAX), i64::MAX);
    assert!(clock_verdict(true).is_ok());
    assert!(refusal(clock_verdict(false)).contains("clock"));
}

#[test]
fn registering_the_same_root_and_name_reuses_the_board_and_marks_it_existing() {
    let mut registry = test_registry();
    let root = "/work/workspace";

    let first = accepted(registry.register(Some(root), "Alpha", false, "codex"));
    let second = accepted(registry.register(Some(root), "Alpha", false, "codex"));

    assert_eq!(first.board_path, second.board_path);
    assert_eq!(first.name, second.name);
    assert_eq!(second.workspace_roots.len(), 1);
    assert_eq!(second.workspace_roots[0], root);

    let event_count = registry
        .events
        .iter()
        .filter(|event| event.kind == "workspace_registered")
        .count();
    assert_eq!(event_count, 2);

    let payload = last_event(&registry).payload;
    let payload: serde_json::Value = serde_json::from_str(&payload).expect("parse payload");
    assert_eq!(payload["existing"], true);
    assert_eq!(payload["name"], "Alpha");
    assert_eq!(payload["boardPath"], first.board_path);
}

#[test]
fn retiring_and_unretiring_a_project_preserves_identity_and_note() {
    let mut registry = test_registry();
    let root_text = "/work/workspace".to_owned();
    let extra_text = "/work/workspace-spare".to_owned();

    let created = accepted(registry.register(Some(&root_text), "Alpha", false, "codex"));
    assert_eq!(created.name, "Alpha");
    assert_eq!(created.workspace_roots, vec![root_text.clone()]);

    let attached = accepted(registry.attach(&extra_text, "Alpha", "Alpha", "geo"));
    assert_eq!(attached.root_path, extra_text);
    assert_eq!(attached.board_path, created.board_path);

    let active = registry.by_name("Alpha");
    assert_eq!(active.len(), 1);
    assert_eq!(active[0].workspace_roots.len(), 2);
    assert!(active[0].workspace_roots.contains(&root_text));
    assert!(active[0].workspace_roots.contains(&extra_text));

    let retired = accepted(registry.retire("Alpha", "geo", "retire for test"));
    assert_eq!(retired.name, "Alpha");
    assert!(retired.archived_at.is_some());
    assert_eq!(retired.archived_by.as_deref(), Some("geo"));
    assert_eq!(retired.archived_note.as_deref(), Some("retire for test"));
    assert_eq!(retired.workspace_roots.len(), 2);
    assert!(retired.workspace_roots.contains(&root_text));
    assert!(retired.workspace_roots.contains(&extra_text));
    assert!(registry.by_name("Alpha").is_empty());

    let archived = registry.by_name_all("Alpha");
    assert_eq!(archived.len(), 1);
    assert_eq!(
        archived[0].archived_note.as_deref(),
        Some("retire for test")
    );
    assert_eq!(archived[0].workspace_roots.len(), 2);
    assert!(archived[0].workspace_roots.contains(&root_text));
    assert!(archived[0].workspace_roots.contains(&extra_text));

    let restored = accepted(registry.unretire("Alpha", "geo"));
    assert_eq!(restored.name, "Alpha");
    assert!(restored.archived_at.is_none());
    assert!(restored.archived_by.is_none());
    assert!(restored.archived_note.is_none());
    assert_eq!(restored.workspace_roots.len(), 2);
    assert!(restored.workspace_roots.contains(&root_text));
    assert!(restored.workspace_roots.contains(&extra_text));
    assert_eq!(registry.by_name("Alpha").len(), 1);
    assert!(registry
        .by_name_all("Alpha")
        .iter()
        .any(|project| project.archived_at.is_none()));
}

#[test]
fn a_new_project_is_written_below_the_data_root() {
    let mut registry = test_registry();
    let made = accepted(registry.register_as(
        Some("/work/a"),
        "Alpha",
        false,
        " codex ",
        "0f0e",
        50,
    ));
    assert_eq!(made.board_path, "/data/boards/0f0e.db");
    assert_eq!(made.last_used_at, 50);
    assert!(!made.archived);
    let event = last_event(&registry);
    assert_eq!(event.seq, 1);
    assert_eq!(event.rule_id, "workspace:/data/boards/0f0e.db");
    assert_eq!(event.kind, "workspace_registered");
    assert_eq!(event.actor, "codex");
    let payload: serde_json::Value = serde_json::from_str(&event.payload).unwrap();
    assert_eq!(payload["boardPath"], made.board_path);
    assert_eq!(payload["rootPath"], "/work/a");
}

#[test]
fn registering_refuses_what_would_be_ambiguous() {
    let mut registry = test_registry();
    assert_eq!(
        refusal(registry.register(Some("/work/a"), "Alpha", false, "  ")),
        "author is required"
    );
    accepted(registry.register_as(Some("/work/a"), "Alpha", false, "codex", "f1", 1));
    assert_eq!(
        refusal(registry.register_as(Some("/work/a"), "Beta", false, "codex", "f2", 2)),
        "/work/a is already registered to board Alpha; `init` does not rename boards"
    );
    assert_eq!(
        refusal(registry.register_as(Some("/work/a/inner"), "Beta", false, "codex", "f2", 2)),
        "/work/a/inner is already inside Kanban project Alpha.\n\
         To share that board:        kanban workspace attach --to Alpha\n\
         To create a separate board: kanban init --name Beta --force"
    );
    assert_eq!(
        refusal(registry.register_as(None, "Alpha", false, "codex", "f2", 2)),
        "a Kanban board is already named Alpha"
    );
    assert_eq!(
        refusal(registry.register_as(None, "Beta", false, "codex", "f1", 2)),
        "UNIQUE constraint failed: boards.board_path"
    );
    assert_eq!(registry.boards.len(), 1, "a refusal made a board");
    assert_eq!(kinds(&registry), vec!["workspace_registered"]);

    let forced = accepted(registry.register_as(
        Some("/work/a/inner"),
        "Beta",
        true,
        "codex",
        "f2",
        3,
    ));
    assert_eq!(forced.workspace_roots, vec!["/work/a/inner"]);
}

#[test]
fn resolving_climbs_to_the_nearest_root_and_marks_it_used() {
    let mut registry = test_registry();
    accepted(registry.register_as(Some("/work/a"), "Alpha", false, "codex", "f1", 1));
    accepted(registry.register_as(Some("/work/a/inner"), "Beta", true, "codex", "f2", 2));

    let found = accepted(registry.resolve_at("/work/a/inner/deep/down", 9)).unwrap();
    assert_eq!(found.name, "Beta");
    assert_eq!(found.root_path, "/work/a/inner");
    assert_eq!(registry.boards[1].last_used_at, 9);
    assert_eq!(registry.boards[0].last_used_at, 1);

    let read = accepted(registry.resolve_readonly("/work/a/other")).unwrap();
    assert_eq!(read.name, "Alpha");
    assert_eq!(registry.boards[0].last_used_at, 1, "a read marked its board");
    assert!(accepted(registry.resolve_at("/elsewhere", 9)).is_none());
    assert!(registry.exact("/work/a/other").is_none());
    assert_eq!(registry.exact("/work/a").unwrap().name, "Alpha");
    assert_eq!(
        accepted(registry.enclosing("/work/a/inner")).unwrap().name,
        "Alpha"
    );

    registry.touch_board_at("/data/boards/f1.db", 12);
    assert_eq!(registry.boards[0].last_used_at, 12);
}

#[test]
fn a_retired_root_cannot_be_addressed() {
    let mut registry = test_registry();
    accepted(registry.register_as(Some("/work/a"), "Alpha", false, "codex", "f1", 1));
    accepted(registry.retire_as("Alpha", "codex", " done ", "ret-1", 5));
    assert_eq!(
        refusal(registry.resolve_at("/work/a/inner", 9)),
        "/work/a belongs to Kanban project Alpha is retired (retirement note: done); \
         use `kanban workspace unretire Alpha --as ACTOR` before addressing it"
    );
    assert_eq!(
        refusal(registry.retire_as("Alpha", "codex", "again", "ret-2", 6)),
        retired_board_message("Alpha", Some("done"), "retiring it")
    );
    assert_eq!(
        retired_board_message("Alpha", None, "retiring it"),
        "Kanban project Alpha is retired; use `kanban workspace unretire Alpha --as ACTOR` \
         before retiring it"
    );
    let back = accepted(registry.unretire_at("Alpha", "codex", 7));
    assert_eq!(back.workspace_roots, vec!["/work/a"]);
    assert!(accepted(registry.resolve_at("/work/a", 9)).is_some());
}

#[test]
fn retiring_asks_for_a_note_and_a_known_name() {
    let mut registry = test_registry();
    accepted(registry.register_as(Some("/work/a"), "Alpha", false, "codex", "f1", 1));
    assert_eq!(
        refusal(registry.retire_as("Alpha", "codex", " ", "ret-1", 5)),
        "note is required"
    );
    assert_eq!(
        refusal(registry.retire_as("Alpha", " ", "note", "ret-1", 5)),
        "author is required"
    );
    assert_eq!(
        refusal(registry.retire_as("Gamma", "codex", "note", "ret-1", 5)),
        "no Kanban project named Gamma"
    );
    assert_eq!(
        refusal(registry.unretire_at("Alpha", "codex", 5)),
        "Kanban project Alpha is already active"
    );
    assert_eq!(
        refusal(registry.unretire_at("Gamma", "codex", 5)),
        "no retired Kanban project named Gamma"
    );
}

#[test]
fn a_named_selector_keeps_its_board_from_retiring() {
    let mut registry = test_registry();
    accepted(registry.register_as(Some("/work/a"), "Alpha", false, "codex", "f1", 1));
    registry.rules.push(rule("r-1", &["ONLY:Alpha"]));
    assert_eq!(
        refusal(registry.retire_as("Alpha", "codex", "note", "ret-1", 5)),
        "cannot retire Kanban project Alpha: active named rule selectors would become invalid \
         (ONLY:Alpha on r-1 -> 0 active boards); blocking rule IDs: r-1; \
         update or retire those rules before retiring the workspace"
    );
    assert!(!registry.boards[0].archived);
}

#[test]
fn attaching_goes_by_name_or_by_path() {
    let mut registry = test_registry();
    accepted(registry.register_as(Some("/work/a"), "Alpha", false, "codex", "f1", 1));
    accepted(registry.register_as(Some("/work/b"), "Beta", false, "codex", "f2", 1));
    let by_path = accepted(registry.attach_at("/work/c", "./a", "/work/a", "codex", 5));
    assert_eq!(by_path.name, "Alpha");
    assert_eq!(by_path.board_id, "f1");
    assert_eq!(last_event(&registry).kind, "workspace_attached");
    let events = registry.events.len();
    let again = accepted(registry.attach_at("/work/c", "Alpha", "Alpha", "codex", 6));
    assert_eq!(again.root_path, "/work/c");
    assert_eq!(registry.events.len(), events, "attaching twice wrote an event");
    assert_eq!(
        refusal(registry.attach_at("/work/c", "Beta", "Beta", "codex", 6)),
        "/work/c is already attached to another Kanban project"
    );
    assert_eq!(
        refusal(registry.attach_at("/work/d", "Gamma", "Gamma", "codex", 6)),
        "no Kanban project named Gamma"
    );
    assert_eq!(
        refusal(registry.attach_at("/work/d", "./gone", "/gone", "codex", 6)),
        "no Kanban project contains ./gone"
    );
    accepted(registry.retire_as("Beta", "codex", "note", "ret-1", 7));
    assert_eq!(
        refusal(registry.attach_at("/work/d", "Beta", "Beta", "codex", 8)),
        "Kanban project Beta is retired; use `kanban workspace unretire Beta --as ACTOR` \
         before attaching to it"
    );
}

#[test]
fn detaching_keeps_the_root_in_the_history() {
    let mut registry = test_registry();
    accepted(registry.register_as(Some("/work/a"), "Alpha", false, "codex", "f1", 1));
    accepted(registry.attach_at("/work/b", "Alpha", "Alpha", "codex", 2));
    let gone = accepted(registry.detach_at("/work/b", "codex", 3));
    assert_eq!(gone.root_path, "/work/b");
    assert_eq!(registry.roots.len(), 1);
    assert_eq!(registry.history.len(), 1);
    assert_eq!(last_event(&registry).kind, "workspace_detached");
    assert_eq!(
        refusal(registry.detach_at("/work/b", "codex", 4)),
        "workspace alias /work/b is already detached"
    );
    assert_eq!(
        refusal(registry.detach_at("/work/z", "codex", 4)),
        "workspace alias /work/z is not registered"
    );
    assert_eq!(
        refusal(registry.detach_at("/work/a", " ", 4)),
        "actor is required"
    );
}

#[test]
fn an_unreachable_root_is_repointed_to_where_it_resolves() {
    let mut registry = test_registry();
    accepted(registry.register_as(Some("/old/a"), "Alpha", false, "codex", "f1", 1));
    accepted(registry.register_as(Some("/work/b"), "Beta", false, "codex", "f2", 1));
    assert_eq!(
        refusal(registry.repoint_at("/old/a", None, "codex", 5)),
        "/old/a does not exist, so there is nowhere to repoint it. Register the project where \
         it lives now with `kanban init`, or drop this root."
    );
    assert_eq!(
        refusal(registry.repoint_at("/old/a", Some("/work/b"), "codex", 5)),
        "/work/b is already registered, so /old/a has nothing to repoint to — the two would be \
         one row"
    );
    let moved = accepted(registry.repoint_at("/old/a", Some("/new/a"), "codex", 5));
    assert_eq!(moved.resolves_to.as_deref(), Some("/new/a"));
    assert_eq!(registry.exact("/new/a").unwrap().name, "Alpha");
    assert!(registry.exact("/old/a").is_none());
    assert_eq!(last_event(&registry).kind, "workspace_repointed");
    assert_eq!(
        refusal(registry.repoint_at("/old/a", Some("/new/a"), "codex", 6)),
        "/old/a is not a registered root that needs repointing"
    );
    assert_eq!(
        refusal(registry.repoint_at("/new/a", Some("/x"), " ", 6)),
        "author is required"
    );
}

#[test]
fn roots_that_resolve_elsewhere_are_listed() {
    let mut registry = test_registry();
    accepted(registry.register_as(Some("/old/a"), "Alpha", false, "codex", "f1", 1));
    accepted(registry.register_as(Some("/work/b"), "Beta", false, "codex", "f2", 2));
    let records = registry.list(false);
    let leads: Vec<Option<String>> = records
        .iter()
        .map(|record| {
            if record.root_path == "/old/a" {
                Some("/new/a".to_owned())
            } else {
                Some(record.root_path.clone())
            }
        })
        .collect();
    let listed = registry.unreachable_roots(&leads).unwrap();
    assert_eq!(listed.len(), 1);
    assert_eq!(listed[0].name, "Alpha");
    assert_eq!(listed[0].resolves_to.as_deref(), Some("/new/a"));
    assert!(registry.unreachable_roots(&[]).is_none());
}

#[test]
fn projects_are_listed_by_last_use() {
    let mut registry = test_registry();
    registry.boards.push(board_row("/data/boards/a.db", "Alpha", 5));
    registry.boards.push(board_row("/data/boards/b.db", "Beta", 9));
    let mut gone = board_row("/data/boards/c.db", "Gamma", 7);
    gone.archived = true;
    gone.archived_at = Some(8);
    registry.boards.push(gone);
    let names: Vec<String> = registry.projects().into_iter().map(|p| p.name).collect();
    let active: Vec<String> = registry
        .projects_active()
        .into_iter()
        .map(|p| p.name)
        .collect();
    assert_eq!(active, vec!["Beta", "Alpha"]);
    assert_eq!(names, vec!["Beta", "Gamma", "Alpha"]);
    assert!(registry.by_name_active("Gamma").is_empty());
    assert_eq!(registry.projects_by_name("Gamma", true).len(), 1);
    assert_eq!(
        refusal(registry.project_for_board_path("/data/boards/c.db")),
        "Query returned no rows"
    );
    assert_eq!(
        accepted(registry.project_for_board_path_all("/data/boards/c.db")).name,
        "Gamma"
    );
}

#[test]
fn a_board_path_is_active_retired_or_foreign() {
    let mut registry = test_registry();
    registry.boards.push(board_row("/data/boards/a.db", "Alpha", 5));
    let mut gone = board_row("/data/boards/c.db", "Gamma", 7);
    gone.archived = true;
    gone.archived_note = Some("done".to_owned());
    registry.boards.push(gone);
    let targets = vec!["/real/a.db".to_owned(), "/real/c.db".to_owned()];
    match registry.board_path_state("/real/a.db", &targets) {
        BoardPathState::Active(name) => assert_eq!(name, "Alpha"),
        _ => panic!("an active board was not recognised"),
    }
    match registry.board_path_state("/real/c.db", &targets) {
        BoardPathState::Retired { name, note } => {
            assert_eq!(name, "Gamma");
            assert_eq!(note.as_deref(), Some("done"));
        }
        _ => panic!("a retired board was not recognised"),
    }
    assert!(matches!(
        registry.board_path_state("/real/z.db", &targets),
        BoardPathState::External
    ));
}

#[test]
fn events_are_numbered_from_one() {
    let mut events: Vec<EventRow> = Vec::new();
    append_registry_event(&mut events, "r-1", "rule_created", "codex", "{}", 10);
    append_all(
        &mut events,
        &[
            Entry {
                subject: "r-2".to_owned(),
                kind: "rule_created".to_owned(),
                actor: "codex".to_owned(),
                payload: "{}".to_owned(),
                at: 11,
            },
            Entry {
                subject: "r-2".to_owned(),
                kind: "rule_retired".to_owned(),
                actor: "geo".to_owned(),
                payload: "{}".to_owned(),
                at: 12,
            },
        ],
    );
    let seqs: Vec<i64> = events.iter().map(|e| e.seq).collect();
    assert_eq!(seqs, vec![1, 2, 3]);
    assert_eq!(events[2].actor, "geo");
    assert_eq!(events[2].created_at, 12);
}

#[test]
fn a_root_is_listed_once() {
    let mut roots = vec!["/a".to_owned()];
    push_unique_root(&mut roots, "/b".to_owned());
    push_unique_root(&mut roots, "/a".to_owned());
    push_unique_root(&mut roots, "".to_owned());
    assert_eq!(&roots[0..2], &["/a", "/b"]);
}

#[test]
fn the_roots_of_a_board_are_listed_with_it() {
    let mut registry = test_registry();
    registry.boards.push(board_row("/data/boards/a.db", "Alpha", 5));
    registry.roots.push(root_row("/work/z", "/data/boards/a.db"));
    registry.roots.push(root_row("/work/a", "/data/boards/a.db"));
    registry.roots.push(root_row("/work/b", "/data/boards/b.db"));
    let project = accepted(registry.project_for_board_path("/data/boards/a.db"));
    assert_eq!(project.workspace_roots.len(), 2);
    assert!(!project.workspace_roots.contains(&"/work/b".to_owned()));
}

#[test]
fn paths_are_read_as_text() {
    assert_eq!(board_id_from_path("/data/boards/0f0e.db").as_deref(), Some("0f0e"));
    assert_eq!(board_id_text("/data/boards/0f0e.db"), "0f0e");
    assert_eq!(board_id_text(""), "");
    assert_eq!(parent("/work/a").as_deref(), Some("/work"));
    assert_eq!(parent("/work").as_deref(), Some("/"));
    assert_eq!(parent("/"), None);
    assert_eq!(path_below("/data", "boards"), "/data/boards");
    assert!(target_looks_like_path("./x"));
    assert!(target_looks_like_path("/x"));
    assert!(!target_looks_like_path("Alpha"));
    assert_eq!(components_of("/a//b/./c"), components_of("/a/b/c"));
    assert!(has_parent_traversal("/a/../b"));
    assert!(!has_parent_traversal("/a/..b"));
    assert!(adoption_path_within_root("/data", "/data/boards/a.db"));
    assert!(!adoption_path_within_root("/data", "/database/a.db"));
    assert!(!adoption_path_within_root("/data/boards", "/data"));
    assert_eq!(database_artifact_path("/data/a.db", "-wal"), "/data/a.db-wal");
    assert_eq!(adoption_marker_path("/data"), "/data/.workspace-adopt.json");
    assert!(adoption_staging_root("/data").starts_with("/data/"));
}

#[test]
fn a_drawn_identifier_has_the_form_of_one() {
    assert_eq!(
        hyphenate("0123456789abcdef0123456789abcdef"),
        "01234567-89ab-cdef-0123-456789abcdef"
    );
    let one = new_uuid();
    assert_eq!(one.len(), 36);
    assert!(uuid::Uuid::parse_str(&one).is_ok());
    assert_ne!(one, new_uuid());
}

/// Whatever is done to a project, its name belongs to one active board.
#[test]
fn no_two_active_boards_share_a_rootless_name() {
    let mut registry = test_registry();
    accepted(registry.register_as(None, "Alpha", false, "codex", "f1", 1));
    assert!(registry
        .register_as(None, "Alpha", true, "codex", "f2", 2)
        .is_err());
    accepted(registry.retire_as("Alpha", "codex", "note", "ret-1", 3));
    accepted(registry.register_as(None, "Alpha", false, "codex", "f2", 4));
    assert!(registry.unretire_at("Alpha", "codex", 5).is_err());
    let active = registry.by_name("Alpha");
    assert_eq!(active.len(), 1);
    assert_eq!(active[0].board_path, "/data/boards/f2.db");
}

#[test]
fn the_clock_dates_what_a_request_changes() {
    let mut registry = test_registry();
    accepted(registry.register(Some("/work/a"), "Alpha", false, "codex"));
    accepted(registry.attach("/work/b", "Alpha", "Alpha", "codex"));
    let gone = accepted(registry.detach("/work/b", "codex"));
    assert_eq!(gone.root_path, "/work/b");
    assert!(last_event(&registry).created_at > 0);
    let path = registry.boards[0].board_path.clone();
    registry.boards[0].last_used_at = 0;
    registry.touch_board(&path);
    assert!(registry.boards[0].last_used_at > 0);
}

#[test]
fn a_clock_before_the_epoch_reads_zero() {
    assert_eq!(timestamp(None), 0);
    assert_eq!(timestamp(Some(Duration::from_micros(1_999))), 1);
    assert_eq!(timestamp(Some(Duration::MAX)), i64::MAX);
}
