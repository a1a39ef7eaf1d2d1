//! Adopting a board file: what is checked, what is recorded, what is cleared away.

use kanban::adoption::adoption_marker_matches_root;
use kanban::adoption::check_adoption_request;
use kanban::adoption::check_capture;
use kanban::adoption::check_copied;
use kanban::adoption::canonical_data_root;
use kanban::adoption::check_data_root;
use kanban::adoption::check_opened;
use kanban::adoption::check_pinned_dir;
use kanban::adoption::check_registry_chain;
use kanban::adoption::check_resolved;
use kanban::adoption::check_source;
use kanban::adoption::check_source_path;
use kanban::adoption::check_unopened;
use kanban::adoption::combine_cleanup;
use kanban::adoption::data_root;
use kanban::adoption::database_artifacts;
use kanban::adoption::hash_file;
use kanban::adoption::metadata_identity;
use kanban::adoption::metadata_stable;
use kanban::adoption::open_to_others;
use kanban::adoption::read_only_busy_backoff;
use kanban::adoption::reconcile_pending_adoption;
use kanban::adoption::removal_outcome;
use kanban::adoption::require_foreign_key_clean;
use kanban::adoption::validate_board_snapshot;
use kanban::adoption::workspace_adopt_snapshot_uri;
use kanban::adoption::AdoptionMarker;
use kanban::adoption::AdoptionRun;
use kanban::adoption::FileFacts;
use kanban::adoption::LogCapture;
use kanban::adoption::PreparedAdoption;
use kanban::adoption::SnapshotFacts;
use kanban::paths::adoption_staging_root;
use kanban::rules::bytes_sha256;
use kanban::rules::AuditReport;
use kanban::tables::BoardRow;
use kanban::tables::Registry;
use kanban::text::Error;

fn refusal<T>(outcome: Result<T, Error>) -> String {
    match outcome {
        Ok(_) => panic!("the request was accepted"),
        Err(error) => error.to_string(),
    }
}

fn accepted<T>(outcome: Result<T, Error>) -> T {
    match outcome {
        Ok(value) => value,
        Err(error) => panic!("refused: {}", error.to_string()),
    }
}

fn test_registry() -> Registry {
    Registry::new("/data".to_owned(), None)
}

fn file(inode: u64, length: u64) -> FileFacts {
    FileFacts {
        device: 1,
        inode,
        length,
        modified: 5,
        modified_nanos: 6,
        is_file: true,
        is_dir: false,
        is_symlink: false,
    }
}

fn directory(inode: u64) -> FileFacts {
    FileFacts {
        is_file: false,
        is_dir: true,
        ..file(inode, 0)
    }
}

fn facts(name: &str) -> SnapshotFacts {
    SnapshotFacts {
        integrity: vec!["ok".to_owned()],
        foreign_key_violations: Vec::new(),
        schema: 20,
        name: Some(name.to_owned()),
        audit: AuditReport {
            healthy: true,
            head: "head".to_owned(),
            errors: Vec::new(),
        },
    }
}

fn prepared(name: &str) -> PreparedAdoption {
    PreparedAdoption {
        source_board_path: format!("/src/{name}.db"),
        name: name.to_owned(),
    }
}

fn digest_of(bytes: &[u8]) -> (String, u64) {
    (bytes_sha256(bytes), bytes.len() as u64)
}

#[test]
fn adopting_a_board_rejects_a_duplicate_active_name() {
    let mut registry = test_registry();
    accepted(registry.register(None, "Alpha", false, "codex"));
    let err = refusal(registry.adopt(&prepared("Alpha"), None, true, "codex", digest_of(b"x")));
    assert!(err.contains("already named Alpha"), "{err}");
}

#[test]
fn adopting_a_board_rejects_a_wrong_source_name() {
    let err = refusal(check_source("/src/Alpha.db", &facts("Alpha"), "Beta", 20));
    assert!(
        err.contains("source board name is Alpha, not Beta"),
        "{err}"
    );
}

#[test]
fn adopting_a_board_rejects_an_audit_invalid_source() {
    let mut source = facts("Alpha");
    source.audit.healthy = false;
    source.audit.errors = vec!["event 3".to_owned(), "event 4".to_owned()];
    let err = refusal(check_source("/src/Alpha.db", &source, "Alpha", 20));
    assert!(err.contains("invalid audit chain"), "{err}");
    assert_eq!(
        err,
        "source board /src/Alpha.db has an invalid audit chain: event 3; event 4"
    );
}

#[test]
fn adopting_a_board_rejects_a_newer_schema_source() {
    let mut source = facts("Alpha");
    source.schema = 21;
    let err = refusal(check_source("/src/Alpha.db", &source, "Alpha", 20));
    assert!(err.contains("newer than supported version"), "{err}");
}

#[test]
fn adopting_a_board_rejects_a_symlink_source_path() {
    let mut link = file(1, 10);
    link.is_symlink = true;
    let err = refusal(check_unopened("/src/link.db", "source board path", &link));
    assert!(err.contains("is a symlink"), "{err}");
}

#[test]
fn adopting_a_board_rejects_parent_traversal_in_the_source_path() {
    let err = refusal(check_source_path("/src/child/../Alpha.db"));
    assert!(err.contains("contains parent traversal"), "{err}");
    assert!(check_source_path("/src/Alpha.db").is_ok());
}

#[test]
fn adopting_a_board_rejects_foreign_key_corruption() {
    let mut source = facts("Alpha");
    source.foreign_key_violations = vec!["tasks row 1".to_owned()];
    let err = refusal(check_source("/src/Alpha.db", &source, "Alpha", 20));
    assert!(err.contains("foreign key violations"), "{err}");
}

#[test]
fn adopting_a_rootless_board_records_null_root_and_snapshot_provenance() {
    let mut registry = test_registry();
    let receipt = accepted(registry.adopt(
        &prepared("Alpha"),
        None,
        true,
        "codex",
        digest_of(b"board bytes"),
    ));
    assert!(receipt.root_path.is_none());
    assert!(receipt.project.workspace_roots.is_empty());
    assert_eq!(receipt.source_sha256.len(), 64);
    assert!(receipt.source_bytes > 0);
    assert_eq!(receipt.source_board_path, "/src/Alpha.db");

    let event = registry.events.last().unwrap();
    assert_eq!(
        event.rule_id,
        format!("workspace:{}", receipt.project.board_path)
    );
    assert_eq!(event.kind, "board_adopted");
    let payload: serde_json::Value =
        serde_json::from_str(&event.payload).expect("parse adoption event payload");
    assert_eq!(payload["rootPath"], serde_json::Value::Null);
    assert_eq!(
        payload["sourceBoardPath"],
        serde_json::Value::String("/src/Alpha.db".to_owned())
    );
    assert_eq!(payload["sourceSha256"], receipt.source_sha256);
    assert_eq!(payload["sourceBytes"], receipt.source_bytes);
}

#[test]
fn adoption_failure_removes_database_wal_shm_and_rollback_journal() {
    assert_eq!(
        database_artifacts("/data/partial.db"),
        vec![
            "/data/partial.db",
            "/data/partial.db-wal",
            "/data/partial.db-shm",
            "/data/partial.db-journal"
        ]
    );
    let run = AdoptionRun::start(
        "/data",
        "Alpha",
        "/data/boards/f1.db",
        "/src/Alpha.db",
        None,
        "stage",
        7,
    );
    let failed = run.cleanup_after_failure(true);
    assert_eq!(failed.orphan_files.len(), 4);
    assert_eq!(failed.marker_path, "/data/.workspace-adopt.json");
    assert!(run.cleanup_after_failure(false).orphan_files.is_empty());
    assert!(run.cleanup_after_success().orphan_files.is_empty());
}

#[test]
fn adoption_cleanup_failure_is_reported_and_retains_evidence() {
    let left = removal_outcome("clear staging", &["/stage/dir: is a directory".to_owned()]);
    let error = refusal(combine_cleanup(Ok(1), left));
    assert!(error.contains("adoption cleanup failed"), "{error}");
    assert!(
        error.contains("retained evidence: /stage/dir: is a directory"),
        "{error}"
    );
    let both = refusal(combine_cleanup::<u8>(
        Err(Error::new("publish".to_owned())),
        Err(Error::new("locked".to_owned())),
    ));
    assert_eq!(both, "adoption cleanup also failed: locked: publish");
    assert_eq!(accepted(combine_cleanup(Ok(1), Ok(()))), 1);
    assert_eq!(
        refusal(combine_cleanup::<u8>(
            Err(Error::new("publish".to_owned())),
            Ok(())
        )),
        "publish"
    );
    assert!(removal_outcome("clear staging", &[]).is_ok());
}

fn marker(board_path: &str, staging_dir: &str) -> AdoptionMarker {
    AdoptionMarker {
        board_name: "Alpha".to_owned(),
        board_path: board_path.to_owned(),
        root_path: None,
        source_board_path: "/src/Alpha.db".to_owned(),
        staging_dir: staging_dir.to_owned(),
        created_at: 7,
    }
}

fn board_row(path: &str) -> BoardRow {
    BoardRow {
        board_path: path.to_owned(),
        name: "Alpha".to_owned(),
        created_at: 1,
        last_used_at: 1,
        archived: false,
        archived_at: None,
        archived_by: None,
        archived_note: None,
        retirement_id: None,
    }
}

#[test]
fn reconciling_a_pending_adoption_marker_removes_the_orphan_board_and_staging() {
    let board_path = "/data/boards/f1.db";
    let staging_dir = format!("{}/one", adoption_staging_root("/data"));
    let pending = Some(marker(board_path, &staging_dir));
    let plan = accepted(reconcile_pending_adoption("/data", &pending, &[])).unwrap();
    assert_eq!(plan.orphan_files, database_artifacts(board_path));
    assert_eq!(plan.staging_dir, staging_dir);
    assert_eq!(plan.marker_path, "/data/.workspace-adopt.json");

    // A board that the registry holds was adopted: its files stay.
    let held = [board_row(board_path)];
    let plan = accepted(reconcile_pending_adoption("/data", &pending, &held)).unwrap();
    assert!(plan.orphan_files.is_empty());

    assert!(accepted(reconcile_pending_adoption("/data", &None, &[])).is_none());
}

#[test]
fn a_marker_outside_the_data_root_is_refused() {
    let inside = format!("{}/one", adoption_staging_root("/data"));
    assert!(adoption_marker_matches_root(
        "/data",
        &marker("/data/boards/f1.db", &inside)
    ));
    let stray = marker("/etc/f1.db", &inside);
    assert!(!adoption_marker_matches_root("/data", &stray));
    assert_eq!(
        refusal(reconcile_pending_adoption("/data", &Some(stray), &[])),
        "adoption marker /data/.workspace-adopt.json points outside registry-owned storage"
    );
    assert!(!adoption_marker_matches_root(
        "/data",
        &marker("/data/boards/f1.db", "/tmp/one")
    ));
}

#[test]
fn an_adoption_is_asked_for_with_a_root_or_without() {
    assert_eq!(accepted(check_adoption_request(" geo ", true, false)), "geo");
    assert_eq!(
        refusal(check_adoption_request("geo", true, true)),
        "--rootless cannot be combined with --workspace"
    );
    assert_eq!(
        refusal(check_adoption_request("geo", false, false)),
        "workspace adopt requires either --workspace PATH or --rootless"
    );
    assert_eq!(
        refusal(check_adoption_request("", true, false)),
        "author is required"
    );
}

#[test]
fn a_root_that_is_taken_cannot_be_adopted_at() {
    let mut registry = test_registry();
    accepted(registry.register_as(Some("/work/a"), "Alpha", false, "codex", "f1", 1));
    assert_eq!(
        refusal(registry.check_adoption_place(Some("/work/a"), "Beta")),
        "/work/a is already registered to board Alpha"
    );
    assert_eq!(
        refusal(registry.check_adoption_place(Some("/work/a/b"), "Beta")),
        "/work/a/b is already inside Kanban project Alpha.\n\
         To share that board:        kanban workspace attach --to Alpha\n\
         To create a separate board: use a different --workspace, or pass --rootless"
    );
    let receipt = accepted(registry.adopt_snapshot(
        &prepared("Beta"),
        Some("/work/b"),
        false,
        "codex",
        digest_of(b"x"),
        "f2",
        9,
    ));
    assert_eq!(receipt.project.board_path, "/data/boards/f2.db");
    assert_eq!(receipt.root_path.as_deref(), Some("/work/b"));
    assert_eq!(registry.exact("/work/b").unwrap().name, "Beta");
}

#[test]
fn a_file_must_stay_what_it_was_while_it_is_read() {
    let before = file(1, 10);
    assert_eq!(metadata_identity(&before), (1, 1));
    assert!(metadata_stable(&before, &file(1, 10)));
    assert!(!metadata_stable(&before, &file(1, 11)));
    assert!(check_opened("/a", "source board", &before, &file(1, 10)).is_ok());
    assert_eq!(
        refusal(check_opened("/a", "source board", &before, &file(2, 10))),
        "source board /a changed identity while it was opened"
    );
    assert_eq!(
        refusal(check_unopened("/a", "source board", &directory(1))),
        "/a is not a regular file"
    );
    assert_eq!(
        refusal(check_resolved("/a", &file(2, 10), &before)),
        "source board /a changed identity while it was resolved"
    );
    assert_eq!(
        refusal(check_copied(10, 9)),
        "source component changed length while capturing it: expected 10 bytes, copied 9"
    );
    assert!(check_copied(10, 10).is_ok());
    assert_eq!(
        refusal(check_data_root("/a/../b", false)),
        "registry data root /a/../b contains parent traversal"
    );
    assert_eq!(
        refusal(check_data_root("/a", true)),
        "registry data root /a is a symlink"
    );
    assert!(check_registry_chain("/data", &directory(1), &directory(1)).is_ok());
    assert_eq!(
        refusal(check_registry_chain("/data", &directory(2), &directory(1))),
        "registry boards directory /data/boards changed identity"
    );
    assert!(check_pinned_dir("/data", "registry", &directory(1), &directory(1)).is_ok());
    assert_eq!(
        refusal(check_pinned_dir("/data", "registry", &directory(2), &directory(1))),
        "registry /data changed identity or became a symlink"
    );
    assert!(open_to_others(0o755));
    assert!(!open_to_others(0o700));
}

#[test]
fn a_capture_is_one_consistent_snapshot() {
    let before = file(1, 10);
    let log = |header_after: u8, inode_after: u64| {
        Some(LogCapture {
            before: file(9, 4),
            after: file(9, 4),
            path_after: file(inode_after, 4),
            header_before: vec![1, 2],
            header_after: vec![1, header_after],
        })
    };
    assert!(check_capture(&before, &file(1, 10), &file(1, 10), &None).is_ok());
    assert!(check_capture(&before, &file(1, 10), &file(1, 10), &log(2, 9)).is_ok());
    assert_eq!(
        refusal(check_capture(&before, &file(1, 11), &file(1, 10), &None)),
        "source board changed while its consistent snapshot was captured; retry adoption"
    );
    assert_eq!(
        refusal(check_capture(&before, &file(1, 10), &file(1, 10), &log(3, 9))),
        "source WAL was reset while its consistent snapshot was captured; retry adoption"
    );
    assert_eq!(
        refusal(check_capture(&before, &file(1, 10), &file(1, 10), &log(2, 8))),
        "source WAL changed identity while its snapshot was captured; retry adoption"
    );
}

#[test]
fn a_snapshot_is_validated_against_what_was_expected() {
    let label = "adopted snapshot";
    assert!(validate_board_snapshot(label, &facts("Alpha"), "Alpha", 20).is_ok());
    assert!(check_source("/a", &facts("Alpha"), "Alpha", 20).is_ok());
    let mut broken = facts("Alpha");
    broken.integrity = vec!["row 1".to_owned(), "row 2".to_owned()];
    assert_eq!(
        refusal(validate_board_snapshot(label, &broken, "Alpha", 20)),
        "adopted snapshot failed integrity check: row 1, row 2"
    );
    assert_eq!(
        refusal(validate_board_snapshot(label, &facts("Alpha"), "Alpha", 21)),
        "adopted snapshot is schema version 20, expected 21"
    );
    let mut nameless = facts("Alpha");
    nameless.name = None;
    assert_eq!(
        refusal(validate_board_snapshot(label, &nameless, "Alpha", 20)),
        "adopted snapshot name metadata is missing"
    );
    assert_eq!(
        refusal(check_source("/a", &nameless, "Alpha", 20)),
        "source board name metadata is missing"
    );
    assert_eq!(
        refusal(validate_board_snapshot(label, &facts("Alpha"), "Beta", 20)),
        "adopted snapshot name is Alpha, not Beta"
    );
    assert_eq!(
        refusal(require_foreign_key_clean(
            &["a".to_owned(), "b".to_owned()],
            label
        )),
        "adopted snapshot has foreign key violations: a; b"
    );
}

#[test]
fn a_published_file_is_digested_whole() {
    let (digest, length) = accepted(hash_file(true, b"abc", 3));
    assert_eq!(length, 3);
    assert_eq!(digest, bytes_sha256(b"abc"));
    assert_eq!(
        refusal(hash_file(false, b"abc", 3)),
        "adopted snapshot handle is not a regular file"
    );
    assert_eq!(
        refusal(hash_file(true, b"abc", 4)),
        "adopted snapshot changed length while hashing it"
    );
}

#[test]
fn the_data_root_is_found_in_three_places() {
    assert_eq!(
        accepted(data_root(Some("/given"), Some("/share"), Some("/home/x"))),
        "/given"
    );
    assert_eq!(
        accepted(data_root(None, Some("/share"), Some("/home/x"))),
        "/share/kanban"
    );
    assert_eq!(
        accepted(data_root(None, None, Some("/home/x"))),
        "/home/x/.local/share/kanban"
    );
    assert_eq!(refusal(data_root(None, None, None)), "HOME is not set");
    assert_eq!(
        accepted(canonical_data_root(Some("/share"), Some("/home/x"))),
        "/share/kanban"
    );
    assert_eq!(
        accepted(canonical_data_root(None, Some("/home/x"))),
        "/home/x/.local/share/kanban"
    );
    assert_eq!(refusal(canonical_data_root(None, None)), "HOME is not set");
}

#[test]
fn a_busy_reader_waits_longer_and_then_gives_up() {
    assert_eq!(read_only_busy_backoff(0), (1, true));
    assert_eq!(read_only_busy_backoff(3), (8, true));
    assert_eq!(read_only_busy_backoff(7), (128, true));
    assert_eq!(read_only_busy_backoff(8), (128, false));
    assert_eq!(
        workspace_adopt_snapshot_uri(),
        "file:/dev/fd/38?mode=ro&immutable=1"
    );
}
