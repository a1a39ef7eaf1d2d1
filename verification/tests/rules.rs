//! The rulebook: which rules apply, how they change, and how they travel.

use kanban::consolidation::BoardSource;
use kanban::consolidation::SourceRetirement;
use kanban::consolidation::SourceState;
use kanban::consolidation::LEGACY_SOURCE;
use kanban::draws::next_free;
use kanban::rule_history::validate_event_limit;
use kanban::rulebook::canonical_rule_task_tags;
use kanban::rulebook::draw_rule_ids;
use kanban::rulebook::ids_of;
use kanban::rulebook::new_rule_id;
use kanban::rulebook::repeated;
use kanban::rulebook::TaskTag;
use kanban::rulebook::WATCH_BATCH_LIMIT;
use kanban::rules::bytes_sha256;
use kanban::rules::deny_secret_material;
use kanban::rules::fingerprint_bytes;
use kanban::rules::has_secret_marker;
use kanban::rules::is_selector_tag;
use kanban::rules::named_selector_board;
use kanban::rules::parse_json_string_array;
use kanban::rules::registry_uuid_verdict;
use kanban::rules::rule_fingerprint;
use kanban::rules::rule_row;
use kanban::rules::rule_summary;
use kanban::rules::rule_tags_apply;
use kanban::rules::selector_tags_apply;
use kanban::rules::sorted_unique_boards;
use kanban::rules::validate_registry_uuid;
use kanban::rules::validate_rule_actor;
use kanban::rules::validate_rule_body;
use kanban::rules::AuditReport;
use kanban::rules::Rule;
use kanban::rules::RuleRow;
use kanban::rules::RuleTransferBundle;
use kanban::selectors::active_board_count;
use kanban::tables::append_registry_event;
use kanban::tables::BoardRow;
use kanban::tables::LegacyEvent;
use kanban::tables::LegacyRule;
use kanban::tables::Registry;
use kanban::text::Error;
use sha2::Digest;

const HERE: &str = "11111111-1111-4111-8111-111111111111";
const THERE: &str = "22222222-2222-4222-8222-222222222222";

fn texts(list: &[&str]) -> Vec<String> {
    list.iter().map(|item| (*item).to_owned()).collect()
}

fn refusal<T>(outcome: Result<T, Error>) -> String {
    match outcome {
        Ok(_) => panic!("the request was accepted"),
        Err(error) => error.to_string(),
    }
}

fn accepted<T>(outcome: Result<T, Error>) -> T {
    match outcome {
        Ok(value) => value,
        Err(error) => panic!("refused: {}", error.to_string()),
    }
}

fn board(name: &str) -> BoardRow {
    BoardRow {
        board_path: format!("/data/boards/{name}.db"),
        name: name.to_owned(),
        created_at: 1,
        last_used_at: 1,
        archived: false,
        archived_at: None,
        archived_by: None,
        archived_note: None,
        retirement_id: None,
    }
}

fn registry_with(uuid: &str, names: &[&str]) -> Registry {
    let mut registry = Registry::new("/data".to_owned(), Some(uuid.to_owned()));
    for name in names {
        registry.boards.push(board(name));
    }
    registry
}

fn readable(registry: &Registry) -> Vec<String> {
    registry.boards.iter().map(|b| b.board_path.clone()).collect()
}

fn rule(id: &str, tags: &[&str]) -> Rule {
    Rule {
        id: id.to_owned(),
        body: "Headline.\n\nBody.".to_owned(),
        author: "codex".to_owned(),
        archived: false,
        created_at: 1,
        updated_at: 1,
        tags: texts(tags),
        source_board: None,
        source_rule_id: None,
        source_registry_uuid: None,
        source_boards: None,
        source_content_sha256: None,
    }
}

fn healthy() -> AuditReport {
    AuditReport {
        healthy: true,
        head: "head".to_owned(),
        errors: Vec::new(),
    }
}

fn event_seqs(events: &[kanban::records::Event]) -> Vec<i64> {
    events.iter().map(|event| event.seq).collect()
}

#[test]
fn selector_and_subsystem_tags_intersect_fail_closed() {
    let tags = vec!["ONLY:ONE".to_owned(), "infra".to_owned()];
    let infra = ["infra".to_owned()];
    let docs = ["docs".to_owned()];
    assert!(rule_tags_apply(&tags, Some("ONE"), Some(&infra)));
    assert!(!rule_tags_apply(&tags, Some("TWO"), Some(&infra)));
    assert!(!rule_tags_apply(&tags, Some("ONE"), Some(&docs)));
    assert!(!rule_tags_apply(&tags, Some("ONE"), None));

    let general = vec!["ALL".to_owned(), "EXCEPT:TWO".to_owned()];
    assert!(rule_tags_apply(&general, Some("ONE"), None));
    assert!(!rule_tags_apply(&general, Some("TWO"), None));
}

#[test]
fn ascending_registry_rule_events_resume_without_skips() {
    let mut registry = registry_with(HERE, &[]);
    let mut first = rule("rule-1", &["ALL"]);
    first.archived = true;
    registry.rules.push(first);
    registry.rules.push(rule("rule-2", &["ALL"]));

    for (subject, kind, step) in [
        ("rule-1", "rule_created", 1),
        ("rule-2", "rule_created", 2),
        ("rule-1", "rule_updated", 3),
        ("rule-1", "rule_retired", 4),
    ] {
        append_registry_event(
            &mut registry.events,
            subject,
            kind,
            "codex",
            &format!("{{\"step\":{step}}}"),
            9 + step,
        );
    }

    let all = accepted(registry.rule_events_since(None, None, 0, 10));
    assert_eq!(event_seqs(&all), vec![1, 2, 3, 4]);
    assert!(all.iter().all(|event| !event.archived));

    let rule_events = accepted(registry.rule_events_since(Some("rule-1"), None, 1, 10));
    assert_eq!(event_seqs(&rule_events), vec![3, 4]);

    let kind_events =
        accepted(registry.rule_events_since(Some("rule-1"), Some("rule_retired"), 0, 10));
    assert_eq!(event_seqs(&kind_events), vec![4]);

    let empty = accepted(registry.rule_events_since(None, None, 0, 0));
    assert!(empty.is_empty());

    let first_batch = accepted(registry.rule_events_since(Some("rule-1"), None, 0, 1));
    assert_eq!(event_seqs(&first_batch), vec![1]);

    let second_batch = accepted(registry.rule_events_since(
        Some("rule-1"),
        None,
        first_batch.last().unwrap().seq,
        1,
    ));
    assert_eq!(event_seqs(&second_batch), vec![3]);

    let third_batch = accepted(registry.rule_events_since(
        Some("rule-1"),
        None,
        second_batch.last().unwrap().seq,
        1,
    ));
    assert_eq!(event_seqs(&third_batch), vec![4]);

    let negative = refusal(registry.rule_events_since(None, None, 0, -1));
    assert!(negative.contains("1000"), "{negative}");

    let over = refusal(registry.rule_events_since(None, None, 0, WATCH_BATCH_LIMIT + 1));
    assert!(over.contains("1000"), "{over}");
}

#[test]
fn filtered_registry_watch_rows_apply_multi_kind_before_limit() {
    let mut registry = registry_with(HERE, &[]);
    registry.rules.push(rule("rule-1", &["ALL"]));
    for (kind, step) in [("legacy", 1), ("wanted", 2), ("other", 3)] {
        append_registry_event(
            &mut registry.events,
            "rule-1",
            kind,
            "codex",
            &format!("{{\"step\":{step}}}"),
            step,
        );
    }
    let kinds = vec!["wanted".to_owned(), "other".to_owned()];
    let rows = accepted(registry.rule_events_since_filtered(Some("rule-1"), &kinds, 0, 1));
    assert_eq!(rows.len(), 1);
    assert_eq!(rows[0].kind, "wanted");
    assert!(accepted(registry.rule_events_since_filtered(
        Some("rule-1"),
        &["never-seen".to_owned()],
        0,
        10
    ))
    .is_empty());
    assert!(registry.event_kind_exists("wanted"));
    assert!(!registry.event_kind_exists("never-seen"));
}

#[test]
fn the_newest_events_come_first_without_a_cursor() {
    let mut registry = registry_with(HERE, &[]);
    registry.rules.push(rule("rule-1", &["ALL"]));
    for step in 1..=3 {
        append_registry_event(&mut registry.events, "rule-1", "k", "codex", "{}", step);
    }
    let newest = accepted(registry.rule_events(Some("rule-1"), None, 2));
    assert_eq!(event_seqs(&newest), vec![3, 2]);
    assert_eq!(
        refusal(registry.rule_events(Some("rule-9"), None, 2)),
        "rule rule-9 not found"
    );
    assert_eq!(
        refusal(validate_event_limit(1001)),
        "--limit must be between 0 and 1000, got 1001"
    );
    assert!(validate_event_limit(1000).is_ok());
}

#[test]
fn a_rule_is_added_under_a_drawn_id() {
    let mut registry = registry_with(HERE, &["Alpha"]);
    let added = accepted(registry.add_rule("Keep it small.", " codex ", &texts(&["ALL"])));
    assert!(added.id.starts_with("r-"));
    assert_eq!(added.id.len(), 10);
    assert_eq!(added.author, "codex");
    assert_eq!(accepted(registry.rule(&added.id)).body, "Keep it small.");
    assert_eq!(registry.events[0].kind, "rule_added");
    assert_eq!(registry.events[0].rule_id, added.id);
    assert_eq!(
        registry.events[0].payload,
        format!("{{\"ruleID\":\"{}\",\"tags\":[\"ALL\"]}}", added.id)
    );
}

#[test]
fn adding_a_rule_refuses_what_it_cannot_keep() {
    let mut registry = registry_with(HERE, &["Alpha"]);
    let all = texts(&["ALL"]);
    assert_eq!(
        refusal(registry.add_rule_as(" ", "codex", &all, "r-1", 5)),
        "rule body is required"
    );
    assert_eq!(
        refusal(registry.add_rule_as("\nx", "codex", &all, "r-1", 5)),
        "rule headline is required on the first line"
    );
    assert_eq!(
        refusal(registry.add_rule_as("x", " ", &all, "r-1", 5)),
        "author is required"
    );
    assert_eq!(
        refusal(registry.add_rule_as("x", "codex", &texts(&["ONLY:Gamma"]), "r-1", 5)),
        "rule r-1 selector ONLY:Gamma requires exactly one active board, but found 0"
    );
    accepted(registry.add_rule_as("x", "codex", &texts(&["ONLY:Alpha"]), "r-1", 5));
    assert_eq!(
        refusal(registry.add_rule_as("y", "codex", &all, "r-1", 6)),
        "UNIQUE constraint failed: rules.id"
    );
    assert_eq!(registry.rules.len(), 1);
    assert_eq!(registry.events.len(), 1);
}

#[test]
fn a_rule_is_retired_once() {
    let mut registry = registry_with(HERE, &[]);
    accepted(registry.add_rule_as("x", "codex", &texts(&["ALL"]), "r-1", 5));
    let gone = accepted(registry.retire_rule_at("r-1", "geo", 9));
    assert!(gone.archived);
    assert_eq!(gone.updated_at, 9);
    assert_eq!(
        refusal(registry.retire_rule_at("r-1", "geo", 10)),
        "rule r-1 is already retired"
    );
    assert_eq!(
        refusal(registry.retire_rule_at("r-2", "geo", 10)),
        "rule r-2 not found"
    );
    assert!(registry.rules(false).is_empty());
    assert_eq!(registry.rules(true).len(), 1);
}

#[test]
fn an_update_records_what_the_rule_said_before() {
    let mut registry = registry_with(HERE, &["Alpha"]);
    accepted(registry.add_rule_as("x", "codex", &texts(&["ALL", "infra"]), "r-1", 5));
    let changed = accepted(registry.update_rule_at(
        "r-1",
        Some("y"),
        Some(&texts(&["ONLY:Alpha"])),
        None,
        &[],
        "geo",
        9,
    ));
    assert_eq!(changed.body, "y");
    assert_eq!(changed.author, "geo");
    assert_eq!(changed.tags, texts(&["ONLY:Alpha", "infra"]));
    let event = registry.events.last().unwrap();
    assert_eq!(event.kind, "rule_updated");
    let payload: serde_json::Value = serde_json::from_str(&event.payload).unwrap();
    assert_eq!(payload["changed"][0], "body");
    assert_eq!(payload["changed"][1], "selectorTags");
    assert_eq!(payload["previousBody"], "x");
    assert_eq!(payload["previousTags"][1], "infra");

    let cleared = accepted(registry.update_rule_at("r-1", None, None, Some(&[]), &[], "geo", 10));
    assert_eq!(cleared.tags, texts(&["ONLY:Alpha"]));
    assert_eq!(
        refusal(registry.update_rule_at("r-1", None, None, None, &[], "geo", 10)),
        "rule update requires --body/--body-file, --board/--except-board, --tag, or --clear-tags"
    );
}

#[test]
fn board_targets_become_selectors() {
    let registry = registry_with(HERE, &["Alpha", "Beta"]);
    let none: Vec<String> = Vec::new();
    assert_eq!(
        accepted(registry.canonical_board_tags(&none, &none)),
        texts(&["ALL"])
    );
    assert_eq!(
        accepted(registry.canonical_board_tags(&texts(&["Beta", "Alpha"]), &none)),
        texts(&["ONLY:Beta", "ONLY:Alpha"])
    );
    assert_eq!(
        accepted(registry.canonical_board_tags(&texts(&["ALL"]), &texts(&["Beta"]))),
        texts(&["ALL", "EXCEPT:Beta"])
    );
    assert_eq!(
        refusal(registry.canonical_board_tags(&texts(&["Alpha", "Alpha"]), &none)),
        "board target \"Alpha\" was given more than once"
    );
    assert_eq!(
        refusal(registry.canonical_board_tags(&texts(&["ALL", "Alpha"]), &none)),
        "ALL cannot be combined with named --board targets"
    );
    assert_eq!(
        refusal(registry.canonical_board_tags(&texts(&["Alpha"]), &texts(&["Beta"]))),
        "--except-board requires ALL scope; omit --board or pass --board ALL"
    );
    assert_eq!(
        refusal(registry.canonical_board_tags(&none, &texts(&["ALL"]))),
        "board target \"ALL\" was given more than once"
    );
    assert_eq!(
        refusal(registry.canonical_board_tags(&texts(&["Gamma"]), &none)),
        "no registered Kanban board named Gamma"
    );
}

#[test]
fn task_tags_are_checked_against_the_registered_ones() {
    let tag = |name: &str, nearest: Option<&str>| TaskTag {
        name: Ok(name.to_owned()),
        nearest: nearest.map(str::to_owned),
    };
    let known = texts(&["infra", "docs"]);
    assert_eq!(
        accepted(canonical_rule_task_tags(
            &[tag("docs", None), tag("infra", None)],
            &known
        )),
        texts(&["docs", "infra"])
    );
    assert_eq!(
        refusal(canonical_rule_task_tags(
            &[tag("docs", None), tag("docs", None)],
            &known
        )),
        "global rule task tag \"docs\" was given more than once"
    );
    assert_eq!(
        refusal(canonical_rule_task_tags(&[tag("dosc", Some("docs"))], &known)),
        "global rule task tag dosc is not registered on any active board, did you mean docs?"
    );
    assert_eq!(
        refusal(canonical_rule_task_tags(&[tag("zzz", None)], &known)),
        "global rule task tag zzz is not registered on any active board"
    );
    let bad = TaskTag {
        name: Err(Error::new("bad tag".to_owned())),
        nearest: None,
    };
    assert_eq!(refusal(canonical_rule_task_tags(&[bad], &known)), "bad tag");
    assert_eq!(repeated(&texts(&["a", "b", "a"])), Some(2));
    assert_eq!(repeated(&texts(&["a", "b"])), None);
}

#[test]
fn only_the_rules_of_a_board_and_a_task_apply() {
    let mut registry = registry_with(HERE, &["Alpha", "Beta"]);
    registry.rules.push(rule("r-1", &["ALL"]));
    registry.rules.push(rule("r-2", &["ONLY:Alpha"]));
    registry.rules.push(rule("r-3", &["ALL", "EXCEPT:Alpha"]));
    registry.rules.push(rule("r-4", &["ALL", "infra"]));
    let ids = |rules: Vec<Rule>| ids_of(&rules);
    assert_eq!(
        ids(registry.applicable_rules(Some("Alpha"), None, false)),
        texts(&["r-1", "r-2"])
    );
    assert_eq!(
        ids(registry.applicable_rules(Some("Beta"), Some(&texts(&["infra"])), false)),
        texts(&["r-1", "r-3", "r-4"])
    );
    assert_eq!(
        ids(registry.rules_targeting_board(Some("Alpha"), false)),
        texts(&["r-1", "r-2", "r-4"])
    );
    let summaries = accepted(registry.applicable_rule_summaries(None, None, false));
    assert_eq!(summaries.len(), 2);
    assert_eq!(accepted(registry.rule_summaries(false)).len(), 4);
}

#[test]
fn a_summary_holds_the_headline_and_the_size() {
    let mut one = rule("r-1", &["ALL"]);
    one.body = "  Ünï.  \n \n".to_owned();
    let summary = accepted(rule_summary(&one));
    assert_eq!(summary.headline, "Ünï.");
    assert!(!summary.has_more);
    assert_eq!(summary.bytes, one.body.len());
    one.body = String::new();
    assert_eq!(refusal(rule_summary(&one)), "stored rule has no headline");
}

#[test]
fn selectors_name_boards() {
    assert_eq!(named_selector_board("ONLY:Alpha"), Some("Alpha"));
    assert_eq!(named_selector_board("EXCEPT:Alpha"), Some("Alpha"));
    assert_eq!(named_selector_board("ALL"), None);
    assert!(is_selector_tag("ALL"));
    assert!(is_selector_tag("EXCEPT:"));
    assert!(!is_selector_tag("all"));
    assert!(selector_tags_apply(&texts(&["ALL", "EXCEPT:B"]), None));
    assert!(!selector_tags_apply(&texts(&["ONLY:B"]), None));
    assert!(selector_tags_apply(&texts(&["ONLY:A", "ONLY:B"]), Some("B")));
}

#[test]
fn a_named_selector_needs_exactly_one_active_board() {
    let mut registry = registry_with(HERE, &["Alpha", "Beta"]);
    registry.rules.push(rule("r-2", &["ONLY:Alpha"]));
    assert!(registry.active_rule_selector_health().healthy);
    let mut twin = board("Alpha");
    twin.board_path = "/data/boards/twin.db".to_owned();
    registry.boards.push(twin);
    registry.rules.push(rule("r-1", &["ALL", "EXCEPT:Gone"]));
    let health = registry.active_rule_selector_health();
    assert!(!health.healthy);
    let found: Vec<(String, String, i64)> = health
        .errors
        .into_iter()
        .map(|e| (e.rule_id, e.selector, e.active_board_count))
        .collect();
    assert_eq!(
        found,
        vec![
            ("r-1".to_owned(), "EXCEPT:Gone".to_owned(), 0),
            ("r-2".to_owned(), "ONLY:Alpha".to_owned(), 2),
        ]
    );
    assert_eq!(active_board_count(&registry.boards, "Alpha", None), 2);
    assert_eq!(
        active_board_count(&registry.boards, "Alpha", Some("/data/boards/twin.db")),
        1
    );
}

#[test]
fn checks_on_texts_say_what_is_wrong() {
    assert!(validate_rule_body("x").is_ok());
    assert_eq!(accepted(validate_rule_actor("  geo ")), "geo");
    assert_eq!(accepted(validate_registry_uuid(HERE)), HERE);
    assert_eq!(
        refusal(validate_registry_uuid(" ")),
        "rule transfer bundle is missing sourceRegistryUuid"
    );
    assert_eq!(
        refusal(validate_registry_uuid("nope")),
        "rule transfer bundle sourceRegistryUuid nope is invalid"
    );
    assert!(registry_uuid_verdict("nope", true).is_ok());
    assert!(has_secret_marker("my password is"));
    assert!(!has_secret_marker("nothing to see"));
    assert_eq!(
        refusal(deny_secret_material("Rotate the PASSWORD.")),
        "rule body contains secret material"
    );
    assert!(deny_secret_material("Keep it small.").is_ok());
    assert_eq!(
        accepted(sorted_unique_boards(&texts(&["a", "b"]))),
        texts(&["a", "b"])
    );
    assert_eq!(
        refusal(sorted_unique_boards(&[])),
        "rule transfer bundle is missing sourceBoards"
    );
    assert_eq!(
        refusal(sorted_unique_boards(&texts(&["b", "a"]))),
        "rule transfer bundle sourceBoards must be sorted and unique"
    );
}

#[test]
fn a_stored_list_is_read_or_refused() {
    let read = parse_json_string_array("[\"a\",\"\\u00fc\"]").unwrap();
    assert_eq!(read, texts(&["a", "ü"]));
    let failure = parse_json_string_array("[1]").unwrap_err();
    assert_eq!(failure.length, 3);
    assert!(failure.message.contains("invalid type"));
    let row = RuleRow {
        id: "r-1".to_owned(),
        body: "x".to_owned(),
        author: "codex".to_owned(),
        archived: true,
        created_at: 1,
        updated_at: 2,
        tags: "[\"ALL\"]".to_owned(),
        source_board: None,
        source_rule_id: None,
        source_registry_uuid: None,
        source_boards: Some("[\"Alpha\"]".to_owned()),
        source_content_sha256: None,
    };
    let mut broken = row.clone();
    broken.source_boards = Some("{".to_owned());
    assert!(rule_row(broken).is_err());
    let rule = rule_row(row).unwrap();
    assert_eq!(rule.tags, texts(&["ALL"]));
    assert_eq!(rule.source_boards, Some(texts(&["Alpha"])));
    assert!(rule.archived);
}

#[test]
fn the_fingerprint_is_a_digest_of_every_field() {
    let tags = texts(&["ONLY:Alpha", "infra"]);
    let bytes = fingerprint_bytes(HERE, "r-1", "b", "a", true, 1, -1, &tags);
    let mut expected: Vec<u8> = Vec::new();
    expected.extend_from_slice(HERE.as_bytes());
    expected.push(0);
    expected.extend_from_slice(b"r-1\0b\0a\0");
    expected.extend_from_slice(&[1, 0]);
    expected.extend_from_slice(&1_i64.to_le_bytes());
    expected.push(0);
    expected.extend_from_slice(&(-1_i64).to_le_bytes());
    expected.push(0);
    expected.extend_from_slice("ONLY:Alpha\u{1f}infra".as_bytes());
    assert_eq!(bytes, expected);
    let digest = sha2::Sha256::digest(sha2::Sha256::digest(&expected));
    let hex: String = digest.iter().map(|byte| format!("{byte:02x}")).collect();
    assert_eq!(
        rule_fingerprint(HERE, "r-1", "b", "a", true, 1, -1, &tags),
        hex
    );
    assert_eq!(
        bytes_sha256(b"abc"),
        "ba7816bf8f01cfea414140de5dae2223b00361a396177a9cb410ff61f20015ad"
    );
}

#[test]
fn drawn_ids_are_fresh() {
    let taken = vec![new_rule_id()];
    let drawn = draw_rule_ids(&taken, 3).unwrap();
    assert_eq!(drawn.len(), 3);
    assert!(repeated(&drawn).is_none());
    assert!(!drawn.contains(&taken[0]));
}

fn exported() -> RuleTransferBundle {
    let mut source = registry_with(THERE, &["Alpha", "Beta"]);
    accepted(source.add_rule_as("One.", "codex", &texts(&["ONLY:Alpha"]), "r-1", 5));
    accepted(source.add_rule_as(
        "Two.",
        "codex",
        &texts(&["ONLY:Alpha", "ONLY:Beta"]),
        "r-2",
        6,
    ));
    let files = readable(&source);
    accepted(source.export_rules_at("geo", &texts(&["Alpha", "Beta"]), &files, healthy(), 50))
}

#[test]
fn an_exported_bundle_is_imported_once() {
    let bundle = exported();
    assert_eq!(bundle.format_version, 1);
    assert_eq!(bundle.source_boards, texts(&["Alpha", "Beta"]));
    assert_eq!(bundle.rules.len(), 2);
    assert_eq!(bundle.rules[0].source_rule_id, "r-1");
    assert_eq!(bundle.rules[0].source_registry_uuid, THERE);

    let mut destination = registry_with(HERE, &["Alpha", "Beta"]);
    let files = readable(&destination);
    let report = accepted(destination.import_rules("geo", bundle.clone(), &files));
    assert_eq!(report.imported_rules, 2);
    assert_eq!(report.already_imported_rules, 0);
    assert_eq!(report.destination_boards_verified, 2);
    assert_eq!(destination.rules.len(), 2);
    assert_eq!(destination.ledger.len(), 2);
    assert_eq!(destination.events.len(), 2);
    assert_eq!(destination.events[0].kind, "rule_imported");
    assert_eq!(
        destination.rules[0].source_registry_uuid.as_deref(),
        Some(THERE)
    );
    assert_ne!(destination.rules[0].id, "r-1");

    let again = accepted(destination.import_rules("geo", bundle, &files));
    assert_eq!(again.imported_rules, 0);
    assert_eq!(again.already_imported_rules, 2);
    assert_eq!(destination.rules.len(), 2);
    assert_eq!(destination.events.len(), 2);
}

#[test]
fn an_import_refuses_a_bundle_it_cannot_trust() {
    let mut destination = registry_with(HERE, &["Alpha", "Beta"]);
    let files = readable(&destination);
    let mut refused = |change: &dyn Fn(&mut RuleTransferBundle)| {
        let mut bundle = exported();
        change(&mut bundle);
        let message = refusal(destination.import_rules("geo", bundle, &files));
        assert!(destination.rules.is_empty(), "a refusal left a rule");
        assert!(destination.ledger.is_empty(), "a refusal left an entry");
        assert!(destination.events.is_empty(), "a refusal left an event");
        message
    };
    assert_eq!(
        refused(&|b| b.format_version = 2),
        "rule transfer bundle version 2 is not supported"
    );
    assert_eq!(
        refused(&|b| b.exported_by = " ".to_owned()),
        "rule transfer bundle is missing exportedBy"
    );
    assert_eq!(
        refused(&|b| {
            b.source_registry_audit.healthy = false;
            b.source_registry_audit.errors = texts(&["broken \"chain\""]);
        }),
        "rule transfer bundle source registry audit is unhealthy: [\"broken \\\"chain\\\"\"]"
    );
    assert_eq!(
        refused(&|b| b.source_boards = texts(&["Beta", "Alpha"])),
        "rule transfer bundle sourceBoards must be sorted and unique"
    );
    assert_eq!(
        refused(&|b| b.rules[0].source_registry_uuid = HERE.to_owned()),
        format!(
            "rule transfer bundle item r-1 claims source registry {HERE} but the bundle \
             sourceRegistryUuid is {THERE}"
        )
    );
    assert_eq!(
        refused(&|b| b.rules[0].body = "the token".to_owned()),
        "rule body contains secret material"
    );
    assert_eq!(
        refused(&|b| b.rules[0].source_boards = texts(&["Alpha"])),
        "rule transfer bundle item r-1 does not carry the full source board selector set"
    );
    assert_eq!(
        refused(&|b| b.rules[0].source_board = None),
        "rule transfer bundle item is missing sourceBoard"
    );
    assert_eq!(
        refused(&|b| b.rules[0].source_board = Some("Gamma".to_owned())),
        "rule transfer bundle references board Gamma that was not exported"
    );
    assert_eq!(
        refused(&|b| b.rules[0].source_board = Some("Beta".to_owned())),
        "rule transfer bundle item r-1 does not apply to source board Beta"
    );
    assert_eq!(
        refused(&|b| b.rules[0].tags.push("ALL".to_owned())),
        "rule transfer bundle item r-1 contains forbidden selector tags"
    );
    assert_eq!(
        refused(&|b| b.rules[0].tags.push("ONLY:Gamma".to_owned())),
        "rule transfer bundle item r-1 selector ONLY:Gamma reaches outside the bundle \
         sourceBoards allowlist [Alpha, Beta]; re-export from the source registry with \
         `rule export --board Alpha --board Beta --board Gamma --as ACTOR` naming every board \
         the rule selects, or drop that selector from the source rule before exporting"
    );
    assert_eq!(
        refused(&|b| b.rules[0].body = "Other.".to_owned()),
        "rule transfer bundle item r-1 has a content hash mismatch"
    );
    assert_eq!(
        refused(&|b| {
            let item = b.rules[0].clone();
            b.rules.push(item);
        }),
        format!("rule transfer bundle contains duplicate source rule r-1 from registry {THERE}")
    );
    assert_eq!(
        refused(&|b| {
            let item = &mut b.rules[0];
            item.archived = true;
            item.source_content_sha256 = rule_fingerprint(
                &item.source_registry_uuid,
                &item.source_rule_id,
                &item.body,
                &item.author,
                item.archived,
                item.created_at,
                item.updated_at,
                &item.tags,
            );
        }),
        "rule transfer bundle contains archived rule r-1 from Alpha"
    );
}

#[test]
fn changed_content_under_a_known_source_is_refused() {
    let mut destination = registry_with(HERE, &["Alpha", "Beta"]);
    let files = readable(&destination);
    accepted(destination.import_rules("geo", exported(), &files));
    let mut bundle = exported();
    let item = &mut bundle.rules[0];
    item.body = "Other.".to_owned();
    item.source_content_sha256 = rule_fingerprint(
        &item.source_registry_uuid,
        &item.source_rule_id,
        &item.body,
        &item.author,
        item.archived,
        item.created_at,
        item.updated_at,
        &item.tags,
    );
    assert_eq!(
        refusal(destination.import_rules("geo", bundle, &files)),
        format!(
            "destination already has source rule r-1 from registry {THERE} with different content"
        )
    );
}

#[test]
fn an_export_keeps_to_the_boards_it_was_asked_for() {
    let mut source = registry_with(THERE, &["Alpha", "Beta"]);
    accepted(source.add_rule_as("One.", "codex", &texts(&["ONLY:Alpha"]), "r-1", 5));
    let files = readable(&source);
    let alpha = texts(&["Alpha"]);
    assert_eq!(
        refusal(source.export_rules_at(" ", &alpha, &files, healthy(), 50)),
        "author is required"
    );
    assert_eq!(
        refusal(source.export_rules_at("geo", &texts(&["Gamma"]), &files, healthy(), 50)),
        "cannot transfer rules for board Gamma: it is not registered in this registry"
    );
    assert_eq!(
        refusal(source.export_rules_at("geo", &alpha, &[], healthy(), 50)),
        "cannot transfer rules for board Alpha: /data/boards/Alpha.db is not a readable board file"
    );
    assert_eq!(
        refusal(source.export_rules_at("geo", &texts(&["Alpha", "Alpha"]), &files, healthy(), 5)),
        "board \"Alpha\" was given more than once"
    );
    let mut broken = healthy();
    broken.healthy = false;
    broken.errors = texts(&["gap"]);
    assert_eq!(
        refusal(source.export_rules_at("geo", &alpha, &files, broken, 50)),
        "source registry audit is unhealthy: [\"gap\"]"
    );
    assert_eq!(
        refusal(source.export_rules_at("geo", &texts(&["Beta"]), &files, healthy(), 50)),
        "rule r-1 reaches outside the requested board allowlist"
    );
    accepted(source.add_rule_as("Two.", "codex", &texts(&["ALL"]), "r-2", 6));
    assert_eq!(
        refusal(source.export_rules_at("geo", &alpha, &files, healthy(), 50)),
        "rule r-2 has selectors outside the allowlisted board set"
    );
    let nameless = Registry::new("/data".to_owned(), None);
    assert_eq!(
        refusal(nameless.own_uuid()),
        "registry_uuid metadata is missing"
    );
}

#[test]
fn the_former_global_table_is_taken_over_once() {
    let mut registry = registry_with(HERE, &[]);
    registry.rules.push(rule("r-2", &["ALL"]));
    registry.legacy_rules.push(LegacyRule {
        id: "r-1".to_owned(),
        body: "Old.".to_owned(),
        author: "codex".to_owned(),
        archived: false,
        created_at: 3,
        updated_at: 4,
        board_tags: "[\"ALL\"]".to_owned(),
        task_tags: "[\"infra\"]".to_owned(),
    });
    registry.legacy_rules.push(LegacyRule {
        id: "r-2".to_owned(),
        body: "Newer.".to_owned(),
        author: "geo".to_owned(),
        archived: true,
        created_at: 2,
        updated_at: 9,
        board_tags: "[\"ALL\"]".to_owned(),
        task_tags: "[]".to_owned(),
    });
    for _ in 0..2 {
        registry.legacy_events.push(LegacyEvent {
            rule_id: "r-1".to_owned(),
            kind: "rule_added".to_owned(),
            actor: "codex".to_owned(),
            payload: "{}".to_owned(),
            created_at: 3,
        });
    }
    let mut retirements: Vec<SourceRetirement> = Vec::new();
    let report = accepted(registry.consolidate_board_rules("geo", &[], &mut retirements));
    assert!(report.legacy_registry_migrated);
    assert_eq!(report.legacy_rules_imported, 1);
    assert_eq!(report.legacy_rules_updated, 1);
    assert_eq!(report.legacy_events_imported, 2);
    assert!(retirements.is_empty());
    assert_eq!(
        accepted(registry.rule("r-1")).tags,
        texts(&["ALL", "infra"])
    );
    let changed = accepted(registry.rule("r-2"));
    assert_eq!(changed.body, "Newer.");
    assert_eq!(changed.created_at, 1, "an update moved the time of creation");
    assert!(registry
        .migrations
        .iter()
        .any(|mark| mark.board_path == LEGACY_SOURCE));
    let copies = registry
        .events
        .iter()
        .filter(|event| event.rule_id == "r-1" && event.kind == "rule_added")
        .count();
    assert_eq!(copies, 2);

    let again = accepted(registry.consolidate_board_rules("geo", &[], &mut retirements));
    assert!(again.legacy_registry_already_migrated);
    assert!(!again.legacy_registry_migrated);
    assert_eq!(again.legacy_rules_imported, 0);
}

#[test]
fn board_rules_move_into_the_registry() {
    let mut registry = registry_with(HERE, &["Alpha"]);
    let mut own = rule("r-7", &["infra"]);
    own.body = "Board rule.".to_owned();
    let mut gone = rule("r-8", &[]);
    gone.archived = true;
    let sources = [BoardSource {
        board_path: "/data/boards/Alpha.db".to_owned(),
        state: SourceState::Rules(vec![own, gone]),
    }];
    let mut retirements: Vec<SourceRetirement> = Vec::new();
    let report = accepted(registry.consolidate_board_rules("geo", &sources, &mut retirements));
    assert_eq!(report.boards_migrated, 1);
    assert_eq!(report.boards_already_migrated, 0);
    assert_eq!(report.rules_imported + report.rules_already_imported, 2);
    let taken = registry
        .rules
        .iter()
        .find(|rule| rule.source_rule_id.as_deref() == Some("r-7"))
        .unwrap();
    assert_eq!(taken.body, "Board rule.");
    assert_eq!(taken.tags, texts(&["ONLY:Alpha", "infra"]));
    assert_eq!(taken.source_board.as_deref(), Some("Alpha"));
    assert_eq!(retirements.len(), 1);
    assert_eq!(retirements[0].rule_id, "r-7");
    assert_eq!(retirements[0].canonical_rule_id, taken.id);

    let before = registry.rules.len();
    let again = accepted(registry.consolidate_board_rules("geo", &sources, &mut retirements));
    assert_eq!(again.boards_already_migrated, 1);
    assert_eq!(again.rules_imported, 0);
    assert_eq!(registry.rules.len(), before);
}

#[test]
fn a_board_that_cannot_be_read_stops_the_consolidation() {
    let path = "/data/boards/Alpha.db";
    let source = |state: SourceState| {
        [BoardSource {
            board_path: path.to_owned(),
            state,
        }]
    };
    let mut retirements: Vec<SourceRetirement> = Vec::new();
    let mut registry = registry_with(HERE, &["Alpha"]);
    assert_eq!(
        refusal(registry.consolidate_board_rules(" ", &[], &mut retirements)),
        "author is required"
    );
    assert_eq!(
        refusal(registry.consolidate_board_rules(
            "geo",
            &source(SourceState::Missing),
            &mut retirements
        )),
        format!("cannot consolidate rules for board Alpha: {path} is not a readable board file")
    );
    assert_eq!(
        refusal(registry.consolidate_board_rules(
            "geo",
            &source(SourceState::Unopened),
            &mut retirements
        )),
        "open board Alpha for rule consolidation"
    );
    assert!(refusal(registry.consolidate_board_rules(
        "geo",
        &source(SourceState::Unreadable("locked".to_owned())),
        &mut retirements
    ))
    .contains("locked"));
    let mut twin = board("Alpha");
    twin.board_path = "/data/boards/twin.db".to_owned();
    registry.boards.push(twin);
    assert_eq!(
        refusal(registry.consolidate_board_rules("geo", &[], &mut retirements)),
        "cannot consolidate rules for board Alpha: 2 active boards share that name"
    );
}

#[test]
fn a_system_event_speaks_of_the_registry() {
    let mut registry = registry_with(HERE, &[]);
    accepted(registry.record_system_event_at("backup", " geo ", "{\"ok\":true}", 7));
    assert_eq!(registry.events[0].rule_id, "registry");
    assert_eq!(registry.events[0].actor, "geo");
    assert_eq!(
        refusal(registry.record_system_event("backup", "", "{}")),
        "author is required"
    );
    assert_eq!(registry.events.len(), 1);
}

#[test]
fn rule_tags_are_board_selectors_and_then_task_tags() {
    let registry = registry_with(HERE, &["Alpha", "Beta"]);
    let tag = |name: &str| TaskTag {
        name: Ok(name.to_owned()),
        nearest: None,
    };
    let known = texts(&["infra"]);
    assert_eq!(
        accepted(registry.canonical_rule_tags(
            &texts(&["Beta"]),
            &[],
            &[tag("infra")],
            &known
        )),
        texts(&["ONLY:Beta", "infra"])
    );
    assert_eq!(
        refusal(registry.canonical_rule_tags(&texts(&["Gamma"]), &[], &[tag("zzz")], &known)),
        "no registered Kanban board named Gamma"
    );
}

#[test]
fn rules_change_at_the_time_of_the_clock() {
    let mut registry = registry_with(HERE, &["Alpha"]);
    let added = accepted(registry.add_rule("x", "codex", &texts(&["ONLY:Alpha"])));
    assert!(added.id.starts_with("r-"));
    assert_eq!(added.id.len(), 10);
    assert!(added.created_at > 0);
    let changed = accepted(registry.update_rule(
        &added.id,
        Some("y"),
        None,
        None,
        &[],
        "geo",
    ));
    assert_eq!(changed.body, "y");
    assert!(changed.updated_at >= added.updated_at);
    let files = readable(&registry);
    let bundle = accepted(registry.export_rules("geo", &texts(&["Alpha"]), &files, healthy()));
    assert_eq!(bundle.rules.len(), 1);
    assert_eq!(bundle.rules[0].body, "y");
    assert!(bundle.exported_at > 0);
    let gone = accepted(registry.retire_rule(&added.id, "geo"));
    assert!(gone.archived);
    assert!(gone.updated_at >= changed.updated_at);
}

#[test]
fn a_refused_bundle_is_refused_whatever_is_drawn() {
    let mut registry = registry_with(HERE, &["Alpha", "Beta"]);
    let mut bundle = exported();
    bundle.format_version = 2;
    let files = readable(&registry);
    assert_eq!(
        refusal(registry.import_rules("geo", bundle, &files)),
        "rule transfer bundle version 2 is not supported"
    );
    assert!(registry.rules.is_empty());
    let report = accepted(registry.import_rules("geo", exported(), &files));
    assert_eq!(report.imported_rules, 2);
}

#[test]
fn a_registry_uuid_has_one_of_four_forms() {
    let plain = "550e8400e29b41d4a716446655440000";
    let hyphenated = "550E8400-e29b-41d4-a716-446655440000";
    let braced = format!("{{{hyphenated}}}");
    let urn = format!("URN:uuid:{hyphenated}");
    for good in [plain, hyphenated, &braced, &urn] {
        assert_eq!(accepted(validate_registry_uuid(good)), good);
    }
    let loose = format!("{hyphenated}0");
    let half = format!("{{{plain}}}");
    let wide = "550e8400e29b41d4a71644665544000\u{e9}";
    for bad in ["", &plain[1..], &loose, &half, wide] {
        assert!(validate_registry_uuid(bad).is_err(), "accepted {bad:?}");
    }
}

#[test]
fn a_taken_id_is_stepped_on_from() {
    let taken = texts(&["r-00000005", "r-00000006", "r-ffffffff"]);
    assert_eq!(next_free("r-", "00000004", &taken, &[]), "r-00000004");
    assert_eq!(next_free("r-", "r-00000005", &taken, &[]), "r-00000007");
    assert_eq!(
        next_free("r-", "r-ffffffff", &taken, &texts(&["r-00000000"])),
        "r-00000001"
    );
    assert_eq!(next_free("r-", "deadbeef", &[], &[]), "r-deadbeef");
    assert_eq!(draw_rule_ids(&taken, 0), Some(Vec::new()));
}

#[test]
fn a_board_rule_whose_id_is_taken_gets_a_drawn_one() {
    let mut registry = registry_with(HERE, &["Alpha", "Beta"]);
    registry.rules.push(rule("r-1", &["ALL"]));
    let sources: Vec<BoardSource> = ["Alpha", "Beta"]
        .iter()
        .map(|name| BoardSource {
            board_path: format!("/data/boards/{name}.db"),
            state: SourceState::Rules(vec![rule("r-1", &[]), rule("r-2", &[])]),
        })
        .collect();
    let mut retirements: Vec<SourceRetirement> = Vec::new();
    let report = accepted(registry.consolidate_board_rules("geo", &sources, &mut retirements));
    assert_eq!(report.rules_imported, 4);
    assert_eq!(retirements.len(), 4);
    let ids = ids_of(&registry.rules);
    assert!(repeated(&ids).is_none());
    assert_eq!(ids[0], "r-1");
    assert_eq!(ids[2], "r-2");
    for drawn in [&ids[1], &ids[3], &ids[4]] {
        assert_eq!(drawn.len(), 10);
    }
    let again = accepted(registry.consolidate_board_rules("geo", &sources, &mut retirements));
    assert_eq!(again.boards_already_migrated, 2);
    assert_eq!(again.rules_imported + again.rules_already_imported, 0);
    assert!(retirements.is_empty());
}

#[test]
fn given_ids_are_used_in_turn() {
    let mut registry = registry_with(HERE, &["Alpha", "Beta"]);
    registry.rules.push(rule("r-1", &["ALL"]));
    let sources: Vec<BoardSource> = ["Alpha", "Beta"]
        .iter()
        .map(|name| BoardSource {
            board_path: format!("/data/boards/{name}.db"),
            state: SourceState::Rules(vec![rule("r-1", &[]), rule("r-2", &[])]),
        })
        .collect();
    let ids = texts(&["r-a", "r-b", "r-c", "r-d"]);
    let mut retirements: Vec<SourceRetirement> = Vec::new();
    let report = accepted(registry.consolidate_board_rules_as(
        "geo",
        &sources,
        &ids,
        1234,
        &mut retirements,
    ));
    assert_eq!(report.boards_migrated, 2);
    assert_eq!(report.rules_imported, 4);
    assert_eq!(
        ids_of(&registry.rules),
        texts(&["r-1", "r-a", "r-2", "r-b", "r-c"])
    );
    let due: Vec<(&str, &str)> = retirements
        .iter()
        .map(|r| (r.rule_id.as_str(), r.canonical_rule_id.as_str()))
        .collect();
    assert_eq!(
        due,
        vec![("r-1", "r-a"), ("r-2", "r-2"), ("r-1", "r-b"), ("r-2", "r-c")]
    );
    assert_eq!(
        retirements[0].payload(),
        "{\"canonicalBoard\":\"Alpha\",\"canonicalRuleID\":\"r-a\",\"ruleID\":\"r-1\"}"
    );
    assert!(registry.events.iter().all(|event| event.created_at == 1234));
}

#[test]
fn an_import_draws_ids_for_new_rules_only() {
    let mut registry = registry_with(HERE, &["Alpha", "Beta"]);
    let files = readable(&registry);
    let first = accepted(registry.import_rules("geo", exported(), &files));
    assert_eq!(first.imported_rules + first.already_imported_rules, 2);
    let before = ids_of(&registry.rules);
    let second = accepted(registry.import_rules("other", exported(), &files));
    assert_eq!(second.imported_rules, 0);
    assert_eq!(second.already_imported_rules, 2);
    assert_eq!(ids_of(&registry.rules), before);
}
