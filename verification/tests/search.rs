//! Searching: words, ids, full-text matches, results and receipts.

use kanban::records::SearchOptions;
use kanban::records::UnreadableBoard;
use kanban::rules::Rule;
use kanban::search::bound_receipt;
use kanban::search::bound_receipt_at;
use kanban::search::search;
use kanban::search::search_rules;
use kanban::search::readable_documents;
use kanban::search::Candidate;
use kanban::search::Guarded;
use kanban::search::RuleCandidate;
use kanban::search::SearchResult;
use kanban::search_index::document_row_tags;
use kanban::search_index::document_text;
use kanban::search_index::embed_missing;
use kanban::search_index::embedding_is_current;
use kanban::search_index::fts_match_permitted;
use kanban::search_index::health;
use kanban::search_index::load_documents;
use kanban::search_index::match_plan;
use kanban::search_index::rebuild;
use kanban::search_index::source_hash;
use kanban::search_index::Document;
use kanban::search_index::MatchPlan;
use kanban::search_index::RowTags;
use kanban::search_index::TaskTags;
use kanban::search_index::EMBEDDING_BYTES;
use kanban::search_index::EMBEDDING_MODEL;
use kanban::search_index::STALE_INDEX_TAG;
use kanban::search_match::checked_permitted_counts;
use kanban::search_match::exact_score;
use kanban::search_match::literal_exact_score;
use kanban::search_match::permitted_counts;
use kanban::search_match::result_is_eligible;
use kanban::search_match::snippet;
use kanban::search_match::ExactHit;
use kanban::search_text::canonical_generated_id_query;
use kanban::search_text::concept;
use kanban::search_text::features;
use kanban::search_text::fts_query;
use kanban::search_text::hash_feature;
use kanban::search_text::split_whitespace;
use kanban::search_text::stem;
use kanban::search_text::words;
use rusqlite::Connection;

fn document(seq: i64, id: &str, title: &str, body: &str, tags: &str) -> Document {
    Document {
        seq,
        source_kind: "task".to_owned(),
        source_id: id.to_owned(),
        task_id: Some(id.to_owned()),
        title: title.to_owned(),
        body: body.to_owned(),
        status: None,
        lane: None,
        tags: tags.to_owned(),
        created_at: 0,
        updated_at: 0,
        archived: false,
        source_hash: None,
        embedding_model: None,
        embedding: None,
        event_task_id: None,
        event_payload: None,
    }
}

fn options(query: &str) -> SearchOptions {
    SearchOptions {
        query: query.to_owned(),
        source: None,
        status: None,
        tags: Vec::new(),
        lane: None,
        after: None,
        before: None,
        include_archived: false,
        limit: 10,
        max_chars: 4_000,
    }
}

fn texts(list: &[&str]) -> Vec<String> {
    list.iter().map(|text| (*text).to_owned()).collect()
}

/// The rows that a plan finds in a database.
fn run_plan(connection: &Connection, query: &str, permitted: &[i64]) -> Vec<i64> {
    let mut rows: Vec<i64> = Vec::new();
    match match_plan(query, permitted.len()) {
        MatchPlan::Nothing => {}
        MatchPlan::Restricted { query, sql } => {
            let mut values: Vec<rusqlite::types::Value> = Vec::new();
            values.push(query.into());
            for seq in permitted {
                values.push((*seq).into());
            }
            let mut statement = connection.prepare(&sql).unwrap();
            let found = statement
                .query_map(rusqlite::params_from_iter(values), |row| row.get::<_, i64>(0))
                .unwrap();
            for row in found {
                rows.push(row.unwrap());
            }
        }
        MatchPlan::Walk { query, sql } => {
            let mut statement = connection.prepare(&sql).unwrap();
            let found = statement
                .query_map([query], |row| row.get::<_, i64>(0))
                .unwrap();
            for row in found {
                rows.push(row.unwrap());
            }
        }
    }
    let mut matched = fts_match_permitted(&rows, permitted);
    matched.sort_unstable();
    matched
}

#[test]
fn restricted_match_agrees_with_filter_afterwards_on_both_branches() {
    let connection = Connection::open_in_memory().unwrap();
    connection
        .execute_batch(
            "CREATE VIRTUAL TABLE search_fts USING fts5(\
             title, body, tags, \
             tokenize='porter unicode61 remove_diacritics 2', prefix='2 3')",
        )
        .unwrap();
    {
        let mut insert = connection
            .prepare("INSERT INTO search_fts(rowid,title,body,tags) VALUES(?,?,?,?)")
            .unwrap();
        for seq in 1..=1200_i64 {
            let body = if seq % 2 == 0 {
                format!("a short vault note harbourq{seq}vlt")
            } else {
                format!("an unrelated manifest entry number {seq}")
            };
            insert
                .execute((seq, format!("note {seq}"), body, ""))
                .unwrap();
        }
    }
    let all: Vec<i64> = (1..=1200_i64).collect();
    let full: Vec<i64> = (1..=1200_i64).filter(|seq| seq % 2 == 0).collect();
    // Large permitted set: past the chunk size, so the walk answers.
    assert!(matches!(
        match_plan("harbourq", all.len()),
        MatchPlan::Walk { .. }
    ));
    assert_eq!(run_plan(&connection, "harbourq", &all), full);
    assert_eq!(full.len(), 600);
    // Small permitted set: only even rows 2..=20 are readable.
    let permitted: Vec<i64> = (1..=20_i64).filter(|seq| seq % 2 == 0).collect();
    assert!(matches!(
        match_plan("harbourq", permitted.len()),
        MatchPlan::Restricted { .. }
    ));
    let restricted = run_plan(&connection, "harbourq", &permitted);
    assert_eq!(restricted, permitted);
    assert_eq!(restricted.len(), 10);
    // Denied rows are excluded even when they are the strongest matches.
    let denied_only: Vec<i64> = (1..=20_i64).filter(|seq| seq % 2 == 1).collect();
    assert!(run_plan(&connection, "harbourq", &denied_only).is_empty());
    // Empty permitted set and tokenless query short-circuit to empty.
    assert!(matches!(match_plan("harbourq", 0), MatchPlan::Nothing));
    assert!(run_plan(&connection, "harbourq", &[]).is_empty());
    assert!(matches!(match_plan("!!!", 10), MatchPlan::Nothing));
    assert!(run_plan(&connection, "!!!", &permitted).is_empty());
    // Repeated calls agree.
    assert_eq!(run_plan(&connection, "harbourq", &permitted), restricted);
}

#[test]
fn canonical_generated_id_queries_are_recognized_by_the_documented_shape() {
    for prefix in ["t", "e", "s", "sp", "d", "sr", "a", "h", "sub", "r"] {
        assert!(
            canonical_generated_id_query(&format!("{prefix}-1234abcd")),
            "{prefix}"
        );
    }
    assert!(canonical_generated_id_query(" t-1234abcd "));
    assert!(!canonical_generated_id_query("t-1234abc"));
    assert!(!canonical_generated_id_query("t-1234abcg"));
    assert!(!canonical_generated_id_query("t-1234ABCD"));
    assert!(!canonical_generated_id_query("foo-bar"));
    assert!(!canonical_generated_id_query("sub-12345678-extra"));
    assert!(canonical_generated_id_query("r-1234abcd"));
}

#[test]
fn canonical_generated_id_queries_keep_only_literal_hits() {
    let some = ExactHit::Words { hits: 2, of: 2 };
    let none = ExactHit::Words { hits: 0, of: 2 };
    assert!(result_is_eligible(
        "sub-deadbeef",
        ExactHit::TitlePart,
        true,
        true
    ));
    assert!(result_is_eligible(
        "sub-deadbeef",
        ExactHit::Body,
        false,
        false
    ));
    assert!(!result_is_eligible("sub-deadbeef", some, true, true));
    assert!(!result_is_eligible("sub-deadbeef", none, true, true));
    assert!(result_is_eligible(
        "keep old completed items",
        none,
        false,
        true
    ));
    assert!(result_is_eligible(
        "keep-old-completed-items",
        none,
        false,
        true
    ));
    assert!(!result_is_eligible(
        "keep old completed items",
        none,
        false,
        false
    ));
}

#[test]
fn literal_exact_score_ignores_tag_only_canonical_id_collisions() {
    let tagged = document(
        1,
        "t-tagged",
        "Tagged collision",
        "No literal match here.",
        "sub-deadbeef",
    );
    let literal = document(
        2,
        "t-literal",
        "Literal source body hit",
        "Keep sub-deadbeef in the source body.",
        "irrelevant",
    );
    let query_words = words("sub-deadbeef");
    assert_eq!(
        literal_exact_score(&tagged, "sub-deadbeef", &query_words),
        ExactHit::Words { hits: 0, of: 2 }
    );
    assert_eq!(
        literal_exact_score(&literal, "sub-deadbeef", &query_words),
        ExactHit::Body
    );
}

#[test]
fn exact_score_still_counts_tag_tokens_for_natural_language_queries() {
    let tagged = document(
        1,
        "t-tagged",
        "Tagged collision",
        "No literal match here.",
        "release ops",
    );
    let query_words = words("release ops");
    assert_eq!(
        exact_score(&tagged, "release ops", &query_words),
        ExactHit::Body
    );
    assert_eq!(
        literal_exact_score(&tagged, "release ops", &query_words),
        ExactHit::Words { hits: 0, of: 2 }
    );
}

#[test]
fn exact_hits_rank_the_id_over_the_title_over_the_body() {
    let d = document(1, "T-One", "Alpha Beta", "gamma delta", "");
    let hit = |query: &str| exact_score(&d, query, &words(query));
    assert_eq!(hit("t-one"), ExactHit::SourceId);
    assert_eq!(hit("ALPHA beta"), ExactHit::Title);
    assert_eq!(hit("alpha"), ExactHit::TitleStart);
    assert_eq!(hit("beta"), ExactHit::TitlePart);
    assert_eq!(hit("delta"), ExactHit::Body);
    assert_eq!(hit("gamma nothing"), ExactHit::Words { hits: 1, of: 2 });
}

#[test]
fn words_are_lowered_alphanumeric_runs_of_more_than_one_byte() {
    assert_eq!(
        words("Hello, a WORLD-2 é x1!"),
        texts(&["hello", "world", "é", "x1"])
    );
    assert!(words("a b c !").is_empty());
}

#[test]
fn stems_leave_the_first_ending_that_fits_out() {
    assert_eq!(stem("deployments"), "deploy");
    assert_eq!(stem("deployment"), "deploy");
    assert_eq!(stem("installing"), "install");
    assert_eq!(stem("continues"), "continu");
    assert_eq!(stem("sing"), "sing");
    assert_eq!(stem("abcs"), "abcs", "three bytes are not enough");
    assert_eq!(stem("abcds"), "abcd");
}

#[test]
fn stems_name_concepts() {
    assert_eq!(concept("deployments"), Some("concept-release"));
    assert_eq!(concept("handoff"), Some("concept-handoff"));
    assert_eq!(concept("passwords"), Some("concept-auth"));
    assert_eq!(concept("cold"), Some("concept-archive"));
    assert_eq!(concept("stale"), Some("concept-stale"));
    assert_eq!(concept("risk"), Some("concept-attention"));
    assert_eq!(concept("query"), Some("concept-search"));
    assert_eq!(concept("sqlite"), Some("concept-storage"));
    assert_eq!(concept("tasks"), Some("concept-work"));
    assert_eq!(concept("harbour"), None);
}

#[test]
fn a_full_text_query_names_each_word_once_and_twelve_at_most() {
    assert_eq!(
        fts_query("Release the release").as_deref(),
        Some("\"release\"* OR \"the\"*")
    );
    assert_eq!(fts_query("!!! a"), None);
    let many = "aa bb cc dd ee ff gg hh ii jj kk ll mm nn";
    assert_eq!(
        fts_query(many).unwrap().matches(" OR ").count(),
        11,
        "twelve terms"
    );
}

#[test]
fn the_features_of_a_text_are_weighed_by_kind() {
    let found: Vec<(String, u32)> = features("deploy it")
        .into_iter()
        .map(|feature| (feature.name, feature.weight))
        .collect();
    let expected: Vec<(String, u32)> = [
        ("deploy", 100),
        ("stem:deploy", 80),
        ("concept-release", 240),
        ("char:dep", 18),
        ("char:epl", 18),
        ("char:plo", 18),
        ("char:loy", 18),
        ("pair:deploy:it", 45),
        ("it", 100),
        ("stem:it", 80),
    ]
    .iter()
    .map(|(name, weight)| ((*name).to_owned(), *weight))
    .collect();
    assert_eq!(found, expected);
}

#[test]
fn features_hash_to_a_place_and_a_sign() {
    // 64-bit FNV-1a of the empty text and of "a".
    assert_eq!(
        hash_feature(""),
        ((0xcbf2_9ce4_8422_2325_u64 % 384) as usize, true)
    );
    assert_eq!(
        hash_feature("a"),
        ((0xaf63_dc4c_8601_ec8c_u64 % 384) as usize, true)
    );
}

#[test]
fn a_source_hash_changes_with_any_part_of_the_source() {
    let empty = Document {
        source_kind: String::new(),
        source_id: String::new(),
        task_id: None,
        ..document(1, "", "", "", "")
    };
    let mut hash = 0xcbf2_9ce4_8422_2325_u64;
    for _ in 0..8 {
        hash = hash.wrapping_mul(0x100_0000_01b3);
    }
    assert_eq!(source_hash(&empty), format!("{hash:016x}"));
    let one = document(1, "t-1", "ab", "c", "");
    let other = document(1, "t-1", "a", "bc", "");
    assert_ne!(source_hash(&one), source_hash(&other));
    assert_eq!(source_hash(&one).len(), 16);
    assert_eq!(document_text(&one), "ab c   ");
}

/// A document with an embedding of the current model.
fn embedded(seq: i64) -> Document {
    let mut d = document(seq, &format!("t-{seq}"), "title", "body", "");
    d.embedding = Some(vec![0; EMBEDDING_BYTES]);
    d.embedding_model = Some(EMBEDDING_MODEL.to_owned());
    d.source_hash = Some(source_hash(&d));
    d
}

#[test]
fn an_embedding_is_current_only_for_its_model_its_source_and_its_shape() {
    assert!(embedding_is_current(&embedded(1)));
    let mut changed = embedded(1);
    changed.body = "another body".to_owned();
    assert!(!embedding_is_current(&changed));
    let mut foreign = embedded(1);
    foreign.embedding_model = Some("another model".to_owned());
    assert!(!embedding_is_current(&foreign));
    let mut short = embedded(1);
    short.embedding = Some(vec![0; 4]);
    assert!(!embedding_is_current(&short));
}

#[test]
fn only_documents_without_a_current_embedding_are_embedded() {
    let mut foreign = embedded(2);
    foreign.embedding_model = Some("another model".to_owned());
    let mut unhashed = embedded(3);
    unhashed.source_hash = None;
    let list = [
        embedded(1),
        foreign,
        unhashed,
        document(4, "t-4", "title", "body", ""),
    ];
    assert_eq!(embed_missing(&list), [2, 3, 4]);
}

#[test]
fn health_names_every_gap_and_its_fix() {
    let healthy = health(1, 1, 1, &[embedded(1)]);
    assert!(healthy.healthy);
    assert!(healthy.unhealthy_because.is_empty());
    let mut stale = embedded(2);
    stale.body = "changed".to_owned();
    let sick = health(5, 3, 2, &[embedded(1), stale, document(3, "t-3", "t", "b", "")]);
    assert!(!sick.healthy);
    assert_eq!(sick.missing_embeddings, 1);
    assert_eq!(sick.stale_embeddings, 1);
    assert_eq!(
        sick.unhealthy_because,
        texts(&[
            "3 search documents for 5 source rows; \
             run `kb search-rebuild --project NAME --as ACTOR`",
            "3 search documents for 2 FTS rows; \
             run `kb search-rebuild --project NAME --as ACTOR`",
            "1 of 3 documents have no embedding; \
             run `kb search-rebuild --project NAME --as ACTOR`",
            "1 stale embeddings; run `kb search-rebuild --project NAME --as ACTOR`",
        ])
    );
}

#[test]
fn a_rebuild_needs_an_actor_and_reports_what_it_did() {
    assert_eq!(
        rebuild("board", "  ", 3, 5).unwrap_err().message,
        "actor is required"
    );
    let done = rebuild("board", " ann ", 3, 5).unwrap();
    assert_eq!(done.actor, "ann");
    assert_eq!(
        done.payload,
        "{\"documents\":3,\"embeddingModel\":\"kanban-semantic-lite-v1\"}"
    );
    assert_eq!(done.report.documents, 3);
    assert_eq!(done.report.embedded, 3);
    assert_eq!(done.report.duration_ms, 5);
    assert_eq!(
        rebuild("board", "ann", 3, u128::MAX).unwrap().report.duration_ms,
        i64::MAX
    );
}

#[test]
fn options_select_documents() {
    let take = |change: &dyn Fn(&mut SearchOptions)| {
        let mut wanted = options("a");
        change(&mut wanted);
        let mut d = document(1, "t-1", "a", "b", "ops release");
        d.status = Some("todo".to_owned());
        d.lane = Some("solo".to_owned());
        d.updated_at = 50;
        let mut o = document(2, "t-2", "a", "b", "opsrelease");
        o.archived = true;
        load_documents(vec![d, o], &wanted)
            .iter()
            .map(|d| d.seq)
            .collect::<Vec<_>>()
    };
    assert_eq!(take(&|_| {}), [1]);
    assert_eq!(take(&|o| o.include_archived = true), [1, 2]);
    assert_eq!(
        take(&|o| {
            o.include_archived = true;
            o.tags = texts(&["ops"]);
        }),
        [1],
        "a tag stands between spaces"
    );
    assert_eq!(take(&|o| o.source = Some("event".to_owned())), [] as [i64; 0]);
    assert_eq!(take(&|o| o.status = Some("todo".to_owned())), [1]);
    assert_eq!(take(&|o| o.lane = Some("other".to_owned())), [] as [i64; 0]);
    assert_eq!(take(&|o| o.after = Some(51)), [] as [i64; 0]);
    assert_eq!(take(&|o| o.before = Some(50)), [1]);
}

#[test]
fn stale_entries_are_authorised_against_a_tag_that_nobody_holds() {
    let stale = texts(&[STALE_INDEX_TAG]);
    assert_eq!(
        document_row_tags(RowTags::Other {
            task: TaskTags::Gone
        }),
        stale
    );
    assert_eq!(
        document_row_tags(RowTags::Attention {
            task: TaskTags::Present(texts(&["ops"])),
            own: None
        }),
        stale
    );
    assert_eq!(
        document_row_tags(RowTags::Attention {
            task: TaskTags::Present(texts(&["ops", "auth"])),
            own: Some(texts(&["ui", "ops"]))
        }),
        texts(&["auth", "ops", "ui"])
    );
    assert_eq!(
        document_row_tags(RowTags::Other {
            task: TaskTags::Removed(texts(&["b", "a", "b"]))
        }),
        texts(&["a", "b"])
    );
    assert!(document_row_tags(RowTags::Other {
        task: TaskTags::Unlinked
    })
    .is_empty());
    assert_eq!(
        document_row_tags(RowTags::Event(texts(&["z", "a"]))),
        texts(&["z", "a"])
    );
}

#[test]
fn a_snippet_starts_shortly_before_the_first_hit() {
    let d = document(1, "t-1", " Title ", " a  body\nhere ", "");
    assert_eq!(snippet(&d, &words("nothing")), "Title — a body here");
    let long = document(1, "t-1", "T", &format!("{} needle", "x".repeat(600)), "");
    let shown = snippet(&long, &words("needle"));
    assert!(shown.starts_with('…'), "{shown}");
    assert!(shown.ends_with("needle"), "{shown}");
    // "T — " takes six bytes, the filler six hundred and the space one; a hundred
    // before that is where the quotation starts.
    assert_eq!(shown.chars().count(), 1 + (4 + 600 + 1 + 6) - (6 + 600 + 1 - 100));
    let cut = snippet(&long, &words("nothing"));
    assert!(cut.ends_with('…'), "{cut}");
    assert_eq!(cut.chars().count(), 481);
}

#[test]
fn white_space_separates_runs() {
    assert_eq!(split_whitespace("  a\t b\n\nc "), texts(&["a", "b", "c"]));
    assert!(split_whitespace(" \n ").is_empty());
}

#[test]
fn counts_range_over_the_documents_that_may_be_read() {
    let list = [
        document(7, "t-7", "Release notes", "releasing the release", "ops"),
        document(8, "t-8", "Other", "nothing", "release"),
    ];
    let counts = permitted_counts(&list, "release ops").expect("terms and documents");
    assert_eq!(counts.total_length, 2 + 3 + 1 + 1 + 1 + 1);
    assert_eq!(counts.frequency, [2, 1]);
    assert_eq!(counts.documents[0].seq, 7);
    assert_eq!(counts.documents[0].length, 6);
    assert_eq!(counts.documents[0].hits[0].title, 1);
    // "releasing" is stemmed to "releas", which "release" does not start.
    assert_eq!(counts.documents[0].hits[0].body, 1);
    assert_eq!(counts.documents[0].hits[0].tags, 0);
    assert_eq!(counts.documents[0].hits[1].tags, 1);
    assert_eq!(counts.documents[1].hits[0].tags, 1);
    assert!(permitted_counts(&list, "!").is_none());
    assert!(permitted_counts(&[], "release").is_none());
    let checked = checked_permitted_counts(&list, "release ops").expect("few words");
    assert_eq!(checked.expect("terms and documents").frequency, counts.frequency);
}

fn candidate(document: Document, rank: i64) -> Candidate {
    Candidate {
        document,
        lexical: false,
        semantic: true,
        rank,
    }
}

#[test]
fn a_search_is_refused_by_name() {
    let refused = |wanted: &SearchOptions| {
        search("board", wanted, 500, Vec::new())
            .expect_err("refused")
            .message
    };
    assert_eq!(refused(&options("  ")), "search query is required");
    let mut wanted = options("a");
    wanted.limit = 0;
    assert_eq!(
        refused(&wanted),
        "search limit must be between 1 and 500"
    );
    wanted.limit = 501;
    assert_eq!(
        refused(&wanted),
        "search limit must be between 1 and 500"
    );
    let mut wanted = options("a");
    wanted.max_chars = 255;
    assert_eq!(
        refused(&wanted),
        "search max chars must be between 256 and 100000"
    );
    wanted.max_chars = 100_001;
    assert_eq!(
        refused(&wanted),
        "search max chars must be between 256 and 100000"
    );
}

#[test]
fn denied_documents_are_nowhere() {
    let index = |denied: &[i64]| -> Vec<Guarded> {
        (1..=4)
            .map(|seq| Guarded {
                document: document(seq, &format!("t-{seq}"), "Title", "release", ""),
                permitted: !denied.contains(&seq),
            })
            .collect()
    };
    let seqs = |documents: Vec<Document>| -> Vec<i64> {
        documents.into_iter().map(|d| d.seq).collect()
    };
    assert_eq!(seqs(readable_documents(index(&[2, 3]), true)), [1, 4]);
    assert_eq!(seqs(readable_documents(index(&[2, 3]), false)), [1, 2, 3, 4]);
    let mut fewer = index(&[2, 3]);
    fewer.remove(2);
    assert_eq!(seqs(readable_documents(fewer, true)), [1, 4]);
    assert!(readable_documents(index(&[1, 2, 3, 4]), true).is_empty());
}

#[test]
fn results_are_ranked() {
    let mut newer = document(3, "t-3", "Third", "release", "ops  ui");
    newer.updated_at = 9;
    let found = search(
        "board",
        &options("release"),
        500,
        vec![
            candidate(document(1, "t-1", "First", "release", ""), 5),
            candidate(document(2, "t-2", "Second", "release", ""), 7),
            candidate(newer, 5),
        ],
    )
    .unwrap();
    let ids: Vec<&str> = found.iter().map(|r| r.source_id.as_str()).collect();
    assert_eq!(ids, ["t-2", "t-3", "t-1"]);
    assert_eq!(found[0].citation, "kanban://board/task/t-2");
    assert_eq!(found[0].index, 1);
    assert_eq!(found[0].exact, ExactHit::Body);
    assert_eq!(found[1].tags, texts(&["ops", "ui"]));
    assert_eq!(found[0].snippet, "Second — release");
    let mut wanted = options("release");
    wanted.limit = 1;
    let first = search(
        "board",
        &wanted,
        500,
        vec![
            candidate(document(1, "t-1", "First", "release", ""), 5),
            candidate(document(2, "t-2", "Second", "release", ""), 7),
        ],
    )
    .unwrap();
    assert_eq!(first.len(), 1);
    assert_eq!(first[0].source_id, "t-2");
}

fn rule(id: &str, body: &str, archived: bool, tags: &[&str]) -> Rule {
    Rule {
        id: id.to_owned(),
        body: body.to_owned(),
        author: "ann".to_owned(),
        archived,
        created_at: 1,
        updated_at: 2,
        tags: texts(tags),
        source_board: None,
        source_rule_id: None,
        source_registry_uuid: None,
        source_boards: None,
        source_content_sha256: None,
    }
}

fn rule_candidates() -> Vec<RuleCandidate> {
    vec![
        RuleCandidate {
            rule: rule("r-00000001", "Never release on Friday\nmore", false, &["ALL"]),
            semantic: false,
            rank: 1,
        },
        RuleCandidate {
            rule: rule("r-00000002", "Release notes are short", true, &["ALL", "ops"]),
            semantic: false,
            rank: 2,
        },
        RuleCandidate {
            rule: rule("r-00000003", "Unrelated", false, &["ops"]),
            semantic: false,
            rank: 3,
        },
    ]
}

#[test]
fn rules_are_searched_where_they_are_asked_for() {
    let ids = |wanted: &SearchOptions| {
        search_rules(rule_candidates(), wanted)
            .iter()
            .map(|r| r.source_id.clone())
            .collect::<Vec<_>>()
    };
    let found = search_rules(rule_candidates(), &options("release"));
    assert_eq!(found.len(), 1);
    assert_eq!(found[0].title, "Never release on Friday");
    assert_eq!(found[0].snippet, "Never release on Friday more");
    assert_eq!(found[0].status.as_deref(), Some("active"));
    assert_eq!(found[0].citation, "kanban://rules/rule/r-00000001");
    assert_eq!(found[0].board, "rules");
    let mut all = options("release");
    all.include_archived = true;
    assert_eq!(ids(&all), texts(&["r-00000002", "r-00000001"]));
    all.status = Some("retired".to_owned());
    assert_eq!(ids(&all), texts(&["r-00000002"]));
    let mut tagged = options("unrelated");
    tagged.tags = texts(&["ops"]);
    assert_eq!(ids(&tagged), texts(&["r-00000003"]));
    assert_eq!(ids(&options("r-00000003")), texts(&["r-00000003"]));
    let mut elsewhere = options("release");
    elsewhere.source = Some("task".to_owned());
    assert!(ids(&elsewhere).is_empty());
    let mut laned = options("release");
    laned.lane = Some("solo".to_owned());
    assert!(ids(&laned).is_empty());
    let mut early = options("release");
    early.before = Some(1);
    assert!(ids(&early).is_empty());
    let mut late = options("release");
    late.after = Some(3);
    assert!(ids(&late).is_empty());
}

fn result(citation: &str, title: &str, snippet: &str, rank: i64) -> SearchResult {
    SearchResult {
        board: "b".to_owned(),
        source_kind: "task".to_owned(),
        source_id: "t".to_owned(),
        task_id: None,
        title: title.to_owned(),
        snippet: snippet.to_owned(),
        status: None,
        lane: None,
        tags: Vec::new(),
        created_at: 0,
        updated_at: 0,
        archived: false,
        exact: ExactHit::Body,
        rank,
        index: 0,
        citation: citation.to_owned(),
    }
}

#[test]
fn a_receipt_keeps_the_best_results_that_fit() {
    let results = vec![
        result("c2", "title", &"x".repeat(200), 5),
        result("c1", "title", &"y".repeat(200), 5),
        result("c3", "title", "z", 9),
    ];
    let receipt = bound_receipt_at(
        "q",
        texts(&["b"]),
        texts(&["gone"]),
        vec![UnreadableBoard {
            name: "n".to_owned(),
            board_path: "p".to_owned(),
            reason: "locked".to_owned(),
        }],
        results,
        10,
        300,
        77,
    );
    let order: Vec<&str> = receipt.results.iter().map(|r| r.citation.as_str()).collect();
    assert_eq!(order, ["c3", "c1"]);
    // Each result costs its title, its citation and eighty more, then its snippet.
    assert_eq!(receipt.results[0].snippet, "z");
    assert_eq!(
        receipt.results[1].snippet.chars().count(),
        300 - 88 - 87,
        "cut to what is left"
    );
    assert!(receipt.results[1].snippet.ends_with('…'));
    assert_eq!(receipt.result_chars, 300);
    assert!(receipt.truncated);
    assert_eq!(receipt.generated_at, 77);
    assert_eq!(receipt.embedding_model, EMBEDDING_MODEL);
    assert_eq!(receipt.unreadable_boards.len(), 1);
    let small = bound_receipt(
        "q",
        Vec::new(),
        Vec::new(),
        Vec::new(),
        vec![result("c", "t", "s", 1)],
        10,
        256,
    );
    assert!(!small.truncated);
    assert_eq!(small.results.len(), 1);
    assert!(small.generated_at > 0);
}
