//! Text, JSON, order, and the plain records.

use kanban::json::text_member;
use kanban::json::write_array;
use kanban::json::write_boolean;
use kanban::json::write_member;
use kanban::json::write_object;
use kanban::json::write_optional;
use kanban::lattice::Capability;
use kanban::lattice::ScopeTuple;
use kanban::ranking::sort_texts;
use kanban::records::priority_level;
use kanban::records::Claim;
use kanban::records::ClaimSummary;
use kanban::records::BOARD_EVENT_KINDS;
use kanban::records::TASK_STATUSES;
use kanban::subscriptions::DeadLetterCode;
use kanban::subscriptions::DeadLetterEntry;
use kanban::subscriptions::PositionEntry;
use kanban::subscriptions::SubscriptionPosition;
use kanban::subscriptions::SubscriptionPositions;
use kanban::text::contains;
use kanban::text::holds;
use kanban::text::join;
use kanban::text::less;
use kanban::text::lines;
use kanban::text::show_i64;
use kanban::text::show_u64;
use kanban::text::split;
use kanban::text::starts_with;
use kanban::text::strip_prefix;
use kanban::text::trim;
use kanban::text::white_space;

fn texts(list: &[&str]) -> Vec<String> {
    list.iter().map(|item| (*item).to_owned()).collect()
}

#[test]
fn texts_agree_with_the_standard_library() {
    let samples = [
        "",
        " ",
        "\u{a0}\u{2003} mid dle \u{3000}\u{85}",
        "a\r\nb\n\nc\n",
        "\r\n",
        "äöü",
        "x,y,,z",
    ];
    for sample in samples {
        assert_eq!(trim(sample), sample.trim());
        assert_eq!(trim(trim(sample)), trim(sample));
        let expected: Vec<String> = sample.lines().map(str::to_owned).collect();
        assert_eq!(lines(sample), expected);
        let expected: Vec<String> = sample.split(',').map(str::to_owned).collect();
        assert_eq!(split(sample, ','), expected);
        for other in samples {
            assert_eq!(less(sample, other), sample < other);
            assert_eq!(contains(sample, other), sample.contains(other));
            assert_eq!(starts_with(sample, other), sample.starts_with(other));
            assert_eq!(strip_prefix(sample, other), sample.strip_prefix(other));
        }
    }
    for code in 0..0x3100u32 {
        if let Some(c) = char::from_u32(code) {
            assert_eq!(white_space(c), c.is_whitespace());
        }
    }
    assert_eq!(join(&texts(&["a", "b", "c"]), ", "), "a, b, c");
    assert_eq!(join(&[], ", "), "");
    assert!(holds(&texts(&["a", "b"]), "b"));
    for n in [0, 9, 10, u64::MAX] {
        assert_eq!(show_u64(n), n.to_string());
    }
    for n in [0, -1, 10, i64::MIN, i64::MAX] {
        assert_eq!(show_i64(n), n.to_string());
    }
}

#[test]
fn sorting_keeps_every_text() {
    assert_eq!(
        sort_texts(texts(&["b", "a", "b", "Z", "ä", ""])),
        texts(&["", "Z", "a", "b", "b", "ä"])
    );
}

#[test]
fn json_is_written_compactly() {
    assert_eq!(text_member("a", "x\"\n"), "\"a\":\"x\\\"\\n\"");
    assert_eq!(write_array(&texts(&["a", "b"])), "[\"a\",\"b\"]");
    assert_eq!(write_array(&[]), "[]");
    assert_eq!(write_optional(&None), "null");
    assert_eq!(write_optional(&Some("ü".to_owned())), "\"ü\"");
    assert_eq!(write_boolean(true), "true");
    let object = write_object(&[write_member("n", "1"), text_member("t", "\u{1}")]);
    assert_eq!(object, "{\"n\":1,\"t\":\"\\u0001\"}");
    let read: serde_json::Value = serde_json::from_str(&object).unwrap();
    assert_eq!(read["t"], "\u{1}");
}

#[test]
fn a_scope_is_read_back_from_its_atoms() {
    for scope in [
        ScopeTuple::Registry,
        ScopeTuple::Board {
            board_id: "b1".into(),
        },
        ScopeTuple::BoardTag {
            board_id: "b1".into(),
            tag: "infra".into(),
        },
        ScopeTuple::BoardWildcard {
            board_id: "b1".into(),
        },
    ] {
        let atoms = scope.to_atoms();
        match ScopeTuple::from_atoms(&atoms) {
            Ok(read) => assert!(read.same(&scope)),
            Err(error) => panic!("{}", error.to_string()),
        }
    }
    assert!(ScopeTuple::from_atoms(&texts(&["nonsense"])).is_err());
    for capability in [Capability::Read, Capability::Write, Capability::Admin] {
        assert!(Capability::from_str(capability.as_str()) == Some(capability));
        assert!(capability.at_least(Capability::Read));
    }
    assert!(Capability::from_str("owner").is_none());
}

#[test]
fn a_priority_has_a_name_or_none() {
    for (priority, level) in [(0, "P0"), (2, "P0"), (3, "P1"), (5, "P1"), (6, "P2"), (9, "P2")] {
        assert_eq!(priority_level(priority), Some(level));
    }
    assert_eq!(priority_level(10), None);
    assert_eq!(priority_level(-1), None);
    assert_eq!(TASK_STATUSES.len(), 8);
    assert_eq!(BOARD_EVENT_KINDS.len(), 39);
}

#[test]
fn a_claim_is_summarised_without_its_token() {
    let claim = Claim {
        task_id: "t-1".to_owned(),
        agent_id: "codex".to_owned(),
        session_id: Some("s".to_owned()),
        lease_token: "lease".to_owned(),
        claimed_at: 1,
        heartbeat_at: 2,
        expires_at: 3,
        worktree: None,
        worktree_kind: None,
        branch: None,
        head_sha: None,
        root_head: None,
    };
    let summary = ClaimSummary::from(&claim);
    assert_eq!(summary.task_id, "t-1");
    assert_eq!(summary.agent_id, "codex");
    assert_eq!(summary.session_id.as_deref(), Some("s"));
    assert_eq!(
        (summary.claimed_at, summary.heartbeat_at, summary.expires_at),
        (1, 2, 3)
    );
}

#[test]
fn a_subscription_without_deliveries_stands_at_zero() {
    let mut positions = SubscriptionPositions::default();
    positions.by_subscription.push(PositionEntry {
        subscription_id: "s-1".to_owned(),
        position: SubscriptionPosition {
            acked_through_seq: Some(7),
            pending: 1,
            leased: 2,
            retry_wait: 3,
            dead_letter: 4,
        },
    });
    positions.dead_letters.push(DeadLetterEntry {
        subscription_id: "s-1".to_owned(),
        codes: vec![DeadLetterCode {
            code: "refused".to_owned(),
            deliveries: 4,
        }],
    });
    assert_eq!(positions.position("s-1").acked_through_seq, Some(7));
    assert_eq!(positions.position("s-1").dead_letter, 4);
    assert_eq!(positions.position("s-2").acked_through_seq, None);
    assert_eq!(positions.position("s-2").pending, 0);
    assert_eq!(positions.dead_letter_codes("s-1")[0].code, "refused");
    assert!(positions.dead_letter_codes("s-2").is_empty());
}
