//! Access policy: the lattice, what changes it, and what is denied.

use kanban::lattice::authority;
use kanban::lattice::satisfies;
use kanban::lattice::Authority;
use kanban::lattice::AuthorityEntry;
use kanban::lattice::Capability;
use kanban::lattice::ScopeTuple;
use kanban::policy::accepts_changes;
use kanban::policy::chained_epoch;
use kanban::policy::kind_advances_epoch;
use kanban::policy::policy_event_id;
use kanban::policy::short_id;
use kanban::policy::EPOCH_KINDS;
use kanban::policy_journal::PolicyActor;
use kanban::policy_journal::PolicyContext;
use kanban::policy_ops::PolicyDraw;
use kanban::policy_state::GrantOrigin;
use kanban::policy_state::GrantState;
use kanban::tables::BoardRow;
use kanban::tables::Registry;

fn held(list: &[(ScopeTuple, Capability)]) -> Authority {
    authority(
        list.iter()
            .map(|(scope, capability)| AuthorityEntry {
                scope: scope.clone(),
                capability: *capability,
            })
            .collect(),
    )
}

fn test_registry() -> Registry {
    Registry::new("/root".to_owned(), None)
}

fn board_row(path: &str, name: &str) -> BoardRow {
    BoardRow {
        board_path: path.to_owned(),
        name: name.to_owned(),
        created_at: 1,
        last_used_at: 1,
        archived: false,
        archived_at: None,
        archived_by: None,
        archived_note: None,
        retirement_id: None,
    }
}

fn context() -> PolicyContext {
    PolicyContext {
        authn_kind: "socket_peer".to_owned(),
        peer_uid: 1000,
        real_uid: None,
        effective_uid: None,
        client_kind: "cli".to_owned(),
        request_id: short_id("rq"),
        claimed_actor: Some("geoyws".to_owned()),
        reason: Some("test".to_owned()),
        provider: None,
        subject: None,
    }
}

fn actor(
    principal_id: Option<&str>,
    username: &str,
    uid: u32,
    epoch: i64,
    hash: &str,
) -> PolicyActor {
    PolicyActor {
        principal_id: principal_id.map(str::to_owned),
        username: username.to_owned(),
        uid,
        epoch,
        state_hash: hash.to_owned(),
        context: context(),
    }
}

/// An actor at the live epoch: each operation runs under a fresh context.
fn mint(registry: &Registry, principal_id: &str, username: &str, uid: u32) -> PolicyActor {
    let (epoch, hash) = registry.live_policy_state();
    actor(Some(principal_id), username, uid, epoch, &hash)
}

fn root(registry: &Registry) -> PolicyActor {
    let (epoch, hash) = registry.live_policy_state();
    actor(None, "root", 0, epoch, &hash)
}

/// A registry with one board (`b1`), and its first administrator.
fn bootstrapped() -> (Registry, String) {
    let mut registry = test_registry();
    registry.boards.push(board_row("/root/boards/b1.db", "b1"));
    let root_actor = root(&registry);
    let admin = registry
        .policy_bootstrap("geoyws", 1000, &root_actor)
        .unwrap();
    (registry, admin.row.id)
}

#[test]
fn lattice_defaults_to_none_at_every_tuple_shape() {
    let authority = held(&[]);
    for tuple in [
        ScopeTuple::Registry,
        ScopeTuple::Board {
            board_id: "b1".into(),
        },
        ScopeTuple::BoardTag {
            board_id: "b1".into(),
            tag: "s".into(),
        },
        ScopeTuple::BoardWildcard {
            board_id: "b1".into(),
        },
    ] {
        assert!(
            !satisfies(&authority, &tuple, Capability::Read),
            "empty authority must deny read on {tuple:?}"
        );
    }
}

#[test]
fn lattice_joins_two_levels_on_one_tuple_to_the_max() {
    let tuple = ScopeTuple::BoardTag {
        board_id: "b1".into(),
        tag: "s".into(),
    };
    let authority = held(&[
        (tuple.clone(), Capability::Read),
        (tuple.clone(), Capability::Write),
    ]);
    assert!(satisfies(&authority, &tuple, Capability::Write));
    assert!(satisfies(&authority, &tuple, Capability::Read));
    assert!(!satisfies(&authority, &tuple, Capability::Admin));
    assert_eq!(authority.get(&tuple), Some(Capability::Write));
}

#[test]
fn lattice_tuples_are_incomparable() {
    let registry_tuple = ScopeTuple::Registry;
    let board_tuple = ScopeTuple::Board {
        board_id: "b1".into(),
    };
    let tag_tuple = ScopeTuple::BoardTag {
        board_id: "b1".into(),
        tag: "s".into(),
    };
    let other_board_tag = ScopeTuple::BoardTag {
        board_id: "b2".into(),
        tag: "s".into(),
    };

    let authority = held(&[
        (registry_tuple.clone(), Capability::Admin),
        (board_tuple.clone(), Capability::Admin),
    ]);
    // registry admin grants nothing on a board or tag tuple
    assert!(!satisfies(&authority, &tag_tuple, Capability::Read));
    // board admin grants nothing on a tag tuple
    assert!(!satisfies(&authority, &tag_tuple, Capability::Read));
    // no cross-board leak
    assert!(!satisfies(&authority, &other_board_tag, Capability::Read));
    // but the exact tuples themselves hold
    assert!(satisfies(&authority, &registry_tuple, Capability::Admin));
    assert!(satisfies(&authority, &board_tuple, Capability::Admin));
}

#[test]
fn wildcard_satisfies_tag_tuples_at_equal_and_higher_capability() {
    let wildcard = ScopeTuple::BoardWildcard {
        board_id: "b1".into(),
    };
    let tag = ScopeTuple::BoardTag {
        board_id: "b1".into(),
        tag: "s".into(),
    };
    let authority = held(&[(wildcard.clone(), Capability::Write)]);

    assert!(satisfies(&authority, &tag, Capability::Read));
    assert!(satisfies(&authority, &tag, Capability::Write));
    // NON-satisfaction below the wildcard's capability
    assert!(!satisfies(&authority, &tag, Capability::Admin));
}

#[test]
fn wildcard_is_not_a_parent_of_tag_tuples() {
    let wildcard = ScopeTuple::BoardWildcard {
        board_id: "b1".into(),
    };
    let tag = ScopeTuple::BoardTag {
        board_id: "b1".into(),
        tag: "s".into(),
    };
    let wildcard_authority = held(&[(wildcard.clone(), Capability::Write)]);
    let tag_authority = held(&[(tag.clone(), Capability::Admin)]);

    // A later tag grant does not exceed the wildcard: the wildcard authority
    // alone is still only write.
    assert!(!satisfies(&wildcard_authority, &tag, Capability::Admin));
    // And a tag grant does not lower or raise the wildcard itself.
    assert!(!satisfies(&tag_authority, &wildcard, Capability::Read));
    assert!(satisfies(&tag_authority, &tag, Capability::Admin));
    // The wildcard only satisfies tags on its own board.
    let other_board_tag = ScopeTuple::BoardTag {
        board_id: "b2".into(),
        tag: "s".into(),
    };
    assert!(!satisfies(
        &wildcard_authority,
        &other_board_tag,
        Capability::Read
    ));
}

#[test]
fn grantor_with_write_cannot_grant_admin_on_the_same_tuple() {
    let (mut registry, admin_id) = bootstrapped();
    let mut admin_actor = mint(&registry, &admin_id, "geoyws", 1000);
    let bob = registry
        .bind_principal("bob", 2000, &[], &admin_actor)
        .unwrap()
        .row
        .id;
    admin_actor = mint(&registry, &admin_id, "geoyws", 1000);
    let carol = registry
        .bind_principal("carol", 3000, &[], &admin_actor)
        .unwrap()
        .row
        .id;
    admin_actor = mint(&registry, &admin_id, "geoyws", 1000);
    registry
        .grant(&bob, &ScopeTuple::Registry, Capability::Admin, &admin_actor)
        .unwrap();
    admin_actor = mint(&registry, &admin_id, "geoyws", 1000);
    let board = ScopeTuple::Board {
        board_id: "b1".into(),
    };
    registry
        .grant(&bob, &board, Capability::Write, &admin_actor)
        .unwrap();
    let bob_actor = mint(&registry, &bob, "bob", 2000);

    // bob (registry admin, but only write on the board) cannot grant admin.
    let err = registry
        .grant(&carol, &board, Capability::Admin, &bob_actor)
        .expect_err("bob with write must not grant admin");
    assert_eq!(err.to_string(), "denied or not found");
    // bob can grant at or below write.
    registry
        .grant(&carol, &board, Capability::Write, &bob_actor)
        .unwrap();
}

#[test]
fn grantor_cannot_grant_on_a_tuple_it_holds_nothing_at() {
    let (mut registry, admin_id) = bootstrapped();
    let mut admin_actor = mint(&registry, &admin_id, "geoyws", 1000);
    let bob = registry
        .bind_principal("bob", 2000, &[], &admin_actor)
        .unwrap()
        .row
        .id;
    admin_actor = mint(&registry, &admin_id, "geoyws", 1000);
    let carol = registry
        .bind_principal("carol", 3000, &[], &admin_actor)
        .unwrap()
        .row
        .id;
    admin_actor = mint(&registry, &admin_id, "geoyws", 1000);
    registry
        .grant(&bob, &ScopeTuple::Registry, Capability::Admin, &admin_actor)
        .unwrap();
    admin_actor = mint(&registry, &admin_id, "geoyws", 1000);
    let b1 = ScopeTuple::Board {
        board_id: "b1".into(),
    };
    registry
        .grant(&bob, &b1, Capability::Write, &admin_actor)
        .unwrap();
    let bob_actor = mint(&registry, &bob, "bob", 2000);

    let b2 = ScopeTuple::Board {
        board_id: "b2".into(),
    };
    let err = registry
        .grant(&carol, &b2, Capability::Read, &bob_actor)
        .expect_err("bob holds nothing on b2");
    assert_eq!(err.to_string(), "denied or not found");
}

#[test]
fn grantor_can_grant_via_the_wildcard_rule() {
    let (mut registry, admin_id) = bootstrapped();
    let mut admin_actor = mint(&registry, &admin_id, "geoyws", 1000);
    let bob = registry
        .bind_principal("bob", 2000, &[], &admin_actor)
        .unwrap()
        .row
        .id;
    admin_actor = mint(&registry, &admin_id, "geoyws", 1000);
    let carol = registry
        .bind_principal("carol", 3000, &[], &admin_actor)
        .unwrap()
        .row
        .id;
    admin_actor = mint(&registry, &admin_id, "geoyws", 1000);
    registry
        .grant(&bob, &ScopeTuple::Registry, Capability::Admin, &admin_actor)
        .unwrap();
    admin_actor = mint(&registry, &admin_id, "geoyws", 1000);
    let wildcard = ScopeTuple::BoardWildcard {
        board_id: "b1".into(),
    };
    registry
        .grant(&bob, &wildcard, Capability::Write, &admin_actor)
        .unwrap();
    let bob_actor = mint(&registry, &bob, "bob", 2000);

    let tag = ScopeTuple::BoardTag {
        board_id: "b1".into(),
        tag: "s".into(),
    };
    // bob satisfies (tag, write) via the wildcard, so may grant it.
    registry
        .grant(&carol, &tag, Capability::Write, &bob_actor)
        .unwrap();
    // but may not grant admin (above what the wildcard satisfies).
    let err = registry
        .grant(&carol, &tag, Capability::Admin, &bob_actor)
        .expect_err("wildcard write must not escalate to admin");
    assert_eq!(err.to_string(), "denied or not found");
}

#[test]
fn revoke_of_a_missing_active_triple_refuses_naming_the_triple() {
    let (mut registry, admin_id) = bootstrapped();
    let mut admin_actor = mint(&registry, &admin_id, "geoyws", 1000);
    let bob = registry
        .bind_principal("bob", 2000, &[], &admin_actor)
        .unwrap()
        .row
        .id;
    admin_actor = mint(&registry, &admin_id, "geoyws", 1000);
    let board = ScopeTuple::Board {
        board_id: "b1".into(),
    };
    let err = registry
        .revoke(&bob, &board, Capability::Read, &admin_actor)
        .expect_err("revoking a never-granted triple must refuse");
    let message = err.to_string();
    assert!(message.contains(&bob), "{message}");
    assert!(message.contains("b1"), "{message}");
    assert!(message.contains("read"), "{message}");
}

#[test]
fn bind_freezes_a_pair_and_fail_closed_uid_reuse_denies_divergence() {
    let (mut registry, admin_id) = bootstrapped();
    let admin_actor = mint(&registry, &admin_id, "geoyws", 1000);
    let alice = registry
        .bind_principal("alice", 1001, &[], &admin_actor)
        .unwrap()
        .row;
    assert!(alice.id.starts_with("p-"));
    assert_eq!(alice.username, "alice");
    assert_eq!(alice.uid, 1001);
    assert!(alice.enabled);
    let full = registry.principal(&alice.id).unwrap();
    assert!(full.grants.is_empty());
    assert!(full.sso_mappings.is_empty());

    // The two-way check: a username-only or uid-only divergence denies.
    assert!(registry.resolve_principal("alice", 9999).is_none());
    assert!(
        registry
            .resolve_principal("mallory", 1001)
            .is_none()
    );
    let resolved = registry.resolve_principal("alice", 1001);
    assert!(resolved.is_some());
    assert_eq!(resolved.unwrap().row.id, alice.id);
}

#[test]
fn disable_makes_grants_ineffective_without_deleting() {
    let (mut registry, admin_id) = bootstrapped();
    let mut admin_actor = mint(&registry, &admin_id, "geoyws", 1000);
    let bob = registry
        .bind_principal("bob", 2000, &[], &admin_actor)
        .unwrap()
        .row
        .id;
    admin_actor = mint(&registry, &admin_id, "geoyws", 1000);
    let board = ScopeTuple::Board {
        board_id: "b1".into(),
    };
    registry
        .grant(&bob, &board, Capability::Read, &admin_actor)
        .unwrap();
    admin_actor = mint(&registry, &admin_id, "geoyws", 1000);
    registry.disable_principal(&bob, &admin_actor).unwrap();
    let principal = registry.principal(&bob).unwrap();
    assert!(!principal.row.enabled);
    assert!(principal.row.disabled_at_epoch.is_some());
    assert!(registry.resolve_principal("bob", 2000).is_none());
    assert_eq!(principal.grants.len(), 1);
}

#[test]
fn rebind_transfers_grants_and_retires_the_source_in_one_event() {
    let (mut registry, admin_id) = bootstrapped();
    let mut admin_actor = mint(&registry, &admin_id, "geoyws", 1000);
    let alice = registry
        .bind_principal("alice", 1001, &[], &admin_actor)
        .unwrap()
        .row
        .id;
    admin_actor = mint(&registry, &admin_id, "geoyws", 1000);
    let board = ScopeTuple::Board {
        board_id: "b1".into(),
    };
    registry
        .grant(&alice, &board, Capability::Write, &admin_actor)
        .unwrap();
    admin_actor = mint(&registry, &admin_id, "geoyws", 1000);
    let tag = ScopeTuple::BoardTag {
        board_id: "b1".into(),
        tag: "s".into(),
    };
    registry
        .grant(&alice, &tag, Capability::Read, &admin_actor)
        .unwrap();
    admin_actor = mint(&registry, &admin_id, "geoyws", 1000);
    registry
        .map_sso(&alice, "google", "subject-1", &admin_actor)
        .unwrap();
    admin_actor = mint(&registry, &admin_id, "geoyws", 1000);

    let successor = registry
        .rebind_principal(&alice, "alice2", 1002, &[], &admin_actor)
        .unwrap()
        .row;
    assert_eq!(successor.predecessor_id.as_deref(), Some(alice.as_str()));
    assert_eq!(successor.uid, 1002);

    let old = registry.principal(&alice).unwrap().row;
    assert!(!old.enabled);
    assert_eq!(old.successor_id.as_deref(), Some(successor.id.as_str()));

    let successor_full = registry.principal(&successor.id).unwrap();
    assert_eq!(successor_full.grants.len(), 2);
    for grant in &successor_full.grants {
        assert_eq!(grant.origin, GrantOrigin::RebindTransfer);
        assert!(grant.transferred_from_grant_id.is_some());
    }
    assert_eq!(successor_full.sso_mappings.len(), 1);
    let old_grants = registry.principal(&alice).unwrap().grants;
    assert_eq!(old_grants.len(), 2);
    assert!(old_grants.iter().all(|g| g.state == GrantState::Retired));
}

#[test]
fn bootstrap_seeds_registry_and_every_board_tuple() {
    let mut registry = test_registry();
    registry.boards.push(board_row(
        "/root/boards/11111111-1111-1111-1111-111111111111.db",
        "a",
    ));
    registry.boards.push(board_row(
        "/root/boards/22222222-2222-2222-2222-222222222222.db",
        "b",
    ));
    let root_actor = root(&registry);
    let admin = registry
        .policy_bootstrap("geoyws", 1000, &root_actor)
        .unwrap();
    // 1 registry + 2 boards * (board + wildcard) = 5 seeded grants.
    assert_eq!(admin.grants.len(), 5);
    assert_eq!(registry.policy_epoch(), 1);
    for grant in &admin.grants {
        assert_eq!(grant.origin, GrantOrigin::Bootstrap);
        assert!(grant.granted_by_principal_id.is_none());
        assert_eq!(grant.capability, Capability::Admin);
    }
    assert!(
        admin
            .grants
            .iter()
            .any(|g| g.scope_tuple() == ScopeTuple::Registry)
    );
    assert!(admin.grants.iter().any(|g| {
        g.scope_tuple()
            == ScopeTuple::Board {
                board_id: "11111111-1111-1111-1111-111111111111".into(),
            }
    }));
    assert!(admin.grants.iter().any(|g| {
        g.scope_tuple()
            == ScopeTuple::BoardWildcard {
                board_id: "22222222-2222-2222-2222-222222222222".into(),
            }
    }));
}

#[test]
fn breakglass_registry_admin_grants_with_root_origin_and_null_grantor() {
    let (mut registry, admin_id) = bootstrapped();
    let admin_actor = mint(&registry, &admin_id, "geoyws", 1000);
    let bob = registry
        .bind_principal("bob", 2000, &[], &admin_actor)
        .unwrap()
        .row
        .id;
    let root_actor = root(&registry);
    let grant = registry
        .breakglass_grant_registry_admin(&bob, &root_actor)
        .unwrap();
    assert_eq!(grant.origin, GrantOrigin::BreakglassRegistryAdmin);
    assert!(grant.granted_by_principal_id.is_none());
    assert_eq!(grant.scope_tuple(), ScopeTuple::Registry);
    assert_eq!(grant.capability, Capability::Admin);
}

#[test]
fn replay_rebuilds_the_projection_and_matches_every_epoch_hash() {
    let (mut registry, admin_id) = bootstrapped();
    let mut admin_actor = mint(&registry, &admin_id, "geoyws", 1000);
    let bob = registry
        .bind_principal("bob", 2000, &[], &admin_actor)
        .unwrap()
        .row
        .id;
    admin_actor = mint(&registry, &admin_id, "geoyws", 1000);
    let board = ScopeTuple::Board {
        board_id: "b1".into(),
    };
    registry
        .grant(&bob, &board, Capability::Write, &admin_actor)
        .unwrap();
    admin_actor = mint(&registry, &admin_id, "geoyws", 1000);
    let tag = ScopeTuple::BoardTag {
        board_id: "b1".into(),
        tag: "s".into(),
    };
    registry
        .grant(&bob, &tag, Capability::Read, &admin_actor)
        .unwrap();
    admin_actor = mint(&registry, &admin_id, "geoyws", 1000);
    registry
        .revoke(&bob, &board, Capability::Write, &admin_actor)
        .unwrap();
    admin_actor = mint(&registry, &admin_id, "geoyws", 1000);
    registry
        .map_sso(&bob, "google", "sub-123", &admin_actor)
        .unwrap();
    registry
        .replay_policy()
        .expect("replay must reproduce the projection");

    admin_actor = mint(&registry, &admin_id, "geoyws", 1000);
    registry.disable_principal(&bob, &admin_actor).unwrap();
    registry.replay_policy().expect("replay after disable");
}

#[test]
fn stale_context_is_refused_with_a_generic_denial() {
    let (mut registry, admin_id) = bootstrapped();
    let admin_actor = mint(&registry, &admin_id, "geoyws", 1000);
    let bob = registry
        .bind_principal("bob", 2000, &[], &admin_actor)
        .unwrap()
        .row
        .id;
    let board = ScopeTuple::Board {
        board_id: "b1".into(),
    };
    let stale = actor(Some(&admin_id), "geoyws", 1000, 0, "deadbeef");
    let err = registry
        .grant(&bob, &board, Capability::Read, &stale)
        .expect_err("a stale context must be refused");
    assert_eq!(err.to_string(), "denied or not found");
}

fn board(id: &str) -> ScopeTuple {
    ScopeTuple::Board {
        board_id: id.to_owned(),
    }
}

/// A registry with an administrator and another principal, bob.
fn with_bob() -> (Registry, String, String) {
    let (mut registry, admin_id) = bootstrapped();
    let admin = mint(&registry, &admin_id, "geoyws", 1000);
    let bob = registry
        .bind_principal("bob", 2000, &[], &admin)
        .unwrap()
        .row
        .id;
    (registry, admin_id, bob)
}

/// The outcome, stage and code of the last audit row.
fn last_audit(registry: &Registry) -> (String, Option<String>, Option<String>) {
    let row = registry.policy.audits.last().expect("an audit row");
    (
        row.outcome.clone(),
        row.decision_stage.clone(),
        row.decision_code.clone(),
    )
}

fn denied(stage: &str, code: &str) -> (String, Option<String>, Option<String>) {
    (
        "denied".to_owned(),
        Some(stage.to_owned()),
        Some(code.to_owned()),
    )
}

#[test]
fn every_change_advances_the_epoch_by_one_and_a_denial_by_none() {
    let (mut registry, admin_id, bob) = with_bob();
    assert_eq!(registry.policy_epoch(), 2);
    let admin = mint(&registry, &admin_id, "geoyws", 1000);
    registry
        .grant(&bob, &board("b1"), Capability::Read, &admin)
        .unwrap();
    assert_eq!(registry.policy_epoch(), 3);
    let hash = registry.policy_state_hash();
    let admin = mint(&registry, &admin_id, "geoyws", 1000);
    registry
        .grant(&bob, &board("b1"), Capability::Read, &admin)
        .expect_err("the triple is held already");
    assert_eq!(last_audit(&registry), denied("scope", "already_held"));
    assert_eq!(registry.policy_epoch(), 3);
    assert_eq!(registry.policy_state_hash(), hash);
    assert_eq!(registry.policy.events.len(), 3);
    registry.replay_policy().expect("the journals account for it");
    let last = registry.policy.epochs.last().unwrap();
    assert_eq!(last.epoch, 3);
    assert_eq!(last.resulting_state_hash, hash);
}

#[test]
fn event_ids_are_padded_and_every_kind_advances_the_epoch() {
    assert_eq!(policy_event_id(1), "pe-00000001");
    assert_eq!(policy_event_id(123_456_789), "pe-123456789");
    for kind in EPOCH_KINDS {
        assert!(kind_advances_epoch(kind), "{kind}");
    }
    assert!(!kind_advances_epoch("access_denied"));
    let id = short_id("g");
    assert_eq!(id.len(), 10);
    assert!(id.starts_with("g-"));
}

#[test]
fn a_bootstrap_is_made_once_by_root_for_another_pair() {
    let mut registry = test_registry();
    let as_root = root(&registry);
    assert_eq!(
        registry
            .policy_bootstrap("root", 0, &as_root)
            .expect_err("a root pair")
            .message,
        "bootstrap refuses a root pair"
    );
    assert_eq!(
        registry
            .policy_bootstrap("  ", 1000, &as_root)
            .expect_err("no name")
            .message,
        "bootstrap requires a username"
    );
    registry.policy_bootstrap(" geoyws ", 1000, &as_root).unwrap();
    let again = root(&registry);
    assert_eq!(
        registry
            .policy_bootstrap("geoyws", 1000, &again)
            .expect_err("not empty")
            .message,
        "denied or not found"
    );
    assert_eq!(
        last_audit(&registry),
        denied("enforcement", "not_empty_policy")
    );
}

#[test]
fn a_pair_is_bound_to_one_principal_and_reuse_is_acknowledged() {
    let (mut registry, admin_id, bob) = with_bob();
    let admin = mint(&registry, &admin_id, "geoyws", 1000);
    let error = registry
        .bind_principal("bob", 2001, &[], &admin)
        .expect_err("the name is taken");
    assert!(error.message.contains(&bob), "{}", error.message);
    assert_eq!(last_audit(&registry), denied("principal", "collision"));
    registry.disable_principal(&bob, &admin).unwrap();
    let admin = mint(&registry, &admin_id, "geoyws", 1000);
    let error = registry
        .bind_principal("bob", 2000, &[], &admin)
        .expect_err("the disabled principal must be acknowledged");
    assert!(
        error
            .message
            .starts_with("username or UID reuse must acknowledge every colliding disabled principal"),
        "{}",
        error.message
    );
    let admin = mint(&registry, &admin_id, "geoyws", 1000);
    let next = registry
        .bind_principal("bob", 2000, &[bob.clone()], &admin)
        .unwrap();
    assert_eq!(next.row.replaces, [bob]);
    assert_eq!(
        registry
            .bind_principal("  ", 1, &[], &admin)
            .expect_err("no name")
            .message,
        "bind requires a username"
    );
}

#[test]
fn disabling_takes_a_principal_that_is_there_and_enabled() {
    let (mut registry, admin_id, bob) = with_bob();
    let admin = mint(&registry, &admin_id, "geoyws", 1000);
    registry
        .disable_principal("p-00000000", &admin)
        .expect_err("nobody");
    assert_eq!(last_audit(&registry), denied("principal", "not_found"));
    registry.disable_principal(&bob, &admin).unwrap();
    let admin = mint(&registry, &admin_id, "geoyws", 1000);
    registry
        .disable_principal(&bob, &admin)
        .expect_err("disabled already");
    assert_eq!(
        last_audit(&registry),
        denied("principal", "already_disabled")
    );
    let enabled: Vec<String> = registry
        .principals(false)
        .into_iter()
        .map(|p| p.row.id)
        .collect();
    assert_eq!(enabled, [admin_id]);
    assert_eq!(registry.principals(true).len(), 2);
}

#[test]
fn rebinding_needs_a_new_pair() {
    let (mut registry, admin_id, bob) = with_bob();
    let admin = mint(&registry, &admin_id, "geoyws", 1000);
    registry
        .rebind_principal("p-00000000", "bob2", 2002, &[], &admin)
        .expect_err("nobody");
    assert_eq!(last_audit(&registry), denied("principal", "not_found"));
    registry
        .rebind_principal(&bob, "bob", 2000, &[], &admin)
        .expect_err("the same pair");
    assert_eq!(last_audit(&registry), denied("principal", "same_pair"));
    assert_eq!(
        registry
            .rebind_principal(&bob, " ", 2000, &[], &admin)
            .expect_err("no name")
            .message,
        "rebind requires a username"
    );
    registry
        .rebind_principal(&bob, "geoyws", 2002, &[], &admin)
        .expect_err("a taken name");
    assert_eq!(last_audit(&registry), denied("principal", "collision"));
    registry.disable_principal(&bob, &admin).unwrap();
    let admin = mint(&registry, &admin_id, "geoyws", 1000);
    registry
        .rebind_principal(&bob, "bob2", 2002, &[], &admin)
        .expect_err("disabled");
    assert_eq!(last_audit(&registry), denied("principal", "not_enabled"));
}

#[test]
fn rebinding_hands_everything_over() {
    let (mut registry, admin_id, bob) = with_bob();
    let admin = mint(&registry, &admin_id, "geoyws", 1000);
    let given = registry
        .grant(&bob, &board("b1"), Capability::Write, &admin)
        .unwrap();
    let admin = mint(&registry, &admin_id, "geoyws", 1000);
    registry.map_sso(&bob, "google", "s-1", &admin).unwrap();
    let admin = mint(&registry, &admin_id, "geoyws", 1000);
    let epoch = registry.policy_epoch();
    let heir = registry
        .rebind_principal(&bob, "bob2", 2002, &[], &admin)
        .unwrap();
    assert_eq!(registry.policy_epoch(), epoch + 1);
    assert!(heir.row.enabled);
    assert_eq!(heir.row.predecessor_id.as_deref(), Some(bob.as_str()));
    assert_eq!(heir.grants.len(), 1);
    assert_eq!(heir.grants[0].capability, Capability::Write);
    assert_eq!(heir.grants[0].scope, given.scope);
    assert_eq!(heir.grants[0].transferred_from_grant_id, Some(given.id));
    assert_eq!(heir.sso_mappings.len(), 1);
    assert_eq!(heir.sso_mappings[0].subject, "s-1");
    assert_eq!(heir.sso_mappings[0].unmapped_at_epoch, None);
    let source = registry.principal(&bob).unwrap();
    assert!(!source.row.enabled);
    assert_eq!(source.row.successor_id, Some(heir.row.id));
    assert_eq!(source.grants[0].state, GrantState::Retired);
    assert_eq!(source.sso_mappings[0].unmapped_at_epoch, Some(epoch + 1));
}

#[test]
fn a_revoked_grant_is_retired_and_kept() {
    let (mut registry, admin_id, bob) = with_bob();
    let admin = mint(&registry, &admin_id, "geoyws", 1000);
    let given = registry
        .grant(&bob, &board("b1"), Capability::Write, &admin)
        .unwrap();
    let before = registry.explain(&bob, &board("b1"), Capability::Read);
    assert_eq!(before.outcome, "allowed");
    assert_eq!(before.matched_grant_ids, [given.id.clone()]);
    assert_eq!(before.denial_reason, None);
    let admin = mint(&registry, &admin_id, "geoyws", 1000);
    registry
        .revoke(&bob, &board("b1"), Capability::Write, &admin)
        .unwrap();
    let kept = registry.principal(&bob).unwrap().grants;
    assert_eq!(kept.len(), 1);
    assert_eq!(kept[0].state, GrantState::Retired);
    let after = registry.explain(&bob, &board("b1"), Capability::Read);
    assert_eq!(after.outcome, "denied");
    assert!(after.matched_grant_ids.is_empty());
    assert_eq!(after.denial_reason.as_deref(), Some("denied or not found"));
    assert_eq!(
        after.required_scopes,
        [["board:b1".to_owned()]],
        "the scope in its atoms"
    );
    let admin = mint(&registry, &admin_id, "geoyws", 1000);
    registry
        .revoke(&bob, &board("b1"), Capability::Write, &admin)
        .expect_err("retired already");
    assert_eq!(last_audit(&registry), denied("scope", "missing_triple"));
}

#[test]
fn subjects_are_mapped_to_one_principal() {
    let (mut registry, admin_id, bob) = with_bob();
    let admin = mint(&registry, &admin_id, "geoyws", 1000);
    assert_eq!(
        registry
            .map_sso(&bob, "github", "s", &admin)
            .expect_err("another provider")
            .message,
        "the only supported SSO provider is google"
    );
    assert_eq!(
        registry
            .map_sso(&bob, "google", "", &admin)
            .expect_err("no subject")
            .message,
        "invalid SSO subject"
    );
    let mapping = registry.map_sso(&bob, "google", "s-1", &admin).unwrap();
    assert_eq!(mapping.subject, "s-1");
    let admin = mint(&registry, &admin_id, "geoyws", 1000);
    registry
        .map_sso(&bob, "google", "s-1", &admin)
        .expect_err("mapped already");
    assert_eq!(last_audit(&registry), denied("scope", "already_mapped"));
    registry.unmap_sso("google", "s-1", &admin).unwrap();
    let admin = mint(&registry, &admin_id, "geoyws", 1000);
    let error = registry
        .unmap_sso("google", "s-1", &admin)
        .expect_err("unmapped already");
    assert!(
        error
            .message
            .starts_with("denied or not found: no active mapping for google"),
        "{}",
        error.message
    );
    registry.replay_policy().expect("the journals account for it");
}

#[test]
fn an_emergency_grant_needs_a_policy_and_a_receiver_without_it() {
    let mut empty = test_registry();
    let as_root = root(&empty);
    empty
        .breakglass_grant_registry_admin("p-00000000", &as_root)
        .expect_err("no policy yet");
    assert_eq!(last_audit(&empty), denied("enforcement", "empty_policy"));
    let (mut registry, admin_id, bob) = with_bob();
    let as_root = root(&registry);
    registry
        .breakglass_grant_registry_admin(&admin_id, &as_root)
        .expect_err("an administrator already");
    assert_eq!(last_audit(&registry), denied("scope", "already_admin"));
    registry
        .breakglass_grant_registry_admin(&bob, &as_root)
        .unwrap();
    registry.replay_policy().expect("the journals account for it");
    let bob_actor = mint(&registry, &bob, "bob", 2000);
    registry
        .bind_principal("carol", 3000, &[], &bob_actor)
        .expect("bob administers the registry now");
}

#[test]
fn nobody_acts_without_a_principal_that_administers_the_registry() {
    let (mut registry, _, bob) = with_bob();
    let nobody = root(&registry);
    registry
        .grant(&bob, &board("b1"), Capability::Read, &nobody)
        .expect_err("no principal");
    assert_eq!(last_audit(&registry), denied("principal", "no_principal"));
    let bob_actor = mint(&registry, &bob, "bob", 2000);
    assert_eq!(
        registry
            .grant(&bob, &board("b1"), Capability::Read, &bob_actor)
            .expect_err("not an administrator")
            .message,
        "denied or not found"
    );
    let (epoch, _) = registry.live_policy_state();
    let stale = actor(Some(&bob), "bob", 2000, epoch, "another state");
    registry
        .grant(&bob, &board("b1"), Capability::Read, &stale)
        .expect_err("another state");
    assert_eq!(last_audit(&registry), denied("epoch", "stale_context"));
}

#[test]
fn replay_finds_a_projection_that_the_journals_do_not_account_for() {
    let (mut registry, admin_id, bob) = with_bob();
    let admin = mint(&registry, &admin_id, "geoyws", 1000);
    registry
        .grant(&bob, &board("b1"), Capability::Read, &admin)
        .unwrap();
    registry.replay_policy().unwrap();
    registry.policy.grants.remove(0);
    assert_eq!(
        registry.replay_policy().expect_err("a grant is gone").message,
        "replayed grants do not match the materialized projection"
    );
    let (mut registry, _, _) = with_bob();
    registry.policy.epochs.last_mut().unwrap().epoch = 9;
    assert_eq!(
        registry.replay_policy().expect_err("a gap").message,
        "epochs are not consecutive"
    );
    let (mut registry, _, _) = with_bob();
    registry.policy.events.remove(1);
    assert!(registry.replay_policy().is_err());
}

#[test]
fn a_change_with_given_ids_is_exact() {
    let mut registry = test_registry();
    registry.boards.push(board_row("/root/boards/b1.db", "b1"));
    let as_root = root(&registry);
    let draw = PolicyDraw {
        audit_id: "aa-1".to_owned(),
        principal_id: "p-1".to_owned(),
        grant_ids: vec!["g-1".to_owned(), "g-2".to_owned(), "g-3".to_owned()],
        mapping_ids: Vec::new(),
        now: 77,
    };
    let admin = registry
        .policy_bootstrap_as("geoyws", 1000, &as_root, &draw)
        .unwrap();
    assert_eq!(admin.row.id, "p-1");
    assert_eq!(admin.row.bound_by_event_id, "pe-00000001");
    let ids: Vec<&str> = admin.grants.iter().map(|g| g.id.as_str()).collect();
    assert_eq!(ids, ["g-1", "g-2", "g-3"]);
    let event = &registry.policy.events[0];
    assert_eq!(event.seq, 1);
    assert_eq!(event.payload.kind, "bootstrap");
    assert_eq!(event.payload.occurred_at, 77);
    assert_eq!(event.payload.before_epoch, 0);
    assert_eq!(event.payload.after_epoch, 1);
    assert_eq!(event.payload.delta.seeded_grant_ids, ids);
    let audit = &registry.policy.audits[0];
    assert_eq!(audit.id, "aa-1");
    assert_eq!(audit.outcome, "allowed");
}

#[test]
fn scopes_are_written_as_atoms_and_read_back() {
    let list = |atoms: &[&str]| -> Vec<String> {
        atoms.iter().map(|atom| (*atom).to_owned()).collect()
    };
    let wildcard = ScopeTuple::BoardWildcard {
        board_id: "b1".to_owned(),
    };
    for scope in [
        ScopeTuple::Registry,
        board("b1"),
        ScopeTuple::BoardTag {
            board_id: "b1".to_owned(),
            tag: "ops".to_owned(),
        },
        wildcard.clone(),
    ] {
        let atoms = scope.to_atoms();
        assert_eq!(ScopeTuple::from_atoms(&atoms).unwrap(), scope);
    }
    assert!(ScopeTuple::from_atoms(&list(&["tag:ops"])).is_err());
    assert!(ScopeTuple::from_atoms(&list(&[])).is_err());
    assert!(ScopeTuple::from_atoms(&list(&["registry", "board:b1"])).is_err());
    for text in ["read", "write", "admin"] {
        assert_eq!(Capability::from_str(text).unwrap().as_str(), text);
    }
    assert_eq!(Capability::from_str("owner"), None);
    assert!(Capability::Admin.at_least(Capability::Write));
    assert!(!Capability::Read.at_least(Capability::Write));
}

#[test]
fn an_id_in_use_changes_nothing() {
    let (mut registry, admin) = bootstrapped();
    let member = registry
        .bind_principal("member", 1001, &[], &mint(&registry, &admin, "geoyws", 1000))
        .unwrap();
    let taken = registry.policy.grants[0].id.clone();
    let draw = PolicyDraw {
        audit_id: "pa-1".to_owned(),
        principal_id: "p-9".to_owned(),
        grant_ids: vec![taken],
        mapping_ids: Vec::new(),
        now: 5,
    };
    let by = mint(&registry, &admin, "geoyws", 1000);
    let before = registry.live_policy_state();
    let scope = board("b1");
    let refused = registry
        .grant_as(&member.row.id, &scope, Capability::Read, &by, &draw)
        .unwrap_err();
    assert_eq!(refused.to_string(), "UNIQUE constraint failed: grants.id");
    assert_eq!(registry.live_policy_state(), before);
    assert!(accepts_changes(&registry.policy));
    registry
        .grant(&member.row.id, &scope, Capability::Read, &by)
        .unwrap();
    let held = registry.principal_authority(&member.row.id);
    assert!(satisfies(&held, &scope, Capability::Read));
    assert!(!satisfies(&held, &scope, Capability::Write));
    registry.policy.grants.swap(0, 1);
    assert!(!accepts_changes(&registry.policy));
}

#[test]
fn a_star_is_no_tag() {
    let atoms = |list: &[&str]| -> Vec<String> { list.iter().map(|a| (*a).to_owned()).collect() };
    assert_eq!(
        ScopeTuple::from_atoms(&atoms(&["board:b", "tag:*"]))
            .unwrap_err()
            .to_string(),
        "* is not a tag"
    );
    let read = ScopeTuple::from_atoms(&atoms(&["tag:ops", "board:b"])).unwrap();
    assert_eq!(read.to_atoms(), atoms(&["board:b", "tag:ops"]));
    let wildcard = ScopeTuple::from_atoms(&atoms(&["*", "board:b"])).unwrap();
    assert_eq!(wildcard.to_atoms(), atoms(&["board:b", "*"]));
}

#[test]
fn a_scope_without_a_tag_is_not_granted() {
    let (mut registry, admin_id, bob) = with_bob();
    let starred = ScopeTuple::BoardTag {
        board_id: "b1".to_owned(),
        tag: "*".to_owned(),
    };
    let epoch = registry.policy_epoch();
    let hash = registry.policy_state_hash();
    let admin = mint(&registry, &admin_id, "geoyws", 1000);
    let refused = registry
        .grant(&bob, &starred, Capability::Read, &admin)
        .unwrap_err();
    assert_eq!(refused.to_string(), "* is not a tag");
    assert_eq!(registry.policy_epoch(), epoch);
    assert_eq!(registry.policy_state_hash(), hash);
    assert!(registry.principal(&bob).unwrap().grants.is_empty());
    registry
        .grant(&bob, &board("b1"), Capability::Read, &admin)
        .unwrap();
    assert_eq!(registry.policy_epoch(), epoch + 1);
}

#[test]
fn a_disabled_principal_holds_nothing() {
    let (mut registry, admin_id, bob) = with_bob();
    let scope = board("b1");
    let admin = mint(&registry, &admin_id, "geoyws", 1000);
    registry
        .grant(&bob, &scope, Capability::Read, &admin)
        .unwrap();
    assert!(satisfies(
        &registry.principal_authority(&bob),
        &scope,
        Capability::Read
    ));
    assert_eq!(registry.explain(&bob, &scope, Capability::Read).outcome, "allowed");
    let admin = mint(&registry, &admin_id, "geoyws", 1000);
    registry.disable_principal(&bob, &admin).unwrap();
    assert!(!satisfies(
        &registry.principal_authority(&bob),
        &scope,
        Capability::Read
    ));
    let receipt = registry.explain(&bob, &scope, Capability::Read);
    assert_eq!(receipt.outcome, "denied");
    assert!(receipt.matched_grant_ids.is_empty());
    assert_eq!(registry.principal(&bob).unwrap().grants.len(), 1);
    assert!(!satisfies(
        &registry.principal_authority("p-00000000"),
        &scope,
        Capability::Read
    ));
}

#[test]
fn replay_checks_the_hash_of_every_epoch() {
    let (mut registry, _, _) = with_bob();
    registry.replay_policy().unwrap();
    assert_eq!(registry.policy.epochs.len(), 2);
    registry.policy.epochs[0].resulting_state_hash = "wrong".to_owned();
    registry.policy.epochs[1].previous_state_hash = "wrong".to_owned();
    assert_eq!(
        registry.replay_policy().expect_err("a wrong hash").message,
        "epoch 1 resulting state hash does not match replay"
    );
}

#[test]
fn revoking_undoes_granting() {
    let (mut registry, admin_id, bob) = with_bob();
    let scope = board("b1");
    let epoch = registry.policy_epoch();
    let admin = mint(&registry, &admin_id, "geoyws", 1000);
    let given = registry
        .grant(&bob, &scope, Capability::Read, &admin)
        .unwrap();
    let admin = mint(&registry, &admin_id, "geoyws", 1000);
    let taken = registry
        .revoke(&bob, &scope, Capability::Read, &admin)
        .unwrap();
    assert_eq!(taken.id, given.id);
    assert_eq!(taken.state, GrantState::Revoked);
    assert_eq!(registry.policy_epoch(), epoch + 2);
    assert!(!satisfies(
        &registry.principal_authority(&bob),
        &scope,
        Capability::Read
    ));
    assert_eq!(registry.principal(&bob).unwrap().grants.len(), 1);
}

#[test]
fn an_epoch_carries_the_hash_of_its_chained_event() {
    let (registry, _) = bootstrapped();
    let epoch = &registry.policy.epochs[0];
    assert_eq!(epoch.policy_event_hash, "");
    let kept = chained_epoch(epoch, "abc");
    assert_eq!(kept.policy_event_hash, "abc");
    assert_eq!(kept.resulting_state_hash, epoch.resulting_state_hash);
    assert_eq!(kept.policy_event_seq, epoch.policy_event_seq);
}
