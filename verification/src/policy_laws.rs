//! What every change of access policy keeps to.

use vstd::prelude::*;

use crate::keyed;
use crate::keyed::Row;
use crate::lattice;
use crate::lattice::Capability;
use crate::lattice::ScopeView;
use crate::policy;
use crate::policy::ChangeView;
use crate::policy::Denial;
use crate::policy::Principal;
use crate::policy_grants;
use crate::policy_journal::PolicyActor;
use crate::policy_journal::PolicyEpochPayload;
use crate::policy_ops;
use crate::policy_ops::DrawView;
use crate::policy_queries;
use crate::policy_replay;
use crate::policy_state;
use crate::policy_state::EffectView;
use crate::policy_state::Grant;
use crate::policy_state::GrantOrigin;
use crate::policy_state::GrantRetirementView;
use crate::policy_state::GrantState;
use crate::policy_state::GrantView;
use crate::policy_state::MappingRetirementView;
use crate::policy_state::PolicyState;
use crate::policy_state::PolicyTables;
use crate::policy_state::PrincipalRow;
use crate::policy_state::PrincipalView;
use crate::policy_state::SsoMapping;
use crate::policy_state::SsoView;
use crate::tables;
use crate::tables::Registry;
use crate::text;
use crate::text::Error;

verus! {

// ---------------------------------------------------------------------------- epochs

proof fn lemma_highest_push(epochs: Seq<PolicyEpochPayload>, e: PolicyEpochPayload)
    ensures
        policy::highest(epochs.push(e)) == match policy::highest(epochs) {
            None => Some(e.epoch),
            Some(known) => if e.epoch > known {
                Some(e.epoch)
            } else {
                Some(known)
            },
        },
{
    assert(epochs.push(e).drop_last() =~= epochs);
}

/// A change advances the epoch by exactly one.
pub proof fn law_change_advances_one_epoch(
    pre: PolicyTables,
    post: PolicyTables,
    actor: PolicyActor,
    c: ChangeView,
)
    requires
        policy::has_room(pre),
        policy::committed(pre, post, actor, c),
    ensures
        policy::epoch_of(post) == policy::epoch_of(pre) + 1,
{
    lemma_highest_push(pre.epochs@, post.epochs@.last());
}

/// A denial advances no epoch and changes nothing that policy is decided by.
pub proof fn law_denial_changes_no_policy(
    pre: PolicyTables,
    post: PolicyTables,
    actor: PolicyActor,
    operation: Seq<char>,
    denial: Denial,
    id: Seq<char>,
    now: i64,
)
    requires
        policy::audit_denied(pre, post, actor, operation, denial, id, now),
    ensures
        policy::epoch_of(post) == policy::epoch_of(pre),
        policy::live_state(post) == policy::live_state(pre),
        post.state() == pre.state(),
        post.events == pre.events,
{
}

// -------------------------------------------------------------------- accounted for

proof fn lemma_denied_accounts(pre: PolicyTables, post: PolicyTables)
    requires
        policy_replay::accounts(pre),
        post == (PolicyTables { audits: post.audits, ..pre }),
    ensures
        policy_replay::accounts(post),
{
    assert(post.state() == pre.state());
}

proof fn lemma_current_context(pre: PolicyTables, actor: PolicyActor)
    requires
        policy::context_denial(pre, actor) is None,
    ensures
        actor.state_hash@ == policy::live_state(pre).1,
{
}

/// The journals still account for the tables after a bootstrap.
pub proof fn law_bootstrap_is_accounted_for(
    pre: Registry,
    post: Registry,
    r: Result<Principal, Error>,
    username: Seq<char>,
    uid: u32,
    actor: PolicyActor,
    d: DrawView,
)
    requires
        policy_replay::accounts(pre.policy),
        policy_ops::bootstrapped(pre, post, r, username, uid, actor, d),
    ensures
        policy_replay::accounts(post.policy),
{
    if r is Ok {
        policy_replay::law_live_state(pre.policy);
        let scopes = policy_ops::seed_scopes(policy_ops::board_ids(pre.boards@));
        let row = policy_ops::new_principal(
            d.principal_id,
            text::trimmed(username),
            uid,
            1,
            policy::event_id(1),
            None,
            seq![],
        );
        let c = ChangeView {
            as_root: true,
            target_principal: Some(d.principal_id),
            delta: crate::policy_journal::DeltaView {
                seeded_grant_ids: d.grant_ids.take(scopes.len() as int),
                ..crate::policy_journal::no_delta()
            },
            ..policy::bare_change(
                "bootstrap"@,
                "access bootstrap"@,
                policy::event_id(1),
                EffectView {
                    principals: seq![row],
                    grants: policy_ops::seed_grants(scopes, d.grant_ids, d.principal_id),
                    ..policy_state::no_effect()
                },
                policy_state::state_hash(policy_state::empty_state()),
                d.audit_id,
                d.now,
            )
        };
        assert(pre.policy.epochs@.len() == 0);
        policy_replay::law_change_is_accounted_for(pre.policy, post.policy, actor, c);
    } else if post.policy != pre.policy {
        lemma_denied_accounts(pre.policy, post.policy);
    }
}

/// The journals still account for the tables after a principal was bound.
pub proof fn law_bind_is_accounted_for(
    pre: Registry,
    post: Registry,
    r: Result<Principal, Error>,
    username: Seq<char>,
    uid: u32,
    replaces: Seq<Seq<char>>,
    actor: PolicyActor,
    d: DrawView,
)
    requires
        policy_replay::accounts(pre.policy),
        policy_ops::principal_bound(pre, post, r, username, uid, replaces, actor, d),
    ensures
        policy_replay::accounts(post.policy),
{
    if r is Ok {
        let row = policy_ops::new_principal(
            d.principal_id,
            text::trimmed(username),
            uid,
            policy_ops::next_epoch(pre),
            policy_ops::next_id(pre),
            None,
            replaces,
        );
        let c = ChangeView {
            target_principal: Some(d.principal_id),
            ..policy::bare_change(
                "principal_bound"@,
                "access principal bind"@,
                policy_ops::next_id(pre),
                EffectView { principals: seq![row], ..policy_state::no_effect() },
                actor.state_hash@,
                d.audit_id,
                d.now,
            )
        };
        lemma_current_context(pre.policy, actor);
        policy_replay::law_change_is_accounted_for(pre.policy, post.policy, actor, c);
    } else if post.policy != pre.policy {
        lemma_denied_accounts(pre.policy, post.policy);
    }
}

/// The journals still account for the tables after a principal was disabled.
pub proof fn law_disable_is_accounted_for(
    pre: Registry,
    post: Registry,
    r: Result<Principal, Error>,
    id: Seq<char>,
    actor: PolicyActor,
    d: DrawView,
)
    requires
        policy_replay::accounts(pre.policy),
        policy_ops::principal_disabled(pre, post, r, id, actor, d),
    ensures
        policy_replay::accounts(post.policy),
{
    if r is Ok {
        let row = policy_ops::disabled_row(
            policy_ops::principal_at(pre, id)->0,
            policy_ops::next_epoch(pre),
            policy_ops::next_id(pre),
            None,
        );
        let c = ChangeView {
            target_principal: Some(id),
            ..policy::bare_change(
                "principal_disabled"@,
                "access principal disable"@,
                policy_ops::next_id(pre),
                EffectView { principals: seq![row], ..policy_state::no_effect() },
                actor.state_hash@,
                d.audit_id,
                d.now,
            )
        };
        lemma_current_context(pre.policy, actor);
        policy_replay::law_change_is_accounted_for(pre.policy, post.policy, actor, c);
    } else if post.policy != pre.policy {
        lemma_denied_accounts(pre.policy, post.policy);
    }
}

/// A kept row's id is in its table.
proof fn lemma_kept_has_id<T: Row>(s: Seq<T::Shown>, p: spec_fn(T::Shown) -> bool, i: int)
    requires
        0 <= i < tables::kept(s, p).len(),
    ensures
        keyed::has_id::<T>(s, T::key(tables::kept(s, p)[i])),
{
    tables::lemma_kept(s, p);
    let v = tables::kept(s, p)[i];
    assert(s.contains(v));
    let k = choose|k: int| 0 <= k < s.len() && s[k] == v;
    let q = keyed::with_id::<T>(T::key(v));
    tables::lemma_first_index(s, q);
    assert(q(s[k]));
}

proof fn lemma_rebind_separate(
    pre: Registry,
    source: PrincipalView,
    name: Seq<char>,
    uid: u32,
    replaces: Seq<Seq<char>>,
    actor: PolicyActor,
    d: DrawView,
)
    requires
        policy_state::fits(
            pre.policy.state(),
            policy_ops::rebind_change(pre, source, name, uid, replaces, actor, d).effect,
        ),
    ensures
        policy_replay::is_separate(
            policy_ops::rebind_change(pre, source, name, uid, replaces, actor, d).effect,
        ),
{
    let e = policy_ops::rebind_change(pre, source, name, uid, replaces, actor, d).effect;
    let st = pre.policy.state();
    let active = policy_ops::active_grants(pre, source.id);
    let mapped = policy_ops::active_mappings(pre, source.id);
    assert forall|i: int, j: int|
        0 <= i < e.grants.len() && 0 <= j < e.retired_grants.len() implies (
    #[trigger] e.grants[i]).id != (#[trigger] e.retired_grants[j]).id by {
        lemma_kept_has_id::<Grant>(st.grants, policy_state::active_for(source.id), j);
        assert(e.retired_grants[j].id == active[j].id);
        assert(!keyed::has_id::<Grant>(st.grants, Grant::key(e.grants[i])));
    }
    assert forall|i: int, j: int|
        0 <= i < e.mappings.len() && 0 <= j < e.unmapped_mappings.len() implies (
    #[trigger] e.mappings[i]).id != (#[trigger] e.unmapped_mappings[j]).id by {
        lemma_kept_has_id::<SsoMapping>(
            st.mappings,
            policy_state::active_mapped_to(source.id),
            j,
        );
        assert(e.unmapped_mappings[j].id == mapped[j].id);
        assert(!keyed::has_id::<SsoMapping>(st.mappings, SsoMapping::key(e.mappings[i])));
    }
}

/// The principal at an id has that id.
pub(crate) proof fn lemma_principal_at(reg: Registry, id: Seq<char>)
    requires
        policy_ops::principal_at(reg, id) is Some,
    ensures
        policy_ops::principal_at(reg, id)->0.id == id,
        reg.policy.state().principals.contains(policy_ops::principal_at(reg, id)->0),
{
    let all = reg.policy.state().principals;
    tables::lemma_first_index(all, keyed::with_id::<PrincipalRow>(id));
    let i = keyed::index_of::<PrincipalRow>(all, id);
    assert(keyed::with_id::<PrincipalRow>(id)(all[i]));
}

/// The journals still account for the tables after a principal was rebound.
pub proof fn law_rebind_is_accounted_for(
    pre: Registry,
    post: Registry,
    r: Result<Principal, Error>,
    source_id: Seq<char>,
    username: Seq<char>,
    uid: u32,
    replaces: Seq<Seq<char>>,
    actor: PolicyActor,
    d: DrawView,
)
    requires
        policy_replay::accounts(pre.policy),
        policy_ops::principal_rebound(
            pre,
            post,
            r,
            source_id,
            username,
            uid,
            replaces,
            actor,
            d,
        ),
    ensures
        policy_replay::accounts(post.policy),
{
    if r is Ok {
        let source = policy_ops::principal_at(pre, source_id)->0;
        let name = text::trimmed(username);
        let c = policy_ops::rebind_change(pre, source, name, uid, replaces, actor, d);
        lemma_principal_at(pre, source_id);
        lemma_current_context(pre.policy, actor);
        lemma_rebind_separate(pre, source, name, uid, replaces, actor, d);
        policy_replay::law_change_is_accounted_for(pre.policy, post.policy, actor, c);
    } else if post.policy != pre.policy {
        lemma_denied_accounts(pre.policy, post.policy);
    }
}

/// The journals still account for the tables after a grant.
pub proof fn law_grant_is_accounted_for(
    pre: Registry,
    post: Registry,
    r: Result<Grant, Error>,
    principal: Seq<char>,
    scope: ScopeView,
    capability: Capability,
    actor: PolicyActor,
    d: DrawView,
)
    requires
        policy_replay::accounts(pre.policy),
        policy_grants::granted(pre, post, r, principal, scope, capability, actor, d),
    ensures
        policy_replay::accounts(post.policy),
{
    if r is Ok {
        let g = r->Ok_0@;
        let c = policy_grants::grant_change(
            pre,
            "grant_added"@,
            "access grant"@,
            g,
            scope,
            false,
            actor,
            d,
        );
        lemma_current_context(pre.policy, actor);
        policy_replay::law_change_is_accounted_for(pre.policy, post.policy, actor, c);
    } else if post.policy != pre.policy {
        lemma_denied_accounts(pre.policy, post.policy);
    }
}

/// The journals still account for the tables after a revocation.
pub proof fn law_revoke_is_accounted_for(
    pre: Registry,
    post: Registry,
    r: Result<Grant, Error>,
    principal: Seq<char>,
    scope: ScopeView,
    capability: Capability,
    actor: PolicyActor,
    d: DrawView,
)
    requires
        policy_replay::accounts(pre.policy),
        policy_grants::revoked(pre, post, r, principal, scope, capability, actor, d),
    ensures
        policy_replay::accounts(post.policy),
{
    if r is Ok {
        let event = policy_ops::next_id(pre);
        let id = r->Ok_0@.id;
        let c = ChangeView {
            target_principal: Some(principal),
            capability: Some(capability),
            scopes: seq![scope],
            matched: seq![id],
            delta: crate::policy_journal::DeltaView {
                revoked_grant_ids: seq![id],
                ..crate::policy_journal::no_delta()
            },
            ..policy::bare_change(
                "grant_revoked"@,
                "access revoke"@,
                event,
                EffectView {
                    retired_grants: seq![
                        GrantRetirementView {
                            id,
                            retired_at_epoch: policy_ops::next_epoch(pre),
                            retired_by_event_id: event,
                        },
                    ],
                    ..policy_state::no_effect()
                },
                actor.state_hash@,
                d.audit_id,
                d.now,
            )
        };
        lemma_current_context(pre.policy, actor);
        policy_replay::law_change_is_accounted_for(pre.policy, post.policy, actor, c);
    } else if post.policy != pre.policy {
        lemma_denied_accounts(pre.policy, post.policy);
    }
}

/// The journals still account for the tables after a subject was mapped.
pub proof fn law_map_is_accounted_for(
    pre: Registry,
    post: Registry,
    r: Result<SsoMapping, Error>,
    principal: Seq<char>,
    provider: Seq<char>,
    subject: Seq<char>,
    actor: PolicyActor,
    d: DrawView,
)
    requires
        policy_replay::accounts(pre.policy),
        policy_grants::mapped(pre, post, r, principal, provider, subject, actor, d),
    ensures
        policy_replay::accounts(post.policy),
{
    if r is Ok {
        let m = r->Ok_0@;
        let c = ChangeView {
            target_principal: Some(principal),
            target_mapping: Some(m.id),
            delta: crate::policy_journal::DeltaView {
                mapped_mapping_ids: seq![m.id],
                ..crate::policy_journal::no_delta()
            },
            ..policy::bare_change(
                "sso_mapped"@,
                "access map-sso"@,
                policy_ops::next_id(pre),
                EffectView { mappings: seq![m], ..policy_state::no_effect() },
                actor.state_hash@,
                d.audit_id,
                d.now,
            )
        };
        lemma_current_context(pre.policy, actor);
        policy_replay::law_change_is_accounted_for(pre.policy, post.policy, actor, c);
    } else if post.policy != pre.policy {
        lemma_denied_accounts(pre.policy, post.policy);
    }
}

/// The journals still account for the tables after a subject was unmapped.
pub proof fn law_unmap_is_accounted_for(
    pre: Registry,
    post: Registry,
    r: Result<SsoMapping, Error>,
    provider: Seq<char>,
    subject: Seq<char>,
    actor: PolicyActor,
    d: DrawView,
)
    requires
        policy_replay::accounts(pre.policy),
        policy_grants::unmapped(pre, post, r, provider, subject, actor, d),
    ensures
        policy_replay::accounts(post.policy),
{
    if r is Ok {
        let event = policy_ops::next_id(pre);
        let id = r->Ok_0@.id;
        let c = ChangeView {
            target_mapping: Some(id),
            delta: crate::policy_journal::DeltaView {
                unmapped_mapping_ids: seq![id],
                ..crate::policy_journal::no_delta()
            },
            ..policy::bare_change(
                "sso_unmapped"@,
                "access unmap-sso"@,
                event,
                EffectView {
                    unmapped_mappings: seq![
                        policy_state::MappingRetirementView {
                            id,
                            unmapped_at_epoch: policy_ops::next_epoch(pre),
                            unmapped_by_event_id: event,
                        },
                    ],
                    ..policy_state::no_effect()
                },
                actor.state_hash@,
                d.audit_id,
                d.now,
            )
        };
        lemma_current_context(pre.policy, actor);
        policy_replay::law_change_is_accounted_for(pre.policy, post.policy, actor, c);
    } else if post.policy != pre.policy {
        lemma_denied_accounts(pre.policy, post.policy);
    }
}

/// The journals still account for the tables after an emergency grant by an actor who
/// knows the live state.
pub proof fn law_breakglass_is_accounted_for(
    pre: Registry,
    post: Registry,
    r: Result<Grant, Error>,
    principal: Seq<char>,
    actor: PolicyActor,
    d: DrawView,
)
    requires
        policy_replay::accounts(pre.policy),
        actor.state_hash@ == policy::live_state(pre.policy).1,
        policy_grants::breakglass_granted(pre, post, r, principal, actor, d),
    ensures
        policy_replay::accounts(post.policy),
{
    if r is Ok {
        let c = policy_grants::grant_change(
            pre,
            "breakglass_registry_admin"@,
            "access breakglass registry-admin"@,
            r->Ok_0@,
            ScopeView::Registry,
            true,
            actor,
            d,
        );
        policy_replay::law_change_is_accounted_for(pre.policy, post.policy, actor, c);
    } else if post.policy != pre.policy {
        lemma_denied_accounts(pre.policy, post.policy);
    }
}

// ------------------------------------------------------------------- non-escalation

/// Nobody grants what they do not hold: a grant is given only by an actor who
/// administers the registry and satisfies the granted capability on the granted
/// scope.
pub proof fn law_granting_needs_holding(
    pre: Registry,
    post: Registry,
    r: Result<Grant, Error>,
    principal: Seq<char>,
    scope: ScopeView,
    capability: Capability,
    actor: PolicyActor,
    d: DrawView,
)
    requires
        policy_grants::granted(pre, post, r, principal, scope, capability, actor, d),
        r is Ok,
    ensures
        policy::actor_holds(pre.policy, actor, ScopeView::Registry, Capability::Admin),
        policy::actor_holds(pre.policy, actor, scope, capability),
{
}

/// Nobody revokes what they do not hold.
pub proof fn law_revoking_needs_holding(
    pre: Registry,
    post: Registry,
    r: Result<Grant, Error>,
    principal: Seq<char>,
    scope: ScopeView,
    capability: Capability,
    actor: PolicyActor,
    d: DrawView,
)
    requires
        policy_grants::revoked(pre, post, r, principal, scope, capability, actor, d),
        r is Ok,
    ensures
        policy::actor_holds(pre.policy, actor, ScopeView::Registry, Capability::Admin),
        policy::actor_holds(pre.policy, actor, scope, capability),
{
}

/// A request made under another state than the live one changes nothing: a grant
/// asked for so is denied.
pub proof fn law_stale_requests_are_denied(
    pre: Registry,
    post: Registry,
    r: Result<Grant, Error>,
    principal: Seq<char>,
    scope: ScopeView,
    capability: Capability,
    actor: PolicyActor,
    d: DrawView,
)
    requires
        policy_grants::granted(pre, post, r, principal, scope, capability, actor, d),
        actor.epoch != policy::live_state(pre.policy).0 || actor.state_hash@
            != policy::live_state(pre.policy).1,
    ensures
        text::refused(r, "denied or not found"@),
        post.policy.state() == pre.policy.state(),
{
    assert(post.policy.state() == pre.policy.state());
}

// --------------------------------------------------------------------- single rows

pub(crate) proof fn lemma_put_all_contains<T: Row>(s: Seq<T::Shown>, vs: Seq<T::Shown>)
    requires
        keyed::by_id::<T>(s),
        policy_state::all_new::<T>(s, vs),
    ensures
        keyed::by_id::<T>(keyed::put_all::<T>(s, vs)),
        forall|x: T::Shown| #[trigger]
            keyed::put_all::<T>(s, vs).contains(x) <==> s.contains(x) || vs.contains(x),
    decreases vs.len(),
{
    if vs.len() > 0 {
        let rest = vs.drop_last();
        let v = vs.last();
        let before = keyed::put_all::<T>(s, rest);
        let after = keyed::put_all::<T>(s, vs);
        assert(v == vs[vs.len() - 1]);
        assert forall|i: int| 0 <= i < rest.len() implies !keyed::has_id::<T>(
            s,
            T::key(#[trigger] rest[i]),
        ) by {
            assert(rest[i] == vs[i]);
        }
        assert forall|i: int, j: int| 0 <= i < j < rest.len() implies T::key(#[trigger] rest[i])
            != T::key(#[trigger] rest[j]) by {
            assert(rest[i] == vs[i] && rest[j] == vs[j]);
        }
        lemma_put_all_contains::<T>(s, rest);
        keyed::law_put::<T>(before, v);
        assert forall|x: T::Shown| #[trigger] after.contains(x) <==> s.contains(x)
            || vs.contains(x) by {
            if s.contains(x) {
                assert(before.contains(x));
                let k = choose|k: int| 0 <= k < s.len() && s[k] == x;
                let q = keyed::with_id::<T>(T::key(v));
                tables::lemma_first_index(s, q);
                if T::key(x) == T::key(v) {
                    assert(q(s[k]));
                }
            }
            if vs.contains(x) && x != v {
                let k = choose|k: int| 0 <= k < vs.len() && vs[k] == x;
                assert(rest[k] == x);
                assert(rest.contains(x));
                assert(before.contains(x));
                assert(T::key(vs[k]) != T::key(vs[vs.len() - 1]));
            }
            if after.contains(x) && x != v {
                assert(before.contains(x));
                if rest.contains(x) {
                    let k = choose|k: int| 0 <= k < rest.len() && rest[k] == x;
                    assert(vs[k] == x);
                }
            }
        }
    } else {
        assert(vs =~= seq![]);
    }
}

/// What a single row put in comes to.
pub(crate) proof fn lemma_put_one<T: Row>(s: Seq<T::Shown>, v: T::Shown)
    ensures
        keyed::put_all::<T>(s, seq![v]) == keyed::put::<T>(s, v),
{
    assert(seq![v].drop_last() =~= Seq::<T::Shown>::empty());
    assert(keyed::put_all::<T>(s, seq![v].drop_last()) == s);
}

/// Of rows in order, one alone that fits is all that is kept.
pub(crate) proof fn lemma_kept_one<V>(s: Seq<V>, p: spec_fn(V) -> bool, n: int)
    requires
        0 <= n < s.len(),
        p(s[n]),
        forall|k: int| 0 <= k < s.len() && k != n ==> !p(#[trigger] s[k]),
    ensures
        tables::kept(s, p) == seq![s[n]],
    decreases s.len(),
{
    let rest = s.drop_last();
    if n == s.len() - 1 {
        tables::lemma_kept(rest, p);
        if tables::kept(rest, p).len() > 0 {
            let x = tables::kept(rest, p)[0];
            assert(rest.contains(x));
            let k = choose|k: int| 0 <= k < rest.len() && rest[k] == x;
            assert(s[k] == x);
        }
        assert(tables::kept(rest, p) =~= seq![]);
        assert(tables::kept(s, p) =~= seq![s[n]]);
    } else {
        assert forall|k: int| 0 <= k < rest.len() && k != n implies !p(#[trigger] rest[k]) by {
            assert(rest[k] == s[k]);
        }
        assert(rest[n] == s[n]);
        lemma_kept_one(rest, p, n);
        assert(!p(s[s.len() - 1]));
    }
}

/// A pair that was bound belongs to the principal that it was bound to, and to no
/// other.
pub proof fn law_bound_pair_resolves(
    pre: Registry,
    post: Registry,
    r: Result<Principal, Error>,
    username: Seq<char>,
    uid: u32,
    replaces: Seq<Seq<char>>,
    actor: PolicyActor,
    d: DrawView,
)
    requires
        pre.policy.wf(),
        policy_ops::principal_bound(pre, post, r, username, uid, replaces, actor, d),
        r is Ok,
    ensures
        policy_queries::resolved(post.policy.state(), text::trimmed(username), uid) == Some(
            r->Ok_0.row@,
        ),
{
    let name = text::trimmed(username);
    let row = r->Ok_0.row@;
    let before = pre.policy.state().principals;
    let after = post.policy.state().principals;
    lemma_put_one::<PrincipalRow>(before, row);
    keyed::law_put::<PrincipalRow>(before, row);
    assert(after == keyed::put::<PrincipalRow>(before, row));
    assert(after.contains(row));
    let n = choose|n: int| 0 <= n < after.len() && after[n] == row;
    let p = policy_queries::is_enabled_pair(name, uid);
    let q = policy::collides_enabled(name, uid, None);
    tables::lemma_first_index(before, q);
    assert forall|k: int| 0 <= k < after.len() && k != n implies !p(#[trigger] after[k]) by {
        assert(after.contains(after[k]));
        if k < n {
            text::lemma_text_order(after[k].id, after[n].id, after[k].id);
            assert(text::text_less(
                PrincipalRow::key(after[k]),
                PrincipalRow::key(after[n]),
            ));
        } else {
            text::lemma_text_order(after[n].id, after[k].id, after[n].id);
            assert(text::text_less(
                PrincipalRow::key(after[n]),
                PrincipalRow::key(after[k]),
            ));
        }
        assert(after[k] != row);
        let m = choose|m: int| 0 <= m < before.len() && before[m] == after[k];
        if p(after[k]) {
            assert(q(before[m]));
        }
    }
    lemma_kept_one(after, p, n);
}

/// A pair resolves only to a principal that is enabled and holds both halves of it.
pub proof fn law_resolution_fails_closed(st: PolicyState, username: Seq<char>, uid: u32)
    requires
        policy_queries::resolved(st, username, uid) is Some,
    ensures
        policy_queries::resolved(st, username, uid)->0.enabled,
        policy_queries::resolved(st, username, uid)->0.username == username,
        policy_queries::resolved(st, username, uid)->0.uid == uid,
        st.principals.contains(policy_queries::resolved(st, username, uid)->0),
{
    tables::lemma_kept(st.principals, policy_queries::is_enabled_pair(username, uid));
}

/// Disabling a principal deletes nothing: its grants and mappings stay as they are.
/// It is no longer resolved, and satisfies nothing.
pub proof fn law_disable_deletes_nothing(
    pre: Registry,
    post: Registry,
    r: Result<Principal, Error>,
    id: Seq<char>,
    actor: PolicyActor,
    d: DrawView,
)
    requires
        pre.policy.wf(),
        policy_ops::principal_disabled(pre, post, r, id, actor, d),
        r is Ok,
    ensures
        post.policy.state().grants == pre.policy.state().grants,
        post.policy.state().mappings == pre.policy.state().mappings,
        r->Ok_0.row@.id == id,
        !r->Ok_0.row@.enabled,
        forall|username: Seq<char>, uid: u32|
            policy_queries::resolved(post.policy.state(), username, uid) is Some ==> (
            #[trigger] policy_queries::resolved(post.policy.state(), username, uid))->0.id != id,
        forall|scope: ScopeView, capability: Capability| !#[trigger]
            lattice::satisfied(
                policy_state::effective_pairs(post.policy.state(), id),
                scope,
                capability,
            ),
{
    let before = pre.policy.state().principals;
    let after = post.policy.state().principals;
    let row = r->Ok_0.row@;
    lemma_principal_at(pre, id);
    lemma_put_one::<PrincipalRow>(before, row);
    keyed::law_put::<PrincipalRow>(before, row);
    assert forall|username: Seq<char>, uid: u32|
        policy_queries::resolved(post.policy.state(), username, uid) is Some implies (
    #[trigger] policy_queries::resolved(post.policy.state(), username, uid))->0.id != id by {
        law_resolution_fails_closed(post.policy.state(), username, uid);
        let found = policy_queries::resolved(post.policy.state(), username, uid)->0;
        assert(after.contains(found));
    }
    if policy_state::is_enabled(after, id) {
        let i = keyed::index_of::<PrincipalRow>(after, id);
        tables::lemma_first_index(after, keyed::with_id::<PrincipalRow>(id));
        assert(keyed::with_id::<PrincipalRow>(id)(after[i]));
        assert(after.contains(after[i]));
    }
    assert forall|scope: ScopeView, capability: Capability| !#[trigger]
    lattice::satisfied(
        policy_state::effective_pairs(post.policy.state(), id),
        scope,
        capability,
    ) by {
        lattice::law_nothing_held_satisfies_nothing(scope, capability);
    }
}

// ------------------------------------------------------------------------- rebinding

/// A grant whose end is listed is retired; the others are as they were.
proof fn lemma_ended(s: Seq<GrantView>, ends: Seq<GrantRetirementView>, i: int)
    requires
        keyed::by_id::<Grant>(s),
        0 <= i < s.len(),
    ensures
        policy_state::end_grants(s, ends).len() == s.len(),
        policy_state::end_grants(s, ends)[i].id == s[i].id,
        policy_state::end_grants(s, ends)[i].principal_id == s[i].principal_id,
        (exists|k: int| 0 <= k < ends.len() && (#[trigger] ends[k]).id == s[i].id)
            ==> policy_state::end_grants(s, ends)[i].state == GrantState::Retired,
        !(exists|k: int| 0 <= k < ends.len() && (#[trigger] ends[k]).id == s[i].id)
            ==> policy_state::end_grants(s, ends)[i] == s[i],
    decreases ends.len(),
{
    if ends.len() > 0 {
        let rest = ends.drop_last();
        let end = ends.last();
        let before = policy_state::end_grants(s, rest);
        lemma_ended(s, rest, i);
        policy_ops::lemma_end_grants(s, rest);
        let q = keyed::with_id::<Grant>(end.id);
        tables::lemma_first_index(before, q);
        let n = tables::first_index(before, q);
        assert(end == ends[ends.len() - 1]);
        if n < before.len() {
            assert(q(before[n]));
            assert(before[n].id == s[n].id);
            if n < i {
                assert(text::text_less(Grant::key(s[n]), Grant::key(s[i])));
                text::lemma_text_order(s[n].id, s[i].id, s[n].id);
            } else if i < n {
                assert(text::text_less(Grant::key(s[i]), Grant::key(s[n])));
                text::lemma_text_order(s[i].id, s[n].id, s[i].id);
            }
        }
        if s[i].id == end.id {
            assert(q(before[i]));
        }
        if exists|k: int| 0 <= k < ends.len() && (#[trigger] ends[k]).id == s[i].id {
            let k = choose|k: int| 0 <= k < ends.len() && (#[trigger] ends[k]).id == s[i].id;
            if k < rest.len() {
                assert(rest[k].id == s[i].id);
            }
        }
        if exists|k: int| 0 <= k < rest.len() && (#[trigger] rest[k]).id == s[i].id {
            let k = choose|k: int| 0 <= k < rest.len() && (#[trigger] rest[k]).id == s[i].id;
            assert(ends[k].id == s[i].id);
        }
    }
}

/// A mapping whose end is listed is no longer active; the others are as they were.
proof fn lemma_unmapped(s: Seq<SsoView>, ends: Seq<MappingRetirementView>, i: int)
    requires
        keyed::by_id::<SsoMapping>(s),
        0 <= i < s.len(),
    ensures
        policy_state::end_mappings(s, ends).len() == s.len(),
        policy_state::end_mappings(s, ends)[i].id == s[i].id,
        policy_state::end_mappings(s, ends)[i].principal_id == s[i].principal_id,
        (exists|k: int| 0 <= k < ends.len() && (#[trigger] ends[k]).id == s[i].id)
            ==> policy_state::end_mappings(s, ends)[i].unmapped_at_epoch is Some,
        !(exists|k: int| 0 <= k < ends.len() && (#[trigger] ends[k]).id == s[i].id)
            ==> policy_state::end_mappings(s, ends)[i] == s[i],
    decreases ends.len(),
{
    if ends.len() > 0 {
        let rest = ends.drop_last();
        let end = ends.last();
        let before = policy_state::end_mappings(s, rest);
        lemma_unmapped(s, rest, i);
        policy_ops::lemma_end_mappings(s, rest);
        let q = keyed::with_id::<SsoMapping>(end.id);
        tables::lemma_first_index(before, q);
        let n = tables::first_index(before, q);
        assert(end == ends[ends.len() - 1]);
        if n < before.len() {
            assert(q(before[n]));
            assert(before[n].id == s[n].id);
            if n < i {
                assert(text::text_less(SsoMapping::key(s[n]), SsoMapping::key(s[i])));
                text::lemma_text_order(s[n].id, s[i].id, s[n].id);
            } else if i < n {
                assert(text::text_less(SsoMapping::key(s[i]), SsoMapping::key(s[n])));
                text::lemma_text_order(s[i].id, s[n].id, s[i].id);
            }
        }
        if s[i].id == end.id {
            assert(q(before[i]));
        }
        if exists|k: int| 0 <= k < ends.len() && (#[trigger] ends[k]).id == s[i].id {
            let k = choose|k: int| 0 <= k < ends.len() && (#[trigger] ends[k]).id == s[i].id;
            if k < rest.len() {
                assert(rest[k].id == s[i].id);
            }
        }
        if exists|k: int| 0 <= k < rest.len() && (#[trigger] rest[k]).id == s[i].id {
            let k = choose|k: int| 0 <= k < rest.len() && (#[trigger] rest[k]).id == s[i].id;
            assert(ends[k].id == s[i].id);
        }
    }
}

/// A row of a table is what its id finds.
pub(crate) proof fn lemma_found<T: Row>(s: Seq<T::Shown>, v: T::Shown)
    requires
        keyed::by_id::<T>(s),
        s.contains(v),
    ensures
        keyed::has_id::<T>(s, T::key(v)),
        s[keyed::index_of::<T>(s, T::key(v))] == v,
{
    let q = keyed::with_id::<T>(T::key(v));
    let k = choose|k: int| 0 <= k < s.len() && s[k] == v;
    tables::lemma_first_index(s, q);
    assert(q(s[k]));
    let n = tables::first_index(s, q);
    assert(q(s[n]));
    if n != k {
        let (a, b) = if n < k {
            (n, k)
        } else {
            (k, n)
        };
        assert(text::text_less(T::key(s[a]), T::key(s[b])));
        text::lemma_text_order(T::key(s[a]), T::key(s[b]), T::key(s[a]));
    }
}

/// The principals after a rebinding: the source and its successor stand as they were put
/// in, and every other one as it was.
proof fn lemma_rebound_principals(
    s: Seq<PrincipalView>,
    source: PrincipalView,
    successor: PrincipalView,
)
    requires
        keyed::by_id::<PrincipalRow>(s),
        source.id != successor.id,
        !keyed::has_id::<PrincipalRow>(s, successor.id),
    ensures
        ({
            let after = keyed::put_all::<PrincipalRow>(s, seq![source, successor]);
            &&& keyed::by_id::<PrincipalRow>(after)
            &&& forall|x: PrincipalView| #[trigger]
                after.contains(x) <==> x == source || x == successor || s.contains(x) && x.id
                    != source.id
        }),
{
    let both = seq![source, successor];
    let first = keyed::put::<PrincipalRow>(s, source);
    assert(both.drop_last() =~= seq![source]);
    lemma_put_one::<PrincipalRow>(s, source);
    keyed::law_put::<PrincipalRow>(s, source);
    keyed::law_put::<PrincipalRow>(first, successor);
    let after = keyed::put_all::<PrincipalRow>(s, both);
    assert(after == keyed::put::<PrincipalRow>(first, successor));
    assert forall|x: PrincipalView| #[trigger] after.contains(x) <==> x == source || x
        == successor || s.contains(x) && x.id != source.id by {
        assert(first.contains(x) <==> x == source || (s.contains(x) && x.id != source.id));
        if s.contains(x) && x.id == successor.id {
            lemma_found::<PrincipalRow>(s, x);
        }
    }
}

/// The mappings after a rebinding.
proof fn lemma_rebound_mappings(
    pre: Registry,
    post: Registry,
    source: PrincipalView,
    c: ChangeView,
    ids: Seq<Seq<char>>,
    successor: Seq<char>,
)
    requires
        pre.policy.wf(),
        successor != source.id,
        policy_state::all_new::<SsoMapping>(pre.policy.state().mappings, c.effect.mappings),
        c.effect.mappings == policy_ops::taken_mappings(
            policy_ops::active_mappings(pre, source.id),
            ids,
            successor,
            policy_ops::next_epoch(pre),
            policy_ops::next_id(pre),
        ),
        c.effect.unmapped_mappings == policy_ops::ended_mappings(
            policy_ops::active_mappings(pre, source.id),
            policy_ops::next_epoch(pre),
            policy_ops::next_id(pre),
        ),
        post.policy.state() == policy_state::applied(pre.policy.state(), c.effect),
    ensures
        forall|i: int|
            0 <= i < c.effect.mappings.len() ==> post.policy.state().mappings.contains(
                #[trigger] c.effect.mappings[i],
            ),
        policy_ops::active_mappings(post, source.id).len() == 0,
{
    let mappings = pre.policy.state().mappings;
    let active = policy_ops::active_mappings(pre, source.id);
    let after = post.policy.state().mappings;
    let ends = c.effect.unmapped_mappings;
    let ended = policy_state::end_mappings(mappings, ends);
    policy_ops::lemma_end_mappings(mappings, ends);
    assert forall|i: int, j: int| 0 <= i < j < ended.len() implies text::text_less(
        SsoMapping::key(#[trigger] ended[i]),
        SsoMapping::key(#[trigger] ended[j]),
    ) by {
        assert(text::text_less(SsoMapping::key(mappings[i]), SsoMapping::key(mappings[j])));
    }
    assert forall|i: int| 0 <= i < c.effect.mappings.len() implies !keyed::has_id::<SsoMapping>(
        ended,
        SsoMapping::key(#[trigger] c.effect.mappings[i]),
    ) by {
        let id = SsoMapping::key(c.effect.mappings[i]);
        let q = keyed::with_id::<SsoMapping>(id);
        assert(!keyed::has_id::<SsoMapping>(mappings, id));
        tables::lemma_first_index(mappings, q);
        tables::lemma_first_index(ended, q);
        if keyed::has_id::<SsoMapping>(ended, id) {
            let n = tables::first_index(ended, q);
            assert(q(ended[n]));
            assert(!q(mappings[n]));
        }
    }
    lemma_put_all_contains::<SsoMapping>(ended, c.effect.mappings);
    assert forall|i: int| 0 <= i < c.effect.mappings.len() implies after.contains(
        #[trigger] c.effect.mappings[i],
    ) by {
        assert(c.effect.mappings.contains(c.effect.mappings[i]));
    }
    let p = policy_state::active_mapped_to(source.id);
    tables::lemma_kept(after, p);
    tables::lemma_kept(mappings, p);
    if policy_ops::active_mappings(post, source.id).len() > 0 {
        let m = policy_ops::active_mappings(post, source.id)[0];
        assert(after.contains(m));
        assert(p(m));
        if c.effect.mappings.contains(m) {
            let i = choose|i: int| 0 <= i < c.effect.mappings.len() && c.effect.mappings[i] == m;
            assert(m.principal_id == successor);
        } else {
            let i = choose|i: int| 0 <= i < ended.len() && ended[i] == m;
            lemma_unmapped(mappings, ends, i);
            if p(mappings[i]) {
                assert(active.contains(mappings[i]));
                let k = choose|k: int| 0 <= k < active.len() && active[k] == mappings[i];
                assert(ends[k].id == mappings[i].id);
            }
        }
    }
}

/// Rebinding hands everything over: for each active grant of the source its successor
/// has an active one of the same capability on the same scope that names it, and for each
/// active mapping one of the same provider and subject. The source keeps no active grant
/// and no active mapping; it is disabled and names its successor, which is the one new
/// principal and names it in turn. One epoch passes.
pub proof fn law_rebind_hands_everything_over(
    pre: Registry,
    post: Registry,
    r: Result<Principal, Error>,
    source_id: Seq<char>,
    username: Seq<char>,
    uid: u32,
    replaces: Seq<Seq<char>>,
    actor: PolicyActor,
    d: DrawView,
)
    requires
        pre.policy.wf(),
        policy::has_room(pre.policy),
        !keyed::has_id::<PrincipalRow>(pre.policy.state().principals, d.principal_id),
        policy_ops::principal_rebound(
            pre,
            post,
            r,
            source_id,
            username,
            uid,
            replaces,
            actor,
            d,
        ),
        r is Ok,
    ensures
        forall|i: int|
            0 <= i < policy_ops::active_grants(pre, source_id).len()
                ==> post.policy.state().grants.contains(
                policy_ops::new_grant(
                    d.grant_ids[i],
                    r->Ok_0.row@.id,
                    (#[trigger] policy_ops::active_grants(pre, source_id)[i]).capability,
                    policy_ops::active_grants(pre, source_id)[i].scope,
                    GrantOrigin::RebindTransfer,
                    policy_ops::next_epoch(pre),
                    text::text_of(actor.principal_id),
                    policy_ops::next_id(pre),
                    Some(policy_ops::active_grants(pre, source_id)[i].id),
                ),
            ),
        policy_ops::active_grants(post, source_id).len() == 0,
        forall|i: int|
            0 <= i < policy_ops::active_mappings(pre, source_id).len()
                ==> post.policy.state().mappings.contains(
                policy_ops::new_mapping(
                    d.mapping_ids[i],
                    r->Ok_0.row@.id,
                    (#[trigger] policy_ops::active_mappings(pre, source_id)[i]).provider,
                    policy_ops::active_mappings(pre, source_id)[i].subject,
                    policy_ops::next_epoch(pre),
                    policy_ops::next_id(pre),
                ),
            ),
        policy_ops::active_mappings(post, source_id).len() == 0,
        policy_ops::principal_at(pre, source_id) is Some,
        policy_ops::principal_at(post, source_id) == Some(
            policy_ops::disabled_row(
                policy_ops::principal_at(pre, source_id)->0,
                policy_ops::next_epoch(pre),
                policy_ops::next_id(pre),
                Some(r->Ok_0.row@.id),
            ),
        ),
        policy_ops::principal_at(post, r->Ok_0.row@.id) == Some(r->Ok_0.row@),
        r->Ok_0.row@.enabled,
        r->Ok_0.row@.predecessor_id == Some(source_id),
        forall|x: PrincipalView| x.id != source_id && x.id != r->Ok_0.row@.id ==> (
        #[trigger] post.policy.state().principals.contains(x)
            <==> pre.policy.state().principals.contains(x)),
        policy::epoch_of(post.policy) == policy::epoch_of(pre.policy) + 1,
{
    let source = policy_ops::principal_at(pre, source_id)->0;
    let name = text::trimmed(username);
    let c = policy_ops::rebind_change(pre, source, name, uid, replaces, actor, d);
    let grants = pre.policy.state().grants;
    let active = policy_ops::active_grants(pre, source_id);
    let after = post.policy.state().grants;
    lemma_principal_at(pre, source_id);
    let people = pre.policy.state().principals;
    let old_row = c.effect.principals[0];
    let new_row = c.effect.principals[1];
    assert(c.effect.principals =~= seq![old_row, new_row]);
    assert(source_id != d.principal_id) by {
        lemma_found::<PrincipalRow>(people, source);
    }
    lemma_rebound_principals(people, old_row, new_row);
    assert(post.policy.state().principals.contains(old_row));
    assert(post.policy.state().principals.contains(new_row));
    lemma_found::<PrincipalRow>(post.policy.state().principals, old_row);
    lemma_found::<PrincipalRow>(post.policy.state().principals, new_row);
    lemma_rebound_mappings(pre, post, source, c, d.mapping_ids, d.principal_id);
    assert forall|i: int|
        0 <= i < policy_ops::active_mappings(pre, source_id).len() implies
        post.policy.state().mappings.contains(
        policy_ops::new_mapping(
            d.mapping_ids[i],
            r->Ok_0.row@.id,
            (#[trigger] policy_ops::active_mappings(pre, source_id)[i]).provider,
            policy_ops::active_mappings(pre, source_id)[i].subject,
            policy_ops::next_epoch(pre),
            policy_ops::next_id(pre),
        ),
    ) by {
        assert(post.policy.state().mappings.contains(c.effect.mappings[i]));
    }
    law_change_advances_one_epoch(pre.policy, post.policy, actor, c);
    let ended = policy_state::end_grants(grants, c.effect.retired_grants);
    policy_ops::lemma_end_grants(grants, c.effect.retired_grants);
    assert forall|i: int, j: int| 0 <= i < j < ended.len() implies text::text_less(
        Grant::key(#[trigger] ended[i]),
        Grant::key(#[trigger] ended[j]),
    ) by {
        assert(text::text_less(Grant::key(grants[i]), Grant::key(grants[j])));
    }
    assert forall|i: int| 0 <= i < c.effect.grants.len() implies !keyed::has_id::<Grant>(
        ended,
        Grant::key(#[trigger] c.effect.grants[i]),
    ) by {
        let id = Grant::key(c.effect.grants[i]);
        let q = keyed::with_id::<Grant>(id);
        assert(!keyed::has_id::<Grant>(grants, id));
        tables::lemma_first_index(grants, q);
        tables::lemma_first_index(ended, q);
        if keyed::has_id::<Grant>(ended, id) {
            let n = tables::first_index(ended, q);
            assert(q(ended[n]));
            assert(!q(grants[n]));
        }
    }
    lemma_put_all_contains::<Grant>(ended, c.effect.grants);
    assert(after == keyed::put_all::<Grant>(ended, c.effect.grants));
    assert forall|i: int| 0 <= i < active.len() implies after.contains(
        policy_ops::new_grant(
            d.grant_ids[i],
            r->Ok_0.row@.id,
            (#[trigger] active[i]).capability,
            active[i].scope,
            GrantOrigin::RebindTransfer,
            policy_ops::next_epoch(pre),
            text::text_of(actor.principal_id),
            policy_ops::next_id(pre),
            Some(active[i].id),
        ),
    ) by {
        assert(c.effect.grants.contains(c.effect.grants[i]));
    }
    let p = policy_state::active_for(source_id);
    tables::lemma_kept(after, p);
    tables::lemma_kept(grants, p);
    if policy_ops::active_grants(post, source_id).len() > 0 {
        let g = policy_ops::active_grants(post, source_id)[0];
        assert(after.contains(g));
        assert(p(g));
        if c.effect.grants.contains(g) {
            let i = choose|i: int| 0 <= i < c.effect.grants.len() && c.effect.grants[i] == g;
            assert(g.principal_id == d.principal_id);
            let q = keyed::with_id::<PrincipalRow>(d.principal_id);
            tables::lemma_first_index(pre.policy.state().principals, q);
            let all = pre.policy.state().principals;
            let k = choose|k: int| 0 <= k < all.len() && all[k] == source;
            assert(q(all[k]));
        } else {
            let i = choose|i: int| 0 <= i < ended.len() && ended[i] == g;
            lemma_ended(grants, c.effect.retired_grants, i);
            if p(grants[i]) {
                assert(active.contains(grants[i]));
                let k = choose|k: int| 0 <= k < active.len() && active[k] == grants[i];
                assert(c.effect.retired_grants[k].id == grants[i].id);
            }
        }
    }
}

// ------------------------------------------------------------- granting and revoking

/// The grant with its end recorded.
pub open spec fn ended(g: GrantView, epoch: i64, event: Seq<char>) -> GrantView {
    GrantView {
        state: GrantState::Retired,
        retired_at_epoch: Some(epoch),
        retired_by_event_id: Some(event),
        ..g
    }
}

/// Ending a grant that was just put in leaves the rows as if it had been put in ended.
proof fn lemma_put_then_end(s: Seq<GrantView>, g: GrantView, end: GrantRetirementView)
    requires
        !keyed::has_id::<Grant>(s, g.id),
        end.id == g.id,
    ensures
        policy_state::end_grant(keyed::put::<Grant>(s, g), end) == keyed::put::<Grant>(
            s,
            ended(g, end.retired_at_epoch, end.retired_by_event_id),
        ),
        keyed::has_id::<Grant>(keyed::put::<Grant>(s, g), g.id),
    decreases s.len(),
{
    let q = keyed::with_id::<Grant>(g.id);
    let done = ended(g, end.retired_at_epoch, end.retired_by_event_id);
    let all = keyed::put::<Grant>(s, g);
    tables::lemma_first_index(s, q);
    if s.len() == 0 || text::text_less(Grant::key(s.last()), g.id) {
        let n = s.len() as int;
        assert forall|i: int| 0 <= i < n implies !q(#[trigger] all[i]) by {
            assert(all[i] == s[i]);
        }
        tables::lemma_first_index_is(all, q, n);
        assert(all.update(n, done) =~= s.push(done));
    } else if Grant::key(s.last()) == g.id {
        assert(q(s[s.len() - 1]));
    } else {
        let rest = s.drop_last();
        tables::lemma_first_index(rest, q);
        if keyed::has_id::<Grant>(rest, g.id) {
            let k = tables::first_index(rest, q);
            assert(q(s[k]));
        }
        lemma_put_then_end(rest, g, end);
        let inner = keyed::put::<Grant>(rest, g);
        let k = tables::first_index(inner, q);
        tables::lemma_first_index(inner, q);
        assert(all == inner.push(s.last()));
        assert forall|i: int| 0 <= i < k implies !q(#[trigger] all[i]) by {
            assert(all[i] == inner[i]);
        }
        assert(q(all[k])) by {
            assert(all[k] == inner[k]);
        }
        tables::lemma_first_index_is(all, q, k);
        assert(all.update(k, ended(inner[k], end.retired_at_epoch, end.retired_by_event_id))
            =~= inner.update(
            k,
            ended(inner[k], end.retired_at_epoch, end.retired_by_event_id),
        ).push(s.last()));
    }
}

/// Putting in a row that does not fit makes no difference to those that do.
proof fn lemma_kept_without(s: Seq<GrantView>, g: GrantView, p: spec_fn(GrantView) -> bool)
    requires
        !keyed::has_id::<Grant>(s, g.id),
        !p(g),
    ensures
        tables::kept(keyed::put::<Grant>(s, g), p) == tables::kept(s, p),
    decreases s.len(),
{
    let q = keyed::with_id::<Grant>(g.id);
    tables::lemma_first_index(s, q);
    if s.len() == 0 || text::text_less(Grant::key(s.last()), g.id) {
        assert(s.push(g).drop_last() =~= s);
    } else if Grant::key(s.last()) == g.id {
        assert(q(s[s.len() - 1]));
    } else {
        let rest = s.drop_last();
        tables::lemma_first_index(rest, q);
        if keyed::has_id::<Grant>(rest, g.id) {
            let k = tables::first_index(rest, q);
            assert(q(s[k]));
        }
        lemma_kept_without(rest, g, p);
        assert(keyed::put::<Grant>(rest, g).push(s.last()).drop_last() =~= keyed::put::<Grant>(
            rest,
            g,
        ));
    }
}

/// Revoking right after granting undoes it: the same grant is revoked, its row stays and
/// is no longer active, every other row is as it was, every principal holds what it held
/// before, and two epochs have passed.
pub proof fn law_revoke_undoes_grant(
    pre: Registry,
    mid: Registry,
    post: Registry,
    given: Result<Grant, Error>,
    taken: Result<Grant, Error>,
    principal: Seq<char>,
    scope: ScopeView,
    capability: Capability,
    actors: (PolicyActor, PolicyActor),
    draws: (DrawView, DrawView),
)
    requires
        pre.policy.wf(),
        policy::has_room(pre.policy),
        policy_grants::granted(
            pre,
            mid,
            given,
            principal,
            scope,
            capability,
            actors.0,
            draws.0,
        ),
        given is Ok,
        policy::has_room(mid.policy),
        policy_grants::revoked(
            mid,
            post,
            taken,
            principal,
            scope,
            capability,
            actors.1,
            draws.1,
        ),
        taken is Ok,
    ensures
        taken->Ok_0@.id == given->Ok_0@.id,
        taken->Ok_0@.state == GrantState::Revoked,
        forall|x: GrantView| #[trigger]
            post.policy.state().grants.contains(x) <==> x == ended(
                given->Ok_0@,
                policy_ops::next_epoch(mid),
                policy_ops::next_id(mid),
            ) || pre.policy.state().grants.contains(x),
        forall|holder: Seq<char>| #[trigger]
            policy_state::effective_pairs(post.policy.state(), holder)
                == policy_state::effective_pairs(pre.policy.state(), holder),
        policy::epoch_of(post.policy) == policy::epoch_of(pre.policy) + 2,
{
    let g = given->Ok_0@;
    let before = pre.policy.state().grants;
    let half = mid.policy.state().grants;
    let after = post.policy.state().grants;
    let p = policy_grants::is_triple(principal, scope, capability);
    let give = policy_grants::grant_change(
        pre,
        "grant_added"@,
        "access grant"@,
        g,
        scope,
        false,
        actors.0,
        draws.0,
    );
    assert(seq![g][0] == g);
    assert(!keyed::has_id::<Grant>(before, Grant::key(give.effect.grants[0])));
    lemma_put_one::<Grant>(before, g);
    assert(policy_state::end_grants(before, seq![]) == before);
    assert(half == keyed::put::<Grant>(before, g));
    keyed::law_put::<Grant>(before, g);
    let i = policy_grants::triple_index(mid, principal, scope, capability);
    tables::lemma_first_index(half, p);
    tables::lemma_first_index(before, p);
    assert(half.contains(half[i]));
    if before.contains(half[i]) {
        let k = choose|k: int| 0 <= k < before.len() && before[k] == half[i];
        assert(p(before[k]));
    }
    assert(half[i] == g);
    let end = GrantRetirementView {
        id: g.id,
        retired_at_epoch: policy_ops::next_epoch(mid),
        retired_by_event_id: policy_ops::next_id(mid),
    };
    assert(seq![end].drop_last() =~= Seq::<GrantRetirementView>::empty());
    assert(policy_state::end_grants(half, seq![end].drop_last()) == half);
    assert(after == policy_state::end_grant(half, end));
    lemma_put_then_end(before, g, end);
    let done = ended(g, end.retired_at_epoch, end.retired_by_event_id);
    keyed::law_put::<Grant>(before, done);
    assert forall|x: GrantView| before.contains(x) implies Grant::key(x) != g.id by {
        let k = choose|k: int| 0 <= k < before.len() && before[k] == x;
        tables::lemma_first_index(before, keyed::with_id::<Grant>(g.id));
        assert(!keyed::with_id::<Grant>(g.id)(before[k]));
    }
    assert(post.policy.state().principals == pre.policy.state().principals);
    assert forall|holder: Seq<char>| #[trigger]
        policy_state::effective_pairs(post.policy.state(), holder)
            == policy_state::effective_pairs(pre.policy.state(), holder) by {
        lemma_kept_without(before, done, policy_state::active_for(holder));
    }
    law_change_advances_one_epoch(pre.policy, mid.policy, actors.0, give);
    lemma_highest_push(mid.policy.epochs@, post.policy.epochs@.last());
}

} // verus!
