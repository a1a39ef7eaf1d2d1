//! Who may do what, and what each change of the policy does to its rows.

use vstd::prelude::*;

use crate::keyed;
use crate::keyed::Row;
use crate::lattice;
use crate::lattice::Capability;
use crate::lattice::ScopeView;
use crate::listing;
use crate::policy;
use crate::policy::ChangeView;
use crate::policy_grants;
use crate::policy_journal;
use crate::policy_journal::PolicyActor;
use crate::policy_journal::PolicyEpochPayload;
use crate::policy_laws;
use crate::policy_ops;
use crate::policy_ops::DrawView;
use crate::policy_queries;
use crate::policy_state;
use crate::policy_state::Grant;
use crate::policy_state::GrantOrigin;
use crate::policy_state::GrantRetirementView;
use crate::policy_state::GrantState;
use crate::policy_state::GrantView;
use crate::policy_state::MappingRetirementView;
use crate::policy_state::PolicyState;
use crate::policy_state::PolicyTables;
use crate::policy_state::PrincipalRow;
use crate::policy_state::SsoMapping;
use crate::policy_state::SsoView;
use crate::ranking;
use crate::tables;
use crate::tables::Registry;
use crate::text;
use crate::text::Error;

verus! {

// ---------------------------------------------------------------------------- authority

/// Who may administer may do everything, who may write may read.
pub open spec fn covers(held: Capability, required: Capability) -> bool {
    held == required || held is Admin || required is Read
}

/// The grant is on the scope, or, for a tag, on all tags of its board.
pub open spec fn is_on_scope(g: GrantView, scope: ScopeView) -> bool {
    ||| lattice::scope_of(g.scope) == Ok::<ScopeView, Seq<char>>(scope)
    ||| scope matches ScopeView::BoardTag(board, _) && lattice::scope_of(g.scope) == Ok::<
        ScopeView,
        Seq<char>,
    >(ScopeView::BoardWildcard(board))
}

/// The principal is there and enabled.
pub open spec fn stands(st: PolicyState, principal: Seq<char>) -> bool {
    exists|k: int|
        0 <= k < st.principals.len() && (#[trigger] st.principals[k]).id == principal
            && st.principals[k].enabled
}

/// An active grant of the principal, who stands, is enough for what is asked.
pub open spec fn may(
    st: PolicyState,
    principal: Seq<char>,
    scope: ScopeView,
    required: Capability,
) -> bool {
    &&& stands(st, principal)
    &&& exists|k: int|
        0 <= k < st.grants.len() && #[trigger] suffices(st.grants[k], principal, scope, required)
}

pub open spec fn suffices(
    g: GrantView,
    principal: Seq<char>,
    scope: ScopeView,
    required: Capability,
) -> bool {
    &&& g.principal_id == principal
    &&& g.state == GrantState::Active
    &&& covers(g.capability, required)
    &&& is_on_scope(g, scope)
}

pub(crate) proof fn lemma_stands(st: PolicyState, principal: Seq<char>)
    requires
        policy_state::sound(st),
    ensures
        policy_state::is_enabled(st.principals, principal) <==> stands(st, principal),
{
    let all = st.principals;
    let q = keyed::with_id::<PrincipalRow>(principal);
    tables::lemma_first_index(all, q);
    let i = tables::first_index(all, q);
    if i < all.len() {
        assert(q(all[i]));
    }
    if stands(st, principal) {
        let k = choose|k: int|
            0 <= k < st.principals.len() && (#[trigger] st.principals[k]).id == principal
                && st.principals[k].enabled;
        assert(q(all[k]));
        assert(all.contains(all[k]));
        policy_laws::lemma_found::<PrincipalRow>(all, all[k]);
    }
}

/// A principal may do just what a single active grant of theirs allows, and nothing once
/// they are disabled.
pub proof fn law_authority_comes_from_one_active_grant(
    p: PolicyTables,
    actor: PolicyActor,
    scope: ScopeView,
    required: Capability,
)
    requires
        p.wf(),
    ensures
        policy::actor_holds(p, actor, scope, required) <==> actor.principal_id is Some && may(
            p.state(),
            actor.principal_id->0@,
            scope,
            required,
        ),
{
    if actor.principal_id is Some {
        lemma_may(p.state(), actor.principal_id->0@, scope, required);
    }
}

pub proof fn lemma_may(
    st: PolicyState,
    principal: Seq<char>,
    scope: ScopeView,
    required: Capability,
)
    requires
        policy_state::sound(st),
    ensures
        lattice::satisfied(policy_state::effective_pairs(st, principal), scope, required) <==> may(
            st,
            principal,
            scope,
            required,
        ),
{
    lemma_stands(st, principal);
    let pairs = policy_state::effective_pairs(st, principal);
    let p = policy_state::active_for(principal);
    let some = tables::kept(st.grants, p);
    lattice::law_scopes_are_incomparable(pairs, scope, required);
    if lattice::satisfied(pairs, scope, required) {
        let i = choose|i: int|
            0 <= i < pairs.len() && lattice::rank((#[trigger] pairs[i]).1) >= lattice::rank(
                required,
            ) && (pairs[i].0 == scope || (scope is BoardTag && pairs[i].0
                == ScopeView::BoardWildcard(scope->BoardTag_0)));
        let g = some[i];
        assert(some.contains(g));
        listing::lemma_kept_contains(st.grants, p, g);
        let k = choose|k: int| 0 <= k < st.grants.len() && st.grants[k] == g;
        assert(lattice::scope_of(st.grants[k].scope) is Ok);
        assert(suffices(st.grants[k], principal, scope, required));
    }
    if may(st, principal, scope, required) {
        let k = choose|k: int|
            0 <= k < st.grants.len() && #[trigger] suffices(
                st.grants[k],
                principal,
                scope,
                required,
            );
        let g = st.grants[k];
        assert(p(g));
        assert(st.grants.contains(g));
        listing::lemma_kept_contains(st.grants, p, g);
        let i = choose|i: int| 0 <= i < some.len() && some[i] == g;
        assert(pairs[i].1 == g.capability);
    }
}

/// The grants that a decision names are just those that suffice for it, of a principal who
/// stands.
pub proof fn law_decision_names_what_suffices(
    st: PolicyState,
    principal: Seq<char>,
    scope: ScopeView,
    required: Capability,
    id: Seq<char>,
)
    requires
        policy_state::sound(st),
    ensures
        policy_queries::matched_ids(
            policy_state::effective_grants(st, principal),
            scope,
            required,
        ).contains(id) <==> stands(st, principal) && is_sufficient(
            st,
            id,
            principal,
            scope,
            required,
        ),
{
    broadcast use vstd::seq_lib::group_to_multiset_ensures;

    lemma_stands(st, principal);
    let active = policy_state::effective_grants(st, principal);
    let a = policy_state::active_for(principal);
    let p = policy_queries::matches_requirement(scope, required);
    let some = tables::kept(active, p);
    let ids = some.map_values(|g: GrantView| g.id);
    let all = policy_queries::matched_ids(active, scope, required);
    ranking::law_sorted_texts(ids);
    assert(all.contains(id) <==> ids.contains(id)) by {
        assert(all.to_multiset().count(id) == ids.to_multiset().count(id));
    }
    if ids.contains(id) {
        let i = choose|i: int| 0 <= i < ids.len() && ids[i] == id;
        let g = some[i];
        assert(some.contains(g));
        listing::lemma_kept_contains(active, p, g);
        listing::lemma_kept_contains(st.grants, a, g);
        let k = choose|k: int| 0 <= k < st.grants.len() && st.grants[k] == g;
        assert(suffices(st.grants[k], principal, scope, required));
        assert(st.grants[k].id == id);
    }
    if stands(st, principal) && is_sufficient(st, id, principal, scope, required) {
        let k = choose|k: int|
            0 <= k < st.grants.len() && (#[trigger] st.grants[k]).id == id && suffices(
                st.grants[k],
                principal,
                scope,
                required,
            );
        let g = st.grants[k];
        assert(st.grants.contains(g));
        listing::lemma_kept_contains(st.grants, a, g);
        listing::lemma_kept_contains(active, p, g);
        let i = choose|i: int| 0 <= i < some.len() && some[i] == g;
        assert(ids[i] == id);
    }
}

/// The grant of that id suffices.
pub open spec fn is_sufficient(
    st: PolicyState,
    id: Seq<char>,
    principal: Seq<char>,
    scope: ScopeView,
    required: Capability,
) -> bool {
    exists|k: int|
        0 <= k < st.grants.len() && (#[trigger] st.grants[k]).id == id && suffices(
            st.grants[k],
            principal,
            scope,
            required,
        )
}

// ---------------------------------------------------------------------------- journals

/// One more change is on record, in the next epoch, allowed.
pub open spec fn change_on_record(
    pre: Registry,
    post: Registry,
    kind: Seq<char>,
    operation: Seq<char>,
    now: i64,
) -> bool {
    &&& post.policy.events@.len() == pre.policy.events@.len() + 1
    &&& forall|k: int|
        0 <= k < pre.policy.events@.len() ==> #[trigger] post.policy.events@[k]
            == pre.policy.events@[k]
    &&& post.policy.events@.last().payload.kind@ == kind
    &&& post.policy.events@.last().payload.occurred_at == now
    &&& post.policy.events@.last().payload.after_epoch
        == post.policy.events@.last().payload.before_epoch + 1
    &&& post.policy.epochs@.len() == pre.policy.epochs@.len() + 1
    &&& forall|k: int|
        0 <= k < pre.policy.epochs@.len() ==> #[trigger] post.policy.epochs@[k]
            == pre.policy.epochs@[k]
    &&& post.policy.epochs@.last().epoch == post.policy.events@.last().payload.after_epoch
    &&& post.policy.epochs@.last().policy_event_seq == post.policy.events@.last().seq
    &&& forall|k: int|
        0 <= k < pre.policy.epochs@.len() ==> (#[trigger] pre.policy.epochs@[k]).epoch
            < post.policy.epochs@.last().epoch
    &&& post.policy.audits@.len() == pre.policy.audits@.len() + 1
    &&& forall|k: int|
        0 <= k < pre.policy.audits@.len() ==> #[trigger] post.policy.audits@[k]
            == pre.policy.audits@[k]
    &&& post.policy.audits@.last().operation@ == operation
    &&& post.policy.audits@.last().outcome@ == "allowed"@
    &&& post.policy.audits@.last().occurred_at == now
    &&& post.policy.audits@.last().policy_epoch == post.policy.epochs@.last().epoch
    &&& nothing_but_policy(pre, post)
}

/// The change is on record as the actor's.
pub open spec fn is_recorded_for(post: Registry, actor: PolicyActor) -> bool {
    let a = post.policy.audits@.last();
    let e = post.policy.events@.last().payload;
    &&& a.actor_principal_id == actor.principal_id
    &&& a.actor_username == actor.username
    &&& a.actor_uid == actor.uid
    &&& text::text_of(e.actor_principal_id) == text::text_of(actor.principal_id)
    &&& e.actor_username@ == actor.username@
    &&& e.actor_uid == actor.uid
    &&& text::text_of(e.access_audit_event_id) == Some(a.id@)
}

/// All that is not policy stays.
pub open spec fn nothing_but_policy(pre: Registry, post: Registry) -> bool {
    &&& post.data_root == pre.data_root
    &&& post.registry_uuid == pre.registry_uuid
    &&& post.boards == pre.boards
    &&& post.roots == pre.roots
    &&& post.history == pre.history
    &&& post.rules == pre.rules
    &&& post.events == pre.events
    &&& post.ledger == pre.ledger
    &&& post.migrations == pre.migrations
    &&& post.legacy_rules == pre.legacy_rules
    &&& post.legacy_events == pre.legacy_events
}

proof fn lemma_highest(epochs: Seq<PolicyEpochPayload>)
    ensures
        policy::highest(epochs) is None <==> epochs.len() == 0,
        forall|k: int|
            0 <= k < epochs.len() ==> (#[trigger] epochs[k]).epoch <= policy::highest(epochs)->0,
    decreases epochs.len(),
{
    if epochs.len() > 0 {
        let rest = epochs.drop_last();
        lemma_highest(rest);
        assert forall|k: int| 0 <= k < epochs.len() implies (#[trigger] epochs[k]).epoch
            <= policy::highest(epochs)->0 by {
            if k < rest.len() {
                assert(rest[k] == epochs[k]);
            }
        }
    }
}

proof fn lemma_on_record(pre: Registry, post: Registry, actor: PolicyActor, c: ChangeView)
    requires
        policy_ops::changed(pre, post, actor, c),
    ensures
        change_on_record(pre, post, c.kind, c.operation, c.now),
        !c.as_root ==> is_recorded_for(post, actor),
{
    lemma_highest(pre.policy.epochs@);
}

/// A request that is denied leaves the policy as it is, and is on record as denied, in an
/// epoch that it does not advance.
pub proof fn law_denials_are_on_record<T>(
    pre: Registry,
    post: Registry,
    r: Result<T, Error>,
    message: Seq<char>,
    actor: PolicyActor,
    operation: Seq<char>,
    denial: policy::Denial,
    d: DrawView,
)
    requires
        policy_ops::denied(pre, post, r, message, actor, operation, denial, d),
    ensures
        r is Err,
        nothing_but_policy(pre, post),
        post.policy.principals == pre.policy.principals,
        post.policy.grants == pre.policy.grants,
        post.policy.mappings == pre.policy.mappings,
        post.policy.enforcement == pre.policy.enforcement,
        post.policy.events == pre.policy.events,
        post.policy.epochs == pre.policy.epochs,
        post.policy.audits@.len() == pre.policy.audits@.len() + 1,
        forall|k: int|
            0 <= k < pre.policy.audits@.len() ==> #[trigger] post.policy.audits@[k]
                == pre.policy.audits@[k],
        ({
            let a = post.policy.audits@.last();
            &&& a.outcome@ == "denied"@
            &&& a.operation@ == operation
            &&& a.occurred_at == d.now
            &&& a.actor_principal_id == actor.principal_id
            &&& a.actor_username == actor.username
            &&& a.actor_uid == actor.uid
            &&& a.decision_stage matches Some(stage) && stage@ == denial.stage
            &&& a.decision_code matches Some(code) && code@ == denial.code
            &&& a.matched_grant_ids@.len() == 0
        }),
{
}

// ---------------------------------------------------------------------------- grants

pub(crate) proof fn lemma_receiver(reg: Registry, id: Seq<char>)
    requires
        reg.policy.wf(),
    ensures
        policy_grants::receiver_code(reg, id) is None <==> stands(reg.policy.state(), id),
{
    lemma_stands(reg.policy.state(), id);
}

/// No active grant of the principal is on just this scope at just this level.
pub open spec fn holds_no_such(
    st: PolicyState,
    principal: Seq<char>,
    scope: ScopeView,
    capability: Capability,
) -> bool {
    forall|k: int|
        0 <= k < st.grants.len() ==> !is_such(
            #[trigger] st.grants[k],
            principal,
            scope,
            capability,
        )
}

pub open spec fn is_such(
    g: GrantView,
    principal: Seq<char>,
    scope: ScopeView,
    capability: Capability,
) -> bool {
    &&& g.principal_id == principal
    &&& g.state == GrantState::Active
    &&& g.capability == capability
    &&& lattice::scope_of(g.scope) == Ok::<ScopeView, Seq<char>>(scope)
}

/// One grant more, and nothing else changed.
pub open spec fn one_more_grant(a: PolicyState, b: PolicyState, g: GrantView) -> bool {
    &&& b.principals == a.principals
    &&& b.mappings == a.mappings
    &&& b.enforcement == a.enforcement
    &&& forall|x: GrantView| #[trigger] b.grants.contains(x) <==> x == g || a.grants.contains(x)
    &&& forall|k: int| 0 <= k < a.grants.len() ==> (#[trigger] a.grants[k]).id != g.id
}

proof fn lemma_one_more(a: PolicyState, b: PolicyState, g: GrantView)
    requires
        policy_state::sound(a),
        policy_state::all_new::<Grant>(a.grants, seq![g]),
        b == policy_state::applied(
            a,
            policy_state::EffectView { grants: seq![g], ..policy_state::no_effect() },
        ),
    ensures
        one_more_grant(a, b, g),
{
    policy_laws::lemma_put_one::<Grant>(a.grants, g);
    keyed::law_put::<Grant>(a.grants, g);
    assert(!keyed::has_id::<Grant>(a.grants, Grant::key(seq![g][0])));
    let q = keyed::with_id::<Grant>(g.id);
    tables::lemma_first_index(a.grants, q);
    assert forall|k: int| 0 <= k < a.grants.len() implies (#[trigger] a.grants[k]).id != g.id by {
        assert(!q(a.grants[k]));
    }
    assert forall|x: GrantView| #[trigger] b.grants.contains(x) <==> x == g
        || a.grants.contains(x) by {
        if a.grants.contains(x) {
            let k = choose|k: int| 0 <= k < a.grants.len() && a.grants[k] == x;
            assert(a.grants[k].id != g.id);
        }
    }
}

/// A grant that is given is one active grant more, to the principal, on the scope and at the
/// level asked for, by the one who asked. That one administers the registry and may do there
/// what is granted; the receiver stands and did not hold it yet, and holds it now. Nothing
/// else of the policy changes.
pub proof fn law_grant_adds_what_was_asked(
    pre: Registry,
    post: Registry,
    r: Result<Grant, Error>,
    principal: Seq<char>,
    scope: ScopeView,
    capability: Capability,
    actor: PolicyActor,
    d: DrawView,
)
    requires
        pre.policy.wf(),
        policy_grants::granted(pre, post, r, principal, scope, capability, actor, d),
        r is Ok,
    ensures
        ({
            let g = r->Ok_0;
            &&& g.principal_id@ == principal
            &&& g.capability == capability
            &&& lattice::scope_of(text::texts(g.scope@)) == Ok::<ScopeView, Seq<char>>(scope)
            &&& g.state == GrantState::Active
            &&& g.origin == GrantOrigin::Grant
            &&& text::text_of(g.granted_by_principal_id) == text::text_of(actor.principal_id)
            &&& g.retired_at_epoch is None && g.retired_by_event_id is None
            &&& g.transferred_from_grant_id is None
            &&& g.granted_at_epoch == post.policy.epochs@.last().epoch
            &&& one_more_grant(pre.policy.state(), post.policy.state(), g@)
        }),
        actor.principal_id is Some,
        may(pre.policy.state(), actor.principal_id->0@, ScopeView::Registry, Capability::Admin),
        may(pre.policy.state(), actor.principal_id->0@, scope, capability),
        stands(pre.policy.state(), principal),
        holds_no_such(pre.policy.state(), principal, scope, capability),
        may(post.policy.state(), principal, scope, capability),
        change_on_record(pre, post, "grant_added"@, "access grant"@, d.now),
        is_recorded_for(post, actor),
{
    let a = pre.policy.state();
    let b = post.policy.state();
    let g = r->Ok_0@;
    law_authority_comes_from_one_active_grant(
        pre.policy,
        actor,
        ScopeView::Registry,
        Capability::Admin,
    );
    law_authority_comes_from_one_active_grant(pre.policy, actor, scope, capability);
    lemma_receiver(pre, principal);
    lattice::law_only_named_scopes_are_read(scope);
    lattice::law_atoms_form_the_scope(scope);
    let c = policy_grants::grant_change(
        pre,
        "grant_added"@,
        "access grant"@,
        g,
        scope,
        false,
        actor,
        d,
    );
    lemma_on_record(pre, post, actor, c);
    lemma_one_more(a, b, g);
    let q = policy_grants::is_triple(principal, scope, capability);
    tables::lemma_first_index(a.grants, q);
    assert forall|k: int| 0 <= k < a.grants.len() implies !is_such(
        #[trigger] a.grants[k],
        principal,
        scope,
        capability,
    ) by {
        assert(!q(a.grants[k]));
    }
    assert(b.grants.contains(g));
    let k = choose|k: int| 0 <= k < b.grants.len() && b.grants[k] == g;
    assert(suffices(b.grants[k], principal, scope, capability));
    let m = choose|m: int|
        0 <= m < a.principals.len() && (#[trigger] a.principals[m]).id == principal
            && a.principals[m].enabled;
    assert(b.principals[m].id == principal);
}

/// In an emergency the registry's administration is given to a principal who stands, where
/// there is a policy at all: one active grant more, given by nobody. Nothing else changes.
pub proof fn law_breakglass_adds_registry_administration(
    pre: Registry,
    post: Registry,
    r: Result<Grant, Error>,
    principal: Seq<char>,
    actor: PolicyActor,
    d: DrawView,
)
    requires
        pre.policy.wf(),
        policy_grants::breakglass_granted(pre, post, r, principal, actor, d),
        r is Ok,
    ensures
        ({
            let g = r->Ok_0;
            &&& g.principal_id@ == principal
            &&& g.capability == Capability::Admin
            &&& lattice::scope_of(text::texts(g.scope@)) == Ok::<ScopeView, Seq<char>>(
                ScopeView::Registry,
            )
            &&& g.state == GrantState::Active
            &&& g.origin == GrantOrigin::BreakglassRegistryAdmin
            &&& g.granted_by_principal_id is None
            &&& one_more_grant(pre.policy.state(), post.policy.state(), g@)
        }),
        policy::epoch_of(pre.policy) != 0,
        stands(pre.policy.state(), principal),
        holds_no_such(pre.policy.state(), principal, ScopeView::Registry, Capability::Admin),
        may(post.policy.state(), principal, ScopeView::Registry, Capability::Admin),
        change_on_record(
            pre,
            post,
            "breakglass_registry_admin"@,
            "access breakglass registry-admin"@,
            d.now,
        ),
        post.policy.events@.last().payload.actor_uid == 0,
        post.policy.events@.last().payload.actor_principal_id is None,
{
    let a = pre.policy.state();
    let b = post.policy.state();
    let g = r->Ok_0@;
    lemma_receiver(pre, principal);
    lattice::law_atoms_form_the_scope(ScopeView::Registry);
    let c = policy_grants::grant_change(
        pre,
        "breakglass_registry_admin"@,
        "access breakglass registry-admin"@,
        g,
        ScopeView::Registry,
        true,
        actor,
        d,
    );
    lemma_on_record(pre, post, actor, c);
    lemma_one_more(a, b, g);
    let q = policy_grants::is_triple(principal, ScopeView::Registry, Capability::Admin);
    tables::lemma_first_index(a.grants, q);
    assert forall|k: int| 0 <= k < a.grants.len() implies !is_such(
        #[trigger] a.grants[k],
        principal,
        ScopeView::Registry,
        Capability::Admin,
    ) by {
        assert(!q(a.grants[k]));
    }
    assert(b.grants.contains(g));
    let k = choose|k: int| 0 <= k < b.grants.len() && b.grants[k] == g;
    assert(suffices(b.grants[k], principal, ScopeView::Registry, Capability::Admin));
    let m = choose|m: int|
        0 <= m < a.principals.len() && (#[trigger] a.principals[m]).id == principal
            && a.principals[m].enabled;
    assert(b.principals[m].id == principal);
}

/// A row is found by its id.
proof fn lemma_index<T: Row>(s: Seq<T::Shown>, k: int)
    requires
        keyed::by_id::<T>(s),
        0 <= k < s.len(),
    ensures
        keyed::index_of::<T>(s, T::key(s[k])) == k,
{
    let q = keyed::with_id::<T>(T::key(s[k]));
    tables::lemma_first_index(s, q);
    let n = tables::first_index(s, q);
    assert(q(s[k]));
    assert(q(s[n]));
    if n < k {
        assert(text::text_less(T::key(s[n]), T::key(s[k])));
        text::lemma_text_order(T::key(s[n]), T::key(s[k]), T::key(s[n]));
    }
}

proof fn lemma_one_grant_ends(s: Seq<GrantView>, k: int, end: GrantRetirementView)
    requires
        keyed::by_id::<Grant>(s),
        0 <= k < s.len(),
        end.id == s[k].id,
    ensures
        policy_state::end_grants(s, seq![end]) == s.update(
            k,
            GrantView {
                state: GrantState::Retired,
                retired_at_epoch: Some(end.retired_at_epoch),
                retired_by_event_id: Some(end.retired_by_event_id),
                ..s[k]
            },
        ),
{
    assert(seq![end].drop_last() =~= Seq::<GrantRetirementView>::empty());
    assert(policy_state::end_grants(s, seq![end].drop_last()) == s);
    lemma_index::<Grant>(s, k);
}

proof fn lemma_one_mapping_ends(s: Seq<SsoView>, k: int, end: MappingRetirementView)
    requires
        keyed::by_id::<SsoMapping>(s),
        0 <= k < s.len(),
        end.id == s[k].id,
    ensures
        policy_state::end_mappings(s, seq![end]) == s.update(
            k,
            SsoView {
                unmapped_at_epoch: Some(end.unmapped_at_epoch),
                unmapped_by_event_id: Some(end.unmapped_by_event_id),
                ..s[k]
            },
        ),
{
    assert(seq![end].drop_last() =~= Seq::<MappingRetirementView>::empty());
    assert(policy_state::end_mappings(s, seq![end].drop_last()) == s);
    lemma_index::<SsoMapping>(s, k);
}

/// A revocation ends one active grant, of the principal, on the scope and at the level asked
/// for. It stays in the table, as one that is active no more; every other row stays. Who
/// asks administers the registry and may do there what is taken away.
pub proof fn law_revocation_ends_one_grant(
    pre: Registry,
    post: Registry,
    r: Result<Grant, Error>,
    principal: Seq<char>,
    scope: ScopeView,
    capability: Capability,
    actor: PolicyActor,
    d: DrawView,
) -> (k: int)
    requires
        pre.policy.wf(),
        policy_grants::revoked(pre, post, r, principal, scope, capability, actor, d),
        r is Ok,
    ensures
        ({
            let a = pre.policy.state();
            let b = post.policy.state();
            &&& 0 <= k < a.grants.len()
            &&& is_such(a.grants[k], principal, scope, capability)
            &&& b.grants.len() == a.grants.len()
            &&& forall|j: int|
                0 <= j < a.grants.len() && j != k ==> #[trigger] b.grants[j] == a.grants[j]
            &&& b.grants[k].state != GrantState::Active
            &&& b.grants[k].id == a.grants[k].id
            &&& b.grants[k].principal_id == principal
            &&& b.grants[k].capability == capability
            &&& b.grants[k].scope == a.grants[k].scope
            &&& b.grants[k].origin == a.grants[k].origin
            &&& b.grants[k].granted_at_epoch == a.grants[k].granted_at_epoch
            &&& b.grants[k].retired_at_epoch == Some(post.policy.epochs@.last().epoch)
            &&& b.principals == a.principals
            &&& b.mappings == a.mappings
            &&& b.enforcement == a.enforcement
            &&& r->Ok_0@.id == a.grants[k].id
            &&& r->Ok_0@.state == GrantState::Revoked
        }),
        actor.principal_id is Some,
        may(pre.policy.state(), actor.principal_id->0@, ScopeView::Registry, Capability::Admin),
        may(pre.policy.state(), actor.principal_id->0@, scope, capability),
        change_on_record(pre, post, "grant_revoked"@, "access revoke"@, d.now),
        is_recorded_for(post, actor),
{
    let a = pre.policy.state();
    let b = post.policy.state();
    law_authority_comes_from_one_active_grant(
        pre.policy,
        actor,
        ScopeView::Registry,
        Capability::Admin,
    );
    law_authority_comes_from_one_active_grant(pre.policy, actor, scope, capability);
    let q = policy_grants::is_triple(principal, scope, capability);
    tables::lemma_first_index(a.grants, q);
    let k = tables::first_index(a.grants, q);
    assert(q(a.grants[k]));
    let end = GrantRetirementView {
        id: a.grants[k].id,
        retired_at_epoch: policy_ops::next_epoch(pre),
        retired_by_event_id: policy_ops::next_id(pre),
    };
    let c = ChangeView {
        target_principal: Some(principal),
        capability: Some(capability),
        scopes: seq![scope],
        matched: seq![a.grants[k].id],
        delta: policy_journal::DeltaView {
            revoked_grant_ids: seq![a.grants[k].id],
            ..policy_journal::no_delta()
        },
        ..policy::bare_change(
            "grant_revoked"@,
            "access revoke"@,
            policy_ops::next_id(pre),
            policy_state::EffectView { retired_grants: seq![end], ..policy_state::no_effect() },
            actor.state_hash@,
            d.audit_id,
            d.now,
        )
    };
    assert(policy_ops::changed(pre, post, actor, c));
    lemma_on_record(pre, post, actor, c);
    lemma_one_grant_ends(a.grants, k, end);
    k
}

// ---------------------------------------------------------------------------- subjects

/// Mapping a subject adds one active mapping, of that subject to that principal, who stands,
/// where nobody had it. Nothing else of the policy changes.
pub proof fn law_mapped_subject_is_the_principals(
    pre: Registry,
    post: Registry,
    r: Result<SsoMapping, Error>,
    principal: Seq<char>,
    provider: Seq<char>,
    subject: Seq<char>,
    actor: PolicyActor,
    d: DrawView,
)
    requires
        pre.policy.wf(),
        policy_grants::mapped(pre, post, r, principal, provider, subject, actor, d),
        r is Ok,
    ensures
        ({
            let a = pre.policy.state();
            let b = post.policy.state();
            let m = r->Ok_0@;
            &&& m.principal_id == principal
            &&& m.provider == provider && m.subject == subject
            &&& m.unmapped_at_epoch is None && m.unmapped_by_event_id is None
            &&& m.mapped_at_epoch == post.policy.epochs@.last().epoch
            &&& forall|x: SsoView| #[trigger]
                b.mappings.contains(x) <==> x == m || a.mappings.contains(x)
            &&& forall|k: int|
                0 <= k < a.mappings.len() ==> (#[trigger] a.mappings[k]).provider != provider
                    || a.mappings[k].subject != subject || a.mappings[k].unmapped_at_epoch is Some
            &&& b.principals == a.principals
            &&& b.grants == a.grants
            &&& b.enforcement == a.enforcement
        }),
        provider == "google"@,
        0 < subject.len() <= 255,
        forall|i: int|
            0 <= i < subject.len() ==> 'a' <= (#[trigger] subject[i]) <= 'z' || 'A' <= subject[i]
                <= 'Z' || '0' <= subject[i] <= '9' || subject[i] == '.' || subject[i] == '_'
                || subject[i] == '~' || subject[i] == '-',
        stands(pre.policy.state(), principal),
        actor.principal_id is Some,
        may(pre.policy.state(), actor.principal_id->0@, ScopeView::Registry, Capability::Admin),
        change_on_record(pre, post, "sso_mapped"@, "access map-sso"@, d.now),
        is_recorded_for(post, actor),
{
    let a = pre.policy.state();
    let b = post.policy.state();
    let m = r->Ok_0@;
    law_authority_comes_from_one_active_grant(
        pre.policy,
        actor,
        ScopeView::Registry,
        Capability::Admin,
    );
    lemma_receiver(pre, principal);
    let c = ChangeView {
        target_principal: Some(principal),
        target_mapping: Some(m.id),
        delta: policy_journal::DeltaView {
            mapped_mapping_ids: seq![m.id],
            ..policy_journal::no_delta()
        },
        ..policy::bare_change(
            "sso_mapped"@,
            "access map-sso"@,
            policy_ops::next_id(pre),
            policy_state::EffectView { mappings: seq![m], ..policy_state::no_effect() },
            actor.state_hash@,
            d.audit_id,
            d.now,
        )
    };
    assert(policy_ops::changed(pre, post, actor, c));
    lemma_on_record(pre, post, actor, c);
    policy_laws::lemma_put_one::<SsoMapping>(a.mappings, m);
    keyed::law_put::<SsoMapping>(a.mappings, m);
    assert(!keyed::has_id::<SsoMapping>(a.mappings, SsoMapping::key(seq![m][0])));
    let q = keyed::with_id::<SsoMapping>(m.id);
    tables::lemma_first_index(a.mappings, q);
    assert forall|x: SsoView| #[trigger] b.mappings.contains(x) <==> x == m
        || a.mappings.contains(x) by {
        if a.mappings.contains(x) {
            let k = choose|k: int| 0 <= k < a.mappings.len() && a.mappings[k] == x;
            assert(!q(a.mappings[k]));
        }
    }
    let p = policy_state::active_subject(provider, subject);
    tables::lemma_first_index(a.mappings, p);
    assert forall|k: int| 0 <= k < a.mappings.len() implies (
    #[trigger] a.mappings[k]).provider != provider || a.mappings[k].subject != subject
        || a.mappings[k].unmapped_at_epoch is Some by {
        assert(!p(a.mappings[k]));
    }
}

/// Unmapping a subject ends one active mapping of it. The row stays, as one that is active
/// no more; every other row stays.
pub proof fn law_unmapping_ends_one_mapping(
    pre: Registry,
    post: Registry,
    r: Result<SsoMapping, Error>,
    provider: Seq<char>,
    subject: Seq<char>,
    actor: PolicyActor,
    d: DrawView,
) -> (k: int)
    requires
        pre.policy.wf(),
        policy_grants::unmapped(pre, post, r, provider, subject, actor, d),
        r is Ok,
    ensures
        ({
            let a = pre.policy.state();
            let b = post.policy.state();
            &&& 0 <= k < a.mappings.len()
            &&& a.mappings[k].provider == provider && a.mappings[k].subject == subject
            &&& a.mappings[k].unmapped_at_epoch is None
            &&& b.mappings.len() == a.mappings.len()
            &&& forall|j: int|
                0 <= j < a.mappings.len() && j != k ==> #[trigger] b.mappings[j] == a.mappings[j]
            &&& b.mappings[k].unmapped_at_epoch == Some(post.policy.epochs@.last().epoch)
            &&& b.mappings[k].id == a.mappings[k].id
            &&& b.mappings[k].principal_id == a.mappings[k].principal_id
            &&& b.mappings[k].provider == provider && b.mappings[k].subject == subject
            &&& b.principals == a.principals
            &&& b.grants == a.grants
            &&& b.enforcement == a.enforcement
            &&& r->Ok_0@ == b.mappings[k]
        }),
        actor.principal_id is Some,
        may(pre.policy.state(), actor.principal_id->0@, ScopeView::Registry, Capability::Admin),
        change_on_record(pre, post, "sso_unmapped"@, "access unmap-sso"@, d.now),
        is_recorded_for(post, actor),
{
    let a = pre.policy.state();
    let b = post.policy.state();
    law_authority_comes_from_one_active_grant(
        pre.policy,
        actor,
        ScopeView::Registry,
        Capability::Admin,
    );
    let p = policy_state::active_subject(provider, subject);
    tables::lemma_first_index(a.mappings, p);
    let k = tables::first_index(a.mappings, p);
    assert(p(a.mappings[k]));
    let end = MappingRetirementView {
        id: a.mappings[k].id,
        unmapped_at_epoch: policy_ops::next_epoch(pre),
        unmapped_by_event_id: policy_ops::next_id(pre),
    };
    let c = ChangeView {
        target_mapping: Some(a.mappings[k].id),
        delta: policy_journal::DeltaView {
            unmapped_mapping_ids: seq![a.mappings[k].id],
            ..policy_journal::no_delta()
        },
        ..policy::bare_change(
            "sso_unmapped"@,
            "access unmap-sso"@,
            policy_ops::next_id(pre),
            policy_state::EffectView { unmapped_mappings: seq![end], ..policy_state::no_effect() },
            actor.state_hash@,
            d.audit_id,
            d.now,
        )
    };
    assert(policy_ops::changed(pre, post, actor, c));
    lemma_on_record(pre, post, actor, c);
    lemma_one_mapping_ends(a.mappings, k, end);
    k
}

} // verus!
