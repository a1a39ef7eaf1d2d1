//! What access policy can be asked.

use vstd::prelude::*;

use crate::keyed;
use crate::lattice;
use crate::lattice::Authority;
use crate::lattice::Capability;
use crate::lattice::ScopeTuple;
use crate::lattice::ScopeView;
use crate::policy;
use crate::policy::Principal;
use crate::policy_ops;
use crate::policy_state;
use crate::policy_state::Grant;
use crate::policy_state::GrantState;
use crate::policy_state::GrantView;
use crate::policy_state::PolicyState;
use crate::policy_state::PrincipalRow;
use crate::policy_state::PrincipalView;
use crate::ranking;
use crate::tables;
use crate::tables::Registry;
use crate::text;

verus! {

// -------------------------------------------------------------------------- principals

pub open spec fn is_enabled_pair(username: Seq<char>, uid: u32) -> spec_fn(PrincipalView) -> bool {
    |p: PrincipalView| p.enabled && p.username == username && p.uid == uid
}

/// The one enabled principal that a pair belongs to. Where half of the pair does not
/// fit, or two principals hold it, it belongs to none.
pub open spec fn resolved(st: PolicyState, username: Seq<char>, uid: u32) -> Option<
    PrincipalView,
> {
    let matching = tables::kept(st.principals, is_enabled_pair(username, uid));
    if matching.len() == 1 {
        Some(matching[0])
    } else {
        None
    }
}

pub open spec fn is_shown(include_disabled: bool) -> spec_fn(PrincipalView) -> bool {
    |p: PrincipalView| include_disabled || p.enabled
}

/// The list is that of the rows, each with its grants and mappings.
pub open spec fn are_principals(
    list: Seq<Principal>,
    rows: Seq<PrincipalView>,
    st: PolicyState,
) -> bool {
    &&& list.len() == rows.len()
    &&& forall|i: int|
        0 <= i < list.len() ==> policy::is_principal(#[trigger] list[i], rows[i], st)
}

fn resolve_enabled_principal(list: &[PrincipalRow], username: &str, uid: u32) -> (r: Option<usize>)
    ensures
        ({
            let matching = tables::kept(keyed::rows(list@), is_enabled_pair(username@, uid));
            match r {
                Some(i) => i < list@.len() && matching == seq![list@[i as int]@],
                None => matching.len() != 1,
            }
        }),
{
    let ghost all = keyed::rows(list@);
    let ghost p = is_enabled_pair(username@, uid);
    let mut found: Option<usize> = None;
    let mut count: usize = 0;
    let mut i: usize = 0;
    proof {
        assert(all.take(0) =~= seq![]);
    }
    while i < list.len()
        invariant
            i <= list@.len(),
            all == keyed::rows(list@),
            p == is_enabled_pair(username@, uid),
            count == tables::kept(all.take(i as int), p).len(),
            count <= i,
            match found {
                Some(k) => k < i && count >= 1 && (count == 1 ==> tables::kept(
                    all.take(i as int),
                    p,
                ) == seq![list@[k as int]@]),
                None => count == 0,
            },
        decreases list.len() - i,
    {
        let ghost kept = tables::kept(all.take(i as int), p);
        proof {
            tables::lemma_kept_step(all, p, i as int);
            assert(all[i as int] == list@[i as int]@);
        }
        if list[i].enabled && text::same(list[i].username.as_str(), username) && list[i].uid
            == uid {
            if count == 0 {
                proof {
                    assert(kept.push(all[i as int]) =~= seq![list@[i as int]@]);
                }
                found = Some(i);
            }
            count = count + 1;
        }
        i = i + 1;
    }
    proof {
        assert(all.take(all.len() as int) =~= all);
    }
    if count == 1 {
        found
    } else {
        None
    }
}

impl Registry {
    /// The epoch that policy is at; nothing has happened at epoch zero.
    pub fn policy_epoch(&self) -> (r: i64)
        ensures
            r == policy::epoch_of(self.policy),
    {
        policy::policy_epoch_on(&self.policy)
    }

    /// The epoch and the state hash that a request has to be made under.
    pub fn live_policy_state(&self) -> (r: (i64, String))
        ensures
            r.0 == policy::live_state(self.policy).0,
            r.1@ == policy::live_state(self.policy).1,
    {
        policy::live_policy_state_on(&self.policy)
    }

    /// How far policy is enforced.
    pub fn enforcement_state(&self) -> (r: String)
        ensures
            r == self.policy.enforcement,
    {
        self.policy.enforcement.clone()
    }

    /// The digest of the state.
    pub fn policy_state_hash(&self) -> (r: String)
        ensures
            r@ == policy_state::state_hash(self.policy.state()),
    {
        policy_state::compute_state_hash(&self.policy)
    }

    /// The one enabled principal that a user name and a user id belong to.
    pub fn resolve_principal(&self, username: &str, uid: u32) -> (r: Option<Principal>)
        ensures
            match resolved(self.policy.state(), username@, uid) {
                Some(row) => r is Some && policy::is_principal(r->0, row, self.policy.state()),
                None => r is None,
            },
    {
        match resolve_enabled_principal(self.policy.principals.as_slice(), username, uid) {
            Some(i) => Some(policy::principal_with_on(&self.policy, &self.policy.principals[i])),
            None => None,
        }
    }

    /// The principal with an id.
    pub fn principal(&self, id: &str) -> (r: Option<Principal>)
        ensures
            match policy_ops::principal_at(*self, id@) {
                Some(row) => r is Some && policy::is_principal(r->0, row, self.policy.state()),
                None => r is None,
            },
    {
        let i: usize = keyed::find(self.policy.principals.as_slice(), id);
        if i >= self.policy.principals.len() {
            return None;
        }
        Some(policy::principal_with_on(&self.policy, &self.policy.principals[i]))
    }

    /// The principals by their ids; disabled ones only where asked for.
    pub fn principals(&self, include_disabled: bool) -> (r: Vec<Principal>)
        ensures
            are_principals(
                r@,
                tables::kept(self.policy.state().principals, is_shown(include_disabled)),
                self.policy.state(),
            ),
    {
        let ghost all = self.policy.state().principals;
        let ghost p = is_shown(include_disabled);
        let mut out: Vec<Principal> = Vec::new();
        let mut i: usize = 0;
        proof {
            assert(all.take(0) =~= seq![]);
        }
        while i < self.policy.principals.len()
            invariant
                i <= self.policy.principals@.len(),
                all == self.policy.state().principals,
                p == is_shown(include_disabled),
                are_principals(out@, tables::kept(all.take(i as int), p), self.policy.state()),
            decreases self.policy.principals.len() - i,
        {
            proof {
                tables::lemma_kept_step(all, p, i as int);
                assert(all[i as int] == self.policy.principals@[i as int]@);
            }
            if include_disabled || self.policy.principals[i].enabled {
                out.push(
                    policy::principal_with_on(&self.policy, &self.policy.principals[i]),
                );
            }
            i = i + 1;
        }
        proof {
            assert(all.take(all.len() as int) =~= all);
        }
        out
    }

    /// The effective authority of a principal: what its active grants come to while it
    /// is enabled, and nothing otherwise.
    pub fn principal_authority(&self, principal_id: &str) -> (r: Authority)
        requires
            self.policy.wf(),
        ensures
            r.wf(),
            forall|scope: ScopeView| #[trigger]
                r.held(scope) == if policy_state::is_enabled(
                    self.policy.state().principals,
                    principal_id@,
                ) {
                    lattice::level(
                        policy_state::held_pairs(self.policy.state().grants, principal_id@),
                        scope,
                    )
                } else {
                    None
                },
    {
        policy_state::effective_authority(&self.policy, principal_id)
    }
}

// -------------------------------------------------------------------------- explaining

/// The grant alone satisfies what is required.
pub open spec fn matches_requirement(scope: ScopeView, required: Capability) -> spec_fn(
    GrantView,
) -> bool {
    |g: GrantView|
        {
            let held = lattice::scope_of(g.scope);
            &&& g.state == GrantState::Active
            &&& held == Ok::<ScopeView, Seq<char>>(scope) || (scope is BoardTag && held == Ok::<
                ScopeView,
                Seq<char>,
            >(ScopeView::BoardWildcard(scope->BoardTag_0)))
            &&& lattice::rank(g.capability) >= lattice::rank(required)
        }
}

/// The ids of the active grants that satisfy what is required, in order.
pub open spec fn matched_ids(grants: Seq<GrantView>, scope: ScopeView, required: Capability) -> Seq<
    Seq<char>,
> {
    ranking::sorted_texts(
        tables::kept(grants, matches_requirement(scope, required)).map_values(
            |g: GrantView| g.id,
        ),
    )
}

fn is_matching(grant: &Grant, tuple: &ScopeTuple, required: Capability) -> (r: bool)
    requires
        grant.state == GrantState::Active ==> lattice::scope_of(text::texts(grant.scope@)) is Ok,
    ensures
        r == matches_requirement(tuple@, required)(grant@),
{
    if grant.state != GrantState::Active {
        return false;
    }
    let held = grant.scope_tuple();
    let fits = held.same(tuple) || match tuple {
        ScopeTuple::BoardTag { board_id, .. } => held.same(
            &ScopeTuple::BoardWildcard { board_id: board_id.clone() },
        ),
        _ => false,
    };
    fits && grant.capability.at_least(required)
}

/// The ids of the active grants that satisfy what is required, in order.
pub fn matched_grant_ids(grants: &[Grant], tuple: &ScopeTuple, required: Capability) -> (r: Vec<
    String,
>)
    requires
        forall|i: int|
            0 <= i < grants@.len() && (#[trigger] grants@[i]).state == GrantState::Active
                ==> lattice::scope_of(text::texts(grants@[i].scope@)) is Ok,
    ensures
        text::texts(r@) == matched_ids(keyed::rows(grants@), tuple@, required),
{
    let ghost all = keyed::rows(grants@);
    let ghost p = matches_requirement(tuple@, required);
    let mut out: Vec<String> = Vec::new();
    let mut i: usize = 0;
    proof {
        assert(all.take(0) =~= seq![]);
        assert(text::texts(out@) =~= tables::kept(all.take(0), p).map_values(
            |g: GrantView| g.id,
        ));
    }
    while i < grants.len()
        invariant
            i <= grants@.len(),
            all == keyed::rows(grants@),
            p == matches_requirement(tuple@, required),
            forall|k: int|
                0 <= k < grants@.len() && (#[trigger] grants@[k]).state == GrantState::Active
                    ==> lattice::scope_of(text::texts(grants@[k].scope@)) is Ok,
            text::texts(out@) == tables::kept(all.take(i as int), p).map_values(
                |g: GrantView| g.id,
            ),
        decreases grants.len() - i,
    {
        let ghost before = text::texts(out@);
        let ghost kept = tables::kept(all.take(i as int), p);
        proof {
            tables::lemma_kept_step(all, p, i as int);
            assert(all[i as int] == grants@[i as int]@);
        }
        if is_matching(&grants[i], tuple, required) {
            out.push(grants[i].id.clone());
            proof {
                assert(text::texts(out@) =~= before.push(grants@[i as int].id@));
                assert(kept.push(all[i as int]).map_values(|g: GrantView| g.id)
                    =~= kept.map_values(|g: GrantView| g.id).push(all[i as int].id));
            }
        }
        i = i + 1;
    }
    proof {
        assert(all.take(all.len() as int) =~= all);
    }
    ranking::sort_texts(out)
}

/// Why a requirement is satisfied or not.
#[derive(Debug, Clone)]
pub struct ExplainReceipt {
    pub principal_id: String,
    pub capability: Capability,
    pub required_scopes: Vec<Vec<String>>,
    pub policy_epoch: i64,
    pub policy_state_hash: String,
    pub enforcement_state: String,
    pub outcome: String,
    pub matched_grant_ids: Vec<String>,
    pub denial_reason: Option<String>,
}

impl Registry {
    /// Whether a principal satisfies a requirement, and by which grants.
    pub fn explain(&self, principal_id: &str, tuple: &ScopeTuple, capability: Capability) -> (r:
        ExplainReceipt)
        requires
            self.policy.wf(),
        ensures
            ({
                let st = self.policy.state();
                let allowed = lattice::satisfied(
                    policy_state::effective_pairs(st, principal_id@),
                    tuple@,
                    capability,
                );
                let live = policy::live_state(self.policy);
                &&& r.principal_id@ == principal_id@
                &&& r.capability == capability
                &&& policy::lists(r.required_scopes@) == seq![lattice::atoms_of(tuple@)]
                &&& r.policy_epoch == live.0
                &&& r.policy_state_hash@ == live.1
                &&& r.enforcement_state == self.policy.enforcement
                &&& r.outcome@ == if allowed {
                    "allowed"@
                } else {
                    "denied"@
                }
                &&& text::texts(r.matched_grant_ids@) == matched_ids(
                    policy_state::effective_grants(st, principal_id@),
                    tuple@,
                    capability,
                )
                &&& text::text_of(r.denial_reason) == if allowed {
                    None
                } else {
                    Some("denied or not found"@)
                }
            }),
    {
        let grants = policy_state::effective_grants_of(&self.policy, principal_id);
        let held = policy_state::effective_authority(&self.policy, principal_id);
        proof {
            let all = self.policy.state().grants;
            let pairs = policy_state::effective_pairs(self.policy.state(), principal_id@);
            assert(held.held(tuple@) == lattice::level(pairs, tuple@));
            if tuple@ is BoardTag {
                let w = ScopeView::BoardWildcard(tuple@->BoardTag_0);
                assert(held.held(w) == lattice::level(pairs, w));
            }
            tables::lemma_kept(all, policy_state::active_for(principal_id@));
            assert forall|i: int|
                0 <= i < grants@.len() && (#[trigger] grants@[i]).state == GrantState::Active implies
                lattice::scope_of(text::texts(grants@[i].scope@)) is Ok by {
                assert(keyed::rows(grants@)[i] == grants@[i]@);
                assert(policy_state::effective_grants(self.policy.state(), principal_id@).len()
                    > 0);
                assert(all.contains(keyed::rows(grants@)[i]));
                let k = choose|k: int| 0 <= k < all.len() && all[k] == grants@[i]@;
                assert(lattice::scope_of(all[k].scope) is Ok);
            }
        }
        let allowed = lattice::satisfies(&held, tuple, capability);
        let (epoch, hash) = policy::live_policy_state_on(&self.policy);
        let required_scopes: Vec<Vec<String>> = vec![tuple.to_atoms()];
        proof {
            assert(policy::lists(required_scopes@) =~= seq![lattice::atoms_of(tuple@)]);
        }
        ExplainReceipt {
            principal_id: principal_id.to_owned(),
            capability,
            required_scopes,
            policy_epoch: epoch,
            policy_state_hash: hash,
            enforcement_state: self.policy.enforcement.clone(),
            outcome: if allowed {
                "allowed".to_owned()
            } else {
                "denied".to_owned()
            },
            matched_grant_ids: matched_grant_ids(grants.as_slice(), tuple, capability),
            denial_reason: if allowed {
                None
            } else {
                Some("denied or not found".to_owned())
            },
        }
    }
}

/// A requirement is satisfied exactly where some grant is named as satisfying it.
pub proof fn law_explained_by_grants(
    st: PolicyState,
    principal: Seq<char>,
    scope: ScopeView,
    required: Capability,
)
    requires
        policy_state::scoped(st.grants),
    ensures
        lattice::satisfied(policy_state::effective_pairs(st, principal), scope, required)
            <==> matched_ids(
            policy_state::effective_grants(st, principal),
            scope,
            required,
        ).len() > 0,
{
    let grants = st.grants;
    let active = policy_state::effective_grants(st, principal);
    let pairs = policy_state::effective_pairs(st, principal);
    let p = matches_requirement(scope, required);
    let matching = tables::kept(active, p);
    tables::lemma_kept(grants, policy_state::active_for(principal));
    tables::lemma_kept(active, p);
    lattice::law_scopes_are_incomparable(pairs, scope, required);
    ranking::law_sorted_texts(matching.map_values(|g: GrantView| g.id));
    assert forall|i: int| 0 <= i < active.len() implies lattice::scope_of(
        (#[trigger] active[i]).scope,
    ) is Ok by {
        assert(grants.contains(active[i]));
        let k = choose|k: int| 0 <= k < grants.len() && grants[k] == active[i];
        assert(lattice::scope_of(grants[k].scope) is Ok);
    }
    if lattice::satisfied(pairs, scope, required) {
        let i = choose|i: int|
            0 <= i < pairs.len() && lattice::rank((#[trigger] pairs[i]).1) >= lattice::rank(
                required,
            ) && (pairs[i].0 == scope || (scope is BoardTag && pairs[i].0
                == ScopeView::BoardWildcard(scope->BoardTag_0)));
        assert(pairs[i] == (lattice::scope_of(active[i].scope)->Ok_0, active[i].capability));
        assert(p(active[i]));
        assert(matching.contains(active[i]));
    }
    if matching.len() > 0 {
        assert(p(matching[0]));
        assert(active.contains(matching[0]));
        let i = choose|i: int| 0 <= i < active.len() && active[i] == matching[0];
        assert(pairs[i] == (lattice::scope_of(active[i].scope)->Ok_0, active[i].capability));
    }
}

} // verus!
