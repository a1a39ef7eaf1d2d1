//! Giving and taking capabilities and mappings.

use vstd::prelude::*;

use crate::keyed;
use crate::lattice;
use crate::lattice::Capability;
use crate::lattice::ScopeTuple;
use crate::lattice::ScopeView;
use crate::policy;
use crate::policy::Change;
use crate::policy::ChangeView;
use crate::policy::Denied;
use crate::policy_journal;
use crate::policy_journal::DeltaView;
use crate::policy_journal::PolicyActor;
use crate::policy_ops;
use crate::policy_ops::DrawView;
use crate::policy_ops::PolicyDraw;
use crate::policy_state;
use crate::policy_state::EffectView;
use crate::policy_state::Grant;
use crate::policy_state::GrantOrigin;
use crate::policy_state::GrantRetirement;
use crate::policy_state::GrantRetirementView;
use crate::policy_state::GrantState;
use crate::policy_state::GrantView;
use crate::policy_state::MappingRetirement;
use crate::policy_state::MappingRetirementView;
use crate::policy_state::PolicyEffect;
use crate::policy_state::SsoMapping;
use crate::policy_state::SsoView;
use crate::tables;
use crate::tables::Registry;
use crate::text;
use crate::text::Error;

verus! {

// ----------------------------------------------------------------------------- lookups

/// The active grant of exactly this capability on exactly this scope.
pub open spec fn is_triple(
    principal: Seq<char>,
    scope: ScopeView,
    capability: Capability,
) -> spec_fn(GrantView) -> bool {
    |g: GrantView|
        {
            &&& g.principal_id == principal
            &&& g.state == GrantState::Active
            &&& lattice::scope_of(g.scope) == Ok::<ScopeView, Seq<char>>(scope)
            &&& g.capability == capability
        }
}

/// The index of the active grant of a triple, or the number of grants.
pub open spec fn triple_index(
    reg: Registry,
    principal: Seq<char>,
    scope: ScopeView,
    capability: Capability,
) -> int {
    tables::first_index(reg.policy.state().grants, is_triple(principal, scope, capability))
}

fn find_triple(table: &[Grant], principal: &str, tuple: &ScopeTuple, capability: Capability) -> (r:
    usize)
    requires
        policy_state::scoped(keyed::rows(table@)),
    ensures
        r == tables::first_index(
            keyed::rows(table@),
            is_triple(principal@, tuple@, capability),
        ),
        r <= table@.len(),
{
    let ghost all = keyed::rows(table@);
    let ghost p = is_triple(principal@, tuple@, capability);
    let mut i: usize = 0;
    while i < table.len()
        invariant
            i <= table@.len(),
            all == keyed::rows(table@),
            policy_state::scoped(all),
            p == is_triple(principal@, tuple@, capability),
            forall|k: int| 0 <= k < i ==> !p(#[trigger] all[k]),
        decreases table.len() - i,
    {
        proof {
            assert(all[i as int] == table@[i as int]@);
        }
        if text::same(table[i].principal_id.as_str(), principal) && table[i].state
            == GrantState::Active && table[i].capability == capability
            && table[i].scope_tuple().same(tuple) {
            proof {
                assert(p(all[i as int]));
                tables::lemma_first_index_is(all, p, i as int);
            }
            return i;
        }
        i = i + 1;
    }
    proof {
        tables::lemma_first_index_is(all, p, i as int);
    }
    i
}

/// Why a principal cannot be given anything: it is not there or not enabled.
pub open spec fn receiver_code(reg: Registry, id: Seq<char>) -> Option<Seq<char>> {
    match policy_ops::principal_at(reg, id) {
        None => Some("not_found"@),
        Some(p) => if p.enabled {
            None
        } else {
            Some("not_enabled"@)
        },
    }
}

impl Registry {
    fn check_receiver(&self, id: &str) -> (r: Option<Denied>)
        ensures
            match receiver_code(*self, id@) {
                None => r is None,
                Some(code) => {
                    &&& r is Some
                    &&& r->0.stage@ == "principal"@
                    &&& r->0.code@ == code
                    &&& r->0.epoch == policy::epoch_of(self.policy)
                },
            },
    {
        let epoch: i64 = policy::policy_epoch_on(&self.policy);
        let i: usize = keyed::find(self.policy.principals.as_slice(), id);
        if i >= self.policy.principals.len() {
            return Some(Denied { stage: "principal", code: "not_found", epoch });
        }
        if !self.policy.principals[i].enabled {
            return Some(Denied { stage: "principal", code: "not_enabled", epoch });
        }
        None
    }
}

// ------------------------------------------------------------------------------- grant

/// A change that gives one grant.
pub open spec fn grant_change(
    pre: Registry,
    kind: Seq<char>,
    operation: Seq<char>,
    g: GrantView,
    scope: ScopeView,
    as_root: bool,
    actor: PolicyActor,
    d: DrawView,
) -> ChangeView {
    ChangeView {
        as_root,
        target_principal: Some(g.principal_id),
        capability: Some(g.capability),
        scopes: seq![scope],
        matched: seq![g.id],
        delta: DeltaView { granted_grant_ids: seq![g.id], ..policy_journal::no_delta() },
        ..policy::bare_change(
            kind,
            operation,
            policy_ops::next_id(pre),
            EffectView { grants: seq![g], ..policy_state::no_effect() },
            actor.state_hash@,
            d.audit_id,
            d.now,
        )
    }
}

/// What granting a capability returns and changes. What is written as no scope is read
/// from is not granted.
pub open spec fn granted(
    pre: Registry,
    post: Registry,
    r: Result<Grant, Error>,
    principal: Seq<char>,
    scope: ScopeView,
    capability: Capability,
    actor: PolicyActor,
    d: DrawView,
) -> bool {
    let operation = "access grant"@;
    match policy::grantor_denial(pre.policy, actor, scope, capability) {
        Some(denial) => policy_ops::denied_plainly(pre, post, r, actor, operation, denial, d),
        None => match receiver_code(pre, principal) {
            Some(code) => policy_ops::denied_plainly(
                pre,
                post,
                r,
                actor,
                operation,
                policy_ops::at_stage(pre, "principal"@, code),
                d,
            ),
            None => if triple_index(pre, principal, scope, capability)
                < pre.policy.state().grants.len() {
                policy_ops::denied_plainly(
                    pre,
                    post,
                    r,
                    actor,
                    operation,
                    policy_ops::at_stage(pre, "scope"@, "already_held"@),
                    d,
                )
            } else if let Err(m) = lattice::scope_of(lattice::atoms_of(scope)) {
                post == pre && text::refused(r, m)
            } else {
                let g = policy_ops::new_grant(
                    d.grant_ids[0],
                    principal,
                    capability,
                    lattice::atoms_of(scope),
                    GrantOrigin::Grant,
                    policy_ops::next_epoch(pre),
                    text::text_of(actor.principal_id),
                    policy_ops::next_id(pre),
                    None,
                );
                let c = grant_change(pre, "grant_added"@, operation, g, scope, false, actor, d);
                match policy_state::clash(pre.policy.state(), c.effect) {
                    Some(m) => post == pre && text::refused(r, m),
                    None => policy_ops::changed(pre, post, actor, c) && r is Ok && r->Ok_0@ == g,
                }
            },
        },
    }
}

impl Registry {
    fn commit_grant(
        &mut self,
        kind: &'static str,
        operation: &'static str,
        grant: &Grant,
        tuple: &ScopeTuple,
        as_root: bool,
        actor: &PolicyActor,
        draw: &PolicyDraw,
    ) -> (r: Result<(), Error>)
        requires
            old(self).policy.wf(),
            policy::has_room(old(self).policy),
        ensures
            ({
                let c = grant_change(
                    *old(self),
                    kind@,
                    operation@,
                    grant@,
                    tuple@,
                    as_root,
                    *actor,
                    draw@,
                );
                match policy_state::clash(old(self).policy.state(), c.effect) {
                    Some(m) => *final(self) == *old(self) && text::refused(r, m),
                    None => policy_ops::changed(*old(self), *final(self), *actor, c) && r is Ok,
                }
            }),
            lattice::scope_of(grant@.scope) is Ok ==> final(self).policy.wf(),
    {
        let ghost pre = *self;
        let seq: i64 = policy::journal_next_seq(&self.policy);
        let event = policy::policy_event_id(seq);
        let mut effect = PolicyEffect::none();
        effect.grants.push(grant.copy());
        proof {
            assert(effect@.grants =~= seq![grant@]);
        }
        if let Err(e) = policy_state::check_new(&self.policy, &effect) {
            return Err(e);
        }
        proof {
            if lattice::scope_of(grant@.scope) is Ok {
                policy_ops::law_effects_keep_the_state_sound(pre.policy.state(), effect@);
            }
        }
        let mut change = Change::bare(
            kind,
            operation,
            event,
            effect,
            actor.state_hash.clone(),
            draw.audit_id.as_str(),
            draw.now,
        );
        change.as_root = as_root;
        change.target_principal = Some(grant.principal_id.clone());
        change.capability = Some(grant.capability);
        change.scopes = vec![tuple.copy()];
        change.matched = vec![grant.id.clone()];
        change.delta.granted_grant_ids = vec![grant.id.clone()];
        proof {
            assert(change@.scopes =~= seq![tuple@]);
            assert(change@.matched =~= seq![grant@.id]);
            assert(change@.delta.granted_grant_ids =~= seq![grant@.id]);
        }
        policy::commit(&mut self.policy, actor, change);
        Ok(())
    }

    /// Grant a capability, with given ids at a given time.
    pub fn grant_as(
        &mut self,
        principal_id: &str,
        tuple: &ScopeTuple,
        capability: Capability,
        actor: &PolicyActor,
        draw: &PolicyDraw,
    ) -> (r: Result<Grant, Error>)
        requires
            old(self).policy.wf(),
            policy::has_room(old(self).policy),
            draw.grant_ids@.len() >= 1,
        ensures
            granted(
                *old(self),
                *final(self),
                r,
                principal_id@,
                tuple@,
                capability,
                *actor,
                draw@,
            ),
            final(self).policy.wf(),
    {
        if let Some(reason) = policy::check_admin(&self.policy, actor) {
            return self.deny_request(actor, "access grant", reason, draw);
        }
        if let Some(reason) = policy::require_grantor_holds(
            &self.policy,
            actor,
            tuple,
            capability,
        ) {
            return self.deny_request(actor, "access grant", reason, draw);
        }
        if let Some(reason) = self.check_receiver(principal_id) {
            return self.deny_request(actor, "access grant", reason, draw);
        }
        let epoch: i64 = policy::policy_epoch_on(&self.policy);
        if find_triple(self.policy.grants.as_slice(), principal_id, tuple, capability)
            < self.policy.grants.len() {
            return self.deny_request(
                actor,
                "access grant",
                Denied { stage: "scope", code: "already_held", epoch },
                draw,
            );
        }
        let atoms = tuple.to_atoms();
        if let Err(e) = ScopeTuple::from_atoms(atoms.as_slice()) {
            return Err(e);
        }
        let seq: i64 = policy::journal_next_seq(&self.policy);
        let event = policy::policy_event_id(seq);
        let row = policy_ops::make_grant(
            draw.grant_ids[0].as_str(),
            principal_id,
            capability,
            atoms,
            GrantOrigin::Grant,
            epoch + 1,
            &actor.principal_id,
            event.as_str(),
            None,
        );
        match self.commit_grant("grant_added", "access grant", &row, tuple, false, actor, draw) {
            Ok(_) => Ok(row),
            Err(e) => Err(e),
        }
    }

    /// Grant a capability on a scope to a principal; the actor has to hold it.
    pub fn grant(
        &mut self,
        principal_id: &str,
        tuple: &ScopeTuple,
        capability: Capability,
        actor: &PolicyActor,
    ) -> (r: Result<Grant, Error>)
        requires
            old(self).policy.wf(),
            policy::has_room(old(self).policy),
        ensures
            exists|d: DrawView|
                policy_ops::is_drawn(d, 1, 0) && #[trigger] granted(
                    *old(self),
                    *final(self),
                    r,
                    principal_id@,
                    tuple@,
                    capability,
                    *actor,
                    d,
                ),
            final(self).policy.wf(),
    {
        let draw = policy_ops::draw_policy(1, 0);
        self.grant_as(principal_id, tuple, capability, actor, &draw)
    }
}

// ------------------------------------------------------------------------------ revoke

/// What revoking a capability returns and changes. The returned grant says that it
/// was revoked; the stored one is retired.
pub open spec fn revoked(
    pre: Registry,
    post: Registry,
    r: Result<Grant, Error>,
    principal: Seq<char>,
    scope: ScopeView,
    capability: Capability,
    actor: PolicyActor,
    d: DrawView,
) -> bool {
    let operation = "access revoke"@;
    let i = triple_index(pre, principal, scope, capability);
    let grants = pre.policy.state().grants;
    match policy::grantor_denial(pre.policy, actor, scope, capability) {
        Some(denial) => policy_ops::denied_plainly(pre, post, r, actor, operation, denial, d),
        None => if i >= grants.len() {
            policy_ops::denied(
                pre,
                post,
                r,
                "denied or not found: no active grant for principal "@ + principal + " on "@
                    + text::joined(lattice::atoms_of(scope), " "@) + " at capability "@
                    + lattice::capability_text(capability),
                actor,
                operation,
                policy_ops::at_stage(pre, "scope"@, "missing_triple"@),
                d,
            )
        } else {
            let epoch = policy_ops::next_epoch(pre);
            let event = policy_ops::next_id(pre);
            let c = ChangeView {
                target_principal: Some(principal),
                capability: Some(capability),
                scopes: seq![scope],
                matched: seq![grants[i].id],
                delta: DeltaView {
                    revoked_grant_ids: seq![grants[i].id],
                    ..policy_journal::no_delta()
                },
                ..policy::bare_change(
                    "grant_revoked"@,
                    operation,
                    event,
                    EffectView {
                        retired_grants: seq![
                            GrantRetirementView {
                                id: grants[i].id,
                                retired_at_epoch: epoch,
                                retired_by_event_id: event,
                            },
                        ],
                        ..policy_state::no_effect()
                    },
                    actor.state_hash@,
                    d.audit_id,
                    d.now,
                )
            };
            &&& policy_ops::changed(pre, post, actor, c)
            &&& r is Ok
            &&& r->Ok_0@ == (GrantView {
                state: GrantState::Revoked,
                retired_at_epoch: Some(epoch),
                retired_by_event_id: Some(event),
                ..grants[i]
            })
        },
    }
}

impl Registry {
    /// Revoke a capability, with given ids at a given time.
    pub fn revoke_as(
        &mut self,
        principal_id: &str,
        tuple: &ScopeTuple,
        capability: Capability,
        actor: &PolicyActor,
        draw: &PolicyDraw,
    ) -> (r: Result<Grant, Error>)
        requires
            old(self).policy.wf(),
            policy::has_room(old(self).policy),
        ensures
            revoked(
                *old(self),
                *final(self),
                r,
                principal_id@,
                tuple@,
                capability,
                *actor,
                draw@,
            ),
            final(self).policy.wf(),
    {
        let ghost pre = *self;
        if let Some(reason) = policy::check_admin(&self.policy, actor) {
            return self.deny_request(actor, "access revoke", reason, draw);
        }
        if let Some(reason) = policy::require_grantor_holds(
            &self.policy,
            actor,
            tuple,
            capability,
        ) {
            return self.deny_request(actor, "access revoke", reason, draw);
        }
        let epoch: i64 = policy::policy_epoch_on(&self.policy);
        let i: usize = find_triple(
            self.policy.grants.as_slice(),
            principal_id,
            tuple,
            capability,
        );
        if i >= self.policy.grants.len() {
            policy::deny(
                &mut self.policy,
                actor,
                "access revoke",
                Denied { stage: "scope", code: "missing_triple", epoch },
                draw.audit_id.as_str(),
                draw.now,
            );
            let atoms = tuple.to_atoms();
            return text::refuse(
                "denied or not found: no active grant for principal ".to_owned().concat(
                    principal_id,
                ).concat(" on ").concat(text::join(atoms.as_slice(), " ").as_str()).concat(
                    " at capability ",
                ).concat(capability.as_str()),
            );
        }
        let seq: i64 = policy::journal_next_seq(&self.policy);
        let event = policy::policy_event_id(seq);
        let mut row = self.policy.grants[i].copy();
        row.state = GrantState::Revoked;
        row.retired_at_epoch = Some(epoch + 1);
        row.retired_by_event_id = Some(event.clone());
        let id = row.id.clone();
        let mut effect = PolicyEffect::none();
        let end = GrantRetirement {
            id: row.id.clone(),
            retired_at_epoch: epoch + 1,
            retired_by_event_id: event.clone(),
        };
        effect.retired_grants.push(end);
        proof {
            assert(effect@.retired_grants =~= seq![end@]);
            policy_ops::lemma_no_grants(pre.policy.state(), effect@);
            policy_ops::law_effects_keep_the_state_sound(pre.policy.state(), effect@);
        }
        let mut change = Change::bare(
            "grant_revoked",
            "access revoke",
            event,
            effect,
            actor.state_hash.clone(),
            draw.audit_id.as_str(),
            draw.now,
        );
        change.target_principal = Some(principal_id.to_owned());
        change.capability = Some(capability);
        change.scopes = vec![tuple.copy()];
        change.matched = vec![id.clone()];
        change.delta.revoked_grant_ids = vec![id];
        proof {
            assert(change@.scopes =~= seq![tuple@]);
            assert(change@.matched =~= seq![row@.id]);
            assert(change@.delta.revoked_grant_ids =~= seq![row@.id]);
        }
        policy::commit(&mut self.policy, actor, change);
        Ok(row)
    }

    /// Revoke exactly one capability on exactly one scope; the actor has to hold it.
    pub fn revoke(
        &mut self,
        principal_id: &str,
        tuple: &ScopeTuple,
        capability: Capability,
        actor: &PolicyActor,
    ) -> (r: Result<Grant, Error>)
        requires
            old(self).policy.wf(),
            policy::has_room(old(self).policy),
        ensures
            exists|d: DrawView|
                policy_ops::is_drawn(d, 0, 0) && #[trigger] revoked(
                    *old(self),
                    *final(self),
                    r,
                    principal_id@,
                    tuple@,
                    capability,
                    *actor,
                    d,
                ),
            final(self).policy.wf(),
    {
        let draw = policy_ops::draw_policy(0, 0);
        self.revoke_as(principal_id, tuple, capability, actor, &draw)
    }
}

// ---------------------------------------------------------------------------- mappings

pub open spec fn is_subject_char(c: char) -> bool {
    ||| 'a' <= c <= 'z'
    ||| 'A' <= c <= 'Z'
    ||| '0' <= c <= '9'
    ||| c == '.'
    ||| c == '_'
    ||| c == '~'
    ||| c == '-'
}

/// A subject is short and of unreserved characters only.
pub open spec fn is_subject(s: Seq<char>) -> bool {
    &&& 0 < s.len() <= 255
    &&& forall|i: int| 0 <= i < s.len() ==> is_subject_char(#[trigger] s[i])
}

/// Why a subject of a provider cannot be mapped at all.
pub open spec fn subject_refusal(provider: Seq<char>, subject: Seq<char>) -> Option<Seq<char>> {
    if provider != "google"@ {
        Some("the only supported SSO provider is google"@)
    } else if !is_subject(subject) {
        Some("invalid SSO subject"@)
    } else {
        None
    }
}

fn check_subject(provider: &str, subject: &str) -> (r: Result<(), Error>)
    ensures
        match subject_refusal(provider@, subject@) {
            Some(m) => text::refused(r, m),
            None => r is Ok,
        },
{
    if !text::same(provider, "google") {
        return text::refuse("the only supported SSO provider is google".to_owned());
    }
    let cs = text::chars_of(subject);
    if cs.len() == 0 || cs.len() > 255 {
        return text::refuse("invalid SSO subject".to_owned());
    }
    let mut i: usize = 0;
    while i < cs.len()
        invariant
            i <= cs@.len(),
            cs@ == subject@,
            provider@ == "google"@,
            forall|k: int| 0 <= k < i ==> is_subject_char(#[trigger] cs@[k]),
        decreases cs.len() - i,
    {
        let c: char = cs[i];
        if !(('a' <= c && c <= 'z') || ('A' <= c && c <= 'Z') || ('0' <= c && c <= '9') || c == '.'
            || c == '_' || c == '~' || c == '-') {
            proof {
                assert(!is_subject_char(subject@[i as int]));
            }
            return text::refuse("invalid SSO subject".to_owned());
        }
        i = i + 1;
    }
    Ok(())
}

/// What mapping a subject returns and changes.
pub open spec fn mapped(
    pre: Registry,
    post: Registry,
    r: Result<SsoMapping, Error>,
    principal: Seq<char>,
    provider: Seq<char>,
    subject: Seq<char>,
    actor: PolicyActor,
    d: DrawView,
) -> bool {
    let operation = "access map-sso"@;
    let mappings = pre.policy.state().mappings;
    match subject_refusal(provider, subject) {
        Some(m) => post == pre && text::refused(r, m),
        None => match policy::admin_denial(pre.policy, actor) {
            Some(denial) => policy_ops::denied_plainly(pre, post, r, actor, operation, denial, d),
            None => match receiver_code(pre, principal) {
                Some(code) => policy_ops::denied_plainly(
                    pre,
                    post,
                    r,
                    actor,
                    operation,
                    policy_ops::at_stage(pre, "principal"@, code),
                    d,
                ),
                None => if tables::first_index(
                    mappings,
                    policy_state::active_subject(provider, subject),
                ) < mappings.len() {
                    policy_ops::denied_plainly(
                        pre,
                        post,
                        r,
                        actor,
                        operation,
                        policy_ops::at_stage(pre, "scope"@, "already_mapped"@),
                        d,
                    )
                } else {
                    let m = policy_ops::new_mapping(
                        d.mapping_ids[0],
                        principal,
                        provider,
                        subject,
                        policy_ops::next_epoch(pre),
                        policy_ops::next_id(pre),
                    );
                    let c = ChangeView {
                        target_principal: Some(principal),
                        target_mapping: Some(m.id),
                        delta: DeltaView {
                            mapped_mapping_ids: seq![m.id],
                            ..policy_journal::no_delta()
                        },
                        ..policy::bare_change(
                            "sso_mapped"@,
                            operation,
                            policy_ops::next_id(pre),
                            EffectView { mappings: seq![m], ..policy_state::no_effect() },
                            actor.state_hash@,
                            d.audit_id,
                            d.now,
                        )
                    };
                    match policy_state::clash(pre.policy.state(), c.effect) {
                        Some(e) => post == pre && text::refused(r, e),
                        None => policy_ops::changed(pre, post, actor, c) && r is Ok && r->Ok_0@
                            == m,
                    }
                },
            },
        },
    }
}

/// What unmapping a subject returns and changes.
pub open spec fn unmapped(
    pre: Registry,
    post: Registry,
    r: Result<SsoMapping, Error>,
    provider: Seq<char>,
    subject: Seq<char>,
    actor: PolicyActor,
    d: DrawView,
) -> bool {
    let operation = "access unmap-sso"@;
    let mappings = pre.policy.state().mappings;
    let i = tables::first_index(mappings, policy_state::active_subject(provider, subject));
    match policy::admin_denial(pre.policy, actor) {
        Some(denial) => policy_ops::denied_plainly(pre, post, r, actor, operation, denial, d),
        None => if i >= mappings.len() {
            &&& post == pre
            &&& text::refused(
                r,
                "denied or not found: no active mapping for "@ + provider + ":"@ + subject,
            )
        } else {
            let epoch = policy_ops::next_epoch(pre);
            let event = policy_ops::next_id(pre);
            let c = ChangeView {
                target_mapping: Some(mappings[i].id),
                delta: DeltaView {
                    unmapped_mapping_ids: seq![mappings[i].id],
                    ..policy_journal::no_delta()
                },
                ..policy::bare_change(
                    "sso_unmapped"@,
                    operation,
                    event,
                    EffectView {
                        unmapped_mappings: seq![
                            MappingRetirementView {
                                id: mappings[i].id,
                                unmapped_at_epoch: epoch,
                                unmapped_by_event_id: event,
                            },
                        ],
                        ..policy_state::no_effect()
                    },
                    actor.state_hash@,
                    d.audit_id,
                    d.now,
                )
            };
            &&& policy_ops::changed(pre, post, actor, c)
            &&& r is Ok
            &&& r->Ok_0@ == (SsoView {
                unmapped_at_epoch: Some(epoch),
                unmapped_by_event_id: Some(event),
                ..mappings[i]
            })
        },
    }
}

impl Registry {
    /// Map a subject to a principal, with given ids at a given time.
    pub fn map_sso_as(
        &mut self,
        principal_id: &str,
        provider: &str,
        subject: &str,
        actor: &PolicyActor,
        draw: &PolicyDraw,
    ) -> (r: Result<SsoMapping, Error>)
        requires
            old(self).policy.wf(),
            policy::has_room(old(self).policy),
            draw.mapping_ids@.len() >= 1,
        ensures
            mapped(
                *old(self),
                *final(self),
                r,
                principal_id@,
                provider@,
                subject@,
                *actor,
                draw@,
            ),
            final(self).policy.wf(),
    {
        let ghost pre = *self;
        match check_subject(provider, subject) {
            Ok(_) => {},
            Err(e) => {
                return Err(e);
            },
        }
        if let Some(reason) = policy::check_admin(&self.policy, actor) {
            return self.deny_request(actor, "access map-sso", reason, draw);
        }
        if let Some(reason) = self.check_receiver(principal_id) {
            return self.deny_request(actor, "access map-sso", reason, draw);
        }
        let epoch: i64 = policy::policy_epoch_on(&self.policy);
        if policy_state::find_subject(self.policy.mappings.as_slice(), provider, subject)
            < self.policy.mappings.len() {
            return self.deny_request(
                actor,
                "access map-sso",
                Denied { stage: "scope", code: "already_mapped", epoch },
                draw,
            );
        }
        let seq: i64 = policy::journal_next_seq(&self.policy);
        let event = policy::policy_event_id(seq);
        let row = policy_ops::make_mapping(
            draw.mapping_ids[0].as_str(),
            principal_id,
            provider,
            subject,
            epoch + 1,
            event.as_str(),
        );
        let mut effect = PolicyEffect::none();
        effect.mappings.push(row.copy());
        proof {
            assert(effect@.mappings =~= seq![row@]);
        }
        if let Err(e) = policy_state::check_new(&self.policy, &effect) {
            return Err(e);
        }
        proof {
            policy_ops::law_effects_keep_the_state_sound(pre.policy.state(), effect@);
        }
        let mut change = Change::bare(
            "sso_mapped",
            "access map-sso",
            event,
            effect,
            actor.state_hash.clone(),
            draw.audit_id.as_str(),
            draw.now,
        );
        change.target_principal = Some(principal_id.to_owned());
        change.target_mapping = Some(row.id.clone());
        change.delta.mapped_mapping_ids = vec![row.id.clone()];
        proof {
            assert(change@.delta.mapped_mapping_ids =~= seq![row@.id]);
        }
        policy::commit(&mut self.policy, actor, change);
        Ok(row)
    }

    /// Let a subject of an identity provider stand for a principal.
    pub fn map_sso(
        &mut self,
        principal_id: &str,
        provider: &str,
        subject: &str,
        actor: &PolicyActor,
    ) -> (r: Result<SsoMapping, Error>)
        requires
            old(self).policy.wf(),
            policy::has_room(old(self).policy),
        ensures
            exists|d: DrawView|
                policy_ops::is_drawn(d, 0, 1) && #[trigger] mapped(
                    *old(self),
                    *final(self),
                    r,
                    principal_id@,
                    provider@,
                    subject@,
                    *actor,
                    d,
                ),
            final(self).policy.wf(),
    {
        let draw = policy_ops::draw_policy(0, 1);
        self.map_sso_as(principal_id, provider, subject, actor, &draw)
    }

    /// Unmap a subject, with given ids at a given time.
    pub fn unmap_sso_as(
        &mut self,
        provider: &str,
        subject: &str,
        actor: &PolicyActor,
        draw: &PolicyDraw,
    ) -> (r: Result<SsoMapping, Error>)
        requires
            old(self).policy.wf(),
            policy::has_room(old(self).policy),
        ensures
            unmapped(*old(self), *final(self), r, provider@, subject@, *actor, draw@),
            final(self).policy.wf(),
    {
        let ghost pre = *self;
        if let Some(reason) = policy::check_admin(&self.policy, actor) {
            return self.deny_request(actor, "access unmap-sso", reason, draw);
        }
        let epoch: i64 = policy::policy_epoch_on(&self.policy);
        let i: usize = policy_state::find_subject(
            self.policy.mappings.as_slice(),
            provider,
            subject,
        );
        if i >= self.policy.mappings.len() {
            return text::refuse(
                "denied or not found: no active mapping for ".to_owned().concat(provider).concat(
                    ":",
                ).concat(subject),
            );
        }
        let seq: i64 = policy::journal_next_seq(&self.policy);
        let event = policy::policy_event_id(seq);
        let mut row = self.policy.mappings[i].copy();
        row.unmapped_at_epoch = Some(epoch + 1);
        row.unmapped_by_event_id = Some(event.clone());
        let mut effect = PolicyEffect::none();
        let end = MappingRetirement {
            id: row.id.clone(),
            unmapped_at_epoch: epoch + 1,
            unmapped_by_event_id: event.clone(),
        };
        effect.unmapped_mappings.push(end);
        proof {
            assert(effect@.unmapped_mappings =~= seq![end@]);
            policy_ops::lemma_no_grants(pre.policy.state(), effect@);
            policy_ops::law_effects_keep_the_state_sound(pre.policy.state(), effect@);
        }
        let mut change = Change::bare(
            "sso_unmapped",
            "access unmap-sso",
            event,
            effect,
            actor.state_hash.clone(),
            draw.audit_id.as_str(),
            draw.now,
        );
        change.target_mapping = Some(row.id.clone());
        change.delta.unmapped_mapping_ids = vec![row.id.clone()];
        proof {
            assert(change@.delta.unmapped_mapping_ids =~= seq![row@.id]);
        }
        policy::commit(&mut self.policy, actor, change);
        Ok(row)
    }

    /// Let a subject of an identity provider no longer stand for a principal.
    pub fn unmap_sso(&mut self, provider: &str, subject: &str, actor: &PolicyActor) -> (r: Result<
        SsoMapping,
        Error,
    >)
        requires
            old(self).policy.wf(),
            policy::has_room(old(self).policy),
        ensures
            exists|d: DrawView|
                policy_ops::is_drawn(d, 0, 0) && #[trigger] unmapped(
                    *old(self),
                    *final(self),
                    r,
                    provider@,
                    subject@,
                    *actor,
                    d,
                ),
            final(self).policy.wf(),
    {
        let draw = policy_ops::draw_policy(0, 0);
        self.unmap_sso_as(provider, subject, actor, &draw)
    }
}

// -------------------------------------------------------------------------- break glass

/// What giving the administration of the registry in an emergency returns and
/// changes.
pub open spec fn breakglass_granted(
    pre: Registry,
    post: Registry,
    r: Result<Grant, Error>,
    principal: Seq<char>,
    actor: PolicyActor,
    d: DrawView,
) -> bool {
    let operation = "access breakglass registry-admin"@;
    if policy::epoch_of(pre.policy) == 0 {
        policy_ops::denied_plainly(
            pre,
            post,
            r,
            actor,
            operation,
            policy_ops::at_stage(pre, "enforcement"@, "empty_policy"@),
            d,
        )
    } else {
        match receiver_code(pre, principal) {
            Some(code) => policy_ops::denied_plainly(
                pre,
                post,
                r,
                actor,
                operation,
                policy_ops::at_stage(pre, "principal"@, code),
                d,
            ),
            None => if triple_index(pre, principal, ScopeView::Registry, Capability::Admin)
                < pre.policy.state().grants.len() {
                policy_ops::denied_plainly(
                    pre,
                    post,
                    r,
                    actor,
                    operation,
                    policy_ops::at_stage(pre, "scope"@, "already_admin"@),
                    d,
                )
            } else {
                let g = policy_ops::new_grant(
                    d.grant_ids[0],
                    principal,
                    Capability::Admin,
                    lattice::atoms_of(ScopeView::Registry),
                    GrantOrigin::BreakglassRegistryAdmin,
                    policy_ops::next_epoch(pre),
                    None,
                    policy_ops::next_id(pre),
                    None,
                );
                let c = grant_change(
                    pre,
                    "breakglass_registry_admin"@,
                    operation,
                    g,
                    ScopeView::Registry,
                    true,
                    actor,
                    d,
                );
                match policy_state::clash(pre.policy.state(), c.effect) {
                    Some(m) => post == pre && text::refused(r, m),
                    None => policy_ops::changed(pre, post, actor, c) && r is Ok && r->Ok_0@ == g,
                }
            },
        }
    }
}

impl Registry {
    /// Give the administration of the registry in an emergency, with given ids at a
    /// given time.
    pub fn breakglass_grant_registry_admin_as(
        &mut self,
        principal_id: &str,
        actor: &PolicyActor,
        draw: &PolicyDraw,
    ) -> (r: Result<Grant, Error>)
        requires
            old(self).policy.wf(),
            policy::has_room(old(self).policy),
            draw.grant_ids@.len() >= 1,
        ensures
            breakglass_granted(*old(self), *final(self), r, principal_id@, *actor, draw@),
            final(self).policy.wf(),
    {
        let epoch: i64 = policy::policy_epoch_on(&self.policy);
        if epoch == 0 {
            return self.deny_request(
                actor,
                "access breakglass registry-admin",
                Denied { stage: "enforcement", code: "empty_policy", epoch },
                draw,
            );
        }
        if let Some(reason) = self.check_receiver(principal_id) {
            return self.deny_request(actor, "access breakglass registry-admin", reason, draw);
        }
        let tuple = ScopeTuple::Registry;
        if find_triple(
            self.policy.grants.as_slice(),
            principal_id,
            &tuple,
            Capability::Admin,
        ) < self.policy.grants.len() {
            return self.deny_request(
                actor,
                "access breakglass registry-admin",
                Denied { stage: "scope", code: "already_admin", epoch },
                draw,
            );
        }
        let seq: i64 = policy::journal_next_seq(&self.policy);
        let event = policy::policy_event_id(seq);
        let row = policy_ops::make_grant(
            draw.grant_ids[0].as_str(),
            principal_id,
            Capability::Admin,
            tuple.to_atoms(),
            GrantOrigin::BreakglassRegistryAdmin,
            epoch + 1,
            &None,
            event.as_str(),
            None,
        );
        proof {
            lattice::law_atoms_form_the_scope(tuple@);
        }
        match self.commit_grant(
            "breakglass_registry_admin",
            "access breakglass registry-admin",
            &row,
            &tuple,
            true,
            actor,
            draw,
        ) {
            Ok(_) => Ok(row),
            Err(e) => Err(e),
        }
    }

    /// Give an enabled principal the administration of the registry in an emergency,
    /// on root's word alone.
    pub fn breakglass_grant_registry_admin(&mut self, principal_id: &str, actor: &PolicyActor) -> (r:
        Result<Grant, Error>)
        requires
            old(self).policy.wf(),
            policy::has_room(old(self).policy),
        ensures
            exists|d: DrawView|
                policy_ops::is_drawn(d, 1, 0) && #[trigger] breakglass_granted(
                    *old(self),
                    *final(self),
                    r,
                    principal_id@,
                    *actor,
                    d,
                ),
            final(self).policy.wf(),
    {
        let draw = policy_ops::draw_policy(1, 0);
        self.breakglass_grant_registry_admin_as(principal_id, actor, &draw)
    }
}

} // verus!
