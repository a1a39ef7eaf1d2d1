//! Who may change access policy, and how a change is recorded.

use vstd::prelude::*;

use crate::keyed;
use crate::lattice;
use crate::lattice::Capability;
use crate::lattice::ScopeTuple;
use crate::lattice::ScopeView;
use crate::outside;
use crate::policy_journal;
use crate::policy_journal::AccessAuditPayload;
use crate::policy_journal::DeltaView;
use crate::policy_journal::PolicyActor;
use crate::policy_journal::PolicyDelta;
use crate::policy_journal::PolicyEpochPayload;
use crate::policy_journal::PolicyEventPayload;
use crate::policy_journal::PolicyEventRow;
use crate::policy_journal::PrincipalValue;
use crate::policy_state;
use crate::policy_state::EffectView;
use crate::policy_state::Grant;
use crate::policy_state::PolicyEffect;
use crate::policy_state::PolicyState;
use crate::policy_state::PolicyTables;
use crate::policy_state::PrincipalRow;
use crate::policy_state::PrincipalView;
use crate::policy_state::SsoMapping;
use crate::ranking;
use crate::tables;
use crate::text;
use crate::text::Error;
use crate::transfer;

verus! {

// ------------------------------------------------------------------------ event kinds

/// The kinds of events that change policy, each by exactly one epoch.
pub const EPOCH_KINDS: [&'static str; 14] = [
    "bootstrap",
    "principal_bound",
    "principal_rebound",
    "principal_disabled",
    "grant_added",
    "grant_revoked",
    "sso_mapped",
    "sso_unmapped",
    "board_seeded",
    "enforcement_prepared",
    "enforcement_activated",
    "breakglass_principal_rebound",
    "breakglass_registry_admin",
    "breakglass_sso_mapped",
];

pub open spec fn advances_epoch(kind: Seq<char>) -> bool {
    exists|i: int| 0 <= i < 14 && (#[trigger] EPOCH_KINDS@[i])@ == kind
}

/// Whether an event of a kind advances the epoch.
pub fn kind_advances_epoch(kind: &str) -> (r: bool)
    ensures
        r == advances_epoch(kind@),
{
    let mut i: usize = 0;
    while i < 14
        invariant
            i <= 14,
            forall|k: int| 0 <= k < i ==> (#[trigger] EPOCH_KINDS@[k])@ != kind@,
        decreases 14 - i,
    {
        if text::same(EPOCH_KINDS[i], kind) {
            proof {
                assert(EPOCH_KINDS@[i as int]@ == kind@);
            }
            return true;
        }
        i = i + 1;
    }
    false
}

// -------------------------------------------------------------------------------- ids

/// A prefix, a hyphen and eight lower-case hexadecimal digits.
pub open spec fn is_short_id(prefix: Seq<char>, id: Seq<char>) -> bool {
    &&& id.len() == prefix.len() + 9
    &&& id.take(prefix.len() as int) == prefix
    &&& id[prefix.len() as int] == '-'
    &&& forall|i: int|
        prefix.len() + 1 <= i < prefix.len() + 9 ==> text::is_lower_hex(#[trigger] id[i])
}

/// A random id with a prefix.
pub fn short_id(prefix: &str) -> (r: String)
    ensures
        is_short_id(prefix@, r@),
{
    let hex = outside::random_hex();
    let id = prefix.to_owned().concat("-").concat(hex.as_str().substring_char(0, 8));
    proof {
        reveal_strlit("-");
        let n = prefix@.len() as int;
        assert(id@.take(n) =~= prefix@);
        assert forall|i: int| n + 1 <= i < n + 9 implies text::is_lower_hex(#[trigger] id@[i]) by {
            assert(id@[i] == hex@[i - n - 1]);
        }
    }
    id
}

/// A text with zeros before it, up to a length.
pub open spec fn zero_padded(s: Seq<char>, n: nat) -> Seq<char> {
    if s.len() >= n {
        s
    } else {
        Seq::new((n - s.len()) as nat, |i: int| '0') + s
    }
}

/// The id of the policy event with a sequence number.
pub open spec fn event_id(seq: int) -> Seq<char> {
    "pe-"@ + zero_padded(text::decimal(seq), 8)
}

/// The id of the policy event with a sequence number.
pub fn policy_event_id(seq: i64) -> (r: String)
    requires
        seq >= 0,
    ensures
        r@ == event_id(seq as int),
{
    let digits = text::show_i64(seq);
    let n: usize = digits.as_str().unicode_len();
    let mut out = "pe-".to_owned();
    let ghost head = "pe-"@;
    let mut i: usize = n;
    proof {
        assert(head + Seq::new(0nat, |k: int| '0') =~= head);
    }
    while i < 8
        invariant
            n <= i,
            n == digits@.len(),
            n <= 8 ==> i <= 8,
            n >= 8 ==> i == n,
            out@ == head + Seq::new((i - n) as nat, |k: int| '0'),
        decreases 8 - i,
    {
        let ghost before = out@;
        out.push('0');
        proof {
            assert(before.push('0') =~= head + Seq::new((i - n + 1) as nat, |k: int| '0'));
        }
        i = i + 1;
    }
    proof {
        let zeros = Seq::new((i - n) as nat, |k: int| '0');
        if n >= 8 {
            assert(zeros =~= seq![]);
            assert(head + zeros + digits@ =~= head + digits@);
        } else {
            assert(head + zeros + digits@ =~= head + (zeros + digits@));
        }
    }
    out.concat(digits.as_str())
}

// ---------------------------------------------------------------------- where we stand

/// The highest epoch, where there is one.
pub open spec fn highest(epochs: Seq<PolicyEpochPayload>) -> Option<i64>
    decreases epochs.len(),
{
    if epochs.len() == 0 {
        None
    } else {
        match highest(epochs.drop_last()) {
            None => Some(epochs.last().epoch),
            Some(e) => if epochs.last().epoch > e {
                Some(epochs.last().epoch)
            } else {
                Some(e)
            },
        }
    }
}

/// The epoch that the tables are at.
pub open spec fn epoch_of(p: PolicyTables) -> i64 {
    match highest(p.epochs@) {
        Some(e) => e,
        None => 0,
    }
}

/// The sequence number of the next event.
pub open spec fn next_event(p: PolicyTables) -> int {
    if p.events@.len() == 0 {
        1
    } else {
        p.events@.last().seq + 1
    }
}

/// There is an epoch and a sequence number left.
pub open spec fn has_room(p: PolicyTables) -> bool {
    &&& epoch_of(p) < i64::MAX
    &&& 0 <= next_event(p) <= i64::MAX
}

/// The epoch and the state hash that a request has to be made under.
pub open spec fn live_state(p: PolicyTables) -> (i64, Seq<char>) {
    if p.epochs@.len() == 0 {
        (0, policy_state::state_hash(p.state()))
    } else {
        (p.epochs@.last().epoch, p.epochs@.last().resulting_state_hash@)
    }
}

/// The epoch that the tables are at.
pub fn policy_epoch_on(p: &PolicyTables) -> (r: i64)
    ensures
        r == epoch_of(*p),
{
    let mut best: Option<i64> = None;
    let mut i: usize = 0;
    proof {
        assert(p.epochs@.take(0) =~= seq![]);
    }
    while i < p.epochs.len()
        invariant
            i <= p.epochs@.len(),
            best == highest(p.epochs@.take(i as int)),
        decreases p.epochs.len() - i,
    {
        proof {
            assert(p.epochs@.take(i as int + 1).drop_last() =~= p.epochs@.take(i as int));
        }
        let e: i64 = p.epochs[i].epoch;
        best = match best {
            None => Some(e),
            Some(known) => if e > known {
                Some(e)
            } else {
                Some(known)
            },
        };
        i = i + 1;
    }
    proof {
        assert(p.epochs@.take(p.epochs@.len() as int) =~= p.epochs@);
    }
    match best {
        Some(e) => e,
        None => 0,
    }
}

/// The sequence number of the next event.
pub fn journal_next_seq(p: &PolicyTables) -> (r: i64)
    requires
        has_room(*p),
    ensures
        r == next_event(*p),
{
    let n: usize = p.events.len();
    if n == 0 {
        1
    } else {
        p.events[n - 1].seq + 1
    }
}

fn all_scoped(grants: &[Grant]) -> (r: bool)
    ensures
        r == policy_state::scoped(keyed::rows(grants@)),
{
    let ghost all = keyed::rows(grants@);
    let mut i: usize = 0;
    while i < grants.len()
        invariant
            i <= grants@.len(),
            all == keyed::rows(grants@),
            forall|k: int|
                0 <= k < i ==> lattice::scope_of((#[trigger] all[k]).scope) is Ok,
        decreases grants.len() - i,
    {
        proof {
            assert(all[i as int].scope == text::texts(grants@[i as int].scope@));
        }
        if ScopeTuple::from_atoms(grants[i].scope.as_slice()).is_err() {
            return false;
        }
        i = i + 1;
    }
    true
}

/// Whether changes can be made to the tables: they are in the order of their ids, every
/// grant has a scope, and there is an epoch and a sequence number left.
pub fn accepts_changes(p: &PolicyTables) -> (r: bool)
    ensures
        r == (p.wf() && has_room(*p)),
{
    if !keyed::in_order(p.principals.as_slice()) || !keyed::in_order(p.grants.as_slice())
        || !keyed::in_order(p.mappings.as_slice()) || !all_scoped(p.grants.as_slice()) {
        return false;
    }
    let n: usize = p.events.len();
    policy_epoch_on(p) < i64::MAX && (n == 0 || (-1 <= p.events[n - 1].seq && p.events[n - 1].seq
        < i64::MAX))
}

/// The epoch and the state hash that a request has to be made under.
pub fn live_policy_state_on(p: &PolicyTables) -> (r: (i64, String))
    ensures
        r.0 == live_state(*p).0,
        r.1@ == live_state(*p).1,
{
    let n: usize = p.epochs.len();
    if n == 0 {
        (0, policy_state::compute_state_hash(p))
    } else {
        (p.epochs[n - 1].epoch, p.epochs[n - 1].resulting_state_hash.clone())
    }
}

// -------------------------------------------------------------------------- the gates

/// Why a request is denied: at which stage, for what, and at which epoch.
pub struct Denial {
    pub stage: Seq<char>,
    pub code: Seq<char>,
    pub epoch: i64,
}

/// The request was made under the state that is there now.
pub open spec fn context_denial(p: PolicyTables, actor: PolicyActor) -> Option<Denial> {
    let live = live_state(p);
    if live.0 != actor.epoch || live.1 != actor.state_hash@ {
        Some(Denial { stage: "epoch"@, code: "stale_context"@, epoch: live.0 })
    } else {
        None
    }
}

/// The actor is enabled and holds a capability on a scope.
pub open spec fn actor_holds(
    p: PolicyTables,
    actor: PolicyActor,
    scope: ScopeView,
    capability: Capability,
) -> bool {
    actor.principal_id is Some && lattice::satisfied(
        policy_state::effective_pairs(p.state(), actor.principal_id->0@),
        scope,
        capability,
    )
}

/// Why the actor is denied what a capability on a scope is needed for.
pub open spec fn capability_denial(
    p: PolicyTables,
    actor: PolicyActor,
    scope: ScopeView,
    capability: Capability,
    stage: Seq<char>,
    code: Seq<char>,
) -> Option<Denial> {
    let epoch = epoch_of(p);
    if actor.principal_id is None {
        Some(Denial { stage: "principal"@, code: "no_principal"@, epoch })
    } else if !actor_holds(p, actor, scope, capability) {
        Some(Denial { stage, code, epoch })
    } else {
        None
    }
}

/// Why the actor may not change policy: a stale context, or no administration of the
/// registry.
pub open spec fn admin_denial(p: PolicyTables, actor: PolicyActor) -> Option<Denial> {
    match context_denial(p, actor) {
        Some(d) => Some(d),
        None => capability_denial(
            p,
            actor,
            ScopeView::Registry,
            Capability::Admin,
            "scope"@,
            "missing_registry_admin"@,
        ),
    }
}

/// Why the actor may not give or take a capability: it does not hold it itself.
pub open spec fn grantor_denial(
    p: PolicyTables,
    actor: PolicyActor,
    scope: ScopeView,
    capability: Capability,
) -> Option<Denial> {
    match admin_denial(p, actor) {
        Some(d) => Some(d),
        None => capability_denial(
            p,
            actor,
            scope,
            capability,
            "nonEscalation"@,
            "missing_capability"@,
        ),
    }
}

/// A denial.
pub struct Denied {
    pub stage: &'static str,
    pub code: &'static str,
    pub epoch: i64,
}

pub open spec fn is_denial(d: Option<Denied>, wanted: Option<Denial>) -> bool {
    match wanted {
        None => d is None,
        Some(w) => d is Some && d->0.stage@ == w.stage && d->0.code@ == w.code && d->0.epoch
            == w.epoch,
    }
}

/// Why a request is not made under the state that is there now.
pub fn require_context(p: &PolicyTables, actor: &PolicyActor) -> (r: Option<Denied>)
    ensures
        is_denial(r, context_denial(*p, *actor)),
{
    let (epoch, hash) = live_policy_state_on(p);
    if epoch != actor.epoch || !text::same(hash.as_str(), actor.state_hash.as_str()) {
        return Some(Denied { stage: "epoch", code: "stale_context", epoch });
    }
    None
}

fn check_capability(
    p: &PolicyTables,
    actor: &PolicyActor,
    scope: &ScopeTuple,
    capability: Capability,
    stage: &'static str,
    code: &'static str,
) -> (r: Option<Denied>)
    requires
        p.wf(),
    ensures
        is_denial(r, capability_denial(*p, *actor, scope@, capability, stage@, code@)),
{
    let epoch: i64 = policy_epoch_on(p);
    match &actor.principal_id {
        None => Some(Denied { stage: "principal", code: "no_principal", epoch }),
        Some(id) => {
            let held = policy_state::effective_authority(p, id.as_str());
            proof {
                let pairs = policy_state::effective_pairs(p.state(), id@);
                assert(held.held(scope@) == lattice::level(pairs, scope@));
                if scope@ is BoardTag {
                    let w = ScopeView::BoardWildcard(scope@->BoardTag_0);
                    assert(held.held(w) == lattice::level(pairs, w));
                }
            }
            if !lattice::satisfies(&held, scope, capability) {
                return Some(Denied { stage, code, epoch });
            }
            None
        },
    }
}

/// Why the actor does not administer the registry.
pub fn require_registry_admin(p: &PolicyTables, actor: &PolicyActor) -> (r: Option<Denied>)
    requires
        p.wf(),
    ensures
        is_denial(
            r,
            capability_denial(
                *p,
                *actor,
                ScopeView::Registry,
                Capability::Admin,
                "scope"@,
                "missing_registry_admin"@,
            ),
        ),
{
    check_capability(
        p,
        actor,
        &ScopeTuple::Registry,
        Capability::Admin,
        "scope",
        "missing_registry_admin",
    )
}

/// Why the actor may not give or take a capability that it has to hold itself.
pub fn require_grantor_holds(
    p: &PolicyTables,
    actor: &PolicyActor,
    tuple: &ScopeTuple,
    capability: Capability,
) -> (r: Option<Denied>)
    requires
        p.wf(),
    ensures
        is_denial(
            r,
            capability_denial(
                *p,
                *actor,
                tuple@,
                capability,
                "nonEscalation"@,
                "missing_capability"@,
            ),
        ),
{
    check_capability(p, actor, tuple, capability, "nonEscalation", "missing_capability")
}

/// Why the actor may not change policy.
pub fn check_admin(p: &PolicyTables, actor: &PolicyActor) -> (r: Option<Denied>)
    requires
        p.wf(),
    ensures
        is_denial(r, admin_denial(*p, *actor)),
{
    match require_context(p, actor) {
        Some(d) => Some(d),
        None => require_registry_admin(p, actor),
    }
}

// -------------------------------------------------------------------------- the audit

/// What every audit row says of its actor.
pub open spec fn audits_actor(a: AccessAuditPayload, actor: PolicyActor) -> bool {
    &&& a.actor_principal_id == actor.principal_id
    &&& a.actor_username == actor.username
    &&& a.actor_uid == actor.uid
    &&& a.authn_kind == actor.context.authn_kind
    &&& a.peer_pid is None
    &&& a.peer_uid == Some(actor.context.peer_uid as i64)
    &&& a.peer_gid is None
    &&& a.real_uid is None
    &&& a.effective_uid is None
    &&& a.provider == actor.context.provider
    &&& a.subject == actor.context.subject
    &&& a.verifier_id is None
    &&& a.proxy_route_id is None
    &&& a.source_proof_id is None
    &&& a.subject_proof_id is None
    &&& a.request_id == actor.context.request_id
    &&& a.client_kind == actor.context.client_kind
    &&& a.claimed_actor == actor.context.claimed_actor
    &&& a.reason == actor.context.reason
    &&& a.client_binary_id is None
    &&& a.broker_binary_id is None
    &&& a.broker_protocol_version is None
    &&& a.command_schema_hash is None
    &&& a.policy_schema_version is None
    &&& a.board_schema_versions@.len() == 0
    &&& a.visible_target_ids@.len() == 0
    &&& a.redacted_target_digests@.len() == 0
}

/// The audit row of a denied request.
pub open spec fn is_denied_audit(
    a: AccessAuditPayload,
    actor: PolicyActor,
    operation: Seq<char>,
    denial: Denial,
    enforcement: Seq<char>,
    id: Seq<char>,
    now: i64,
) -> bool {
    &&& audits_actor(a, actor)
    &&& a.id@ == id
    &&& a.schema_version == 1
    &&& a.occurred_at == now
    &&& a.operation@ == operation
    &&& a.outcome@ == "denied"@
    &&& text::text_of(a.decision_stage) == Some(denial.stage)
    &&& text::text_of(a.decision_code) == Some(denial.code)
    &&& a.policy_epoch == denial.epoch
    &&& a.enforcement_state@ == enforcement
    &&& a.evidence_source@ == "kernel_so_peercred"@
    &&& a.requested_capability is None
    &&& a.required_scopes@.len() == 0
    &&& a.matched_grant_ids@.len() == 0
}

pub open spec fn lists(s: Seq<Vec<String>>) -> Seq<Seq<Seq<char>>> {
    s.map_values(|v: Vec<String>| text::texts(v@))
}

pub open spec fn scope_views(s: Seq<ScopeTuple>) -> Seq<ScopeView> {
    s.map_values(|t: ScopeTuple| t@)
}

/// The audit row of a change that was made.
pub open spec fn is_allowed_audit(
    a: AccessAuditPayload,
    actor: PolicyActor,
    operation: Seq<char>,
    epoch: int,
    enforcement: Seq<char>,
    capability: Option<Capability>,
    scopes: Seq<ScopeView>,
    matched: Seq<Seq<char>>,
    id: Seq<char>,
    now: i64,
) -> bool {
    &&& audits_actor(a, actor)
    &&& a.id@ == id
    &&& a.schema_version == 1
    &&& a.occurred_at == now
    &&& a.operation@ == operation
    &&& a.outcome@ == "allowed"@
    &&& a.decision_stage is None
    &&& a.decision_code is None
    &&& a.policy_epoch == epoch
    &&& a.enforcement_state@ == enforcement
    &&& a.evidence_source@ == if actor.principal_id is None {
        "kernel_so_peercred_root_bootstrap"@
    } else {
        "kernel_so_peercred"@
    }
    &&& text::text_of(a.requested_capability) == match capability {
        Some(c) => Some(lattice::capability_text(c)),
        None => None,
    }
    &&& lists(a.required_scopes@) == scopes.map_values(|s: ScopeView| lattice::atoms_of(s))
    &&& text::texts(a.matched_grant_ids@) == matched
}

fn audit_base(actor: &PolicyActor, operation: &str, id: &str, now: i64) -> (r: AccessAuditPayload)
    ensures
        audits_actor(r, *actor),
        r.id@ == id@,
        r.schema_version == 1,
        r.occurred_at == now,
        r.operation@ == operation@,
        r.decision_stage is None,
        r.decision_code is None,
        r.evidence_source@ == "kernel_so_peercred"@,
        r.requested_capability is None,
        r.required_scopes@.len() == 0,
        r.matched_grant_ids@.len() == 0,
{
    AccessAuditPayload {
        id: id.to_owned(),
        schema_version: 1,
        occurred_at: now,
        operation: operation.to_owned(),
        outcome: String::new(),
        decision_stage: None,
        decision_code: None,
        policy_epoch: 0,
        enforcement_state: String::new(),
        actor_principal_id: actor.principal_id.clone(),
        actor_username: actor.username.clone(),
        actor_uid: actor.uid,
        authn_kind: actor.context.authn_kind.clone(),
        evidence_source: "kernel_so_peercred".to_owned(),
        peer_pid: None,
        peer_uid: Some(actor.context.peer_uid as i64),
        peer_gid: None,
        real_uid: None,
        effective_uid: None,
        provider: actor.context.provider.clone(),
        subject: actor.context.subject.clone(),
        verifier_id: None,
        proxy_route_id: None,
        source_proof_id: None,
        subject_proof_id: None,
        request_id: actor.context.request_id.clone(),
        client_kind: actor.context.client_kind.clone(),
        claimed_actor: actor.context.claimed_actor.clone(),
        reason: actor.context.reason.clone(),
        client_binary_id: None,
        broker_binary_id: None,
        broker_protocol_version: None,
        command_schema_hash: None,
        policy_schema_version: None,
        board_schema_versions: Vec::new(),
        requested_capability: None,
        required_scopes: Vec::new(),
        matched_grant_ids: Vec::new(),
        visible_target_ids: Vec::new(),
        redacted_target_digests: Vec::new(),
    }
}

/// `post` is `pre` with one more audit row, of a denied request.
pub open spec fn audit_denied(
    pre: PolicyTables,
    post: PolicyTables,
    actor: PolicyActor,
    operation: Seq<char>,
    denial: Denial,
    id: Seq<char>,
    now: i64,
) -> bool {
    &&& post == PolicyTables { audits: post.audits, ..pre }
    &&& post.audits@.len() == pre.audits@.len() + 1
    &&& post.audits@ == pre.audits@.push(post.audits@.last())
    &&& is_denied_audit(
        post.audits@.last(),
        actor,
        operation,
        denial,
        pre.enforcement@,
        id,
        now,
    )
}

/// Record a denied request.
pub fn deny(
    p: &mut PolicyTables,
    actor: &PolicyActor,
    operation: &str,
    denied: Denied,
    id: &str,
    now: i64,
)
    ensures
        audit_denied(
            *old(p),
            *final(p),
            *actor,
            operation@,
            Denial { stage: denied.stage@, code: denied.code@, epoch: denied.epoch },
            id@,
            now,
        ),
{
    let mut row = audit_base(actor, operation, id, now);
    row.outcome = "denied".to_owned();
    row.decision_stage = Some(denied.stage.to_owned());
    row.decision_code = Some(denied.code.to_owned());
    row.policy_epoch = denied.epoch;
    row.enforcement_state = p.enforcement.clone();
    p.audits.push(row);
}

fn atom_lists(scopes: &[ScopeTuple]) -> (r: Vec<Vec<String>>)
    ensures
        lists(r@) == scope_views(scopes@).map_values(|s: ScopeView| lattice::atoms_of(s)),
{
    let ghost wanted = scope_views(scopes@).map_values(|s: ScopeView| lattice::atoms_of(s));
    let mut out: Vec<Vec<String>> = Vec::new();
    let mut i: usize = 0;
    proof {
        assert(lists(out@) =~= wanted.take(0));
    }
    while i < scopes.len()
        invariant
            i <= scopes@.len(),
            wanted == scope_views(scopes@).map_values(|s: ScopeView| lattice::atoms_of(s)),
            lists(out@) == wanted.take(i as int),
        decreases scopes.len() - i,
    {
        let ghost before = lists(out@);
        let atoms = scopes[i].to_atoms();
        out.push(atoms);
        proof {
            assert(lists(out@) =~= before.push(text::texts(atoms@)));
            assert(wanted.take(i as int + 1) =~= wanted.take(i as int).push(wanted[i as int]));
        }
        i = i + 1;
    }
    proof {
        assert(wanted.take(wanted.len() as int) =~= wanted);
    }
    out
}

/// The audit row of a change that is made.
pub fn allowed_audit(
    actor: &PolicyActor,
    operation: &str,
    epoch: i64,
    enforcement: &str,
    requested_capability: Option<Capability>,
    required_scopes: &[ScopeTuple],
    matched_grant_ids: &[String],
    id: &str,
    now: i64,
) -> (r: AccessAuditPayload)
    ensures
        is_allowed_audit(
            r,
            *actor,
            operation@,
            epoch as int,
            enforcement@,
            requested_capability,
            scope_views(required_scopes@),
            text::texts(matched_grant_ids@),
            id@,
            now,
        ),
{
    let mut row = audit_base(actor, operation, id, now);
    row.outcome = "allowed".to_owned();
    row.policy_epoch = epoch;
    row.enforcement_state = enforcement.to_owned();
    if actor.principal_id.is_none() {
        row.evidence_source = "kernel_so_peercred_root_bootstrap".to_owned();
    }
    if let Some(c) = requested_capability {
        row.requested_capability = Some(c.as_str().to_owned());
    }
    row.required_scopes = atom_lists(required_scopes);
    row.matched_grant_ids = text::copy_list(matched_grant_ids);
    row
}

// -------------------------------------------------------------------------- a change

/// What an event keeps of a principal.
pub struct ValueView {
    pub id: Seq<char>,
    pub username: Seq<char>,
    pub uid: u32,
    pub replaces: Seq<Seq<char>>,
}

impl View for PrincipalValue {
    type V = ValueView;

    open spec fn view(&self) -> ValueView {
        ValueView {
            id: self.id@,
            username: self.username@,
            uid: self.uid,
            replaces: text::texts(self.replaces@),
        }
    }
}

pub open spec fn value_of(o: Option<PrincipalValue>) -> Option<ValueView> {
    match o {
        Some(v) => Some(v@),
        None => None,
    }
}

/// A change of policy about to be made.
pub struct Change {
    pub kind: &'static str,
    pub operation: &'static str,
    pub event_id: String,
    pub effect: PolicyEffect,
    pub delta: PolicyDelta,
    pub target_principal: Option<String>,
    pub target_mapping: Option<String>,
    pub source: Option<PrincipalValue>,
    pub successor: Option<PrincipalValue>,
    pub capability: Option<Capability>,
    pub scopes: Vec<ScopeTuple>,
    pub matched: Vec<String>,
    pub as_root: bool,
    pub previous: String,
    pub audit_id: String,
    pub now: i64,
}

/// What a change says.
pub struct ChangeView {
    pub kind: Seq<char>,
    pub operation: Seq<char>,
    pub event_id: Seq<char>,
    pub effect: EffectView,
    pub delta: DeltaView,
    pub target_principal: Option<Seq<char>>,
    pub target_mapping: Option<Seq<char>>,
    pub source: Option<ValueView>,
    pub successor: Option<ValueView>,
    pub capability: Option<Capability>,
    pub scopes: Seq<ScopeView>,
    pub matched: Seq<Seq<char>>,
    pub as_root: bool,
    pub previous: Seq<char>,
    pub audit_id: Seq<char>,
    pub now: i64,
}

impl View for Change {
    type V = ChangeView;

    open spec fn view(&self) -> ChangeView {
        ChangeView {
            kind: self.kind@,
            operation: self.operation@,
            event_id: self.event_id@,
            effect: self.effect@,
            delta: self.delta@,
            target_principal: text::text_of(self.target_principal),
            target_mapping: text::text_of(self.target_mapping),
            source: value_of(self.source),
            successor: value_of(self.successor),
            capability: self.capability,
            scopes: scope_views(self.scopes@),
            matched: text::texts(self.matched@),
            as_root: self.as_root,
            previous: self.previous@,
            audit_id: self.audit_id@,
            now: self.now,
        }
    }
}

/// A change without targets, ids, scopes and former principals.
pub open spec fn bare_change(
    kind: Seq<char>,
    operation: Seq<char>,
    event: Seq<char>,
    effect: EffectView,
    previous: Seq<char>,
    audit_id: Seq<char>,
    now: i64,
) -> ChangeView {
    ChangeView {
        kind,
        operation,
        event_id: event,
        effect,
        delta: policy_journal::no_delta(),
        target_principal: None,
        target_mapping: None,
        source: None,
        successor: None,
        capability: None,
        scopes: seq![],
        matched: seq![],
        as_root: false,
        previous,
        audit_id,
        now,
    }
}

impl Change {
    /// A change without targets, ids, scopes and former principals.
    pub fn bare(
        kind: &'static str,
        operation: &'static str,
        event_id: String,
        effect: PolicyEffect,
        previous: String,
        audit_id: &str,
        now: i64,
    ) -> (r: Change)
        ensures
            r@ == bare_change(
                kind@,
                operation@,
                event_id@,
                effect@,
                previous@,
                audit_id@,
                now,
            ),
    {
        let r = Change {
            kind,
            operation,
            event_id,
            effect,
            delta: PolicyDelta::none(),
            target_principal: None,
            target_mapping: None,
            source: None,
            successor: None,
            capability: None,
            scopes: Vec::new(),
            matched: Vec::new(),
            as_root: false,
            previous,
            audit_id: audit_id.to_owned(),
            now,
        };
        proof {
            assert(r@.scopes =~= seq![]);
            assert(r@.matched =~= seq![]);
        }
        r
    }
}

/// The event row of a change.
pub open spec fn is_policy_event(
    e: PolicyEventRow,
    seq: int,
    before: i64,
    actor: PolicyActor,
    c: ChangeView,
) -> bool {
    &&& e.seq == seq
    &&& e.payload.id@ == c.event_id
    &&& e.payload.kind@ == c.kind
    &&& e.payload.occurred_at == c.now
    &&& e.payload.before_epoch == before
    &&& e.payload.after_epoch == before + 1
    &&& text::text_of(e.payload.access_audit_event_id) == Some(c.audit_id)
    &&& text::text_of(e.payload.actor_principal_id) == if c.as_root {
        None
    } else {
        text::text_of(actor.principal_id)
    }
    &&& e.payload.actor_username@ == if c.as_root {
        "root"@
    } else {
        actor.username@
    }
    &&& e.payload.actor_uid == if c.as_root {
        0
    } else {
        actor.uid
    }
    &&& e.payload.context == actor.context
    &&& text::text_of(e.payload.target_principal_id) == c.target_principal
    &&& text::text_of(e.payload.target_mapping_id) == c.target_mapping
    &&& value_of(e.payload.source) == c.source
    &&& value_of(e.payload.successor) == c.successor
    &&& e.payload.delta@ == c.delta
    &&& e.payload.effect@ == c.effect
}

/// The epoch row as it is kept once its event stands in the chained journal, which gives
/// the hash of the event.
pub fn chained_epoch(epoch: &PolicyEpochPayload, event_hash: &str) -> (r: PolicyEpochPayload)
    ensures
        r.policy_event_hash@ == event_hash@,
        r.epoch == epoch.epoch,
        r.policy_event_seq == epoch.policy_event_seq,
        r.previous_state_hash == epoch.previous_state_hash,
        r.resulting_state_hash == epoch.resulting_state_hash,
        r.occurred_at == epoch.occurred_at,
{
    PolicyEpochPayload {
        epoch: epoch.epoch,
        policy_event_seq: epoch.policy_event_seq,
        policy_event_hash: event_hash.to_owned(),
        previous_state_hash: epoch.previous_state_hash.clone(),
        resulting_state_hash: epoch.resulting_state_hash.clone(),
        occurred_at: epoch.occurred_at,
    }
}

/// The epoch row of a change. The hash of its event is empty until the journal has
/// chained the event.
pub open spec fn is_epoch(
    e: PolicyEpochPayload,
    before: i64,
    seq: int,
    previous: Seq<char>,
    resulting: Seq<char>,
    now: i64,
) -> bool {
    &&& e.epoch == before + 1
    &&& e.policy_event_seq == seq
    &&& e.policy_event_hash@ == Seq::<char>::empty()
    &&& e.previous_state_hash@ == previous
    &&& e.resulting_state_hash@ == resulting
    &&& e.occurred_at == now
}

/// `post` is `pre` after a change: the tables follow its effect, and one audit row,
/// one event and one epoch are added.
pub open spec fn committed(
    pre: PolicyTables,
    post: PolicyTables,
    actor: PolicyActor,
    c: ChangeView,
) -> bool {
    &&& post.state() == policy_state::applied(pre.state(), c.effect)
    &&& post.audits@.len() == pre.audits@.len() + 1
    &&& post.audits@ == pre.audits@.push(post.audits@.last())
    &&& is_allowed_audit(
        post.audits@.last(),
        actor,
        c.operation,
        epoch_of(pre) + 1,
        post.enforcement@,
        c.capability,
        c.scopes,
        c.matched,
        c.audit_id,
        c.now,
    )
    &&& post.events@.len() == pre.events@.len() + 1
    &&& post.events@ == pre.events@.push(post.events@.last())
    &&& is_policy_event(post.events@.last(), next_event(pre), epoch_of(pre), actor, c)
    &&& post.epochs@.len() == pre.epochs@.len() + 1
    &&& post.epochs@ == pre.epochs@.push(post.epochs@.last())
    &&& is_epoch(
        post.epochs@.last(),
        epoch_of(pre),
        next_event(pre),
        c.previous,
        policy_state::state_hash(post.state()),
        c.now,
    )
}

/// Make a change.
pub fn commit(p: &mut PolicyTables, actor: &PolicyActor, change: Change)
    requires
        has_room(*old(p)),
        policy_state::fits(old(p).state(), change.effect@),
    ensures
        committed(*old(p), *final(p), *actor, change@),
{
    let epoch: i64 = policy_epoch_on(p);
    let seq: i64 = journal_next_seq(p);
    policy_state::apply_effect(p, &change.effect);
    let resulting = policy_state::compute_state_hash(p);
    let audit = allowed_audit(
        actor,
        change.operation,
        epoch + 1,
        p.enforcement.as_str(),
        change.capability,
        change.scopes.as_slice(),
        change.matched.as_slice(),
        change.audit_id.as_str(),
        change.now,
    );
    p.audits.push(audit);
    let payload = PolicyEventPayload {
        id: change.event_id,
        kind: change.kind.to_owned(),
        occurred_at: change.now,
        before_epoch: epoch,
        after_epoch: epoch + 1,
        access_audit_event_id: Some(change.audit_id),
        actor_principal_id: if change.as_root {
            None
        } else {
            actor.principal_id.clone()
        },
        actor_username: if change.as_root {
            "root".to_owned()
        } else {
            actor.username.clone()
        },
        actor_uid: if change.as_root {
            0
        } else {
            actor.uid
        },
        context: actor.context.copy(),
        target_principal_id: change.target_principal,
        target_mapping_id: change.target_mapping,
        source: change.source,
        successor: change.successor,
        delta: change.delta,
        effect: change.effect,
    };
    p.events.push(PolicyEventRow { seq, payload });
    p.epochs.push(
        PolicyEpochPayload {
            epoch: epoch + 1,
            policy_event_seq: seq,
            policy_event_hash: String::new(),
            previous_state_hash: change.previous,
            resulting_state_hash: resulting,
            occurred_at: change.now,
        },
    );
}

// -------------------------------------------------------------------------- principals

/// A principal with its grants and mappings.
#[derive(Debug, Clone, PartialEq)]
pub struct Principal {
    pub row: PrincipalRow,
    pub grants: Vec<Grant>,
    pub sso_mappings: Vec<SsoMapping>,
}

/// `p` is a principal with all that the state holds of it.
pub open spec fn is_principal(p: Principal, row: PrincipalView, st: PolicyState) -> bool {
    &&& p.row@ == row
    &&& keyed::rows(p.grants@) == tables::kept(st.grants, policy_state::held_by(row.id))
    &&& keyed::rows(p.sso_mappings@) == tables::kept(
        st.mappings,
        policy_state::mapped_to(row.id),
    )
}

/// A principal with all that the tables hold of it.
pub fn principal_with_on(p: &PolicyTables, row: &PrincipalRow) -> (r: Principal)
    ensures
        is_principal(r, row@, p.state()),
{
    Principal {
        grants: policy_state::grants_of(p.grants.as_slice(), row.id.as_str(), false),
        sso_mappings: policy_state::mappings_of(p.mappings.as_slice(), row.id.as_str(), false),
        row: row.copy(),
    }
}

// --------------------------------------------------------------------------- collisions

/// The principal holds the user name or the user id, and is not the one excepted.
pub open spec fn collides(username: Seq<char>, uid: u32, implicit: Option<Seq<char>>) -> spec_fn(
    PrincipalView,
) -> bool {
    |p: PrincipalView| (p.username == username || p.uid == uid) && implicit != Some(p.id)
}

pub open spec fn collides_enabled(
    username: Seq<char>,
    uid: u32,
    implicit: Option<Seq<char>>,
) -> spec_fn(PrincipalView) -> bool {
    |p: PrincipalView| collides(username, uid, implicit)(p) && p.enabled
}

/// The ids of the principals that a pair would collide with.
pub open spec fn colliders(
    principals: Seq<PrincipalView>,
    username: Seq<char>,
    uid: u32,
    implicit: Option<Seq<char>>,
) -> Seq<Seq<char>> {
    tables::kept(principals, collides(username, uid, implicit)).map_values(
        |p: PrincipalView| p.id,
    )
}

/// Why a pair cannot be bound: an enabled principal holds half of it, or not exactly
/// the disabled ones that did are acknowledged.
pub open spec fn pair_refusal(
    principals: Seq<PrincipalView>,
    username: Seq<char>,
    uid: u32,
    replaces: Seq<Seq<char>>,
    implicit: Option<Seq<char>>,
) -> Option<Seq<char>> {
    let i = tables::first_index(principals, collides_enabled(username, uid, implicit));
    let expected = ranking::sorted_texts(colliders(principals, username, uid, implicit));
    let given = tables::deduplicated(ranking::sorted_texts(replaces));
    if i < principals.len() {
        Some(
            "principal "@ + principals[i].id
                + " already holds an active username or UID colliding with "@ + username + ":"@
                + text::decimal(uid as int),
        )
    } else if expected != given {
        Some(
            "username or UID reuse must acknowledge every colliding disabled principal (expected "@
                + transfer::debug_list(expected) + ", got "@ + transfer::debug_list(given) + ")"@,
        )
    } else {
        None
    }
}

fn find_collision(list: &[PrincipalRow], username: &str, uid: u32, implicit: Option<&str>) -> (r:
    usize)
    ensures
        r == tables::first_index(
            keyed::rows(list@),
            collides_enabled(username@, uid, text::str_of(implicit)),
        ),
        r <= list@.len(),
{
    let ghost all = keyed::rows(list@);
    let ghost p = collides_enabled(username@, uid, text::str_of(implicit));
    let mut i: usize = 0;
    while i < list.len()
        invariant
            i <= list@.len(),
            all == keyed::rows(list@),
            p == collides_enabled(username@, uid, text::str_of(implicit)),
            forall|k: int| 0 <= k < i ==> !p(#[trigger] all[k]),
        decreases list.len() - i,
    {
        if is_collider(&list[i], username, uid, implicit) && list[i].enabled {
            proof {
                assert(p(all[i as int]));
                tables::lemma_first_index_is(all, p, i as int);
            }
            return i;
        }
        i = i + 1;
    }
    proof {
        tables::lemma_first_index_is(all, p, i as int);
    }
    i
}

fn is_collider(row: &PrincipalRow, username: &str, uid: u32, implicit: Option<&str>) -> (r: bool)
    ensures
        r == collides(username@, uid, text::str_of(implicit))(row@),
{
    let excepted = match implicit {
        Some(id) => text::same(row.id.as_str(), id),
        None => false,
    };
    (text::same(row.username.as_str(), username) || row.uid == uid) && !excepted
}

fn collider_ids(list: &[PrincipalRow], username: &str, uid: u32, implicit: Option<&str>) -> (r: Vec<
    String,
>)
    ensures
        text::texts(r@) == colliders(keyed::rows(list@), username@, uid, text::str_of(implicit)),
{
    let ghost all = keyed::rows(list@);
    let ghost p = collides(username@, uid, text::str_of(implicit));
    let mut out: Vec<String> = Vec::new();
    let mut i: usize = 0;
    proof {
        assert(all.take(0) =~= seq![]);
        assert(text::texts(out@) =~= tables::kept(all.take(0), p).map_values(
            |p: PrincipalView| p.id,
        ));
    }
    while i < list.len()
        invariant
            i <= list@.len(),
            all == keyed::rows(list@),
            p == collides(username@, uid, text::str_of(implicit)),
            text::texts(out@) == tables::kept(all.take(i as int), p).map_values(
                |p: PrincipalView| p.id,
            ),
        decreases list.len() - i,
    {
        let ghost before = text::texts(out@);
        let ghost kept = tables::kept(all.take(i as int), p);
        proof {
            tables::lemma_kept_step(all, p, i as int);
            assert(all[i as int] == list@[i as int]@);
        }
        if is_collider(&list[i], username, uid, implicit) {
            out.push(list[i].id.clone());
            proof {
                assert(text::texts(out@) =~= before.push(list@[i as int].id@));
                assert(kept.push(all[i as int]).map_values(|p: PrincipalView| p.id)
                    =~= kept.map_values(|p: PrincipalView| p.id).push(all[i as int].id));
            }
        }
        i = i + 1;
    }
    proof {
        assert(all.take(all.len() as int) =~= all);
    }
    out
}

/// The texts without those that occurred before.
fn deduplicate(list: &[String]) -> (r: Vec<String>)
    ensures
        text::texts(r@) == tables::deduplicated(text::texts(list@)),
{
    let ghost all = text::texts(list@);
    let mut out: Vec<String> = Vec::new();
    let mut i: usize = 0;
    proof {
        assert(all.take(0) =~= seq![]);
        assert(text::texts(out@) =~= seq![]);
    }
    while i < list.len()
        invariant
            i <= list@.len(),
            all == text::texts(list@),
            text::texts(out@) == tables::deduplicated(all.take(i as int)),
        decreases list.len() - i,
    {
        let ghost before = text::texts(out@);
        proof {
            assert(all.take(i as int + 1).drop_last() =~= all.take(i as int));
            assert(all.take(i as int + 1).last() == list@[i as int]@);
        }
        if !text::holds(out.as_slice(), list[i].as_str()) {
            out.push(list[i].clone());
            proof {
                assert(text::texts(out@) =~= before.push(list@[i as int]@));
            }
        }
        i = i + 1;
    }
    proof {
        assert(all.take(all.len() as int) =~= all);
    }
    out
}

/// A pair can be bound.
pub fn check_pair_collision(
    list: &[PrincipalRow],
    username: &str,
    uid: u32,
    replaces: &[String],
    implicit: Option<&str>,
) -> (r: Result<(), Error>)
    ensures
        match pair_refusal(
            keyed::rows(list@),
            username@,
            uid,
            text::texts(replaces@),
            text::str_of(implicit),
        ) {
            Some(m) => text::refused(r, m),
            None => r is Ok,
        },
{
    let i: usize = find_collision(list, username, uid, implicit);
    if i < list.len() {
        return text::refuse(
            "principal ".to_owned().concat(list[i].id.as_str()).concat(
                " already holds an active username or UID colliding with ",
            ).concat(username).concat(":").concat(text::show_u64(uid as u64).as_str()),
        );
    }
    let expected = ranking::sort_texts(collider_ids(list, username, uid, implicit));
    let sorted = ranking::sort_texts(text::copy_list(replaces));
    let given = deduplicate(sorted.as_slice());
    if !text::same_list(expected.as_slice(), given.as_slice()) {
        return text::refuse(
            "username or UID reuse must acknowledge every colliding disabled principal (expected ".to_owned().concat(
                transfer::show_debug_list(expected.as_slice()).as_str(),
            ).concat(", got ").concat(
                transfer::show_debug_list(given.as_slice()).as_str(),
            ).concat(")"),
        );
    }
    Ok(())
}

} // verus!
