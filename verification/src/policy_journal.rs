//! The journals of access policy: what happened, when the policy changed, and
//! what was asked for.

use vstd::prelude::*;

use crate::policy_state::PolicyEffect;
use crate::text;

verus! {

/// What is kept of a principal when its binding changes.
#[derive(Debug, Clone, PartialEq, Eq)]
pub struct PrincipalValue {
    pub id: String,
    pub username: String,
    pub uid: u32,
    pub replaces: Vec<String>,
}

/// The circumstances of a request.
#[derive(Debug, Clone, PartialEq)]
pub struct PolicyContext {
    pub authn_kind: String,
    pub peer_uid: u32,
    pub real_uid: Option<u32>,
    pub effective_uid: Option<u32>,
    pub client_kind: String,
    pub request_id: String,
    pub claimed_actor: Option<String>,
    pub reason: Option<String>,
    pub provider: Option<String>,
    pub subject: Option<String>,
}

impl PolicyContext {
    /// A copy of the context.
    pub fn copy(&self) -> (r: PolicyContext)
        ensures
            r == *self,
    {
        PolicyContext {
            authn_kind: self.authn_kind.clone(),
            peer_uid: self.peer_uid,
            real_uid: self.real_uid,
            effective_uid: self.effective_uid,
            client_kind: self.client_kind.clone(),
            request_id: self.request_id.clone(),
            claimed_actor: self.claimed_actor.clone(),
            reason: self.reason.clone(),
            provider: self.provider.clone(),
            subject: self.subject.clone(),
        }
    }
}

/// The ids of the rows that an event began or ended.
#[derive(Debug, Clone, PartialEq)]
pub struct PolicyDelta {
    pub seeded_grant_ids: Vec<String>,
    pub granted_grant_ids: Vec<String>,
    pub revoked_grant_ids: Vec<String>,
    pub activated_grant_ids: Vec<String>,
    pub retired_grant_ids: Vec<String>,
    pub mapped_mapping_ids: Vec<String>,
    pub unmapped_mapping_ids: Vec<String>,
}

/// What a delta says.
pub struct DeltaView {
    pub seeded_grant_ids: Seq<Seq<char>>,
    pub granted_grant_ids: Seq<Seq<char>>,
    pub revoked_grant_ids: Seq<Seq<char>>,
    pub activated_grant_ids: Seq<Seq<char>>,
    pub retired_grant_ids: Seq<Seq<char>>,
    pub mapped_mapping_ids: Seq<Seq<char>>,
    pub unmapped_mapping_ids: Seq<Seq<char>>,
}

impl View for PolicyDelta {
    type V = DeltaView;

    open spec fn view(&self) -> DeltaView {
        DeltaView {
            seeded_grant_ids: text::texts(self.seeded_grant_ids@),
            granted_grant_ids: text::texts(self.granted_grant_ids@),
            revoked_grant_ids: text::texts(self.revoked_grant_ids@),
            activated_grant_ids: text::texts(self.activated_grant_ids@),
            retired_grant_ids: text::texts(self.retired_grant_ids@),
            mapped_mapping_ids: text::texts(self.mapped_mapping_ids@),
            unmapped_mapping_ids: text::texts(self.unmapped_mapping_ids@),
        }
    }
}

pub open spec fn no_delta() -> DeltaView {
    DeltaView {
        seeded_grant_ids: seq![],
        granted_grant_ids: seq![],
        revoked_grant_ids: seq![],
        activated_grant_ids: seq![],
        retired_grant_ids: seq![],
        mapped_mapping_ids: seq![],
        unmapped_mapping_ids: seq![],
    }
}

impl PolicyDelta {
    /// A delta of no rows.
    pub fn none() -> (r: PolicyDelta)
        ensures
            r@ == no_delta(),
    {
        let r = PolicyDelta {
            seeded_grant_ids: Vec::new(),
            granted_grant_ids: Vec::new(),
            revoked_grant_ids: Vec::new(),
            activated_grant_ids: Vec::new(),
            retired_grant_ids: Vec::new(),
            mapped_mapping_ids: Vec::new(),
            unmapped_mapping_ids: Vec::new(),
        };
        proof {
            assert(r@.seeded_grant_ids =~= seq![]);
            assert(r@.granted_grant_ids =~= seq![]);
            assert(r@.revoked_grant_ids =~= seq![]);
            assert(r@.activated_grant_ids =~= seq![]);
            assert(r@.retired_grant_ids =~= seq![]);
            assert(r@.mapped_mapping_ids =~= seq![]);
            assert(r@.unmapped_mapping_ids =~= seq![]);
        }
        r
    }
}

/// An event of policy; its effect lets the state be built again.
#[derive(Debug, Clone, PartialEq)]
pub struct PolicyEventPayload {
    pub id: String,
    pub kind: String,
    pub occurred_at: i64,
    pub before_epoch: i64,
    pub after_epoch: i64,
    pub access_audit_event_id: Option<String>,
    pub actor_principal_id: Option<String>,
    pub actor_username: String,
    pub actor_uid: u32,
    pub context: PolicyContext,
    pub target_principal_id: Option<String>,
    pub target_mapping_id: Option<String>,
    pub source: Option<PrincipalValue>,
    pub successor: Option<PrincipalValue>,
    pub delta: PolicyDelta,
    pub effect: PolicyEffect,
}

/// A row of the journal of events.
#[derive(Debug, Clone, PartialEq)]
pub struct PolicyEventRow {
    pub seq: i64,
    pub payload: PolicyEventPayload,
}

/// A change of policy. The hash of its event is empty until the row is chained.
#[derive(Debug, Clone, PartialEq)]
pub struct PolicyEpochPayload {
    pub epoch: i64,
    pub policy_event_seq: i64,
    pub policy_event_hash: String,
    pub previous_state_hash: String,
    pub resulting_state_hash: String,
    pub occurred_at: i64,
}

#[derive(Debug, Clone, PartialEq, Eq)]
pub struct BoardSchemaVersion {
    pub board_id: String,
    pub schema_version: i64,
}

/// What was asked for, by whom, and what came of it.
#[derive(Debug, Clone, PartialEq)]
pub struct AccessAuditPayload {
    pub id: String,
    pub schema_version: i64,
    pub occurred_at: i64,
    pub operation: String,
    pub outcome: String,
    pub decision_stage: Option<String>,
    pub decision_code: Option<String>,
    pub policy_epoch: i64,
    pub enforcement_state: String,
    pub actor_principal_id: Option<String>,
    pub actor_username: String,
    pub actor_uid: u32,
    pub authn_kind: String,
    pub evidence_source: String,
    pub peer_pid: Option<i64>,
    pub peer_uid: Option<i64>,
    pub peer_gid: Option<i64>,
    pub real_uid: Option<i64>,
    pub effective_uid: Option<i64>,
    pub provider: Option<String>,
    pub subject: Option<String>,
    pub verifier_id: Option<String>,
    pub proxy_route_id: Option<String>,
    pub source_proof_id: Option<String>,
    pub subject_proof_id: Option<String>,
    pub request_id: String,
    pub client_kind: String,
    pub claimed_actor: Option<String>,
    pub reason: Option<String>,
    pub client_binary_id: Option<String>,
    pub broker_binary_id: Option<String>,
    pub broker_protocol_version: Option<i64>,
    pub command_schema_hash: Option<String>,
    pub policy_schema_version: Option<i64>,
    pub board_schema_versions: Vec<BoardSchemaVersion>,
    pub requested_capability: Option<String>,
    pub required_scopes: Vec<Vec<String>>,
    pub matched_grant_ids: Vec<String>,
    pub visible_target_ids: Vec<String>,
    pub redacted_target_digests: Vec<String>,
}

/// Who a change of policy is made by: nobody bound where root acts.
#[derive(Debug, Clone)]
pub struct PolicyActor {
    pub principal_id: Option<String>,
    pub username: String,
    pub uid: u32,
    /// The epoch and the state hash that the request was made under.
    pub epoch: i64,
    pub state_hash: String,
    pub context: PolicyContext,
}

} // verus!
