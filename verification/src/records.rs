//! Plain records that the board and its surfaces exchange.

use vstd::prelude::*;

use crate::decisions::Attention;
use crate::rules::RuleSummary;
use crate::text;

verus! {

/// Every status that a task row may hold; a draft is still being written.
pub const TASK_STATUSES: [&'static str; 8] = [
    "draft",
    "backlog",
    "todo",
    "in_progress",
    "blocked",
    "review",
    "done",
    "cancelled",
];

/// The kinds of event that a board's ledger emits.
pub const BOARD_EVENT_KINDS: [&'static str; 39] = [
    "archive_swept",
    "attention_raised",
    "attention_reopened",
    "attention_resolved",
    "attention_updated",
    "board_initialized",
    "claim_expired",
    "claim_heartbeat",
    "claim_released",
    "checkpoint_added",
    "deployment_abandoned",
    "deployment_finished",
    "deployment_started",
    "epic_advanced",
    "handoff_accepted",
    "handoff_created",
    "lease_seized",
    "note_added",
    "rule_consolidated",
    "rule_retired",
    "search_rebuilt",
    "sitrep_posted",
    "snapshot_restored",
    "story_advanced",
    "story_signed_off",
    "story_signoff_revoked",
    "subscription_added",
    "subscription_paused",
    "subscription_resumed",
    "tag_added",
    "tag_removed",
    "task_added",
    "task_claimed",
    "task_created",
    "task_metadata_patched",
    "task_moved",
    "task_removed",
    "task_updated",
    "tasks_imported",
];

pub const TASK_TYPES: [&'static str; 3] = ["epic", "story", "task"];

pub const NOTE_KINDS: [&'static str; 6] = [
    "plan",
    "progress",
    "blocker",
    "decision",
    "evidence",
    "done",
];

pub const HANDOFF_REASONS: [&'static str; 4] = [
    "token_pressure",
    "provider_limit",
    "session_end",
    "manual",
];

/// The states that a checkpoint may record.
pub const CHECKPOINT_STATES: [&'static str; 3] = ["continue", "blocked", "done"];

/// The statuses of a handoff; a retired one is history.
pub const HANDOFF_STATUSES: [&'static str; 4] = ["pending", "accepted", "cancelled", "retired"];

/// The relations that a watch or a subscription may select on.
pub const RELATION_KINDS: [&'static str; 3] = ["parent", "ancestor", "depends-on"];

/// The story gate: a story moves along it one step at a time.
pub const STORY_FLOW: [&'static str; 7] = [
    "planning",
    "ready",
    "in-progress",
    "testing",
    "review",
    "merging",
    "done",
];

/// The level that a queue priority from 0 to 9 is shown as.
pub fn priority_level(priority: i64) -> (r: Option<&'static str>)
    ensures
        match r {
            Some(level) => level@ == if 0 <= priority <= 2 {
                "P0"@
            } else if 3 <= priority <= 5 {
                "P1"@
            } else {
                "P2"@
            },
            None => true,
        },
        r is Some <==> 0 <= priority <= 9,
{
    if 0 <= priority && priority <= 2 {
        Some("P0")
    } else if 3 <= priority && priority <= 5 {
        Some("P1")
    } else if 6 <= priority && priority <= 9 {
        Some("P2")
    } else {
        None
    }
}

/// A registered tag, with how many rows carry it.
#[derive(Debug, Clone)]
pub struct Tag {
    pub name: String,
    pub description: Option<String>,
    pub created_by: Option<String>,
    pub created_at: i64,
    pub uses: i64,
}

/// One durable, declarative consumer selection for exactly one board.
#[derive(Debug, Clone, PartialEq)]
pub struct Subscription {
    pub id: String,
    pub protocol_version: i64,
    pub subject_task_id: Option<String>,
    pub relations: Vec<String>,
    pub kinds: Vec<String>,
    pub prior_statuses: Vec<String>,
    pub current_statuses: Vec<String>,
    pub tags: Vec<String>,
    pub consumer_id: String,
    pub action_id: String,
    pub timeout_ms: i64,
    pub max_retries: i64,
    pub rate_per_minute: i64,
    pub max_concurrency: i64,
    pub start_event_seq: i64,
    pub secret_ref: Option<String>,
    pub status: String,
    pub created_at: i64,
    pub created_by: String,
    pub updated_at: i64,
    pub updated_by: String,
    pub paused_at: Option<i64>,
    pub paused_by: Option<String>,
}

/// What a new subscription is made from.
#[derive(Debug, Clone)]
pub struct AddSubscription {
    pub id: Option<String>,
    pub subject_task_id: Option<String>,
    pub relations: Vec<String>,
    pub kinds: Vec<String>,
    pub prior_statuses: Vec<String>,
    pub current_statuses: Vec<String>,
    pub tags: Vec<String>,
    pub consumer_id: String,
    pub action_id: String,
    pub timeout_ms: i64,
    pub max_retries: i64,
    pub rate_per_minute: i64,
    pub max_concurrency: i64,
    pub secret_ref: Option<String>,
    pub actor: String,
}

/// Where a lane stands, written by whoever is working it.
#[derive(Debug, Clone)]
pub struct Sitrep {
    pub id: String,
    pub lane: String,
    pub task_id: Option<String>,
    pub author: String,
    pub body: String,
    pub worktree: Option<String>,
    pub branch: Option<String>,
    pub head_sha: Option<String>,
    pub root_head: Option<String>,
    pub dirty_summary: Option<String>,
    pub archived: bool,
    pub created_at: i64,
}

/// One row of the board.
#[derive(Debug, Clone, PartialEq)]
pub struct Task {
    pub id: String,
    pub task_type: String,
    pub parent_id: Option<String>,
    pub title: String,
    pub body: Option<String>,
    pub assignee: Option<String>,
    pub lane: Option<String>,
    pub deliverable: Option<String>,
    pub stale_minutes: Option<i64>,
    pub driver_only: bool,
    pub status: String,
    pub priority: i64,
    pub priority_level: Option<String>,
    pub created_at: i64,
    pub updated_at: i64,
    pub completed_at: Option<i64>,
    pub archived: bool,
    pub archived_at: Option<i64>,
    pub metadata: String,
    pub tags: Vec<String>,
}

/// Two tasks say the same.
pub open spec fn same_task(a: Task, b: Task) -> bool {
    b == (Task { tags: b.tags, ..a }) && a.tags@ == b.tags@
}

impl Task {
    pub fn copy(&self) -> (r: Task)
        ensures
            same_task(*self, r),
    {
        Task {
            id: self.id.clone(),
            task_type: self.task_type.clone(),
            parent_id: self.parent_id.clone(),
            title: self.title.clone(),
            body: self.body.clone(),
            assignee: self.assignee.clone(),
            lane: self.lane.clone(),
            deliverable: self.deliverable.clone(),
            stale_minutes: self.stale_minutes,
            driver_only: self.driver_only,
            status: self.status.clone(),
            priority: self.priority,
            priority_level: self.priority_level.clone(),
            created_at: self.created_at,
            updated_at: self.updated_at,
            completed_at: self.completed_at,
            archived: self.archived,
            archived_at: self.archived_at,
            metadata: self.metadata.clone(),
            tags: text::copy_list(self.tags.as_slice()),
        }
    }
}

/// One incomplete prerequisite that a task inherits from itself or an ancestor.
#[derive(Debug, Clone, PartialEq, Eq)]
pub struct GateBlocker {
    pub source_task_id: String,
    pub prerequisite_id: String,
    pub prerequisite_title: String,
    pub prerequisite_status: String,
}

/// A lease over one task.
#[derive(Debug, Clone)]
pub struct Claim {
    pub task_id: String,
    pub agent_id: String,
    pub session_id: Option<String>,
    pub lease_token: String,
    pub claimed_at: i64,
    pub heartbeat_at: i64,
    pub expires_at: i64,
    pub worktree: Option<String>,
    pub worktree_kind: Option<String>,
    pub branch: Option<String>,
    pub head_sha: Option<String>,
    pub root_head: Option<String>,
}

/// A newly granted lease with the active rules that frame its work.
#[derive(Debug, Clone)]
pub struct ClaimReceipt {
    pub claim: Claim,
    pub rules: Vec<RuleSummary>,
    pub orphaned_from: Option<OrphanedFrom>,
}

/// The previous holder whose lease expired.
#[derive(Debug, Clone)]
pub struct OrphanedFrom {
    pub agent: String,
    pub session_id: Option<String>,
    pub expired_at: i64,
    pub last_checkpoint_at: Option<i64>,
    pub worktree: Option<String>,
    pub branch: Option<String>,
    pub head_sha: Option<String>,
}

/// A claim without its lease token.
#[derive(Debug, Clone)]
pub struct ClaimSummary {
    pub task_id: String,
    pub agent_id: String,
    pub session_id: Option<String>,
    pub claimed_at: i64,
    pub heartbeat_at: i64,
    pub expires_at: i64,
}

pub open spec fn summary_of(claim: Claim) -> ClaimSummary {
    ClaimSummary {
        task_id: claim.task_id,
        agent_id: claim.agent_id,
        session_id: claim.session_id,
        claimed_at: claim.claimed_at,
        heartbeat_at: claim.heartbeat_at,
        expires_at: claim.expires_at,
    }
}

impl<'a> vstd::std_specs::convert::FromSpecImpl<&'a Claim> for ClaimSummary {
    open spec fn obeys_from_spec() -> bool {
        true
    }

    open spec fn from_spec(value: &'a Claim) -> ClaimSummary {
        summary_of(*value)
    }
}

impl<'a> From<&'a Claim> for ClaimSummary {
    fn from(value: &'a Claim) -> (r: ClaimSummary) {
        let session_id = match &value.session_id {
            Some(id) => Some(id.clone()),
            None => None,
        };
        ClaimSummary {
            task_id: value.task_id.clone(),
            agent_id: value.agent_id.clone(),
            session_id,
            claimed_at: value.claimed_at,
            heartbeat_at: value.heartbeat_at,
            expires_at: value.expires_at,
        }
    }
}

/// A note on a task.
#[derive(Debug, Clone)]
pub struct TaskNote {
    pub seq: i64,
    pub task_id: String,
    pub author: String,
    pub kind: String,
    pub body: String,
    pub created_at: i64,
}

/// A durable record of where the work on a task stands.
#[derive(Debug, Clone)]
pub struct Checkpoint {
    pub seq: i64,
    pub task_id: String,
    pub author: String,
    pub session_id: Option<String>,
    pub model: Option<String>,
    pub state: String,
    pub summary: String,
    pub intent: String,
    pub next_action: String,
    pub blockers: Vec<String>,
    pub validations: Vec<String>,
    pub repo_path: Option<String>,
    pub branch: Option<String>,
    pub head_sha: Option<String>,
    pub dirty_summary: Option<String>,
    pub created_at: i64,
    pub root_head: Option<String>,
}

/// A deliberate handover to a successor.
#[derive(Debug, Clone)]
pub struct Handoff {
    pub id: String,
    pub task_id: Option<String>,
    pub checkpoint_seq: Option<i64>,
    pub reason: String,
    pub status: String,
    pub priority: i64,
    pub priority_level: Option<String>,
    pub from_agent: String,
    pub from_session: Option<String>,
    pub from_model: Option<String>,
    pub to_agent: Option<String>,
    pub summary: String,
    pub intent: String,
    pub next_action: String,
    pub blockers: Vec<String>,
    pub validations: Vec<String>,
    pub repo_path: Option<String>,
    pub branch: Option<String>,
    pub head_sha: Option<String>,
    pub dirty_summary: Option<String>,
    pub created_at: i64,
    pub accepted_at: Option<i64>,
    pub accepted_by: Option<String>,
    pub accepted_session: Option<String>,
    pub retired_at: Option<i64>,
    pub retired_by: Option<String>,
    pub retire_note: Option<String>,
    pub archived: bool,
    pub root_head: Option<String>,
}

/// One row of the durable audit trail; the payload is JSON text.
#[derive(Debug, Clone)]
pub struct Event {
    pub seq: i64,
    pub task_id: Option<String>,
    pub kind: String,
    pub actor: Option<String>,
    pub payload: String,
    pub created_at: i64,
    pub archived: bool,
    pub prev_hash: Option<String>,
    pub event_hash: Option<String>,
}

/// A task in progress for longer than its own budget allows.
#[derive(Debug, Clone)]
pub struct StaleTask {
    pub task: Task,
    pub idle_minutes: i64,
    pub overdue_minutes: i64,
    pub last_signal: String,
}

/// All that a successor needs to take a task up.
#[derive(Debug, Clone)]
pub struct ContextPacket {
    pub task: Task,
    pub ancestors: Vec<Task>,
    pub dependencies: Vec<Task>,
    pub blocking_gates: Vec<GateBlocker>,
    pub claim: Option<ClaimSummary>,
    pub orphaned_from: Option<OrphanedFrom>,
    pub open_attention: Vec<Attention>,
    pub notes: Vec<TaskNote>,
    pub checkpoints: Vec<Checkpoint>,
    pub handoffs: Vec<Handoff>,
    pub rules: Vec<RuleSummary>,
    pub sitreps: Vec<Sitrep>,
    pub generated_at: i64,
    pub truncated: bool,
}

/// What a new task is made from.
#[derive(Debug, Clone)]
pub struct AddTask {
    pub id: Option<String>,
    pub task_type: String,
    pub parent_id: Option<String>,
    pub title: String,
    pub body: Option<String>,
    pub assignee: Option<String>,
    pub lane: Option<String>,
    pub deliverable: Option<String>,
    pub stale_minutes: Option<i64>,
    pub driver_only: bool,
    pub status: String,
    pub priority: i64,
    pub dependencies: Vec<String>,
    pub metadata: String,
    pub actor: Option<String>,
    pub tags: Vec<String>,
}

/// What a new checkpoint is made from.
#[derive(Debug, Clone)]
pub struct CheckpointInput {
    pub task_id: String,
    pub lease_token: String,
    pub author: String,
    pub session_id: Option<String>,
    pub model: Option<String>,
    pub state: String,
    pub summary: String,
    pub intent: String,
    pub next_action: String,
    pub blockers: Vec<String>,
    pub validations: Vec<String>,
    pub repo_path: Option<String>,
    pub branch: Option<String>,
    pub head_sha: Option<String>,
    pub dirty_summary: Option<String>,
    pub root_head: Option<String>,
}

/// Receipt from one retention sweep.
#[derive(Debug, Clone)]
pub struct ArchiveReport {
    pub cutoff_at: i64,
    pub dry_run: bool,
    pub tasks: i64,
    pub notes: i64,
    pub checkpoints: i64,
    pub events: i64,
    pub handoffs: i64,
    pub attention: i64,
    pub sitreps: i64,
    pub task_tags: i64,
    pub deployments: i64,
}

/// One bounded retrieval request.
#[derive(Debug, Clone)]
pub struct SearchOptions {
    pub query: String,
    pub source: Option<String>,
    pub status: Option<String>,
    pub tags: Vec<String>,
    pub lane: Option<String>,
    pub after: Option<i64>,
    pub before: Option<i64>,
    pub include_archived: bool,
    pub limit: usize,
    pub max_chars: usize,
}

/// A registered board that exists and would not open, and why.
#[derive(Debug, Clone)]
pub struct UnreadableBoard {
    pub name: String,
    pub board_path: String,
    pub reason: String,
}

/// Receipt from rebuilding a search index.
#[derive(Debug, Clone)]
pub struct SearchIndexReport {
    pub board: String,
    pub documents: i64,
    pub embedded: i64,
    pub embedding_model: String,
    pub duration_ms: i64,
}

/// How a search index stands, and why it is unhealthy.
#[derive(Debug, Clone)]
pub struct SearchIndexHealth {
    pub healthy: bool,
    pub source_rows: i64,
    pub documents: i64,
    pub fts_rows: i64,
    pub missing_embeddings: i64,
    pub stale_embeddings: i64,
    pub embedding_model: String,
    pub unhealthy_because: Vec<String>,
}

/// What a new handoff is made from.
#[derive(Debug, Clone)]
pub struct HandoffInput {
    pub task_id: Option<String>,
    pub lease_token: Option<String>,
    pub from_agent: String,
    pub from_session: Option<String>,
    pub from_model: Option<String>,
    pub to_agent: Option<String>,
    pub reason: String,
    pub priority: i64,
    pub summary: String,
    pub intent: String,
    pub next_action: String,
    pub blockers: Vec<String>,
    pub validations: Vec<String>,
    pub repo_path: Option<String>,
    pub branch: Option<String>,
    pub head_sha: Option<String>,
    pub dirty_summary: Option<String>,
    pub root_head: Option<String>,
}

} // verus!
