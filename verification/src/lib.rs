//! Core rules of the Kanban registry: boards, rules, policy, routing and search.

pub mod adapter_wire;
pub mod adoption;
pub mod adoption_laws;
pub mod attachment;
pub mod attention;
pub mod authority_laws;
pub mod clock;
pub mod consolidation;
pub mod consolidation_ids;
pub mod consolidation_laws;
pub mod decision_laws;
pub mod decisions;
pub mod deck_laws;
pub mod deploy;
pub mod draws;
pub mod import;
pub mod import_laws;
pub mod journal_laws;
pub mod json;
pub mod keyed;
pub mod lattice;
pub mod ledger;
pub mod listing;
pub mod lookup_laws;
pub mod opencode_adapter;
pub mod outside;
pub mod owed_laws;
pub mod paths;
pub mod place_laws;
pub mod plans;
pub mod policy;
pub mod policy_grants;
pub mod policy_journal;
pub mod policy_laws;
pub mod policy_ops;
pub mod policy_queries;
pub mod policy_replay;
pub mod policy_state;
pub mod principal_laws;
pub mod projection;
pub mod projection_laws;
pub mod ranking;
pub mod records;
pub mod result_laws;
pub mod retirement;
pub mod routing;
pub mod rule_history;
pub mod rule_laws;
pub mod rulebook;
pub mod rulebook_laws;
pub mod rules;
pub mod search;
pub mod search_index;
pub mod search_laws;
pub mod search_match;
pub mod search_text;
pub mod selector_laws;
pub mod selectors;
pub mod subscriptions;
pub mod tables;
pub mod text;
pub mod text_laws;
pub mod tokens;
pub mod transfer;
pub mod transfer_laws;
pub mod verdict_laws;
pub mod wire_laws;
pub mod workspace;
pub mod workspace_laws;
pub mod workspace_ops;
