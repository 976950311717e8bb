//! The reducer core of a nostr client engine: a state, and the exact rules by
//! which messages, reads and results of the transport change it. It performs
//! nothing itself.

pub mod auth;
pub mod committed;
pub mod core_observations;
pub mod core_state;
pub mod diagnostics;
pub mod effects;
pub mod evidence;
pub mod ids;
pub mod key;
pub mod lane_projection;
pub mod matching;
pub mod nip77_sessions;
pub mod observation_laws;
pub mod observation_registry;
pub mod observations;
pub mod opening;
pub mod outside;
pub mod owner_index;
pub mod pending_writes;
pub mod plan_delta;
pub mod plan_laws;
pub mod plan_roles;
pub mod planned_reads;
pub mod projection;
pub mod projection_laws;
pub mod receipts;
pub mod relay_ack;
pub mod replacement_laws;
pub mod request_attempt;
pub mod request_effects;
pub mod request_laws;
pub mod request_replacements;
pub mod request_retries;
pub mod request_targets;
pub mod requests;
pub mod retry;
pub mod reverse;
pub mod routing_facts;
pub mod row_laws;
pub mod rows;
pub mod semantic_delivery;
pub mod session_registry;
pub mod sorted;
pub mod tally;
pub mod text;
pub mod turns;
pub mod wire;
pub mod wire_admission;
pub mod wire_laws;
pub mod write_laws;
