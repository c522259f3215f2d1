//! Health-arbitration core of a JSON-RPC load balancer.
//!
//! Upstream nodes live in one of two pools: the *active pool* (eligible to
//! serve traffic) and the *poverty pool* (quarantined). Every health cycle the
//! nodes are polled for their reported chain head; the arbiters in this crate
//! then decide, from those poll results alone, which nodes are demoted to the
//! poverty pool and which recover back into the active pool. The polling, the
//! timers and the transport live outside this crate; the decisions are all
//! here, and all verified.

mod arbiter;
mod drop_handler;
mod error;
mod head;
mod laws;
mod rpc;

pub use arbiter::agreed_head_of;
pub use arbiter::all_erroring;
pub use arbiter::complete_results;
pub use arbiter::demoted;
pub use arbiter::escape_poverty;
pub use arbiter::escaper;
pub use arbiter::has_result_for;
pub use arbiter::healthy;
pub use arbiter::laggard;
pub use arbiter::make_poverty;
pub use arbiter::promoted;
pub use arbiter::remaining;
pub use arbiter::survivors;
pub use drop_handler::dropped_listener_step;
pub use drop_handler::send_dropped_to_poverty;
pub use drop_handler::WsChannelErr;
pub use error::HealthError;
pub use head::normalize_head;
pub use head::HeadResult;
pub use laws::kept_from_lagging_slot;
pub use laws::lemma_agreed_head_is_max;
pub use laws::lemma_pool_arbiter_idempotent;
pub use laws::lemma_pool_arbiter_partition;
pub use laws::lemma_recovery_arbiter;
pub use laws::reported_agreed;
pub use rpc::Rpc;
pub use rpc::Status;
