//! Indexing of the events of one tracked contract into a store.
//!
//! The chain delivers blocks in order; each event of the tracked contract is
//! classified into a domain event ([`event`]) and written together with the
//! checkpoint in one transaction ([`store`]). Writes are retried with a
//! bounded exponential backoff ([`retry`]), and the orchestration is a state
//! machine driven by the caller's loop ([`pipeline`]).
use vstd::prelude::*;

pub mod event;
pub mod pipeline;
pub mod retry;
pub mod store;
pub mod types;

verus! {

} // verus!
