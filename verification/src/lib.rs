//! A batched-write engine with partial-failure retry for a key-value store
//! whose batch call accepts at most `MAX_BATCH_SIZE` requests and may apply
//! only a subset, echoing the rest back as unprocessed. The library decides
//! everything: how serialization failures are reported, how requests are
//! chunked into groups, which entries each retry resends, how long to back
//! off, when a group is done or failed, and how all outcomes merge into one
//! report in which every record that never reached a durable write appears
//! exactly once. The store calls and the sleeps themselves stay outside.

pub mod aggregate;
pub mod chunk;
pub mod engine;
pub mod reconcile;
pub mod sift;
pub mod wire;

use vstd::prelude::*;

verus! {

/// Hard ceiling, imposed by the store, on the number of write requests
/// carried by one batch call.
pub const MAX_BATCH_SIZE: usize = 25;

/// Number of retries a group may make after its first attempt before the
/// entries still unprocessed are reported as failed.
pub const MAX_RETRIES: u32 = 5;

/// Base backoff delay in milliseconds; the delay before retry `k` is
/// `BASE_DELAY_MS * 2^k`.
pub const BASE_DELAY_MS: u64 = 100;

} // verus!
