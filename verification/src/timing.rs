//! How long a node waits before it acts.

use vstd::prelude::*;
use rand::Rng;

verus! {

/// Shortest election timeout, in milliseconds.
pub const ELECTION_TIMEOUT_MIN_MS: u64 = 150;

/// Longest election timeout, in milliseconds.
pub const ELECTION_TIMEOUT_MAX_MS: u64 = 300;

/// How long a leader waits between two rounds of heartbeats, in milliseconds.
pub const HEARTBEAT_INTERVAL_MS: u64 = 50;

/// How long a node waits for the outcome of one RPC it sent, in milliseconds.
pub const REPLY_WAIT_MS: u64 = 150;

/// Calls `rand::Rng::gen_range` on the thread-local generator of
/// `rand::thread_rng`: a number drawn from `low..high`. The contract claims
/// only that the number lies in that range, as rand documents; `gen_range`
/// panics when `low >= high`, which `requires` rules out.
#[verifier::external_body]
fn random_in_range(low: u64, high: u64) -> (n: u64)
    requires
        low < high,
    ensures
        low <= n < high,
{
    rand::thread_rng().gen_range(low, high)
}

/// A randomized election timeout, so that peers rarely time out together.
pub fn election_timeout_ms() -> (ms: u64)
    ensures
        ELECTION_TIMEOUT_MIN_MS <= ms <= ELECTION_TIMEOUT_MAX_MS,
{
    random_in_range(ELECTION_TIMEOUT_MIN_MS, ELECTION_TIMEOUT_MAX_MS + 1)
}

} // verus!
