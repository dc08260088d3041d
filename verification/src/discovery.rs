//! LAN discovery records and the rate limit on processing them.
use vstd::prelude::*;

verus! {

/// A repeat announcement from one peer inside this window (milliseconds)
/// is passed over.
pub const DISCOVERY_RATE_MS: u64 = 5_000;

/// One UDP announcement: who is listening where, under which key.
#[derive(Debug, Clone, PartialEq, Eq)]
pub struct DiscoveryMessage {
    pub node_id: String,
    pub listen_port: u16,
    /// Base64-printed public key.
    pub public_key: String,
    pub timestamp: i64,
}

/// Whether an announcement is acted on: never this node's own, and at most
/// one per sender inside the rate window.
pub fn discovery_should_process(
    our_node_id: &str,
    sender_id: &str,
    last_processed: Option<u64>,
    now: u64,
) -> (r: bool)
    ensures
        r == spec_discovery_should_process(our_node_id@, sender_id@, last_processed, now),
{
    let ours: String = our_node_id.to_owned();
    let theirs: String = sender_id.to_owned();
    if ours == theirs {
        return false;
    }
    match last_processed {
        None => true,
        Some(t) => !(t <= now && now - t < DISCOVERY_RATE_MS),
    }
}

/// An announcement is acted on exactly when it is not this node's own and
/// the sender was not processed inside the rate window.
pub open spec fn spec_discovery_should_process(
    our: Seq<char>,
    sender: Seq<char>,
    last_processed: Option<u64>,
    now: u64,
) -> bool {
    &&& sender != our
    &&& match last_processed {
        None => true,
        Some(t) => !(t <= now && now - t < DISCOVERY_RATE_MS),
    }
}

} // verus!
