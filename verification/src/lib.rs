//! A decentralized peer-to-peer mesh overlay: each node is at once a
//! router, a content store and an inbox endpoint. Messages flood through
//! the mesh under a hop budget with duplicate suppression and path-based
//! loop prevention; content is published under canonical `ely://` keys and
//! fetched locally or over hop-limited lookups; user-visible messages land
//! in a bounded, strictly ordered inbox that can travel offline inside
//! time-bounded bundles.
//!
//! Every wire format in this crate is a byte-exact verified codec with a
//! proved encode-then-parse round trip, and every routing, paging, cooldown
//! and admission decision is a verified function of plain values. Calls
//! into outside crates (ciphers, digests, the durable ordered map, clocks
//! and randomness) stand behind narrow trusted declarations whose contracts
//! state only what those crates document.
use vstd::prelude::*;

pub mod bundle;
pub mod codec;
pub mod config;
pub mod connection;
pub mod content;
pub mod discovery;
pub mod encryption;
pub mod error;
pub mod identity;
pub mod inbox;
pub mod naming;
pub mod packet;
pub mod peer;
pub mod protocol;
pub mod routing;
pub mod stats;
pub mod store;
pub mod util;

verus! {

} // verus!
