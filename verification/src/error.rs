//! Error kinds distinguished at the interface boundary of the node.
use vstd::prelude::*;

verus! {

/// Every failure a caller can see, each with a human-readable description.
#[derive(Debug, Clone, PartialEq, Eq)]
pub enum MeshError {
    /// Underlying socket or file failure.
    Io(String),
    /// Codec failure: bytes that do not decode to a value.
    Serialization(String),
    /// Well-formed bytes with the wrong semantics: wrong version, wrong
    /// message type, impossible length.
    Protocol(String),
    /// Dialer-side transport failure.
    Connection(String),
    /// Startup-time misconfiguration.
    Config(String),
    /// Misbehaving or unreachable peer, failed handshake, session-key
    /// operation.
    Peer(String),
    /// A blocking primitive ran out of time.
    Timeout(String),
    /// Durable substrate failure.
    Storage(String),
}

impl MeshError {
    /// The human-readable description carried by this error.
    pub fn message(&self) -> (r: String)
        ensures
            r@ == self.spec_message(),
    {
        match self {
            MeshError::Io(s) => s.clone(),
            MeshError::Serialization(s) => s.clone(),
            MeshError::Protocol(s) => s.clone(),
            MeshError::Connection(s) => s.clone(),
            MeshError::Config(s) => s.clone(),
            MeshError::Peer(s) => s.clone(),
            MeshError::Timeout(s) => s.clone(),
            MeshError::Storage(s) => s.clone(),
        }
    }

    pub open spec fn spec_message(&self) -> Seq<char> {
        match self {
            MeshError::Io(s) => s@,
            MeshError::Serialization(s) => s@,
            MeshError::Protocol(s) => s@,
            MeshError::Connection(s) => s@,
            MeshError::Config(s) => s@,
            MeshError::Peer(s) => s@,
            MeshError::Timeout(s) => s@,
            MeshError::Storage(s) => s@,
        }
    }
}

} // verus!
