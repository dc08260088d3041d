//! Connection handling decisions: handshake frame bounds and validation,
//! the reaction to each inbound message, and the pending-ping table.
use vstd::prelude::*;

verus! {

use crate::error::MeshError;
use crate::protocol::{Message, MessageView, PROTOCOL_VERSION, opt_str_view};
use crate::routing::{MeshMessage, seen_time};

/// A handshake frame's length prefix must be at least this (bytes).
pub const HANDSHAKE_MIN_LEN: u32 = 10;

/// A handshake frame's length prefix must be at most this (bytes).
pub const HANDSHAKE_MAX_LEN: u32 = 10240;

/// The sanity bound on a handshake frame's length prefix: a prefix outside
/// it means the stream is desynchronized and the connection must drop.
pub open spec fn spec_handshake_len_ok(n: u32) -> bool {
    HANDSHAKE_MIN_LEN <= n <= HANDSHAKE_MAX_LEN
}

/// Accepts exactly the length prefixes inside the handshake sanity bound.
pub fn handshake_len_ok(n: u32) -> (r: bool)
    ensures
        r == spec_handshake_len_ok(n),
{
    HANDSHAKE_MIN_LEN <= n && n <= HANDSHAKE_MAX_LEN
}

/// Validate the first message of a connection: it must be a handshake
/// carrying exactly this implementation's protocol version. Returns the
/// peer's id, its version, and its public key.
pub fn validate_handshake(msg: &Message) -> (r: Result<(String, u8, Option<String>), MeshError>)
    ensures
        r is Ok <==> (msg@ matches MessageView::Handshake { protocol_version, .. }
            && protocol_version == PROTOCOL_VERSION),
        r matches Ok((node_id, pv, pk)) ==> (msg@ matches MessageView::Handshake {
            node_id: n,
            protocol_version: v,
            public_key: k,
            ..
        } && node_id@ == n && pv == v && opt_str_view(pk) == k),
        r matches Err(e) ==> (if msg@ is Handshake {
            e is Protocol
        } else {
            e is Peer
        }),
{
    match msg {
        Message::Handshake { node_id, protocol_version, listen_port: _, public_key } => {
            if *protocol_version != PROTOCOL_VERSION {
                return Err(MeshError::Protocol(String::from_str("protocol version mismatch")));
            }
            Ok((
                node_id.clone(),
                *protocol_version,
                crate::inbox::clone_opt_string(public_key),
            ))
        },
        _ => Err(MeshError::Peer(String::from_str("Expected handshake message"))),
    }
}

// ---------------------------------------------------------------------------
// the reaction to an inbound message
// ---------------------------------------------------------------------------

/// What the connection handler must do with one parsed inbound message.
#[derive(Debug, Clone, PartialEq, Eq)]
pub enum InboundAction {
    /// Answer the keepalive probe with its own timestamp.
    SendPong { timestamp: i64 },
    /// A keepalive answer arrived; the peer is alive.
    PongReceived { timestamp: i64 },
    /// A data payload arrived for this node.
    DeliverData { payload: Vec<u8>, message_id: String },
    /// A routed mesh unit arrived; hand it to the router.
    HandleMesh { message: MeshMessage },
    /// A hop-limited content lookup arrived.
    HandleContentRequest { request_id: String, url: String, from_node: String, ttl: u8, path: Vec<
        String> },
    /// An answer to a content lookup arrived.
    HandleContentResponse { request_id: String, url: String, content: Option<Vec<u8>>,
        found: bool, from_node: String },
    /// A delivery acknowledgement arrived.
    HandleAck { message_id: String, from: String },
    /// The peer closed the connection.
    CloseConnection { reason: String },
    /// Anything the handler has no business reacting to.
    Ignore,
}

/// Decide the handler's reaction to one inbound message; every variant maps
/// to exactly one action and every field carries over.
pub fn classify_inbound(msg: Message) -> (r: InboundAction)
    ensures
        msg@ matches MessageView::Ping { timestamp } ==> r == (InboundAction::SendPong {
            timestamp,
        }),
        msg@ matches MessageView::Pong { timestamp } ==> r == (InboundAction::PongReceived {
            timestamp,
        }),
        msg@ matches MessageView::Data { payload, message_id } ==> (r
            matches InboundAction::DeliverData { payload: p, message_id: m } && p@ == payload
            && m@ == message_id),
        msg@ is MeshMessage ==> (r matches InboundAction::HandleMesh { message } && (
        msg@ matches MessageView::MeshMessage { from, to, data, message_id, ttl, path }
            ==> message@.from == from && message@.to == to && message@.data == data
            && message@.message_id == message_id && message@.ttl == ttl && message@.path == path)),
        msg@ matches MessageView::ContentRequest {
            request_id,
            url,
            from_node,
            ttl,
            path,
        } ==> (r matches InboundAction::HandleContentRequest {
            request_id: ri,
            url: u,
            from_node: f,
            ttl: t,
            path: p,
        } && ri@ == request_id && u@ == url && f@ == from_node && t == ttl && p.deep_view()
            == path),
        msg@ matches MessageView::ContentResponse {
            request_id,
            url,
            content,
            found,
            from_node,
        } ==> (r matches InboundAction::HandleContentResponse {
            request_id: ri,
            url: u,
            content: c,
            found: fo,
            from_node: f,
        } && ri@ == request_id && u@ == url && crate::protocol::opt_bytes_view(c) == content && fo
            == found && f@ == from_node),
        msg@ matches MessageView::MessageAck { message_id, from } ==> (r
            matches InboundAction::HandleAck { message_id: m, from: f } && m@ == message_id && f@
            == from),
        msg@ matches MessageView::Close { reason } ==> (r
            matches InboundAction::CloseConnection { reason: s } && s@ == reason),
        msg@ is Handshake || msg@ is HandshakeAck || msg@ is PeerRequest || msg@ is PeerResponse
            ==> r is Ignore,
{
    match msg {
        Message::Ping { timestamp } => InboundAction::SendPong { timestamp },
        Message::Pong { timestamp } => InboundAction::PongReceived { timestamp },
        Message::Data { payload, message_id } => InboundAction::DeliverData {
            payload,
            message_id,
        },
        Message::MeshMessage { from, to, data, message_id, ttl, path } =>
            InboundAction::HandleMesh {
            message: MeshMessage { from, to, data, message_id, ttl, path },
        },
        Message::ContentRequest { request_id, url, from_node, ttl, path } =>
            InboundAction::HandleContentRequest { request_id, url, from_node, ttl, path },
        Message::ContentResponse { request_id, url, content, found, from_node } =>
            InboundAction::HandleContentResponse { request_id, url, content, found, from_node },
        Message::MessageAck { message_id, from } => InboundAction::HandleAck { message_id, from },
        Message::Close { reason } => InboundAction::CloseConnection { reason },
        Message::Handshake { .. } => InboundAction::Ignore,
        Message::HandshakeAck { .. } => InboundAction::Ignore,
        Message::PeerRequest => InboundAction::Ignore,
        Message::PeerResponse { .. } => InboundAction::Ignore,
    }
}

// ---------------------------------------------------------------------------
// pending pings
// ---------------------------------------------------------------------------

/// The in-flight pings: which peers were probed, and when.
pub struct PendingPings {
    /// Peer id and the send instant (milliseconds); ids are unique.
    pub pings: Vec<(String, u64)>,
}

impl PendingPings {
    /// Peer ids in the table are unique.
    pub open spec fn wf(&self) -> bool {
        forall|i: int, j: int| 0 <= i < j < self.pings@.len() ==> (#[trigger] self.pings@[i]).0@
            != (#[trigger] self.pings@[j]).0@
    }

    /// An empty table.
    pub fn new() -> (r: PendingPings)
        ensures
            r.wf(),
            r.pings@.len() == 0,
    {
        PendingPings { pings: Vec::new() }
    }

    /// Whether a ping to this peer is already in flight.
    pub fn is_pending(&self, peer_id: &str) -> (r: bool)
        ensures
            r == (seen_time(self.pings@, peer_id@) is Some),
    {
        let mid: String = peer_id.to_owned();
        let mut k: usize = 0;
        let n = self.pings.len();
        proof {
            assert(self.pings@.subrange(0, n as int) =~= self.pings@);
        }
        while k < n
            invariant
                k <= n,
                n == self.pings@.len(),
                mid@ == peer_id@,
                seen_time(self.pings@, peer_id@) == seen_time(
                    self.pings@.subrange(k as int, n as int),
                    peer_id@,
                ),
            decreases n - k,
        {
            proof {
                assert(self.pings@.subrange(k as int, n as int)[0] == self.pings@[k as int]);
                assert(self.pings@.subrange(k as int, n as int).drop_first()
                    =~= self.pings@.subrange(k + 1 as int, n as int));
            }
            if self.pings[k].0 == mid {
                return true;
            }
            k = k + 1;
        }
        proof {
            assert(self.pings@.subrange(n as int, n as int) =~= Seq::<(String, u64)>::empty());
        }
        false
    }

    /// Start a ping to a peer: refused when the peer is not connected, and
    /// refused when one is already in flight to the same peer.
    pub fn begin_ping(&mut self, peer_id: &str, connected: bool, now: u64) -> (r: Result<
        (),
        MeshError,
    >)
        requires
            old(self).wf(),
        ensures
            final(self).wf(),
            !connected ==> (r matches Err(e) && e is Peer && e.spec_message()
                == "Peer not connected"@ && *final(self) == *old(self)),
            connected && seen_time(old(self).pings@, peer_id@) is Some ==> (r matches Err(e)
                && e is Peer && e.spec_message() == "Ping already in progress"@ && *final(self)
                == *old(self)),
            connected && seen_time(old(self).pings@, peer_id@) is None ==> (r is Ok
                && seen_time(final(self).pings@, peer_id@) == Some(now)),
    {
        if !connected {
            return Err(MeshError::Peer(String::from_str("Peer not connected")));
        }
        if self.is_pending(peer_id) {
            return Err(MeshError::Peer(String::from_str("Ping already in progress")));
        }
        let ghost prev = self.pings@;
        let entry = (peer_id.to_owned(), now);
        proof {
            assert(entry.0@ == peer_id@);
        }
        self.pings.push(entry);
        proof {
            lemma_seen_push(prev, peer_id@, (self.pings@.last().0, self.pings@.last().1));
            assert(self.pings@ =~= prev.push((self.pings@.last().0, self.pings@.last().1)));
            crate::routing::lemma_seen_time_none_absent(prev, peer_id@);
            assert forall|i: int, j: int| 0 <= i < j < self.pings@.len() implies (
            #[trigger] self.pings@[i]).0@ != (#[trigger] self.pings@[j]).0@ by {
                if j == self.pings@.len() - 1 {
                    assert(self.pings@[i] == prev[i]);
                }
            }
        }
        Ok(())
    }

    /// Resolve the in-flight ping to a peer, returning its send instant;
    /// none when no ping was pending.
    pub fn complete_ping(&mut self, peer_id: &str) -> (r: Option<u64>)
        requires
            old(self).wf(),
        ensures
            final(self).wf(),
            r == seen_time(old(self).pings@, peer_id@),
            seen_time(final(self).pings@, peer_id@) is None,
            forall|id: Seq<char>| id != peer_id@ ==> #[trigger] seen_time(final(self).pings@, id)
                == seen_time(old(self).pings@, id),
    {
        let mid: String = peer_id.to_owned();
        let mut kept: Vec<(String, u64)> = Vec::new();
        let mut found: Option<u64> = None;
        let n = self.pings.len();
        let mut k: usize = 0;
        proof {
            assert(self.pings@.subrange(0, 0) =~= Seq::<(String, u64)>::empty());
        }
        while k < n
            invariant
                k <= n,
                n == self.pings@.len(),
                old(self) == self,
                self.wf(),
                mid@ == peer_id@,
                found == seen_time(self.pings@.subrange(0, k as int), peer_id@),
                seen_time(kept@, peer_id@) is None,
                forall|i: int, j: int| 0 <= i < j < kept@.len() ==> (#[trigger] kept@[i]).0@ != (
                #[trigger] kept@[j]).0@,
                forall|id: Seq<char>| id != peer_id@ ==> #[trigger] seen_time(kept@, id)
                    == seen_time(self.pings@.subrange(0, k as int), id),
            decreases n - k,
        {
            let entry = (self.pings[k].0.clone(), self.pings[k].1);
            let ghost eidv = entry.0@;
            let ghost prefix = self.pings@.subrange(0, k as int);
            proof {
                assert(self.pings@.subrange(0, k + 1 as int) =~= prefix.push(
                    self.pings@[k as int],
                ));
                if seen_time(prefix, eidv) is Some {
                    crate::routing::lemma_seen_time_some_present(prefix, eidv);
                    let w = choose|w: int| 0 <= w < prefix.len() && (#[trigger] prefix[w]).0@
                        == eidv;
                    assert(self.pings@[w].0@ == eidv);
                    assert(false);
                }
                assert forall|id: Seq<char>| true implies #[trigger] seen_time(
                    self.pings@.subrange(0, k + 1 as int),
                    id,
                ) == (match seen_time(prefix, id) {
                    Some(t) => Some(t),
                    None => if eidv == id {
                        Some(self.pings@[k as int].1)
                    } else {
                        None
                    },
                }) by {
                    lemma_seen_push(prefix, id, self.pings@[k as int]);
                }
            }
            if entry.0 == mid {
                found = Some(entry.1);
            } else {
                let ghost prevk = kept@;
                kept.push(entry);
                proof {
                    assert(kept@ =~= prevk.push((kept@.last().0, kept@.last().1)));
                    assert(kept@.last().0@ == eidv);
                    assert forall|id: Seq<char>| true implies #[trigger] seen_time(kept@, id) == (
                    match seen_time(prevk, id) {
                        Some(t) => Some(t),
                        None => if eidv == id {
                            Some(kept@.last().1)
                        } else {
                            None
                        },
                    }) by {
                        lemma_seen_push(prevk, id, (kept@.last().0, kept@.last().1));
                    }
                    assert(seen_time(prevk, eidv) is None);
                    crate::routing::lemma_seen_time_none_absent(prevk, eidv);
                    assert(forall|i: int| 0 <= i < prevk.len() ==> kept@[i] == prevk[i]);
                    assert forall|i: int, j: int| 0 <= i < j < kept@.len() implies (
                    #[trigger] kept@[i]).0@ != (#[trigger] kept@[j]).0@ by {
                        if j == kept@.len() - 1 {
                            assert(kept@[j].0@ == eidv);
                        }
                    }
                }
            }
            k = k + 1;
        }
        proof {
            assert(self.pings@.subrange(0, n as int) =~= self.pings@);
        }
        self.pings = kept;
        found
    }
}

proof fn lemma_seen_push(s: Seq<(String, u64)>, id: Seq<char>, e: (String, u64))
    ensures
        seen_time(s.push(e), id) == (match seen_time(s, id) {
            Some(t) => Some(t),
            None => if e.0@ == id {
                Some(e.1)
            } else {
                None
            },
        }),
    decreases s.len(),
{
    let sp = s.push(e);
    if s.len() == 0 {
        assert(sp[0] == e);
        if e.0@ == id {
            assert(seen_time(sp, id) == Some(e.1));
        } else {
            assert(sp.drop_first() =~= Seq::<(String, u64)>::empty());
            assert(seen_time(sp.drop_first(), id) is None);
            assert(seen_time(sp, id) is None);
        }
    } else {
        assert(sp[0] == s[0]);
        assert(sp.drop_first() =~= s.drop_first().push(e));
        lemma_seen_push(s.drop_first(), id, e);
    }
}

} // verus!
