//! Wire protocol: the tagged message envelope and the length-prefixed frame.
//!
//! A serialized message is one tag byte naming the variant followed by its
//! fields in order; `enc_message` is the byte-exact specification and
//! `lemma_message_round_trip` proves that parsing an encoded message yields
//! the message back, for every variant.
use vstd::prelude::*;

verus! {

use vstd::utf8::encode_utf8;
use crate::codec::{enc_u64, enc_u32, enc_bytes, enc_str, enc_opt_str, enc_opt_bytes,
    enc_str_list, sdec_u8, sdec_u64, sdec_u32, sdec_bytes, sdec_str, sdec_opt_str, sdec_opt_bytes,
    sdec_str_list, i64_as_u64, u64_as_i64, write_u64, write_u32, write_bytes, write_str,
    write_opt_str, write_opt_bytes, write_str_list, read_u8, read_u64, read_u32, read_bytes,
    read_str, read_opt_str, read_opt_bytes, read_str_list, lemma_sdec_u8_at, lemma_sdec_u64_at,
    lemma_sdec_u32_at, lemma_sdec_bytes_at, lemma_sdec_str_at, lemma_sdec_opt_str_at,
    lemma_sdec_opt_bytes_at, lemma_sdec_str_list_at, lemma_concat_sub, i64_to_u64, u64_to_i64};
use crate::error::MeshError;

/// Wire protocol version; a handshake with any other version is refused.
pub const PROTOCOL_VERSION: u8 = 1;

/// Message types in the protocol.
#[derive(Debug, Clone, PartialEq, Eq)]
pub enum Message {
    /// Handshake message sent when establishing a connection.
    Handshake { node_id: String, protocol_version: u8, listen_port: u16, public_key: Option<
        String> },
    /// Acknowledgment of a handshake, carrying the encrypted session key.
    HandshakeAck { node_id: String, protocol_version: u8, public_key: Option<String>,
        encrypted_session_key: Option<Vec<u8>>, nonce: Option<Vec<u8>> },
    /// Regular data message.
    Data { payload: Vec<u8>, message_id: String },
    /// Keepalive probe.
    Ping { timestamp: i64 },
    /// Keepalive answer.
    Pong { timestamp: i64 },
    /// Peer discovery request.
    PeerRequest,
    /// Peer discovery response.
    PeerResponse { peers: Vec<String> },
    /// Connection close notification.
    Close { reason: String },
    /// Routed mesh unit with TTL and loop-prevention path.
    MeshMessage { from: String, to: Option<String>, data: Vec<u8>, message_id: String, ttl: u8,
        path: Vec<String> },
    /// Hop-limited content lookup.
    ContentRequest { request_id: String, url: String, from_node: String, ttl: u8, path: Vec<
        String> },
    /// Answer to a content lookup, sent back on the arriving link.
    ContentResponse { request_id: String, url: String, content: Option<Vec<u8>>, found: bool,
        from_node: String },
    /// Delivery acknowledgement for a directed mesh message.
    MessageAck { message_id: String, from: String },
}

/// The mathematical shape of a message: every field as a sequence value.
pub ghost enum MessageView {
    Handshake { node_id: Seq<char>, protocol_version: u8, listen_port: u16, public_key: Option<
        Seq<char>> },
    HandshakeAck { node_id: Seq<char>, protocol_version: u8, public_key: Option<Seq<char>>,
        encrypted_session_key: Option<Seq<u8>>, nonce: Option<Seq<u8>> },
    Data { payload: Seq<u8>, message_id: Seq<char> },
    Ping { timestamp: i64 },
    Pong { timestamp: i64 },
    PeerRequest,
    PeerResponse { peers: Seq<Seq<char>> },
    Close { reason: Seq<char> },
    MeshMessage { from: Seq<char>, to: Option<Seq<char>>, data: Seq<u8>, message_id: Seq<char>,
        ttl: u8, path: Seq<Seq<char>> },
    ContentRequest { request_id: Seq<char>, url: Seq<char>, from_node: Seq<char>, ttl: u8,
        path: Seq<Seq<char>> },
    ContentResponse { request_id: Seq<char>, url: Seq<char>, content: Option<Seq<u8>>,
        found: bool, from_node: Seq<char> },
    MessageAck { message_id: Seq<char>, from: Seq<char> },
}

pub open spec fn opt_str_view(o: Option<String>) -> Option<Seq<char>> {
    match o {
        Some(s) => Some(s@),
        None => None,
    }
}

pub open spec fn opt_bytes_view(o: Option<Vec<u8>>) -> Option<Seq<u8>> {
    match o {
        Some(b) => Some(b@),
        None => None,
    }
}

impl View for Message {
    type V = MessageView;

    open spec fn view(&self) -> MessageView {
        match *self {
            Message::Handshake { node_id, protocol_version, listen_port, public_key } =>
                MessageView::Handshake {
                    node_id: node_id@,
                    protocol_version,
                    listen_port,
                    public_key: opt_str_view(public_key),
                },
            Message::HandshakeAck {
                node_id,
                protocol_version,
                public_key,
                encrypted_session_key,
                nonce,
            } => MessageView::HandshakeAck {
                node_id: node_id@,
                protocol_version,
                public_key: opt_str_view(public_key),
                encrypted_session_key: opt_bytes_view(encrypted_session_key),
                nonce: opt_bytes_view(nonce),
            },
            Message::Data { payload, message_id } => MessageView::Data {
                payload: payload@,
                message_id: message_id@,
            },
            Message::Ping { timestamp } => MessageView::Ping { timestamp },
            Message::Pong { timestamp } => MessageView::Pong { timestamp },
            Message::PeerRequest => MessageView::PeerRequest,
            Message::PeerResponse { peers } => MessageView::PeerResponse {
                peers: peers.deep_view(),
            },
            Message::Close { reason } => MessageView::Close { reason: reason@ },
            Message::MeshMessage { from, to, data, message_id, ttl, path } =>
                MessageView::MeshMessage {
                    from: from@,
                    to: opt_str_view(to),
                    data: data@,
                    message_id: message_id@,
                    ttl,
                    path: path.deep_view(),
                },
            Message::ContentRequest { request_id, url, from_node, ttl, path } =>
                MessageView::ContentRequest {
                    request_id: request_id@,
                    url: url@,
                    from_node: from_node@,
                    ttl,
                    path: path.deep_view(),
                },
            Message::ContentResponse { request_id, url, content, found, from_node } =>
                MessageView::ContentResponse {
                    request_id: request_id@,
                    url: url@,
                    content: opt_bytes_view(content),
                    found,
                    from_node: from_node@,
                },
            Message::MessageAck { message_id, from } => MessageView::MessageAck {
                message_id: message_id@,
                from: from@,
            },
        }
    }
}

// ---------------------------------------------------------------------------
// byte-exact encoding specification
// ---------------------------------------------------------------------------

pub open spec fn enc_bool(b: bool) -> Seq<u8> {
    if b {
        seq![1u8]
    } else {
        seq![0u8]
    }
}

pub open spec fn enc_message(v: MessageView) -> Seq<u8> {
    match v {
        MessageView::Handshake { node_id, protocol_version, listen_port, public_key } =>
            seq![1u8] + enc_str(node_id) + seq![protocol_version] + enc_u64(listen_port as u64)
                + enc_opt_str(public_key),
        MessageView::HandshakeAck {
            node_id,
            protocol_version,
            public_key,
            encrypted_session_key,
            nonce,
        } => seq![2u8] + enc_str(node_id) + seq![protocol_version] + enc_opt_str(public_key)
            + enc_opt_bytes(encrypted_session_key) + enc_opt_bytes(nonce),
        MessageView::Data { payload, message_id } => seq![3u8] + enc_bytes(payload) + enc_str(
            message_id,
        ),
        MessageView::Ping { timestamp } => seq![4u8] + enc_u64(i64_as_u64(timestamp)),
        MessageView::Pong { timestamp } => seq![5u8] + enc_u64(i64_as_u64(timestamp)),
        MessageView::PeerRequest => seq![6u8],
        MessageView::PeerResponse { peers } => seq![7u8] + enc_str_list(peers),
        MessageView::Close { reason } => seq![8u8] + enc_str(reason),
        MessageView::MeshMessage { from, to, data, message_id, ttl, path } => seq![9u8] + enc_str(
            from,
        ) + enc_opt_str(to) + enc_bytes(data) + enc_str(message_id) + seq![ttl] + enc_str_list(
            path,
        ),
        MessageView::ContentRequest { request_id, url, from_node, ttl, path } => seq![10u8]
            + enc_str(request_id) + enc_str(url) + enc_str(from_node) + seq![ttl] + enc_str_list(
            path,
        ),
        MessageView::ContentResponse { request_id, url, content, found, from_node } => seq![11u8]
            + enc_str(request_id) + enc_str(url) + enc_opt_bytes(content) + enc_bool(found)
            + enc_str(from_node),
        MessageView::MessageAck { message_id, from } => seq![12u8] + enc_str(message_id) + enc_str(
            from,
        ),
    }
}

// ---------------------------------------------------------------------------
// parsing specification: a deterministic function of the input bytes
// ---------------------------------------------------------------------------

pub open spec fn sdec_m_handshake(buf: Seq<u8>, i0: int) -> Option<(MessageView, int)> {

            match sdec_str(buf, i0) {
                None => None,
                Some((node_id, i1)) => match sdec_u8(buf, i1) {
                    None => None,
                    Some((pv, i2)) => match sdec_u64(buf, i2) {
                        None => None,
                        Some((port, i3)) => if port <= 0xffff {
                            match sdec_opt_str(buf, i3) {
                                None => None,
                                Some((pk, i4)) => Some((
                                    MessageView::Handshake {
                                        node_id,
                                        protocol_version: pv,
                                        listen_port: port as u16,
                                        public_key: pk,
                                    },
                                    i4,
                                )),
                            }
                        } else {
                            None
                        },
                    },
                },
            }
        
}

pub open spec fn sdec_m_handshake_ack(buf: Seq<u8>, i0: int) -> Option<(MessageView, int)> {

            match sdec_str(buf, i0) {
                None => None,
                Some((node_id, i1)) => match sdec_u8(buf, i1) {
                    None => None,
                    Some((pv, i2)) => match sdec_opt_str(buf, i2) {
                        None => None,
                        Some((pk, i3)) => match sdec_opt_bytes(buf, i3) {
                            None => None,
                            Some((esk, i4)) => match sdec_opt_bytes(buf, i4) {
                                None => None,
                                Some((nonce, i5)) => Some((
                                    MessageView::HandshakeAck {
                                        node_id,
                                        protocol_version: pv,
                                        public_key: pk,
                                        encrypted_session_key: esk,
                                        nonce,
                                    },
                                    i5,
                                )),
                            },
                        },
                    },
                },
            }
        
}

pub open spec fn sdec_m_data(buf: Seq<u8>, i0: int) -> Option<(MessageView, int)> {

            match sdec_bytes(buf, i0) {
                None => None,
                Some((payload, i1)) => match sdec_str(buf, i1) {
                    None => None,
                    Some((message_id, i2)) => Some((
                        MessageView::Data { payload, message_id },
                        i2,
                    )),
                },
            }
        
}

pub open spec fn sdec_m_ping(buf: Seq<u8>, i0: int) -> Option<(MessageView, int)> {

            match sdec_u64(buf, i0) {
                None => None,
                Some((t, i1)) => Some((MessageView::Ping { timestamp: u64_as_i64(t) }, i1)),
            }
        
}

pub open spec fn sdec_m_pong(buf: Seq<u8>, i0: int) -> Option<(MessageView, int)> {

            match sdec_u64(buf, i0) {
                None => None,
                Some((t, i1)) => Some((MessageView::Pong { timestamp: u64_as_i64(t) }, i1)),
            }
        
}

pub open spec fn sdec_m_peer_request(buf: Seq<u8>, i0: int) -> Option<(MessageView, int)> {

            Some((MessageView::PeerRequest, i0))
        
}

pub open spec fn sdec_m_peer_response(buf: Seq<u8>, i0: int) -> Option<(MessageView, int)> {

            match sdec_str_list(buf, i0) {
                None => None,
                Some((peers, i1)) => Some((MessageView::PeerResponse { peers }, i1)),
            }
        
}

pub open spec fn sdec_m_close(buf: Seq<u8>, i0: int) -> Option<(MessageView, int)> {

            match sdec_str(buf, i0) {
                None => None,
                Some((reason, i1)) => Some((MessageView::Close { reason }, i1)),
            }
        
}

pub open spec fn sdec_m_mesh(buf: Seq<u8>, i0: int) -> Option<(MessageView, int)> {

            match sdec_str(buf, i0) {
                None => None,
                Some((from, i1)) => match sdec_opt_str(buf, i1) {
                    None => None,
                    Some((to, i2)) => match sdec_bytes(buf, i2) {
                        None => None,
                        Some((data, i3)) => match sdec_str(buf, i3) {
                            None => None,
                            Some((message_id, i4)) => match sdec_u8(buf, i4) {
                                None => None,
                                Some((ttl, i5)) => match sdec_str_list(buf, i5) {
                                    None => None,
                                    Some((path, i6)) => Some((
                                        MessageView::MeshMessage {
                                            from,
                                            to,
                                            data,
                                            message_id,
                                            ttl,
                                            path,
                                        },
                                        i6,
                                    )),
                                },
                            },
                        },
                    },
                },
            }
        
}

pub open spec fn sdec_m_content_request(buf: Seq<u8>, i0: int) -> Option<(MessageView, int)> {

            match sdec_str(buf, i0) {
                None => None,
                Some((request_id, i1)) => match sdec_str(buf, i1) {
                    None => None,
                    Some((url, i2)) => match sdec_str(buf, i2) {
                        None => None,
                        Some((from_node, i3)) => match sdec_u8(buf, i3) {
                            None => None,
                            Some((ttl, i4)) => match sdec_str_list(buf, i4) {
                                None => None,
                                Some((path, i5)) => Some((
                                    MessageView::ContentRequest {
                                        request_id,
                                        url,
                                        from_node,
                                        ttl,
                                        path,
                                    },
                                    i5,
                                )),
                            },
                        },
                    },
                },
            }
        
}

pub open spec fn sdec_m_content_response(buf: Seq<u8>, i0: int) -> Option<(MessageView, int)> {

            match sdec_str(buf, i0) {
                None => None,
                Some((request_id, i1)) => match sdec_str(buf, i1) {
                    None => None,
                    Some((url, i2)) => match sdec_opt_bytes(buf, i2) {
                        None => None,
                        Some((content, i3)) => match sdec_u8(buf, i3) {
                            None => None,
                            Some((fb, i4)) => if fb <= 1 {
                                match sdec_str(buf, i4) {
                                    None => None,
                                    Some((from_node, i5)) => Some((
                                        MessageView::ContentResponse {
                                            request_id,
                                            url,
                                            content,
                                            found: fb == 1,
                                            from_node,
                                        },
                                        i5,
                                    )),
                                }
                            } else {
                                None
                            },
                        },
                    },
                },
            }
        
}

pub open spec fn sdec_m_ack(buf: Seq<u8>, i0: int) -> Option<(MessageView, int)> {

            match sdec_str(buf, i0) {
                None => None,
                Some((message_id, i1)) => match sdec_str(buf, i1) {
                    None => None,
                    Some((from, i2)) => Some((MessageView::MessageAck { message_id, from }, i2)),
                },
            }
        
}

pub open spec fn sdec_message(buf: Seq<u8>) -> Option<(MessageView, int)> {
    match sdec_u8(buf, 0) {
        None => None,
        Some((tag, i0)) => if tag == 1 {
            sdec_m_handshake(buf, i0)
        } else if tag == 2 {
            sdec_m_handshake_ack(buf, i0)
        } else if tag == 3 {
            sdec_m_data(buf, i0)
        } else if tag == 4 {
            sdec_m_ping(buf, i0)
        } else if tag == 5 {
            sdec_m_pong(buf, i0)
        } else if tag == 6 {
            sdec_m_peer_request(buf, i0)
        } else if tag == 7 {
            sdec_m_peer_response(buf, i0)
        } else if tag == 8 {
            sdec_m_close(buf, i0)
        } else if tag == 9 {
            sdec_m_mesh(buf, i0)
        } else if tag == 10 {
            sdec_m_content_request(buf, i0)
        } else if tag == 11 {
            sdec_m_content_response(buf, i0)
        } else if tag == 12 {
            sdec_m_ack(buf, i0)
        } else {
            None
        },
    }
}

/// A whole-buffer parse: the message must consume every input byte.
pub open spec fn sdec_message_full(buf: Seq<u8>) -> Option<MessageView> {
    match sdec_message(buf) {
        None => None,
        Some((v, j)) => if j == buf.len() {
            Some(v)
        } else {
            None
        },
    }
}

// ---------------------------------------------------------------------------
// executable codec
// ---------------------------------------------------------------------------

impl Message {
    /// Serialize this message; the bytes are exactly `enc_message(self@)`.
    pub fn to_bytes(&self) -> (r: Result<Vec<u8>, MeshError>)
        ensures
            r is Ok,
            r matches Ok(v) ==> v@ == enc_message(self@),
    {
        let mut out: Vec<u8> = Vec::new();
        match self {
            Message::Handshake { node_id, protocol_version, listen_port, public_key } => {
                out.push(1u8);
                write_str(&mut out, node_id.as_str());
                out.push(*protocol_version);
                write_u64(&mut out, *listen_port as u64);
                write_opt_str(&mut out, public_key);
                assert(out@ =~= enc_message(self@));
            },
            Message::HandshakeAck {
                node_id,
                protocol_version,
                public_key,
                encrypted_session_key,
                nonce,
            } => {
                out.push(2u8);
                write_str(&mut out, node_id.as_str());
                out.push(*protocol_version);
                write_opt_str(&mut out, public_key);
                write_opt_bytes(&mut out, encrypted_session_key);
                write_opt_bytes(&mut out, nonce);
                assert(out@ =~= enc_message(self@));
            },
            Message::Data { payload, message_id } => {
                out.push(3u8);
                write_bytes(&mut out, payload.as_slice());
                write_str(&mut out, message_id.as_str());
                assert(out@ =~= enc_message(self@));
            },
            Message::Ping { timestamp } => {
                out.push(4u8);
                write_u64(&mut out, i64_to_u64(*timestamp));
                assert(out@ =~= enc_message(self@));
            },
            Message::Pong { timestamp } => {
                out.push(5u8);
                write_u64(&mut out, i64_to_u64(*timestamp));
                assert(out@ =~= enc_message(self@));
            },
            Message::PeerRequest => {
                out.push(6u8);
                assert(out@ =~= enc_message(self@));
            },
            Message::PeerResponse { peers } => {
                out.push(7u8);
                write_str_list(&mut out, peers);
                assert(out@ =~= enc_message(self@));
            },
            Message::Close { reason } => {
                out.push(8u8);
                write_str(&mut out, reason.as_str());
                assert(out@ =~= enc_message(self@));
            },
            Message::MeshMessage { from, to, data, message_id, ttl, path } => {
                out.push(9u8);
                write_str(&mut out, from.as_str());
                write_opt_str(&mut out, to);
                write_bytes(&mut out, data.as_slice());
                write_str(&mut out, message_id.as_str());
                out.push(*ttl);
                write_str_list(&mut out, path);
                assert(out@ =~= enc_message(self@));
            },
            Message::ContentRequest { request_id, url, from_node, ttl, path } => {
                out.push(10u8);
                write_str(&mut out, request_id.as_str());
                write_str(&mut out, url.as_str());
                write_str(&mut out, from_node.as_str());
                out.push(*ttl);
                write_str_list(&mut out, path);
                assert(out@ =~= enc_message(self@));
            },
            Message::ContentResponse { request_id, url, content, found, from_node } => {
                out.push(11u8);
                write_str(&mut out, request_id.as_str());
                write_str(&mut out, url.as_str());
                write_opt_bytes(&mut out, content);
                if *found {
                    out.push(1u8);
                } else {
                    out.push(0u8);
                }
                write_str(&mut out, from_node.as_str());
                assert(out@ =~= enc_message(self@));
            },
            Message::MessageAck { message_id, from } => {
                out.push(12u8);
                write_str(&mut out, message_id.as_str());
                write_str(&mut out, from.as_str());
                assert(out@ =~= enc_message(self@));
            },
        }
        Ok(out)
    }

    /// Parse a message; the outcome is the deterministic whole-buffer parse
    /// of the input.
    #[verifier::rlimit(100)]
    #[verifier::spinoff_prover]
    pub fn from_bytes(data: &[u8]) -> (r: Result<Message, MeshError>)
        ensures
            r matches Ok(m) ==> sdec_message_full(data@) == Some(m@),
            r is Err ==> sdec_message_full(data@) is None,
            r matches Err(e) ==> e is Serialization,
    {
        let err: MeshError = MeshError::Serialization(String::from_str("invalid message"));
        let (tag, i0) = match read_u8(data, 0) {
            None => { return Err(err); },
            Some(p) => p,
        };
        let (m, j): (Message, usize) = if tag == 1 {
            let (node_id, i1) = match read_str(data, i0) {
                None => { return Err(err); },
                Some(p) => p,
            };
            let (pv, i2) = match read_u8(data, i1) {
                None => { return Err(err); },
                Some(p) => p,
            };
            let (port, i3) = match read_u64(data, i2) {
                None => { return Err(err); },
                Some(p) => p,
            };
            if port > 0xffff {
                return Err(err);
            }
            let (pk, i4) = match read_opt_str(data, i3) {
                None => { return Err(err); },
                Some(p) => p,
            };
            (Message::Handshake {
                node_id,
                protocol_version: pv,
                listen_port: port as u16,
                public_key: pk,
            }, i4)
        } else if tag == 2 {
            let (node_id, i1) = match read_str(data, i0) {
                None => { return Err(err); },
                Some(p) => p,
            };
            let (pv, i2) = match read_u8(data, i1) {
                None => { return Err(err); },
                Some(p) => p,
            };
            let (pk, i3) = match read_opt_str(data, i2) {
                None => { return Err(err); },
                Some(p) => p,
            };
            let (esk, i4) = match read_opt_bytes(data, i3) {
                None => { return Err(err); },
                Some(p) => p,
            };
            let (nonce, i5) = match read_opt_bytes(data, i4) {
                None => { return Err(err); },
                Some(p) => p,
            };
            (Message::HandshakeAck {
                node_id,
                protocol_version: pv,
                public_key: pk,
                encrypted_session_key: esk,
                nonce,
            }, i5)
        } else if tag == 3 {
            let (payload, i1) = match read_bytes(data, i0) {
                None => { return Err(err); },
                Some(p) => p,
            };
            let (message_id, i2) = match read_str(data, i1) {
                None => { return Err(err); },
                Some(p) => p,
            };
            (Message::Data { payload, message_id }, i2)
        } else if tag == 4 {
            let (t, i1) = match read_u64(data, i0) {
                None => { return Err(err); },
                Some(p) => p,
            };
            (Message::Ping { timestamp: u64_to_i64(t) }, i1)
        } else if tag == 5 {
            let (t, i1) = match read_u64(data, i0) {
                None => { return Err(err); },
                Some(p) => p,
            };
            (Message::Pong { timestamp: u64_to_i64(t) }, i1)
        } else if tag == 6 {
            (Message::PeerRequest, i0)
        } else if tag == 7 {
            let (peers, i1) = match read_str_list(data, i0) {
                None => { return Err(err); },
                Some(p) => p,
            };
            (Message::PeerResponse { peers }, i1)
        } else if tag == 8 {
            let (reason, i1) = match read_str(data, i0) {
                None => { return Err(err); },
                Some(p) => p,
            };
            (Message::Close { reason }, i1)
        } else if tag == 9 {
            let (from, i1) = match read_str(data, i0) {
                None => { return Err(err); },
                Some(p) => p,
            };
            let (to, i2) = match read_opt_str(data, i1) {
                None => { return Err(err); },
                Some(p) => p,
            };
            let (mdata, i3) = match read_bytes(data, i2) {
                None => { return Err(err); },
                Some(p) => p,
            };
            let (message_id, i4) = match read_str(data, i3) {
                None => { return Err(err); },
                Some(p) => p,
            };
            let (ttl, i5) = match read_u8(data, i4) {
                None => { return Err(err); },
                Some(p) => p,
            };
            let (path, i6) = match read_str_list(data, i5) {
                None => { return Err(err); },
                Some(p) => p,
            };
            (Message::MeshMessage { from, to, data: mdata, message_id, ttl, path }, i6)
        } else if tag == 10 {
            let (request_id, i1) = match read_str(data, i0) {
                None => { return Err(err); },
                Some(p) => p,
            };
            let (url, i2) = match read_str(data, i1) {
                None => { return Err(err); },
                Some(p) => p,
            };
            let (from_node, i3) = match read_str(data, i2) {
                None => { return Err(err); },
                Some(p) => p,
            };
            let (ttl, i4) = match read_u8(data, i3) {
                None => { return Err(err); },
                Some(p) => p,
            };
            let (path, i5) = match read_str_list(data, i4) {
                None => { return Err(err); },
                Some(p) => p,
            };
            (Message::ContentRequest { request_id, url, from_node, ttl, path }, i5)
        } else if tag == 11 {
            let (request_id, i1) = match read_str(data, i0) {
                None => { return Err(err); },
                Some(p) => p,
            };
            let (url, i2) = match read_str(data, i1) {
                None => { return Err(err); },
                Some(p) => p,
            };
            let (content, i3) = match read_opt_bytes(data, i2) {
                None => { return Err(err); },
                Some(p) => p,
            };
            let (fb, i4) = match read_u8(data, i3) {
                None => { return Err(err); },
                Some(p) => p,
            };
            if fb > 1 {
                return Err(err);
            }
            let (from_node, i5) = match read_str(data, i4) {
                None => { return Err(err); },
                Some(p) => p,
            };
            (Message::ContentResponse { request_id, url, content, found: fb == 1, from_node }, i5)
        } else if tag == 12 {
            let (message_id, i1) = match read_str(data, i0) {
                None => { return Err(err); },
                Some(p) => p,
            };
            let (from, i2) = match read_str(data, i1) {
                None => { return Err(err); },
                Some(p) => p,
            };
            (Message::MessageAck { message_id, from }, i2)
        } else {
            return Err(err);
        };
        if j != data.len() {
            return Err(err);
        }
        Ok(m)
    }

    /// The discriminant name of this message variant.
    pub fn message_type(&self) -> (r: &'static str)
        ensures
            r@ == spec_message_type(self@),
    {
        match self {
            Message::Handshake { .. } => "handshake",
            Message::HandshakeAck { .. } => "handshake_ack",
            Message::Data { .. } => "data",
            Message::Ping { .. } => "ping",
            Message::Pong { .. } => "pong",
            Message::PeerRequest => "peer_request",
            Message::PeerResponse { .. } => "peer_response",
            Message::Close { .. } => "close",
            Message::MeshMessage { .. } => "mesh_message",
            Message::ContentRequest { .. } => "content_request",
            Message::ContentResponse { .. } => "content_response",
            Message::MessageAck { .. } => "message_ack",
        }
    }
}

// ---------------------------------------------------------------------------
// the round-trip law: parsing an encoded message yields the message
// ---------------------------------------------------------------------------

pub open spec fn str_wf(s: Seq<char>) -> bool {
    encode_utf8(s).len() < 0x10000000000000000
}

pub open spec fn bytes_wf(b: Seq<u8>) -> bool {
    b.len() < 0x10000000000000000
}

pub open spec fn opt_str_wf(o: Option<Seq<char>>) -> bool {
    o is Some ==> str_wf(o->0)
}

pub open spec fn opt_bytes_wf(o: Option<Seq<u8>>) -> bool {
    o is Some ==> bytes_wf(o->0)
}

pub open spec fn list_wf(l: Seq<Seq<char>>) -> bool {
    &&& l.len() < 0x10000000000000000
    &&& forall|m: int| 0 <= m < l.len() ==> str_wf(#[trigger] l[m])
}

/// Every field of the message fits its 64-bit length prefix; true of every
/// message a machine can hold in memory.
pub open spec fn view_wf(v: MessageView) -> bool {
    match v {
        MessageView::Handshake { node_id, public_key, .. } => str_wf(node_id) && opt_str_wf(
            public_key,
        ),
        MessageView::HandshakeAck { node_id, public_key, encrypted_session_key, nonce, .. } =>
            str_wf(node_id) && opt_str_wf(public_key) && opt_bytes_wf(encrypted_session_key)
                && opt_bytes_wf(nonce),
        MessageView::Data { payload, message_id } => bytes_wf(payload) && str_wf(message_id),
        MessageView::Ping { .. } => true,
        MessageView::Pong { .. } => true,
        MessageView::PeerRequest => true,
        MessageView::PeerResponse { peers } => list_wf(peers),
        MessageView::Close { reason } => str_wf(reason),
        MessageView::MeshMessage { from, to, data, message_id, path, .. } => str_wf(from)
            && opt_str_wf(to) && bytes_wf(data) && str_wf(message_id) && list_wf(path),
        MessageView::ContentRequest { request_id, url, from_node, path, .. } => str_wf(request_id)
            && str_wf(url) && str_wf(from_node) && list_wf(path),
        MessageView::ContentResponse { request_id, url, content, from_node, .. } => str_wf(
            request_id,
        ) && str_wf(url) && opt_bytes_wf(content) && str_wf(from_node),
        MessageView::MessageAck { message_id, from } => str_wf(message_id) && str_wf(from),
    }
}

/// Serialize(msg) then Parse yields msg back, for every variant.
#[verifier::rlimit(100)]
#[verifier::spinoff_prover]
pub proof fn lemma_message_round_trip(v: MessageView)
    requires
        view_wf(v),
    ensures
        sdec_message_full(enc_message(v)) == Some(v),
{
    let buf = enc_message(v);
    assert(buf.subrange(0, buf.len() as int) =~= buf);
    match v {
        MessageView::Handshake { .. } => {
            lemma_rt_handshake(v);
            assert(buf[0] == buf.subrange(0, 1)[0]);
            lemma_sdec_u8_at(buf, 0, 1u8);
        },
        MessageView::HandshakeAck { .. } => {
            lemma_rt_handshake_ack(v);
            assert(buf[0] == buf.subrange(0, 1)[0]);
            lemma_sdec_u8_at(buf, 0, 2u8);
        },
        MessageView::Data { payload, message_id } => {
            let p0 = seq![3u8];
            let p1 = enc_bytes(payload);
            let p2 = enc_str(message_id);
            lemma_concat_sub(buf, p0 + p1, p2, 0);
            lemma_concat_sub(buf, p0, p1, 0);
            assert(buf[0] == buf.subrange(0, 1)[0]);
            lemma_sdec_u8_at(buf, 0, 3u8);
            lemma_sdec_bytes_at(buf, 1, payload);
            lemma_sdec_str_at(buf, 1 + p1.len() as int, message_id);
        },
        MessageView::Ping { timestamp } => {
            let p0 = seq![4u8];
            let p1 = enc_u64(i64_as_u64(timestamp));
            lemma_concat_sub(buf, p0, p1, 0);
            assert(buf[0] == buf.subrange(0, 1)[0]);
            lemma_sdec_u8_at(buf, 0, 4u8);
            lemma_sdec_u64_at(buf, 1, i64_as_u64(timestamp));
            crate::codec::lemma_i64_u64_round_trip(timestamp);
        },
        MessageView::Pong { timestamp } => {
            let p0 = seq![5u8];
            let p1 = enc_u64(i64_as_u64(timestamp));
            lemma_concat_sub(buf, p0, p1, 0);
            assert(buf[0] == buf.subrange(0, 1)[0]);
            lemma_sdec_u8_at(buf, 0, 5u8);
            lemma_sdec_u64_at(buf, 1, i64_as_u64(timestamp));
            crate::codec::lemma_i64_u64_round_trip(timestamp);
        },
        MessageView::PeerRequest => {
            assert(buf[0] == 6u8);
            lemma_sdec_u8_at(buf, 0, 6u8);
        },
        MessageView::PeerResponse { peers } => {
            let p0 = seq![7u8];
            let p1 = enc_str_list(peers);
            lemma_concat_sub(buf, p0, p1, 0);
            assert(buf[0] == buf.subrange(0, 1)[0]);
            lemma_sdec_u8_at(buf, 0, 7u8);
            lemma_sdec_str_list_at(buf, 1, peers);
        },
        MessageView::Close { reason } => {
            let p0 = seq![8u8];
            let p1 = enc_str(reason);
            lemma_concat_sub(buf, p0, p1, 0);
            assert(buf[0] == buf.subrange(0, 1)[0]);
            lemma_sdec_u8_at(buf, 0, 8u8);
            lemma_sdec_str_at(buf, 1, reason);
        },
        MessageView::MeshMessage { .. } => {
            lemma_rt_mesh_message(v);
            assert(buf[0] == buf.subrange(0, 1)[0]);
            lemma_sdec_u8_at(buf, 0, 9u8);
        },
        MessageView::ContentRequest { .. } => {
            lemma_rt_content_request(v);
            assert(buf[0] == buf.subrange(0, 1)[0]);
            lemma_sdec_u8_at(buf, 0, 10u8);
        },
        MessageView::ContentResponse { .. } => {
            lemma_rt_content_response(v);
            assert(buf[0] == buf.subrange(0, 1)[0]);
            lemma_sdec_u8_at(buf, 0, 11u8);
        },
        MessageView::MessageAck { message_id, from } => {
            let p0 = seq![12u8];
            let p1 = enc_str(message_id);
            let p2 = enc_str(from);
            lemma_concat_sub(buf, p0 + p1, p2, 0);
            lemma_concat_sub(buf, p0, p1, 0);
            assert(buf[0] == buf.subrange(0, 1)[0]);
            lemma_sdec_u8_at(buf, 0, 12u8);
            lemma_sdec_str_at(buf, 1, message_id);
            lemma_sdec_str_at(buf, 1 + p1.len() as int, from);
        },
    }
}

#[verifier::rlimit(100)]
#[verifier::spinoff_prover]
proof fn lemma_rt_handshake(v: MessageView)
    requires
        v is Handshake,
        view_wf(v),
    ensures
        sdec_m_handshake(enc_message(v), 1) == Some((v, enc_message(v).len() as int)),
{
    let buf = enc_message(v);
    assert(buf.subrange(0, buf.len() as int) =~= buf);
    match v {
        MessageView::Handshake { node_id, protocol_version, listen_port, public_key } => {
            let p0 = seq![1u8];
            let p1 = enc_str(node_id);
            let p2 = seq![protocol_version];
            let p3 = enc_u64(listen_port as u64);
            let p4 = enc_opt_str(public_key);
            lemma_concat_sub(buf, p0 + p1 + p2 + p3, p4, 0);
            lemma_concat_sub(buf, p0 + p1 + p2, p3, 0);
            lemma_concat_sub(buf, p0 + p1, p2, 0);
            lemma_concat_sub(buf, p0, p1, 0);
            assert(buf[0] == buf.subrange(0, 1)[0]);
            lemma_sdec_u8_at(buf, 0, 1u8);
            lemma_sdec_str_at(buf, 1, node_id);
            let o2: int = 1 + p1.len() as int;
            assert(buf[o2] == buf.subrange(o2, o2 + 1)[0]);
            lemma_sdec_u8_at(buf, o2, protocol_version);
            lemma_sdec_u64_at(buf, o2 + 1, listen_port as u64);
            lemma_sdec_opt_str_at(buf, o2 + 9, public_key);
        },
        _ => {},
    }
}

#[verifier::rlimit(100)]
#[verifier::spinoff_prover]
proof fn lemma_rt_handshake_ack(v: MessageView)
    requires
        v is HandshakeAck,
        view_wf(v),
    ensures
        sdec_m_handshake_ack(enc_message(v), 1) == Some((v, enc_message(v).len() as int)),
{
    let buf = enc_message(v);
    assert(buf.subrange(0, buf.len() as int) =~= buf);
    match v {
        MessageView::HandshakeAck {
            node_id,
            protocol_version,
            public_key,
            encrypted_session_key,
            nonce,
        } => {
            let p0 = seq![2u8];
            let p1 = enc_str(node_id);
            let p2 = seq![protocol_version];
            let p3 = enc_opt_str(public_key);
            let p4 = enc_opt_bytes(encrypted_session_key);
            let p5 = enc_opt_bytes(nonce);
            lemma_concat_sub(buf, p0 + p1 + p2 + p3 + p4, p5, 0);
            lemma_concat_sub(buf, p0 + p1 + p2 + p3, p4, 0);
            lemma_concat_sub(buf, p0 + p1 + p2, p3, 0);
            lemma_concat_sub(buf, p0 + p1, p2, 0);
            lemma_concat_sub(buf, p0, p1, 0);
            assert(buf[0] == buf.subrange(0, 1)[0]);
            lemma_sdec_u8_at(buf, 0, 2u8);
            lemma_sdec_str_at(buf, 1, node_id);
            let o2: int = 1 + p1.len() as int;
            assert(buf[o2] == buf.subrange(o2, o2 + 1)[0]);
            lemma_sdec_u8_at(buf, o2, protocol_version);
            lemma_sdec_opt_str_at(buf, o2 + 1, public_key);
            let o4: int = o2 + 1 + p3.len();
            lemma_sdec_opt_bytes_at(buf, o4, encrypted_session_key);
            lemma_sdec_opt_bytes_at(buf, o4 + p4.len(), nonce);
        },
        _ => {},
    }
}

#[verifier::rlimit(100)]
#[verifier::spinoff_prover]
proof fn lemma_rt_mesh_message(v: MessageView)
    requires
        v is MeshMessage,
        view_wf(v),
    ensures
        sdec_m_mesh(enc_message(v), 1) == Some((v, enc_message(v).len() as int)),
{
    let buf = enc_message(v);
    assert(buf.subrange(0, buf.len() as int) =~= buf);
    match v {
        MessageView::MeshMessage { from, to, data, message_id, ttl, path } => {
            let p0 = seq![9u8];
            let p1 = enc_str(from);
            let p2 = enc_opt_str(to);
            let p3 = enc_bytes(data);
            let p4 = enc_str(message_id);
            let p5 = seq![ttl];
            let p6 = enc_str_list(path);
            lemma_concat_sub(buf, p0 + p1 + p2 + p3 + p4 + p5, p6, 0);
            lemma_concat_sub(buf, p0 + p1 + p2 + p3 + p4, p5, 0);
            lemma_concat_sub(buf, p0 + p1 + p2 + p3, p4, 0);
            lemma_concat_sub(buf, p0 + p1 + p2, p3, 0);
            lemma_concat_sub(buf, p0 + p1, p2, 0);
            lemma_concat_sub(buf, p0, p1, 0);
            assert(buf[0] == buf.subrange(0, 1)[0]);
            lemma_sdec_u8_at(buf, 0, 9u8);
            lemma_sdec_str_at(buf, 1, from);
            let o2: int = 1 + p1.len() as int;
            lemma_sdec_opt_str_at(buf, o2, to);
            let o3: int = o2 + p2.len();
            lemma_sdec_bytes_at(buf, o3, data);
            let o4: int = o3 + p3.len();
            lemma_sdec_str_at(buf, o4, message_id);
            let o5: int = o4 + p4.len();
            assert(buf[o5] == buf.subrange(o5, o5 + 1)[0]);
            lemma_sdec_u8_at(buf, o5, ttl);
            lemma_sdec_str_list_at(buf, o5 + 1, path);
        },
        _ => {},
    }
}

#[verifier::rlimit(100)]
#[verifier::spinoff_prover]
proof fn lemma_rt_content_request(v: MessageView)
    requires
        v is ContentRequest,
        view_wf(v),
    ensures
        sdec_m_content_request(enc_message(v), 1) == Some((v, enc_message(v).len() as int)),
{
    let buf = enc_message(v);
    assert(buf.subrange(0, buf.len() as int) =~= buf);
    match v {
        MessageView::ContentRequest { request_id, url, from_node, ttl, path } => {
            let p0 = seq![10u8];
            let p1 = enc_str(request_id);
            let p2 = enc_str(url);
            let p3 = enc_str(from_node);
            let p4 = seq![ttl];
            let p5 = enc_str_list(path);
            lemma_concat_sub(buf, p0 + p1 + p2 + p3 + p4, p5, 0);
            lemma_concat_sub(buf, p0 + p1 + p2 + p3, p4, 0);
            lemma_concat_sub(buf, p0 + p1 + p2, p3, 0);
            lemma_concat_sub(buf, p0 + p1, p2, 0);
            lemma_concat_sub(buf, p0, p1, 0);
            assert(buf[0] == buf.subrange(0, 1)[0]);
            lemma_sdec_u8_at(buf, 0, 10u8);
            lemma_sdec_str_at(buf, 1, request_id);
            let o2: int = 1 + p1.len() as int;
            lemma_sdec_str_at(buf, o2, url);
            let o3: int = o2 + p2.len();
            lemma_sdec_str_at(buf, o3, from_node);
            let o4: int = o3 + p3.len();
            assert(buf[o4] == buf.subrange(o4, o4 + 1)[0]);
            lemma_sdec_u8_at(buf, o4, ttl);
            lemma_sdec_str_list_at(buf, o4 + 1, path);
        },
        _ => {},
    }
}

#[verifier::rlimit(100)]
#[verifier::spinoff_prover]
proof fn lemma_rt_content_response(v: MessageView)
    requires
        v is ContentResponse,
        view_wf(v),
    ensures
        sdec_m_content_response(enc_message(v), 1) == Some((v, enc_message(v).len() as int)),
{
    let buf = enc_message(v);
    assert(buf.subrange(0, buf.len() as int) =~= buf);
    match v {
        MessageView::ContentResponse { request_id, url, content, found, from_node } => {
            let p0 = seq![11u8];
            let p1 = enc_str(request_id);
            let p2 = enc_str(url);
            let p3 = enc_opt_bytes(content);
            let p4 = enc_bool(found);
            let p5 = enc_str(from_node);
            lemma_concat_sub(buf, p0 + p1 + p2 + p3 + p4, p5, 0);
            lemma_concat_sub(buf, p0 + p1 + p2 + p3, p4, 0);
            lemma_concat_sub(buf, p0 + p1 + p2, p3, 0);
            lemma_concat_sub(buf, p0 + p1, p2, 0);
            lemma_concat_sub(buf, p0, p1, 0);
            assert(buf[0] == buf.subrange(0, 1)[0]);
            lemma_sdec_u8_at(buf, 0, 11u8);
            lemma_sdec_str_at(buf, 1, request_id);
            let o2: int = 1 + p1.len() as int;
            lemma_sdec_str_at(buf, o2, url);
            let o3: int = o2 + p2.len();
            lemma_sdec_opt_bytes_at(buf, o3, content);
            let o4: int = o3 + p3.len();
            assert(buf[o4] == buf.subrange(o4, o4 + 1)[0]);
            if found {
                lemma_sdec_u8_at(buf, o4, 1u8);
            } else {
                lemma_sdec_u8_at(buf, o4, 0u8);
            }
            lemma_sdec_str_at(buf, o4 + 1, from_node);
        },
        _ => {},
    }
}

pub open spec fn spec_message_type(v: MessageView) -> Seq<char> {
    match v {
        MessageView::Handshake { .. } => "handshake"@,
        MessageView::HandshakeAck { .. } => "handshake_ack"@,
        MessageView::Data { .. } => "data"@,
        MessageView::Ping { .. } => "ping"@,
        MessageView::Pong { .. } => "pong"@,
        MessageView::PeerRequest => "peer_request"@,
        MessageView::PeerResponse { .. } => "peer_response"@,
        MessageView::Close { .. } => "close"@,
        MessageView::MeshMessage { .. } => "mesh_message"@,
        MessageView::ContentRequest { .. } => "content_request"@,
        MessageView::ContentResponse { .. } => "content_response"@,
        MessageView::MessageAck { .. } => "message_ack"@,
    }
}

// ---------------------------------------------------------------------------
// frames: a four-byte big-endian length prefix and exactly that many bytes
// ---------------------------------------------------------------------------

/// Protocol frame with length prefix; the payload is either a plain
/// serialized message or a 12-byte nonce followed by AEAD ciphertext.
#[derive(Debug, Clone, PartialEq, Eq)]
pub struct Frame {
    pub length: u32,
    pub payload: Vec<u8>,
    /// When true, the payload is nonce + encrypted data.
    pub is_encrypted: bool,
}

impl Frame {
    /// The length field counts exactly the payload bytes.
    pub open spec fn wf(&self) -> bool {
        self.length as int == self.payload@.len()
    }

    /// Create a plaintext frame around a serialized message.
    pub fn from_message(message: &Message) -> (r: Result<Frame, MeshError>)
        ensures
            r matches Ok(f) ==> f.wf() && f.payload@ == enc_message(message@) && !f.is_encrypted,
            r is Err ==> enc_message(message@).len() > u32::MAX,
            r matches Err(e) ==> e is Protocol,
    {
        let payload = match message.to_bytes() {
            Ok(p) => p,
            Err(e) => { return Err(e); },
        };
        if payload.len() > u32::MAX as usize {
            return Err(MeshError::Protocol(String::from_str("frame too large")));
        }
        Ok(Frame { length: payload.len() as u32, payload, is_encrypted: false })
    }

    /// Create an encrypted frame: the 12-byte nonce followed by ciphertext.
    pub fn from_encrypted(nonce: &[u8], encrypted_data: &[u8]) -> (r: Frame)
        requires
            nonce@.len() == 12,
            12 + encrypted_data@.len() <= u32::MAX,
        ensures
            r.wf(),
            r.payload@ == nonce@ + encrypted_data@,
            r.is_encrypted,
    {
        let mut payload: Vec<u8> = Vec::new();
        let mut k: usize = 0;
        while k < nonce.len()
            invariant
                k <= nonce@.len(),
                payload@ == nonce@.subrange(0, k as int),
            decreases nonce@.len() - k,
        {
            payload.push(nonce[k]);
            assert(payload@ =~= nonce@.subrange(0, k + 1 as int));
            k = k + 1;
        }
        assert(payload@ =~= nonce@);
        let mut m: usize = 0;
        while m < encrypted_data.len()
            invariant
                m <= encrypted_data@.len(),
                payload@ == nonce@ + encrypted_data@.subrange(0, m as int),
            decreases encrypted_data@.len() - m,
        {
            payload.push(encrypted_data[m]);
            assert(payload@ =~= nonce@ + encrypted_data@.subrange(0, m + 1 as int));
            m = m + 1;
        }
        assert(payload@ =~= nonce@ + encrypted_data@);
        Frame { length: payload.len() as u32, payload, is_encrypted: true }
    }

    /// Split an encrypted payload into its nonce and its ciphertext.
    pub fn extract_encrypted(&self) -> (r: Option<(Vec<u8>, Vec<u8>)>)
        ensures
            r is Some <==> self.is_encrypted && self.payload@.len() >= 12,
            r matches Some((n, c)) ==> n@ == self.payload@.subrange(0, 12) && c@
                == self.payload@.subrange(12, self.payload@.len() as int),
    {
        if !self.is_encrypted || self.payload.len() < 12 {
            return None;
        }
        let mut n: Vec<u8> = Vec::new();
        let mut k: usize = 0;
        while k < 12
            invariant
                k <= 12 <= self.payload@.len(),
                n@ == self.payload@.subrange(0, k as int),
            decreases 12 - k,
        {
            n.push(self.payload[k]);
            assert(n@ =~= self.payload@.subrange(0, k + 1 as int));
            k = k + 1;
        }
        let mut c: Vec<u8> = Vec::new();
        let mut m: usize = 12;
        while m < self.payload.len()
            invariant
                12 <= m <= self.payload@.len(),
                c@ == self.payload@.subrange(12, m as int),
            decreases self.payload@.len() - m,
        {
            c.push(self.payload[m]);
            assert(c@ =~= self.payload@.subrange(12, m + 1 as int));
            m = m + 1;
        }
        Some((n, c))
    }

    /// Serialize the frame: the length prefix followed by the payload.
    pub fn to_bytes(&self) -> (r: Vec<u8>)
        requires
            self.wf(),
        ensures
            r@ == enc_u32(self.length) + self.payload@,
    {
        let mut out: Vec<u8> = Vec::new();
        write_u32(&mut out, self.length);
        let mut k: usize = 0;
        while k < self.payload.len()
            invariant
                k <= self.payload@.len(),
                out@ == enc_u32(self.length) + self.payload@.subrange(0, k as int),
            decreases self.payload@.len() - k,
        {
            out.push(self.payload[k]);
            assert(out@ =~= enc_u32(self.length) + self.payload@.subrange(0, k + 1 as int));
            k = k + 1;
        }
        assert(out@ =~= enc_u32(self.length) + self.payload@);
        out
    }

    /// Parse a plaintext frame; trailing bytes after the counted payload are
    /// ignored, as a stream parser would leave them for the next frame.
    pub fn from_bytes(data: &[u8]) -> (r: Option<Frame>)
        ensures
            r matches Some(f) ==> sdec_u32(data@, 0) == Some((f.length, 4int)) && 4 + f.length
                <= data@.len() && f.payload@ == data@.subrange(4, 4 + f.length as int) && f.wf()
                && !f.is_encrypted,
            r is None ==> data@.len() < 4 || (match sdec_u32(data@, 0) {
                Some((n, _)) => 4 + n > data@.len(),
                None => true,
            }),
    {
        let (length, _) = match read_u32(data, 0) {
            None => { return None; },
            Some(p) => p,
        };
        if length as u64 > (data.len() - 4) as u64 {
            return None;
        }
        let end: usize = 4 + length as usize;
        let mut payload: Vec<u8> = Vec::new();
        let mut k: usize = 4;
        while k < end
            invariant
                4 <= k <= end <= data@.len(),
                payload@ == data@.subrange(4, k as int),
            decreases end - k,
        {
            payload.push(data[k]);
            assert(payload@ =~= data@.subrange(4, k + 1 as int));
            k = k + 1;
        }
        Some(Frame { length, payload, is_encrypted: false })
    }

    /// Parse an encrypted frame; the payload must hold at least the 12-byte
    /// nonce.
    pub fn from_encrypted_bytes(data: &[u8]) -> (r: Option<Frame>)
        ensures
            r matches Some(f) ==> sdec_u32(data@, 0) == Some((f.length, 4int)) && f.length >= 12 && 4
                + f.length <= data@.len() && f.payload@ == data@.subrange(4, 4 + f.length as int)
                && f.wf() && f.is_encrypted,
            r is None ==> data@.len() < 4 || (match sdec_u32(data@, 0) {
                Some((n, _)) => 4 + n > data@.len() || n < 12,
                None => true,
            }),
    {
        let (length, _) = match read_u32(data, 0) {
            None => { return None; },
            Some(p) => p,
        };
        if length < 12 || length as u64 > (data.len() - 4) as u64 {
            return None;
        }
        let end: usize = 4 + length as usize;
        let mut payload: Vec<u8> = Vec::new();
        let mut k: usize = 4;
        while k < end
            invariant
                4 <= k <= end <= data@.len(),
                payload@ == data@.subrange(4, k as int),
            decreases end - k,
        {
            payload.push(data[k]);
            assert(payload@ =~= data@.subrange(4, k + 1 as int));
            k = k + 1;
        }
        Some(Frame { length, payload, is_encrypted: true })
    }
}

/// A serialized frame parses back to the frame it came from: the length
/// prefix is read back exactly and the payload is recovered byte for byte.
pub proof fn lemma_frame_round_trip(length: u32, payload: Seq<u8>)
    requires
        payload.len() == length as int,
    ensures
        sdec_u32(enc_u32(length) + payload, 0) == Some((length, 4int)),
        (enc_u32(length) + payload).subrange(4, 4 + length as int) == payload,
{
    let buf = enc_u32(length) + payload;
    assert(buf.subrange(0, buf.len() as int) =~= buf);
    lemma_concat_sub(buf, enc_u32(length), payload, 0);
    lemma_sdec_u32_at(buf, 0, length);
}

} // verus!
