//! Wire protocol: serialization round trips for every message variant and
//! for frames.
use meshlink::protocol::{Frame, Message, PROTOCOL_VERSION};

#[test]
fn test_message_serialization() {
    let msg = Message::Ping { timestamp: 12345 };
    let bytes = msg.to_bytes().unwrap();
    let deserialized = Message::from_bytes(&bytes).unwrap();
    assert_eq!(msg, deserialized);
}

#[test]
fn test_frame_serialization() {
    let msg = Message::Ping { timestamp: 12345 };
    let frame = Frame::from_message(&msg).unwrap();
    let bytes = frame.to_bytes();
    let parsed = Frame::from_bytes(&bytes).unwrap();
    assert_eq!(frame.length, parsed.length);
    assert_eq!(frame.payload, parsed.payload);
}

fn all_variants() -> Vec<Message> {
    vec![
        Message::Handshake {
            node_id: "node-a".to_string(),
            protocol_version: PROTOCOL_VERSION,
            listen_port: 8080,
            public_key: Some("a-public-key".to_string()),
        },
        Message::Handshake {
            node_id: String::new(),
            protocol_version: 0,
            listen_port: 0,
            public_key: None,
        },
        Message::HandshakeAck {
            node_id: "node-b".to_string(),
            protocol_version: PROTOCOL_VERSION,
            public_key: Some("b-public-key".to_string()),
            encrypted_session_key: Some(vec![1, 2, 3, 255]),
            nonce: Some(vec![0; 12]),
        },
        Message::Data { payload: vec![0, 1, 2, 3], message_id: "m-1".to_string() },
        Message::Ping { timestamp: -5 },
        Message::Pong { timestamp: i64::MIN },
        Message::PeerRequest,
        Message::PeerResponse { peers: vec!["127.0.0.1:1".to_string(), "[::1]:2".to_string()] },
        Message::Close { reason: "bye \u{1F310}".to_string() },
        Message::MeshMessage {
            from: "A1".to_string(),
            to: Some("B1".to_string()),
            data: b"hi".to_vec(),
            message_id: "mid-1".to_string(),
            ttl: 10,
            path: vec!["A1".to_string(), "B1".to_string()],
        },
        Message::ContentRequest {
            request_id: "r-1".to_string(),
            url: "ely://A1/doc".to_string(),
            from_node: "C1".to_string(),
            ttl: 8,
            path: vec!["C1".to_string()],
        },
        Message::ContentResponse {
            request_id: "r-1".to_string(),
            url: "ely://A1/doc".to_string(),
            content: Some(b"hello".to_vec()),
            found: true,
            from_node: "A1".to_string(),
        },
        Message::MessageAck { message_id: "mid-1".to_string(), from: "B1".to_string() },
    ]
}

#[test]
fn every_variant_round_trips() {
    for msg in all_variants() {
        let bytes = msg.to_bytes().unwrap();
        let back = Message::from_bytes(&bytes).unwrap();
        assert_eq!(msg, back);
    }
}

#[test]
fn message_type_names_every_variant() {
    let names: Vec<&str> = all_variants().iter().map(|m| m.message_type()).collect();
    assert!(names.contains(&"handshake"));
    assert!(names.contains(&"handshake_ack"));
    assert!(names.contains(&"data"));
    assert!(names.contains(&"ping"));
    assert!(names.contains(&"pong"));
    assert!(names.contains(&"peer_request"));
    assert!(names.contains(&"peer_response"));
    assert!(names.contains(&"close"));
    assert!(names.contains(&"mesh_message"));
    assert!(names.contains(&"content_request"));
    assert!(names.contains(&"content_response"));
    assert!(names.contains(&"message_ack"));
}

#[test]
fn garbage_is_rejected_as_serialization_error() {
    let r = Message::from_bytes(&[99, 1, 2, 3]);
    assert!(matches!(r, Err(meshlink::error::MeshError::Serialization(_))));
    // trailing bytes after a whole message are refused too
    let mut bytes = Message::PeerRequest.to_bytes().unwrap();
    bytes.push(0);
    assert!(Message::from_bytes(&bytes).is_err());
}

#[test]
fn encrypted_frame_carries_nonce_and_ciphertext() {
    let nonce = [7u8; 12];
    let ct = [1u8, 2, 3, 4];
    let frame = Frame::from_encrypted(&nonce, &ct);
    assert!(frame.is_encrypted);
    assert_eq!(frame.length as usize, 16);
    let (n, c) = frame.extract_encrypted().unwrap();
    assert_eq!(n, nonce.to_vec());
    assert_eq!(c, ct.to_vec());
    let bytes = frame.to_bytes();
    let parsed = Frame::from_encrypted_bytes(&bytes).unwrap();
    assert_eq!(parsed.payload, frame.payload);
    assert!(parsed.is_encrypted);
}

#[test]
fn short_encrypted_frames_are_refused() {
    // an encrypted frame needs at least the 12-byte nonce
    let frame = Frame::from_message(&Message::PeerRequest).unwrap();
    let bytes = frame.to_bytes();
    assert!(Frame::from_encrypted_bytes(&bytes).is_none() || frame.payload.len() >= 12);
}
