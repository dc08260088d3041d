//! Router behavior: addresses, admission, dedup, TTL, loop prevention and
//! forwarding selection.
use meshlink::routing::{ElysiumAddress, MeshMessage, RouteDecision, Router};

#[test]
fn test_elysium_address_parse() {
    let addr = ElysiumAddress::from_string("ely://node123").unwrap();
    assert_eq!(addr.node_id, "node123");

    let invalid = ElysiumAddress::from_string("invalid");
    assert!(invalid.is_err());
}

#[test]
fn test_elysium_address_to_string() {
    let addr = ElysiumAddress { node_id: "node123".to_string() };
    assert_eq!(addr.to_string(), "ely://node123");
}

#[test]
fn test_router_should_process() {
    let mut router = Router::new("our-node".to_string());
    let message = MeshMessage::new("peer1".to_string(), None, b"test".to_vec());

    // New message should be processed
    assert!(router.should_process(&message, 1_000));

    // Mark as seen
    router.mark_seen(&message.message_id, 1_000);

    // Should not process again immediately
    assert!(!router.should_process(&message, 1_001));
}

#[test]
fn test_router_is_for_us() {
    let router = Router::new("our-node".to_string());

    // Broadcast message
    let broadcast = MeshMessage::new("peer1".to_string(), None, b"test".to_vec());
    assert!(router.is_for_us(&broadcast));

    // Directed to us
    let directed = MeshMessage::new("peer1".to_string(), Some("our-node".to_string()), b"test".to_vec());
    assert!(router.is_for_us(&directed));

    // Directed to someone else
    let other = MeshMessage::new("peer1".to_string(), Some("other-node".to_string()), b"test".to_vec());
    assert!(!router.is_for_us(&other));
}

#[test]
fn test_router_prepare_for_forwarding() {
    let router = Router::new("our-node".to_string());
    let message = MeshMessage::new("peer1".to_string(), None, b"test".to_vec());
    let original_ttl = message.ttl;

    let forwarded = router.prepare_for_forwarding(&message);

    assert_eq!(forwarded.ttl, original_ttl - 1);
    assert!(forwarded.path.contains(&"our-node".to_string()));
}

#[test]
fn test_router_get_forward_peers() {
    let router = Router::new("our-node".to_string());
    let message = MeshMessage::new("peer1".to_string(), None, b"test".to_vec());
    let all_peers = vec!["peer1".to_string(), "peer2".to_string(), "peer3".to_string()];

    let forward_peers = router.get_forward_peers(&message, &all_peers);

    // Should not include sender (peer1) or our node
    assert!(!forward_peers.contains(&"peer1".to_string()));
    assert!(forward_peers.contains(&"peer2".to_string()));
    assert!(forward_peers.contains(&"peer3".to_string()));
}

#[test]
fn test_router_loop_detection() {
    let router = Router::new("our-node".to_string());
    let mut message = MeshMessage::new("peer1".to_string(), None, b"test".to_vec());
    message.path.push("our-node".to_string());

    // Should not process if we're in the path
    assert!(!router.should_process(&message, 0));
}

#[test]
fn dedup_window_expires_after_sixty_seconds() {
    let mut router = Router::new("x".to_string());
    let message = MeshMessage::new("peer1".to_string(), None, b"d".to_vec());
    router.mark_seen(&message.message_id, 10_000);
    // inside the window: refused
    assert!(!router.should_process(&message, 10_000 + 59_999));
    // at the window's edge: admitted again
    assert!(router.should_process(&message, 10_000 + 60_000));
}

#[test]
fn ttl_zero_is_never_admitted() {
    let router = Router::new("x".to_string());
    let mut message = MeshMessage::new("peer1".to_string(), None, b"d".to_vec());
    message.ttl = 0;
    assert!(!router.should_process(&message, 0));
}

#[test]
fn route_decisions_split_delivery_from_forwarding() {
    let router = Router::new("x".to_string());
    // a spent directed message still reaches its destination
    let mut to_us = MeshMessage::new("a".to_string(), Some("x".to_string()), b"d".to_vec());
    to_us.ttl = 0;
    assert_eq!(router.route_decision(&to_us, 0), RouteDecision { deliver: true, forward: false });
    // a live directed message for someone else only relays
    let relay = MeshMessage::new("a".to_string(), Some("y".to_string()), b"d".to_vec());
    assert_eq!(router.route_decision(&relay, 0), RouteDecision { deliver: false, forward: true });
    // a live broadcast does both
    let bcast = MeshMessage::new("a".to_string(), None, b"d".to_vec());
    assert_eq!(router.route_decision(&bcast, 0), RouteDecision { deliver: true, forward: true });
    // a spent broadcast does neither
    let mut spent = MeshMessage::new("a".to_string(), None, b"d".to_vec());
    spent.ttl = 0;
    assert_eq!(router.route_decision(&spent, 0), RouteDecision { deliver: false, forward: false });
}

#[test]
fn forwarding_saturates_ttl_at_zero() {
    let router = Router::new("x".to_string());
    let mut message = MeshMessage::new("peer1".to_string(), None, b"d".to_vec());
    message.ttl = 0;
    let forwarded = router.prepare_for_forwarding(&message);
    assert_eq!(forwarded.ttl, 0);
}

#[test]
fn forward_peers_skip_nodes_on_the_path() {
    let router = Router::new("x".to_string());
    let mut message = MeshMessage::new("a".to_string(), None, b"d".to_vec());
    message.path = vec!["b".to_string()];
    let all_peers = vec!["a".to_string(), "b".to_string(), "c".to_string()];
    let fw = router.get_forward_peers(&message, &all_peers);
    assert_eq!(fw, vec!["c".to_string()]);
}

#[test]
fn fresh_mesh_message_has_defaults() {
    let m = MeshMessage::new("a".to_string(), Some("b".to_string()), vec![1]);
    assert_eq!(m.ttl, 10);
    assert!(m.path.is_empty());
    assert_eq!(m.message_id.len(), 36);
    let p = m.to_protocol_message();
    let back = MeshMessage::from_protocol_message(&p).unwrap();
    assert_eq!(m, back);
    assert!(MeshMessage::from_protocol_message(&meshlink::protocol::Message::PeerRequest).is_none());
}
