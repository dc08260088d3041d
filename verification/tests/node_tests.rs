//! Connection decisions, packets, the content store and fetch protocol,
//! naming, pings, discovery and configuration.
use meshlink::connection::{
    classify_inbound, handshake_len_ok, validate_handshake, InboundAction, PendingPings,
};
use meshlink::content::{
    content_request_action, detect_content_type, plan_fetch, ContentHopAction, ContentStore,
    FetchPlan, PendingContent, publish_url,
};
use meshlink::config::Config;
use meshlink::discovery::discovery_should_process;
use meshlink::error::MeshError;
use meshlink::naming::NameRegistry;
use meshlink::packet::ElysiumPacket;
use meshlink::protocol::{Message, PROTOCOL_VERSION};
use meshlink::store::record_peer_list;
use meshlink::util::{parse_query_u64, parse_query_usize, parse_u64};

#[test]
fn test_packet_roundtrip() {
    let p = ElysiumPacket::new("a".to_string(), Some("b".to_string()), b"hello".to_vec());
    let bytes = p.to_bytes().unwrap();
    let decoded = ElysiumPacket::from_bytes(&bytes).unwrap();
    assert_eq!(decoded.src, "a");
    assert_eq!(decoded.dst_node_id(), Some("b"));
    assert_eq!(decoded.payload, b"hello".to_vec());
}

#[test]
fn handshake_length_bounds_are_enforced() {
    // desynchronization bounds: below ten bytes or above ten kibibytes drops
    assert!(!handshake_len_ok(0));
    assert!(!handshake_len_ok(9));
    assert!(handshake_len_ok(10));
    assert!(handshake_len_ok(10240));
    assert!(!handshake_len_ok(10241));
}

#[test]
fn handshake_requires_exact_protocol_version() {
    let good = Message::Handshake {
        node_id: "n".to_string(),
        protocol_version: PROTOCOL_VERSION,
        listen_port: 1,
        public_key: None,
    };
    let (id, v, pk) = validate_handshake(&good).unwrap();
    assert_eq!((id.as_str(), v, pk), ("n", PROTOCOL_VERSION, None));

    let wrong_version = Message::Handshake {
        node_id: "n".to_string(),
        protocol_version: 2,
        listen_port: 1,
        public_key: None,
    };
    assert!(matches!(validate_handshake(&wrong_version), Err(MeshError::Protocol(_))));

    let not_handshake = Message::PeerRequest;
    assert!(matches!(validate_handshake(&not_handshake), Err(MeshError::Peer(_))));
}

#[test]
fn inbound_messages_map_to_their_actions() {
    assert_eq!(
        classify_inbound(Message::Ping { timestamp: 7 }),
        InboundAction::SendPong { timestamp: 7 }
    );
    assert!(matches!(
        classify_inbound(Message::Close { reason: "done".to_string() }),
        InboundAction::CloseConnection { .. }
    ));
    assert!(matches!(classify_inbound(Message::PeerRequest), InboundAction::Ignore));
    match classify_inbound(Message::MeshMessage {
        from: "a".to_string(),
        to: None,
        data: vec![1],
        message_id: "m".to_string(),
        ttl: 9,
        path: vec![],
    }) {
        InboundAction::HandleMesh { message } => {
            assert_eq!(message.from, "a");
            assert_eq!(message.ttl, 9);
        },
        other => panic!("unexpected action {:?}", other),
    }
}

#[test]
fn ping_errors_are_exact() {
    let mut pings = PendingPings::new();
    // a peer never seen is refused
    match pings.begin_ping("ghost", false, 0) {
        Err(MeshError::Peer(msg)) => assert_eq!(msg, "Peer not connected"),
        other => panic!("expected a peer error, got {:?}", other),
    }
    // the first ping to a connected peer goes out
    assert!(pings.begin_ping("b", true, 100).is_ok());
    // a second one while it is in flight is refused
    match pings.begin_ping("b", true, 150) {
        Err(MeshError::Peer(msg)) => assert_eq!(msg, "Ping already in progress"),
        other => panic!("expected a peer error, got {:?}", other),
    }
    // the pong resolves it and releases the slot
    assert_eq!(pings.complete_ping("b"), Some(100));
    assert_eq!(pings.complete_ping("b"), None);
    assert!(pings.begin_ping("b", true, 200).is_ok());
}

#[test]
fn local_fetches_never_touch_the_network() {
    // the plan for a URL this node published is purely local
    assert_eq!(plan_fetch("A1", "ely://A1/doc"), FetchPlan::Local);
    assert_eq!(plan_fetch("A1", "ely://B1/doc"), FetchPlan::Remote);
    assert_eq!(plan_fetch("A1", "not-a-url"), FetchPlan::Remote);
}

#[test]
fn content_store_serves_published_content() {
    let mut store = ContentStore::temporary().unwrap();
    let url = publish_url("A1", "doc");
    assert_eq!(url, "ely://A1/doc");
    store.put(&url, b"hello".to_vec()).unwrap();
    assert_eq!(store.get(&url).unwrap(), Some(b"hello".to_vec()));
    assert_eq!(store.get("ely://A1/other").unwrap(), None);
}

#[test]
fn test_content_store_basic() {
    let store = ContentStore::temporary().unwrap();
    let mut store = store;

    // Put and get
    let content = b"Hello, Elysium!".to_vec();
    store.put("test/page.html", content.clone()).unwrap();

    let retrieved = store.get("test/page.html").unwrap();
    assert_eq!(retrieved, Some(content));

    // Not found
    let missing = store.get("nonexistent").unwrap();
    assert_eq!(missing, None);
}

#[test]
fn test_content_store_list() {
    let mut store = ContentStore::temporary().unwrap();

    store.put("site1/index.html", b"Site 1".to_vec()).unwrap();
    store.put("site1/about.html", b"About 1".to_vec()).unwrap();
    store.put("site2/index.html", b"Site 2".to_vec()).unwrap();

    let all = store.list(None).unwrap();
    assert_eq!(all.len(), 3);

    let site1 = store.list(Some("site1/")).unwrap();
    assert_eq!(site1.len(), 2);
}

#[test]
fn test_content_store_delete() {
    let mut store = ContentStore::temporary().unwrap();

    store.put("temp.txt", b"Temp".to_vec()).unwrap();
    assert!(store.get("temp.txt").unwrap().is_some());

    store.delete("temp.txt").unwrap();
    assert!(store.get("temp.txt").unwrap().is_none());
}

#[test]
fn content_request_hops_respect_ttl_and_path() {
    // the target answers locally
    assert_eq!(
        content_request_action("A1", "ely://A1/doc", 0, &vec![]),
        ContentHopAction::RespondLocal
    );
    // an intermediate forwards while hops remain
    assert_eq!(
        content_request_action("B1", "ely://A1/doc", 8, &vec!["C1".to_string()]),
        ContentHopAction::Forward
    );
    // out of hops: dropped
    assert_eq!(
        content_request_action("B1", "ely://A1/doc", 0, &vec!["C1".to_string()]),
        ContentHopAction::Drop
    );
    // already forwarded once: dropped
    assert_eq!(
        content_request_action("B1", "ely://A1/doc", 5, &vec!["B1".to_string()]),
        ContentHopAction::Drop
    );
}

#[test]
fn pending_content_drops_unsolicited_answers() {
    let mut pending = PendingContent::new();
    pending.register("req-1".to_string());
    // a matching answer is taken once
    assert!(pending.take("req-1"));
    // a late duplicate finds nothing
    assert!(!pending.take("req-1"));
    // an unsolicited answer finds nothing
    assert!(!pending.take("req-other"));
}

#[test]
fn test_register_and_resolve() {
    let mut registry = NameRegistry::new();

    registry.register("alice".to_string(), "Qm7xRJ...".to_string(), 0);

    let resolved = registry.resolve("alice");
    assert_eq!(resolved, Some("Qm7xRJ...".to_string()));
}

#[test]
fn names_can_be_rebound_and_deleted() {
    let mut registry = NameRegistry::new();
    registry.register("alice".to_string(), "node-1".to_string(), 0);
    registry.register("alice".to_string(), "node-2".to_string(), 5);
    assert_eq!(registry.resolve("alice"), Some("node-2".to_string()));
    assert_eq!(registry.list().len(), 1);
    registry.delete("alice");
    assert_eq!(registry.resolve("alice"), None);
}

#[test]
fn discovery_rate_limits_and_ignores_self() {
    // never this node's own announcement
    assert!(!discovery_should_process("me", "me", None, 0));
    // a stranger's first announcement is acted on
    assert!(discovery_should_process("me", "peer", None, 0));
    // repeats inside five seconds are passed over
    assert!(!discovery_should_process("me", "peer", Some(1_000), 5_999));
    assert!(discovery_should_process("me", "peer", Some(1_000), 6_000));
}

#[test]
fn cached_peer_list_dedups_and_caps() {
    let l = record_peer_list(vec!["a".to_string()], "b".to_string());
    assert_eq!(l, vec!["a".to_string(), "b".to_string()]);
    // a known address does not repeat
    let l2 = record_peer_list(l, "a".to_string());
    assert_eq!(l2.len(), 2);
    // the cap keeps the newest entries
    let mut many: Vec<String> = (0..256).map(|i| format!("addr{}", i)).collect();
    many = record_peer_list(many, "newest".to_string());
    assert_eq!(many.len(), 256);
    assert_eq!(many.last().unwrap(), "newest");
    assert_eq!(many[0], "addr1");
}

#[test]
fn config_parses_port_peers_and_flags() {
    let args: Vec<String> = ["node", "8080", "10.0.0.1:9000", "--no-discovery", "--api-port",
        "17080"].iter().map(|s| s.to_string()).collect();
    let c = Config::from_args(&args).unwrap();
    assert_eq!(c.listen_port, 8080);
    assert_eq!(c.known_peers, vec!["10.0.0.1:9000".to_string()]);
    assert!(!c.enable_discovery);
    assert_eq!(c.api_port, Some(17080));
    assert_eq!(c.max_connections, 24);
    assert_eq!(c.max_connect_in_flight, 16);

    assert!(matches!(Config::from_args(&vec!["node".to_string()]), Err(MeshError::Config(_))));
    let bad: Vec<String> = ["node", "not-a-port"].iter().map(|s| s.to_string()).collect();
    assert!(matches!(Config::from_args(&bad), Err(MeshError::Config(_))));
}

#[test]
fn numbers_parse_from_queries() {
    assert_eq!(parse_u64("0"), Some(0));
    assert_eq!(parse_u64("18446744073709551615"), Some(u64::MAX));
    assert_eq!(parse_u64("18446744073709551616"), None);
    assert_eq!(parse_u64(""), None);
    assert_eq!(parse_u64("12x"), None);
    assert_eq!(parse_query_u64("since=42&limit=5", "limit"), Some(5));
    assert_eq!(parse_query_u64("since=42&limit=5", "since"), Some(42));
    assert_eq!(parse_query_u64("since=42", "limit"), None);
    assert_eq!(parse_query_usize("limit=500", "limit"), Some(500));
}

#[test]
fn content_types_follow_extensions_then_sniffing() {
    assert_eq!(detect_content_type("a/site.html", b""), "text/html; charset=utf-8");
    assert_eq!(detect_content_type("a/style.css", b""), "text/css; charset=utf-8");
    assert_eq!(detect_content_type("a/data.json", b""), "application/json; charset=utf-8");
    assert_eq!(detect_content_type("a/x", b"<html>"), "text/html; charset=utf-8");
    assert_eq!(detect_content_type("a/x", b"{\"k\":1}"), "application/json; charset=utf-8");
    assert_eq!(detect_content_type("a/x", b"plain words"), "text/plain; charset=utf-8");
}
