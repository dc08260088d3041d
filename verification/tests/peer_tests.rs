//! Peer lifecycle: records, staleness, the manager's table, cooldown and
//! the bounded dial selection.
use meshlink::peer::{
    connect_cooldown_ms, ConnectionState, PeerInfo, PeerManager, PeerMetrics,
};
use meshlink::stats::{calculate_score_ppk, select_top_k};

#[test]
fn test_peer_info_new() {
    let addr = "127.0.0.1:8080".to_string();
    let peer = PeerInfo::new("test-node".to_string(), addr.clone(), 0);

    assert_eq!(peer.node_id, "test-node");
    assert_eq!(peer.address, addr);
    assert_eq!(peer.state, ConnectionState::Disconnected);
    assert_eq!(peer.protocol_version, None);
    assert_eq!(peer.connection_attempts, 0);
}

#[test]
fn test_peer_info_is_connected() {
    let addr = "127.0.0.1:8080".to_string();
    let mut peer = PeerInfo::new("test-node".to_string(), addr, 0);

    assert!(!peer.is_connected());
    peer.state = ConnectionState::Connected;
    assert!(peer.is_connected());
}

#[test]
fn test_peer_info_is_stale() {
    let addr = "127.0.0.1:8080".to_string();
    let peer = PeerInfo::new("test-node".to_string(), addr, 0);

    // New peer should not be stale
    assert!(!peer.is_stale(0, 60_000));

    // Still inside the thirty-second grace period
    assert!(!peer.is_stale(100, 60_000));

    // Past the grace period and never seen for longer than the timeout
    assert!(peer.is_stale(60_001, 60_000));
}

#[test]
fn test_peer_manager_add_peer() {
    let mut manager = PeerManager::new("our-node".to_string(), 8080);
    let addr = "127.0.0.1:8081".to_string();

    manager.add_peer("peer1".to_string(), addr.clone(), 0);

    let peer = manager.get_peer("peer1");
    assert!(peer.is_some());
    let peer = peer.unwrap();
    assert_eq!(peer.node_id, "peer1");
    assert_eq!(peer.address, addr);
}

#[test]
fn test_peer_manager_update_state() {
    let mut manager = PeerManager::new("our-node".to_string(), 8080);
    let addr = "127.0.0.1:8081".to_string();

    manager.add_peer("peer1".to_string(), addr, 0);
    manager.update_peer_state("peer1", ConnectionState::Connected, 5);

    let peer = manager.get_peer("peer1").unwrap();
    assert_eq!(peer.state, ConnectionState::Connected);
    assert!(peer.connected_at.is_some());
}

#[test]
fn test_peer_manager_get_connected_peers() {
    let mut manager = PeerManager::new("our-node".to_string(), 8080);
    let addr1 = "127.0.0.1:8081".to_string();
    let addr2 = "127.0.0.1:8082".to_string();

    manager.add_peer("peer1".to_string(), addr1, 0);
    manager.add_peer("peer2".to_string(), addr2, 0);

    manager.update_peer_state("peer1", ConnectionState::Connected, 1);
    manager.update_peer_state("peer2", ConnectionState::Disconnected, 1);

    let connected = manager.get_connected_peers();
    assert_eq!(connected.len(), 1);
    assert_eq!(connected[0].node_id, "peer1");
}

#[test]
fn stale_peers_leave_but_connected_ones_stay() {
    let mut manager = PeerManager::new("x".to_string(), 1);
    manager.add_peer("quiet".to_string(), "127.0.0.1:2".to_string(), 0);
    manager.add_peer("live".to_string(), "127.0.0.1:3".to_string(), 0);
    manager.update_peer_state("live", ConnectionState::Connected, 0);
    // well past the grace and the timeout, neither has been seen...
    let removed = manager.remove_stale_peers(500_000, 120_000);
    // ...but the connected one is protected; only the quiet one leaves
    assert_eq!(removed, 1);
    assert!(manager.get_peer("quiet").is_none());
    assert!(manager.get_peer("live").is_some());
}

#[test]
fn cooldown_doubles_per_attempt_and_caps() {
    // base 5 s, cap 120 s: 5, 10, 20, 40, 80, then the cap
    assert_eq!(connect_cooldown_ms(5_000, 0, 120_000), 5_000);
    assert_eq!(connect_cooldown_ms(5_000, 1, 120_000), 10_000);
    assert_eq!(connect_cooldown_ms(5_000, 2, 120_000), 20_000);
    assert_eq!(connect_cooldown_ms(5_000, 3, 120_000), 40_000);
    assert_eq!(connect_cooldown_ms(5_000, 4, 120_000), 80_000);
    assert_eq!(connect_cooldown_ms(5_000, 5, 120_000), 120_000);
    // the exponent stops growing past its cap
    assert_eq!(connect_cooldown_ms(5_000, 6, 120_000), 120_000);
    assert_eq!(connect_cooldown_ms(5_000, 60, 120_000), 120_000);
    assert_eq!(connect_cooldown_ms(1, 6, 120_000), 64);
}

#[test]
fn dialer_respects_cooldown_between_attempts() {
    let mut manager = PeerManager::new("x".to_string(), 1);
    manager.add_peer("p".to_string(), "127.0.0.1:2".to_string(), 0);
    // first tick: eligible
    let c1 = manager.select_dial_candidates(0, 24, 16, 0, 0, 5, 5_000, 120_000);
    assert_eq!(c1.len(), 1);
    assert_eq!(c1[0].node_id, "p");
    manager.increment_connection_attempts("p", 0);
    // one attempt made: the cooldown is now base * 2 = 10 s
    let c2 = manager.select_dial_candidates(9_999, 24, 16, 0, 0, 5, 5_000, 120_000);
    assert!(c2.is_empty());
    let c3 = manager.select_dial_candidates(10_000, 24, 16, 0, 0, 5, 5_000, 120_000);
    assert_eq!(c3.len(), 1);
    assert_eq!(c3[0].node_id, "p");
}

#[test]
fn dialer_ranks_by_attempts_then_recency_then_latency() {
    let mut manager = PeerManager::new("self".to_string(), 1);
    // "old" and "fresh" differ in first-sight time; "tried" has an attempt
    manager.add_peer("old".to_string(), "127.0.0.1:2".to_string(), 100);
    manager.add_peer("fresh".to_string(), "127.0.0.1:3".to_string(), 200);
    manager.add_peer("tried".to_string(), "127.0.0.1:4".to_string(), 300);
    manager.increment_connection_attempts("tried", 300);
    // and an entry for this node itself, which is never a candidate
    manager.add_peer("self".to_string(), "127.0.0.1:1".to_string(), 0);
    let c = manager.select_dial_candidates(1_000_000, 24, 16, 0, 0, 5, 1, 1);
    let names: Vec<&str> = c.iter().map(|p| p.node_id.as_str()).collect();
    // zero attempts first, newer first sight before older, attempts last
    assert_eq!(names, vec!["fresh", "old", "tried"]);
    // a tight budget keeps only the best ranked
    let c2 = manager.select_dial_candidates(1_000_000, 2, 16, 1, 0, 5, 1, 1);
    let names2: Vec<&str> = c2.iter().map(|p| p.node_id.as_str()).collect();
    assert_eq!(names2, vec!["fresh"]);
}

#[test]
fn dial_candidates_never_exceed_caps() {
    let mut manager = PeerManager::new("x".to_string(), 1);
    for i in 0..10 {
        manager.add_peer(format!("p{}", i), format!("127.0.0.1:{}", 100 + i), 0);
    }
    // 24-connection cap with 22 connected: exactly the 2 free slots
    let c = manager.select_dial_candidates(0, 24, 16, 22, 0, 5, 5_000, 120_000);
    assert_eq!(c.len(), 2);
    // 16 in-flight permits with 15 used: exactly 1
    let c = manager.select_dial_candidates(0, 24, 16, 0, 15, 5, 5_000, 120_000);
    assert_eq!(c.len(), 1);
    // no free slots at all
    let c = manager.select_dial_candidates(0, 24, 16, 24, 0, 5, 5_000, 120_000);
    assert!(c.is_empty());
}

#[test]
fn metrics_fold_pings_into_reliability() {
    let mut m = PeerMetrics::new();
    assert_eq!(m.reliability_ppk(), 500);
    m.record_ping_success(100);
    m.record_ping_success(100);
    m.record_ping_success(100);
    m.record_ping_failure();
    // 3 of 4 answered
    assert_eq!(m.reliability_ppk(), 750);
    assert_eq!(m.latency_ms, Some(100));
    // the moving average folds three tenths of the new sample in
    m.record_ping_success(200);
    assert_eq!(m.latency_ms, Some((3 * 200 + 7 * 100) / 10));
}

#[test]
fn score_weighs_latency_most() {
    let mut fast = PeerMetrics::new();
    fast.record_ping_success(0);
    fast.uptime_secs = 3600;
    // perfect peer: latency 1000, uptime 1000, reliability 1000, history half
    assert_eq!(calculate_score_ppk(&fast, None), (400 * 1000 + 200 * 1000 + 300 * 1000 + 100 * 500) / 1000);
    // an unknown peer: half marks for latency, reliability and history,
    // none yet for uptime
    let unknown = PeerMetrics::new();
    assert_eq!(calculate_score_ppk(&unknown, None), (400 * 500 + 300 * 500 + 100 * 500) / 1000);
}

#[test]
fn top_k_selects_the_best_scores() {
    let scored = vec![
        ("a".to_string(), 100u64),
        ("b".to_string(), 900u64),
        ("c".to_string(), 500u64),
        ("d".to_string(), 700u64),
    ];
    let top = select_top_k(&scored, 3);
    let names: Vec<&str> = top.iter().map(|p| p.0.as_str()).collect();
    assert_eq!(names, vec!["b", "d", "c"]);
    let all = select_top_k(&scored, 10);
    assert_eq!(all.len(), 4);
}
