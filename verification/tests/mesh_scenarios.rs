//! Multi-node scenarios played out over the library's decision functions:
//! each node is a router plus an inbox, and "the wire" is a function call.
use meshlink::connection::{classify_inbound, InboundAction};
use meshlink::content::{content_request_action, ContentHopAction, ContentStore, publish_url};
use meshlink::inbox::{conversation_id_of, Inbox, InboxMessage};
use meshlink::protocol::Message;
use meshlink::routing::{MeshMessage, Router};

struct SimNode {
    router: Router,
    inbox: Inbox,
    delivered: Vec<String>,
}

impl SimNode {
    fn new(id: &str) -> SimNode {
        SimNode {
            router: Router::new(id.to_string()),
            inbox: Inbox::new(),
            delivered: Vec::new(),
        }
    }

    /// One hop of the routing engine: the route decision, local delivery,
    /// and the forwarded copy with its targets.
    fn receive(
        &mut self,
        msg: &MeshMessage,
        from: &str,
        peers: &[&str],
        now: u64,
    ) -> Option<(MeshMessage, Vec<String>)> {
        let decision = self.router.route_decision(msg, now);
        if !decision.deliver && !decision.forward {
            return None;
        }
        self.router.mark_seen(&msg.message_id, now);
        if decision.deliver {
            self.delivered.push(msg.message_id.clone());
            let text = String::from_utf8_lossy(&msg.data).to_string();
            self.inbox.push_inbox(InboxMessage {
                seq: 0,
                timestamp: "2024-01-07T12:00:00Z".to_string(),
                direction: "in".to_string(),
                kind: "mesh".to_string(),
                peer: from.to_string(),
                from: msg.from.clone(),
                to: msg.to.clone(),
                message_id: Some(msg.message_id.clone()),
                bytes: msg.data.len(),
                preview: text.clone(),
                conversation_id: conversation_id_of(&msg.from, &msg.to),
                content: Some(text),
                delivered: false,
            });
        }
        if !decision.forward {
            return None;
        }
        let all: Vec<String> = peers.iter().map(|p| p.to_string()).collect();
        let targets = self.router.get_forward_peers(msg, &all);
        if targets.is_empty() {
            None
        } else {
            Some((self.router.prepare_for_forwarding(msg), targets))
        }
    }
}

#[test]
fn spent_directed_message_is_delivered_but_not_forwarded() {
    // the hop budget was used up reaching the destination; delivery still
    // happens, forwarding never does
    let mut b = SimNode::new("B1");
    let mut msg = MeshMessage::new("A1".to_string(), Some("B1".to_string()), b"late".to_vec());
    msg.ttl = 0;
    assert!(b.receive(&msg, "A1", &["A1", "C1"], 5).is_none());
    assert_eq!(b.delivered.len(), 1);
    // but a spent broadcast is not admitted at all
    let mut c = SimNode::new("C1");
    let mut bcast = MeshMessage::new("A1".to_string(), None, b"late".to_vec());
    bcast.ttl = 0;
    assert!(c.receive(&bcast, "A1", &["A1"], 5).is_none());
    assert!(c.delivered.is_empty());
}

#[test]
fn direct_dm_delivers_once_and_acks() {
    // A and B are connected; A sends a directed message to B
    let mut a = SimNode::new("A1");
    let mut b = SimNode::new("B1");
    let msg = MeshMessage::new("A1".to_string(), Some("B1".to_string()), b"hi".to_vec());
    let mid = msg.message_id.clone();
    a.router.mark_seen(&mid, 0);
    // A's own outbound entry
    a.inbox.push_inbox(InboxMessage {
        seq: 0,
        timestamp: "2024-01-07T12:00:00Z".to_string(),
        direction: "out".to_string(),
        kind: "mesh".to_string(),
        peer: "A1".to_string(),
        from: "A1".to_string(),
        to: Some("B1".to_string()),
        message_id: Some(mid.clone()),
        bytes: 2,
        preview: "hi".to_string(),
        conversation_id: conversation_id_of("A1", &Some("B1".to_string())),
        content: Some("hi".to_string()),
        delivered: false,
    });
    // B receives, delivers, does not forward
    let fwd = b.receive(&msg, "A1", &["A1"], 10);
    assert!(fwd.is_none());
    let (_, page) = b.inbox.list_inbox(None, 10);
    assert_eq!(page.len(), 1);
    assert_eq!(page[0].direction, "in");
    assert_eq!(page[0].from, "A1");
    assert_eq!(page[0].to, Some("B1".to_string()));
    assert_eq!(page[0].preview, "hi");
    // B's acknowledgement flips A's outbound entry
    let ack = Message::MessageAck { message_id: mid.clone(), from: "B1".to_string() };
    if let InboundAction::HandleAck { message_id, .. } = classify_inbound(ack) {
        assert_eq!(a.inbox.mark_delivered(&message_id), 1);
    } else {
        panic!("an acknowledgement must classify as an ack");
    }
    let (_, page_a) = a.inbox.list_inbox(None, 10);
    assert!(page_a[0].delivered);
}

#[test]
fn triangle_broadcast_delivers_once_per_node() {
    // A - B - C - A triangle; A broadcasts
    let mut a = SimNode::new("A1");
    let mut b = SimNode::new("B1");
    let mut c = SimNode::new("C1");
    let msg = MeshMessage::new("A1".to_string(), None, b"ping".to_vec());
    a.router.mark_seen(&msg.message_id, 0);

    // B and C each receive A's copy directly
    let from_b = b.receive(&msg, "A1", &["A1", "C1"], 1);
    let from_c = c.receive(&msg, "A1", &["A1", "B1"], 1);
    assert_eq!(b.delivered.len(), 1);
    assert_eq!(c.delivered.len(), 1);

    // B forwards to C (not back to the sender); the copy is a repeat at C
    let (msg_b, targets_b) = from_b.unwrap();
    assert_eq!(targets_b, vec!["C1".to_string()]);
    assert_eq!(msg_b.ttl, msg.ttl - 1);
    assert!(msg_b.path.contains(&"B1".to_string()));
    assert!(c.receive(&msg_b, "B1", &["A1", "B1"], 2).is_none());
    assert_eq!(c.delivered.len(), 1);

    // C's forwarded copy returns to A: the dedup window refuses it
    let (msg_c, _) = from_c.unwrap();
    assert!(a.receive(&msg_c, "C1", &["B1", "C1"], 2).is_none());
    assert!(a.delivered.is_empty());
}

#[test]
fn ttl_runs_out_along_a_long_chain() {
    // a chain of twelve nodes; the message starts with ten hops
    let mut nodes: Vec<SimNode> = (0..12).map(|i| SimNode::new(&format!("n{}", i))).collect();
    let mut msg = MeshMessage::new("n0".to_string(), None, b"chain".to_vec());
    nodes[0].router.mark_seen(&msg.message_id, 0);
    let mut admitted = 0;
    let mut from = "n0".to_string();
    for i in 1..12 {
        let next = format!("n{}", i + 1);
        let peers: Vec<&str> = if i + 1 < 12 {
            vec![next.as_str()]
        } else {
            vec![]
        };
        let peer_refs: Vec<&str> = peers.clone();
        match nodes[i].receive(&msg.clone(), &from, &peer_refs, i as u64) {
            Some((fwd, _)) => {
                admitted += 1;
                from = format!("n{}", i);
                msg = fwd;
            }
            None => {
                if nodes[i].delivered.is_empty() {
                    // refused outright: the hop budget is spent
                    assert_eq!(msg.ttl, 0);
                } else {
                    admitted += 1;
                }
                break;
            }
        }
    }
    // nodes one through ten admit it; node eleven sees ttl zero
    assert_eq!(admitted, 10);

    // in a chain of three every node admits it exactly once
    let mut three: Vec<SimNode> = (0..3).map(|i| SimNode::new(&format!("m{}", i))).collect();
    let mut msg3 = MeshMessage::new("m0".to_string(), None, b"short".to_vec());
    let mut from3 = "m0".to_string();
    for i in 1..3 {
        let next = format!("m{}", i + 1);
        let peers: Vec<&str> = if i + 1 < 3 { vec![next.as_str()] } else { vec![] };
        match three[i].receive(&msg3.clone(), &from3, &peers, i as u64) {
            Some((fwd, _)) => {
                from3 = format!("m{}", i);
                msg3 = fwd;
            }
            None => {}
        }
        assert_eq!(three[i].delivered.len(), 1);
    }
}

#[test]
fn content_fetch_crosses_one_hop() {
    // A publishes; C asks through B
    let mut store_a = ContentStore::temporary().unwrap();
    let url = publish_url("A1", "doc");
    store_a.put(&url, b"hello".to_vec()).unwrap();

    // C's request starts with its own id on the path
    let path_c = vec!["C1".to_string()];
    // B is not the target and has hops left: it forwards
    match content_request_action("B1", &url, 8, &path_c) {
        ContentHopAction::Forward => {}
        other => panic!("B must forward, got {:?}", other),
    }
    let mut path_b = path_c.clone();
    path_b.push("B1".to_string());
    // A is the target: it answers on the same link
    match content_request_action("A1", &url, 7, &path_b) {
        ContentHopAction::RespondLocal => {}
        other => panic!("A must respond, got {:?}", other),
    }
    let answer = store_a.get(&url).unwrap();
    assert_eq!(answer, Some(b"hello".to_vec()));
}
