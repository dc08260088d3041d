//! Inbox, conversations and bundles: the ring's bounds, paging, canonical
//! conversation ids, and the bundle round trip.
use meshlink::bundle::{import_bundle, export_messages, MessageBundle, BUNDLE_VERSION};
use meshlink::inbox::{compute_conversation_id, conversation_id_of, Inbox, InboxMessage};
use meshlink::stats::RouteHistory;

fn entry(from: &str, to: Option<&str>, preview: &str) -> InboxMessage {
    let to_owned = to.map(|t| t.to_string());
    InboxMessage {
        seq: 0,
        timestamp: "2024-01-07T12:00:00Z".to_string(),
        direction: "in".to_string(),
        kind: "mesh".to_string(),
        peer: from.to_string(),
        from: from.to_string(),
        to: to_owned.clone(),
        message_id: Some(format!("mid-{}", preview)),
        bytes: preview.len(),
        preview: preview.to_string(),
        conversation_id: conversation_id_of(from, &to_owned),
        content: Some(preview.to_string()),
        delivered: false,
    }
}

#[test]
fn conversation_ids_are_symmetric() {
    let ab = compute_conversation_id("A1", "B1");
    let ba = compute_conversation_id("B1", "A1");
    assert_eq!(ab, ba);
    assert_eq!(ab, "dm:A1:B1");
    // broadcast threads use the reserved id
    assert_eq!(conversation_id_of("A1", &None), "broadcast");
}

#[test]
fn inbox_assigns_strictly_increasing_seqs() {
    let mut inbox = Inbox::new();
    let s1 = inbox.push_inbox(entry("a", None, "one"));
    let s2 = inbox.push_inbox(entry("a", None, "two"));
    let s3 = inbox.push_inbox(entry("a", None, "three"));
    assert!(s1 < s2 && s2 < s3);
    assert_eq!(s1, 1);
    let (_, page) = inbox.list_inbox(None, 50);
    assert_eq!(page.len(), 3);
    assert!(page[0].seq < page[1].seq && page[1].seq < page[2].seq);
}

#[test]
fn inbox_never_exceeds_its_ring_size() {
    let mut inbox = Inbox::new();
    for i in 0..600 {
        inbox.push_inbox(entry("a", None, &format!("m{}", i)));
    }
    assert_eq!(inbox.entries.len(), 500);
    // the oldest hundred were evicted
    let (_, page) = inbox.list_inbox(None, 500);
    assert_eq!(page[0].seq, 101);
}

#[test]
fn listing_resumes_from_next_since() {
    let mut inbox = Inbox::new();
    for i in 0..10 {
        inbox.push_inbox(entry("a", None, &format!("m{}", i)));
    }
    let (next, page) = inbox.list_inbox(Some(4), 3);
    assert_eq!(page.iter().map(|m| m.seq).collect::<Vec<_>>(), vec![5, 6, 7]);
    // next_since never goes below what the caller passed
    assert!(next >= 4);
    let (next2, page2) = inbox.list_inbox(Some(10_000), 3);
    assert!(page2.is_empty());
    assert!(next2 >= 10_000);
}

#[test]
fn conversation_history_filters_one_thread() {
    let mut inbox = Inbox::new();
    inbox.push_inbox(entry("B1", Some("A1"), "to-a"));
    inbox.push_inbox(entry("C1", Some("A1"), "from-c"));
    inbox.push_inbox(entry("A1", Some("B1"), "reply"));
    inbox.push_inbox(entry("D1", None, "noise"));
    let (_, thread) = inbox.get_conversation_history("A1", "B1", None, 50);
    assert_eq!(thread.len(), 2);
    assert!(thread.iter().all(|m| m.conversation_id == "dm:A1:B1"));
}

#[test]
fn acks_flip_the_delivered_flag() {
    let mut inbox = Inbox::new();
    inbox.push_inbox(entry("me", Some("B1"), "hi"));
    inbox.push_inbox(entry("me", Some("B1"), "again"));
    let n = inbox.mark_delivered("mid-hi");
    assert_eq!(n, 1);
    let (_, page) = inbox.list_inbox(None, 10);
    assert!(page[0].delivered);
    assert!(!page[1].delivered);
}

#[test]
fn bundle_round_trips_and_checks_expiry() {
    let messages = vec![entry("alice", Some("bob"), "test message")];
    let bundle = MessageBundle::new(messages.clone(), 7);
    assert_eq!(bundle.version, BUNDLE_VERSION);
    let bytes = bundle.to_bytes().unwrap();
    let loaded = MessageBundle::from_bytes_at(&bytes, bundle.created_at).unwrap();
    assert_eq!(loaded.version, 1);
    assert_eq!(loaded.messages.len(), 1);
    assert_eq!(loaded.messages[0].preview, "test message");
    assert_eq!(loaded, bundle);
    // after the expiry instant, the same bytes are refused
    let late = MessageBundle::from_bytes_at(&bytes, bundle.expires_at + 1);
    match late {
        Err(meshlink::error::MeshError::Protocol(msg)) => assert_eq!(msg, "Bundle expired"),
        other => panic!("expected a protocol error, got {:?}", other),
    }
    // and a bundle of another version is refused
    let mut other = bundle.clone();
    other.version = 2;
    let bytes2 = other.to_bytes().unwrap();
    assert!(matches!(
        MessageBundle::from_bytes_at(&bytes2, 0),
        Err(meshlink::error::MeshError::Protocol(_))
    ));
}

#[test]
fn bundle_export_import_grows_the_inbox() {
    let mut a = Inbox::new();
    for i in 0..8 {
        a.push_inbox(entry("a", None, &format!("m{}", i)));
    }
    let last5 = export_messages(&a, 5);
    assert_eq!(last5.len(), 5);
    assert_eq!(last5[0].preview, "m3");
    let bundle = MessageBundle::new(last5, 7);
    let mut b = Inbox::new();
    let (delivered, forwarded, total) = import_bundle(&mut b, &bundle);
    assert_eq!((delivered, forwarded, total), (5, 0, 5));
    assert_eq!(b.entries.len(), 5);
}

#[test]
fn bundle_info_counts_messages_and_bytes() {
    let messages = vec![entry("a", None, "12345"), entry("a", None, "678")];
    let bundle = MessageBundle::new(messages, 1);
    let info = bundle.info();
    assert_eq!(info.message_count, 2);
    assert_eq!(info.total_bytes, 8);
    assert_eq!(info.version, 1);
}

#[test]
fn conversations_fold_keeps_the_newest_entry_per_thread() {
    let mut inbox = Inbox::new();
    inbox.push_inbox(entry("B1", Some("A1"), "first-from-b"));
    inbox.push_inbox(entry("C1", Some("A1"), "from-c"));
    inbox.push_inbox(entry("B1", Some("A1"), "second-from-b"));
    inbox.push_inbox(entry("D1", None, "to-everyone"));
    let convs = inbox.get_conversations("A1");
    // one summary per thread, newest first
    assert_eq!(convs.len(), 3);
    assert_eq!(convs[0].conversation_id, "broadcast");
    assert_eq!(convs[0].peer_id, "");
    assert_eq!(convs[1].conversation_id, "dm:A1:B1");
    assert_eq!(convs[1].last_preview, "second-from-b");
    assert_eq!(convs[1].peer_id, "B1");
    assert_eq!(convs[2].conversation_id, "dm:A1:C1");
    assert!(convs[0].last_seq > convs[1].last_seq && convs[1].last_seq > convs[2].last_seq);
}

#[test]
fn route_history_folds_outcomes_into_a_ratio() {
    let mut h = RouteHistory::new();
    // no samples: scoring falls back to its default
    assert_eq!(h.history_ppk("p"), None);
    h.record("p", true);
    h.record("p", true);
    h.record("p", false);
    h.record("q", false);
    // two of three forwards to p landed
    assert_eq!(h.history_ppk("p"), Some(2 * 1000 / 3));
    assert_eq!(h.history_ppk("q"), Some(0));
}

#[test]
fn bundle_info_reads_expired_bundles_too() {
    let bundle = MessageBundle::new(vec![entry("a", None, "kept")], 0);
    let bytes = bundle.to_bytes().unwrap();
    // validation refuses an expired bundle...
    assert!(MessageBundle::from_bytes_at(&bytes, bundle.expires_at + 1).is_err());
    // ...but the plain parse still reads its facts out
    let parsed = MessageBundle::parse(&bytes).unwrap();
    assert_eq!(parsed, bundle);
    assert_eq!(parsed.info().message_count, 1);
}
