//! Durable side stores: the cached-peers file's record logic, the message
//! history log, the contact book, and the event emitter's identity.
use vstd::prelude::*;

verus! {

use crate::bundle::{sdec_inbox, write_inbox};
use crate::content::db_map;
use crate::error::MeshError;
use crate::inbox::InboxMessage;

/// The cached-peers file keeps at most this many addresses.
pub const MAX_CACHED_PEERS: usize = 256;

/// The cached-peers file's path under a data directory.
pub fn peers_path(data_dir: &str) -> (r: String)
    ensures
        r@ == data_dir@ + "/peers.json"@,
{
    String::from_str(data_dir).concat("/peers.json")
}

/// Record a freshly seen address in the cached list: appended when new,
/// and the list keeps only the newest entries up to its cap.
pub fn record_peer_list(peers: Vec<String>, addr: String) -> (r: Vec<String>)
    ensures
        ({
            let grown = if peers.deep_view().contains(addr@) {
                peers.deep_view()
            } else {
                peers.deep_view().push(addr@)
            };
            r.deep_view() == (if grown.len() > MAX_CACHED_PEERS {
                grown.skip(grown.len() - MAX_CACHED_PEERS as int)
            } else {
                grown
            })
        }),
{
    let mut grown = peers;
    let mut present = false;
    let mut k: usize = 0;
    while k < grown.len()
        invariant
            k <= grown@.len(),
            grown.deep_view().len() == grown@.len(),
            forall|m: int| 0 <= m < grown@.len() ==> grown.deep_view()[m] == grown@[m]@,
            present == exists|m: int| 0 <= m < k && #[trigger] grown.deep_view()[m] == addr@,
        decreases grown@.len() - k,
    {
        let hit = grown[k] == addr;
        proof {
            if hit {
                assert(grown.deep_view()[k as int] == addr@);
            } else {
                if !present {
                    if exists|m: int| 0 <= m < k + 1 && #[trigger] grown.deep_view()[m] == addr@ {
                        let w = choose|m: int| 0 <= m < k + 1 && #[trigger] grown.deep_view()[m]
                            == addr@;
                        assert(false);
                    }
                }
            }
        }
        if hit {
            present = true;
        }
        k = k + 1;
    }
    proof {
        if present {
            let w = choose|m: int| 0 <= m < grown.deep_view().len()
                && #[trigger] grown.deep_view()[m] == addr@;
            assert(grown.deep_view().contains(addr@));
        } else {
            if grown.deep_view().contains(addr@) {
                let w = choose|m: int| 0 <= m < grown.deep_view().len()
                    && #[trigger] grown.deep_view()[m] == addr@;
                assert(false);
            }
        }
    }
    if !present {
        let ghost prev = grown.deep_view();
        grown.push(addr);
        proof {
            assert(grown.deep_view() =~= prev.push(grown@.last()@));
        }
    }
    let ghost full = grown.deep_view();
    if grown.len() > MAX_CACHED_PEERS {
        let start: usize = grown.len() - MAX_CACHED_PEERS;
        let mut tail: Vec<String> = Vec::new();
        let mut m: usize = start;
        while m < grown.len()
            invariant
                start <= m <= grown@.len(),
                start == grown@.len() - MAX_CACHED_PEERS,
                grown.deep_view() == full,
                full.len() == grown@.len(),
                forall|q: int| 0 <= q < grown@.len() ==> full[q] == grown@[q]@,
                tail.deep_view() == full.subrange(start as int, m as int),
            decreases grown@.len() - m,
        {
            let ghost prevt = tail.deep_view();
            tail.push(grown[m].clone());
            proof {
                assert(tail.deep_view() =~= prevt.push(full[m as int]));
                assert(prevt.push(full[m as int]) =~= full.subrange(start as int, m + 1 as int));
            }
            m = m + 1;
        }
        proof {
            assert(full.subrange(start as int, full.len() as int) =~= full.skip(start as int));
        }
        tail
    } else {
        grown
    }
}

/// The identity stamped on emitted events.
pub struct EventEmitter {
    pub node_id: String,
}

impl EventEmitter {
    /// An emitter speaking for this node.
    pub fn new(node_id: String) -> (r: EventEmitter)
        ensures
            r.node_id@ == node_id@,
    {
        EventEmitter { node_id }
    }
}

// ---------------------------------------------------------------------------
// message history and contacts over the durable map
// ---------------------------------------------------------------------------

/// Whether some key of the durable map holds exactly this value.
pub open spec fn spec_stored_value(db: sled::Db, v: Seq<u8>) -> bool {
    exists|key: Seq<u8>| #[trigger] db_map(db).contains_key(key) && db_map(db)[key] == v
}

/// Whether some record of the durable map decodes to exactly this message.
pub open spec fn spec_stored_message(db: sled::Db, m: crate::inbox::InboxMessageView) -> bool {
    exists|key: Seq<u8>| #[trigger] db_map(db).contains_key(key) && (sdec_inbox(
        db_map(db)[key],
        0,
    ) matches Some(p) && p.0 == m)
}

/// Durable append log of inbox messages.
pub struct MessageStore {
    pub db: sled::Db,
}

impl MessageStore {
    /// Relies on sled's open: the log under `<data_dir>/messages.db`.
    #[verifier::external_body]
    pub fn new(data_dir: &str) -> (r: Result<MessageStore, MeshError>)
    {
        let db = sled::open(format!("{}/messages.db", data_dir)).map_err(
            |e| MeshError::Storage(format!("Failed to open messages DB: {}", e)),
        )?;
        Ok(MessageStore { db })
    }

    /// Relies on sled's Config with temporary mode: a fresh log that leaves
    /// nothing on disk.
    #[verifier::external_body]
    pub fn temporary() -> (r: Result<MessageStore, MeshError>)
    {
        let db = sled::Config::new().temporary(true).open().map_err(
            |e| MeshError::Storage(format!("Failed to open messages DB: {}", e)),
        )?;
        Ok(MessageStore { db })
    }

    /// Persist one message under its timestamp and sequence number, in this
    /// crate's byte-exact message coding.
    pub fn save(&mut self, msg: &InboxMessage) -> (r: Result<(), MeshError>)
    {
        let key = String::from_str("msg:").concat(msg.timestamp.as_str()).concat(":");
        let mut value: Vec<u8> = Vec::new();
        write_inbox(&mut value, msg);
        self.raw_insert(key.as_str(), msg.seq, value)
    }

    /// Relies on sled's insert: stores the encoded message under the
    /// composite key.
    #[verifier::external_body]
    fn raw_insert(&mut self, key_prefix: &str, seq: u64, value: Vec<u8>) -> (r: Result<
        (),
        MeshError,
    >)
    {
        let key = format!("{}{}", key_prefix, seq);
        self.db.insert(key.as_bytes(), value).map_err(
            |e| MeshError::Storage(format!("Failed to save message: {}", e)),
        )?;
        Ok(())
    }

    /// Relies on sled's reverse iteration: at most `limit` values, each the
    /// stored value of some key of the log, oldest first.
    #[verifier::external_body]
    fn raw_recent(&self, limit: usize) -> (r: Vec<Vec<u8>>)
        ensures
            r@.len() <= limit,
            forall|i: int| 0 <= i < r@.len() ==> spec_stored_value(self.db, (#[trigger] r@[i])@),
    {
        let mut values: Vec<Vec<u8>> = Vec::new();
        for entry in self.db.iter().rev().take(limit).flatten() {
            let (_, value) = entry;
            values.push(value.to_vec());
        }
        values.reverse();
        values
    }

    /// At most `limit` recent messages, each the decode of a record stored
    /// in the log; records that do not decode are passed over.
    pub fn get_recent(&self, limit: usize) -> (r: Result<Vec<InboxMessage>, MeshError>)
        ensures
            r is Ok,
            r matches Ok(v) ==> v@.len() <= limit && (forall|i: int|
                0 <= i < v@.len() ==> spec_stored_message(self.db, (#[trigger] v@[i])@)),
    {
        let raw = self.raw_recent(limit);
        let mut messages: Vec<InboxMessage> = Vec::new();
        let mut k: usize = 0;
        while k < raw.len()
            invariant
                k <= raw@.len(),
                raw@.len() <= limit,
                messages@.len() <= k,
                forall|i: int| 0 <= i < raw@.len() ==> spec_stored_value(
                    self.db,
                    (#[trigger] raw@[i])@,
                ),
                forall|i: int| 0 <= i < messages@.len() ==> spec_stored_message(
                    self.db,
                    (#[trigger] messages@[i])@,
                ),
            decreases raw@.len() - k,
        {
            match crate::bundle::read_inbox(raw[k].as_slice(), 0) {
                Some((msg, _)) => {
                    let ghost prevm = messages@;
                    messages.push(msg);
                    proof {
                        assert(spec_stored_value(self.db, raw@[k as int]@));
                        let stored = choose|key: Seq<u8>| #[trigger] db_map(
                            self.db,
                        ).contains_key(key) && db_map(self.db)[key] == raw@[k as int]@;
                        assert(spec_stored_message(self.db, messages@.last()@)) by {
                            assert(db_map(self.db).contains_key(stored) && (sdec_inbox(
                                db_map(self.db)[stored],
                                0,
                            ) matches Some(p) && p.0 == messages@.last()@));
                        }
                        assert(forall|i: int| 0 <= i < prevm.len() ==> messages@[i] == prevm[i]);
                    }
                },
                None => {},
            }
            k = k + 1;
        }
        Ok(messages)
    }

    /// Relies on sled's len: how many records the log holds.
    #[verifier::external_body]
    pub fn count(&self) -> usize
    {
        self.db.len()
    }
}

/// One address-book entry.
#[derive(Debug, Clone, PartialEq, Eq)]
pub struct Contact {
    pub node_id: String,
    pub display_name: String,
    pub alias: Option<String>,
    /// RFC 3339.
    pub added_at: String,
}

} // verus!
