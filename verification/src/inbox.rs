//! Inbox and conversations: an append-only ordered log of user-visible
//! messages, capped at a fixed ring size, with canonical conversation ids.
use vstd::prelude::*;

verus! {

use vstd::pervasive::VecAdditionalExecFns;
use crate::protocol::opt_str_view;

/// The inbox ring never holds more than this many entries.
pub const MAX_INBOX: usize = 500;

// ---------------------------------------------------------------------------
// entries
// ---------------------------------------------------------------------------

/// One user-visible message in the inbox log.
#[derive(Debug, Clone, PartialEq, Eq)]
pub struct InboxMessage {
    /// Monotonically assigned position in the log.
    pub seq: u64,
    /// RFC 3339 instant of arrival or sending.
    pub timestamp: String,
    /// "in" or "out".
    pub direction: String,
    /// "data" or "mesh".
    pub kind: String,
    /// The transport peer the frame travelled on.
    pub peer: String,
    /// Logical sender.
    pub from: String,
    /// Logical addressee; absent for a broadcast.
    pub to: Option<String>,
    pub message_id: Option<String>,
    /// Payload size in bytes.
    pub bytes: usize,
    pub preview: String,
    /// Canonical conversation id: "broadcast" or "dm:<min>:<max>".
    pub conversation_id: String,
    /// Full decoded content, when retained.
    pub content: Option<String>,
    /// Set when a delivery acknowledgement for `message_id` arrived.
    pub delivered: bool,
}

/// The mathematical shape of an inbox entry.
pub ghost struct InboxMessageView {
    pub seq: u64,
    pub timestamp: Seq<char>,
    pub direction: Seq<char>,
    pub kind: Seq<char>,
    pub peer: Seq<char>,
    pub from: Seq<char>,
    pub to: Option<Seq<char>>,
    pub message_id: Option<Seq<char>>,
    pub bytes: usize,
    pub preview: Seq<char>,
    pub conversation_id: Seq<char>,
    pub content: Option<Seq<char>>,
    pub delivered: bool,
}

impl View for InboxMessage {
    type V = InboxMessageView;

    open spec fn view(&self) -> InboxMessageView {
        InboxMessageView {
            seq: self.seq,
            timestamp: self.timestamp@,
            direction: self.direction@,
            kind: self.kind@,
            peer: self.peer@,
            from: self.from@,
            to: opt_str_view(self.to),
            message_id: opt_str_view(self.message_id),
            bytes: self.bytes,
            preview: self.preview@,
            conversation_id: self.conversation_id@,
            content: opt_str_view(self.content),
            delivered: self.delivered,
        }
    }
}

impl DeepView for InboxMessage {
    type V = InboxMessageView;

    open spec fn deep_view(&self) -> InboxMessageView {
        self.view()
    }
}

impl InboxMessage {
    /// A field-for-field copy, proved equal to the original.
    pub fn duplicate(&self) -> (r: InboxMessage)
        ensures
            r == *self,
    {
        InboxMessage {
            seq: self.seq,
            timestamp: self.timestamp.clone(),
            direction: self.direction.clone(),
            kind: self.kind.clone(),
            peer: self.peer.clone(),
            from: self.from.clone(),
            to: clone_opt_string(&self.to),
            message_id: clone_opt_string(&self.message_id),
            bytes: self.bytes,
            preview: self.preview.clone(),
            conversation_id: self.conversation_id.clone(),
            content: clone_opt_string(&self.content),
            delivered: self.delivered,
        }
    }
}

/// Clone an optional string; the value is preserved exactly.
pub fn clone_opt_string(o: &Option<String>) -> (r: Option<String>)
    ensures
        r == *o,
{
    match o {
        Some(s) => Some(s.clone()),
        None => None,
    }
}

/// Summary of one conversation thread, for a list view.
#[derive(Debug, Clone, PartialEq, Eq)]
pub struct ConversationSummary {
    /// Canonical id: "dm:<min>:<max>" or "broadcast".
    pub conversation_id: String,
    /// The other party's node id; empty for broadcast.
    pub peer_id: String,
    /// Preview text of the last message.
    pub last_preview: String,
    /// RFC 3339 timestamp of the last message.
    pub last_timestamp: String,
    /// Sequence number of the last message, for pagination.
    pub last_seq: u64,
}

/// Real-time events streamed to attached clients.
#[derive(Debug, Clone, PartialEq, Eq)]
pub enum MessengerEvent {
    /// A new message arrived or was sent.
    NewMessage { message: InboxMessage },
    /// A peer connected to this node.
    PeerConnected { peer_id: String },
    /// A peer disconnected from this node.
    PeerDisconnected { peer_id: String },
    /// A message this node sent was acknowledged by the recipient.
    MessageDelivered { message_id: String },
}

// ---------------------------------------------------------------------------
// canonical conversation ids
// ---------------------------------------------------------------------------

/// Lexicographic order on character sequences, by scalar value; agrees with
/// the byte order of the UTF-8 encodings.
pub open spec fn chars_le(a: Seq<char>, b: Seq<char>) -> bool
    decreases a.len(),
{
    if a.len() == 0 {
        true
    } else if b.len() == 0 {
        false
    } else if (a[0] as u32) < (b[0] as u32) {
        true
    } else if (a[0] as u32) > (b[0] as u32) {
        false
    } else {
        chars_le(a.drop_first(), b.drop_first())
    }
}

/// The canonical id of the thread between two correspondents:
/// `dm:<min>:<max>` in lexicographic order.
pub open spec fn spec_conversation_id(a: Seq<char>, b: Seq<char>) -> Seq<char> {
    if chars_le(a, b) {
        "dm:"@ + a + ":"@ + b
    } else {
        "dm:"@ + b + ":"@ + a
    }
}

/// The order is total.
proof fn lemma_chars_le_total(a: Seq<char>, b: Seq<char>)
    ensures
        chars_le(a, b) || chars_le(b, a),
    decreases a.len(),
{
    if a.len() == 0 || b.len() == 0 {
    } else if (a[0] as u32) == (b[0] as u32) {
        lemma_chars_le_total(a.drop_first(), b.drop_first());
    }
}

/// The order is antisymmetric.
proof fn lemma_chars_le_antisymmetric(a: Seq<char>, b: Seq<char>)
    requires
        chars_le(a, b),
        chars_le(b, a),
    ensures
        a == b,
    decreases a.len(),
{
    if a.len() == 0 {
        assert(b.len() == 0);
        assert(a =~= b);
    } else {
        assert(b.len() > 0);
        assert((a[0] as u32) == (b[0] as u32));
        vstd::utf8::char_u32_cast(a[0], a[0] as u32);
        vstd::utf8::char_u32_cast(b[0], a[0] as u32);
        lemma_chars_le_antisymmetric(a.drop_first(), b.drop_first());
        assert(a =~= b) by {
            assert(a[0] == b[0]);
            assert(forall|i: int| 1 <= i < a.len() ==> a[i] == a.drop_first()[i - 1]
                && b[i] == b.drop_first()[i - 1]);
        }
    }
}

/// Both correspondents derive the same conversation id: the pair is
/// unordered.
pub proof fn lemma_conversation_id_symmetric(a: Seq<char>, b: Seq<char>)
    ensures
        spec_conversation_id(a, b) == spec_conversation_id(b, a),
{
    lemma_chars_le_total(a, b);
    if chars_le(a, b) && chars_le(b, a) {
        lemma_chars_le_antisymmetric(a, b);
    }
}

/// Compare two strings in lexicographic scalar order.
pub fn str_le(a: &str, b: &str) -> (r: bool)
    ensures
        r == chars_le(a@, b@),
{
    let an = a.unicode_len();
    let bn = b.unicode_len();
    let mut k: usize = 0;
    proof {
        assert(a@.skip(0) =~= a@);
        assert(b@.skip(0) =~= b@);
    }
    loop
        invariant
            k <= an,
            k <= bn,
            an == a@.len(),
            bn == b@.len(),
            chars_le(a@, b@) == chars_le(a@.skip(k as int), b@.skip(k as int)),
        decreases an - k,
    {
        if k == an {
            proof {
                assert(a@.skip(k as int).len() == 0);
            }
            return true;
        }
        if k == bn {
            proof {
                assert(b@.skip(k as int).len() == 0 && a@.skip(k as int).len() > 0);
            }
            return false;
        }
        let ca = a.get_char(k);
        let cb = b.get_char(k);
        proof {
            assert(a@.skip(k as int)[0] == a@[k as int]);
            assert(b@.skip(k as int)[0] == b@[k as int]);
            assert(a@.skip(k as int).drop_first() =~= a@.skip(k + 1 as int));
            assert(b@.skip(k as int).drop_first() =~= b@.skip(k + 1 as int));
        }
        if (ca as u32) < (cb as u32) {
            return true;
        }
        if (ca as u32) > (cb as u32) {
            return false;
        }
        k = k + 1;
    }
}

/// The canonical conversation id for a directed thread between two nodes.
pub fn compute_conversation_id(a: &str, b: &str) -> (r: String)
    ensures
        r@ == spec_conversation_id(a@, b@),
{
    if str_le(a, b) {
        String::from_str("dm:").concat(a).concat(":").concat(b)
    } else {
        String::from_str("dm:").concat(b).concat(":").concat(a)
    }
}

/// The conversation id of an inbox entry: `broadcast` for a broadcast,
/// else the canonical pair id.
pub fn conversation_id_of(from: &str, to: &Option<String>) -> (r: String)
    ensures
        r@ == (match to {
            None => "broadcast"@,
            Some(t) => spec_conversation_id(from@, t@),
        }),
{
    match to {
        None => String::from_str("broadcast"),
        Some(t) => compute_conversation_id(from, t.as_str()),
    }
}

// ---------------------------------------------------------------------------
// the inbox ring
// ---------------------------------------------------------------------------

/// In-memory ring of recent messages ordered by `seq`, plus the next
/// sequence number to assign.
pub struct Inbox {
    pub entries: Vec<InboxMessage>,
    pub next_seq: u64,
}

impl Inbox {
    /// At most the ring size, sequence numbers strictly increasing and all
    /// below the next to assign, which stays positive.
    pub open spec fn wf(&self) -> bool {
        &&& self.entries@.len() <= MAX_INBOX
        &&& forall|i: int, j: int| 0 <= i < j < self.entries@.len()
            ==> (#[trigger] self.entries@[i]).seq < (#[trigger] self.entries@[j]).seq
        &&& forall|i: int| 0 <= i < self.entries@.len() ==> (#[trigger] self.entries@[i]).seq
            < self.next_seq
        &&& self.next_seq >= 1
    }

    /// A fresh, empty inbox.
    pub fn new() -> (r: Inbox)
        ensures
            r.wf(),
            r.entries@.len() == 0,
            r.next_seq == 1,
    {
        Inbox { entries: Vec::new(), next_seq: 1 }
    }

    /// The sequence number of the newest entry ever assigned; zero before
    /// the first.
    pub fn last_assigned(&self) -> (r: u64)
        requires
            self.wf(),
        ensures
            r == self.next_seq - 1,
    {
        self.next_seq - 1
    }

    /// Append a message: it gets the next sequence number, and when the
    /// ring is full the oldest entry leaves.
    pub fn push_inbox(&mut self, msg: InboxMessage) -> (r: u64)
        requires
            old(self).wf(),
            old(self).next_seq < u64::MAX,
        ensures
            final(self).wf(),
            r == old(self).next_seq,
            final(self).next_seq == old(self).next_seq + 1,
            final(self).entries@ == (if old(self).entries@.len() < MAX_INBOX {
                old(self).entries@
            } else {
                old(self).entries@.drop_first()
            }).push((InboxMessage { seq: old(self).next_seq, ..msg })),
            final(self).entries@.len() <= MAX_INBOX,
            final(self).entries@.len() > 0,
    {
        let assigned = self.next_seq;
        let stored = InboxMessage { seq: assigned, ..msg };
        let ghost base = if old(self).entries@.len() < MAX_INBOX {
            old(self).entries@
        } else {
            old(self).entries@.drop_first()
        };
        if self.entries.len() >= MAX_INBOX {
            self.entries.remove(0);
            proof {
                assert(self.entries@ =~= old(self).entries@.drop_first());
            }
        }
        self.entries.push(stored);
        self.next_seq = assigned + 1;
        proof {
            assert(self.entries@ == base.push((InboxMessage { seq: assigned, ..msg })));
            assert(forall|i: int| 0 <= i < base.len() ==> #[trigger] base[i] == old(self).entries@[i + (old(self).entries@.len() - base.len())]);
            assert(forall|i: int| 0 <= i < base.len() ==> (#[trigger] self.entries@[i]).seq
                < assigned);
            assert(self.entries@.last().seq == assigned);
        }
        assigned
    }

    /// The entries with `seq` above `since`, oldest first, at most `limit`
    /// (clamped to the ring size), and the position to resume from: never
    /// below `since`, and never below the newest assigned sequence.
    pub fn list_inbox(&self, since: Option<u64>, limit: usize) -> (r: (u64, Vec<InboxMessage>))
        requires
            self.wf(),
        ensures
            r.0 == spec_max_u64(spec_since_val(since), (self.next_seq - 1) as u64),
            r.0 >= spec_since_val(since),
            r.1@ == spec_page(self.entries@, spec_since_val(since), spec_clamp_limit(limit) as int),
    {
        let since_val: u64 = match since {
            Some(s) => s,
            None => 0,
        };
        let lim = clamp_limit(limit);
        let page = page_entries(&self.entries, since_val, lim);
        let last = self.next_seq - 1;
        let next_since = if since_val > last {
            since_val
        } else {
            last
        };
        (next_since, page)
    }

    /// The page of the thread with the given peer: entries whose
    /// conversation id is the canonical pair id, with the same paging rule.
    pub fn get_conversation_history(
        &self,
        our_id: &str,
        peer_id: &str,
        since: Option<u64>,
        limit: usize,
    ) -> (r: (u64, Vec<InboxMessage>))
        requires
            self.wf(),
        ensures
            r.0 == spec_max_u64(spec_since_val(since), (self.next_seq - 1) as u64),
            r.0 >= spec_since_val(since),
            r.1@ == spec_page(
                spec_conv_filter(self.entries@, spec_conversation_id(our_id@, peer_id@)),
                spec_since_val(since),
                spec_clamp_limit(limit) as int,
            ),
    {
        let cid = compute_conversation_id(our_id, peer_id);
        let mut filtered: Vec<InboxMessage> = Vec::new();
        let mut k: usize = 0;
        proof {
            assert(self.entries@.take(0) =~= Seq::<InboxMessage>::empty());
        }
        while k < self.entries.len()
            invariant
                k <= self.entries@.len(),
                cid@ == spec_conversation_id(our_id@, peer_id@),
                filtered@ == spec_conv_filter(self.entries@.take(k as int), cid@),
            decreases self.entries@.len() - k,
        {
            proof {
                lemma_conv_filter_snoc(self.entries@, k as int, cid@);
            }
            if self.entries[k].conversation_id == cid {
                filtered.push(self.entries[k].duplicate());
            }
            k = k + 1;
        }
        proof {
            assert(self.entries@.take(self.entries@.len() as int) =~= self.entries@);
        }
        let since_val: u64 = match since {
            Some(s) => s,
            None => 0,
        };
        let lim = clamp_limit(limit);
        let page = page_entries(&filtered, since_val, lim);
        let last = self.next_seq - 1;
        let next_since = if since_val > last {
            since_val
        } else {
            last
        };
        (next_since, page)
    }

    /// Mark every entry carrying this message id as delivered; nothing else
    /// changes. Returns how many entries matched.
    pub fn mark_delivered(&mut self, message_id: &str) -> (n: usize)
        requires
            old(self).wf(),
        ensures
            final(self).wf(),
            final(self).next_seq == old(self).next_seq,
            final(self).entries@.len() == old(self).entries@.len(),
            forall|i: int| 0 <= i < old(self).entries@.len()
                ==> #[trigger] final(self).entries@[i] == (if old(self).entries@[i]@.message_id == Some(message_id@) {
                (InboxMessage { delivered: true, ..old(self).entries@[i] })
            } else {
                old(self).entries@[i]
            }),
    {
        let mid: String = message_id.to_owned();
        let mut n: usize = 0;
        let mut k: usize = 0;
        while k < self.entries.len()
            invariant
                k <= self.entries@.len(),
                n <= k,
                mid@ == message_id@,
                self.entries@.len() == old(self).entries@.len(),
                self.next_seq == old(self).next_seq,
                forall|i: int| k <= i < old(self).entries@.len() ==> #[trigger] self.entries@[i]
                    == old(self).entries@[i],
                forall|i: int| 0 <= i < k ==> #[trigger] self.entries@[i] == (if old(self).entries@[i]@.message_id == Some(message_id@) {
                    (InboxMessage { delivered: true, ..old(self).entries@[i] })
                } else {
                    old(self).entries@[i]
                }),
            decreases self.entries@.len() - k,
        {
            let matches_id = match &self.entries[k].message_id {
                Some(m) => *m == mid,
                None => false,
            };
            if matches_id {
                let mut e = self.entries[k].duplicate();
                e.delivered = true;
                proof {
                    assert(e == (InboxMessage {
                        delivered: true,
                        ..old(self).entries@[k as int]
                    }));
                }
                self.entries.set(k, e);
                if n < usize::MAX {
                    n = n + 1;
                }
            }
            k = k + 1;
        }
        proof {
            assert(old(self).wf());
            assert forall|i: int, j: int| 0 <= i < j < self.entries@.len() implies (
            #[trigger] self.entries@[i]).seq < (#[trigger] self.entries@[j]).seq by {
                assert(self.entries@[i].seq == old(self).entries@[i].seq);
                assert(self.entries@[j].seq == old(self).entries@[j].seq);
            }
            assert forall|i: int| 0 <= i < self.entries@.len() implies (
            #[trigger] self.entries@[i]).seq < self.next_seq by {
                assert(self.entries@[i].seq == old(self).entries@[i].seq);
            }
        }
        n
    }

    /// Fold the inbox into one entry per conversation: the newest entry of
    /// each thread, newest first, as summaries.
    pub fn get_conversations(&self, our_id: &str) -> (r: Vec<ConversationSummary>)
        requires
            self.wf(),
        ensures
            ({
                let heads = spec_conversation_heads(self.entries@, 0);
                &&& r@.len() == heads.len()
                &&& forall|i: int| 0 <= i < heads.len() ==> {
                    let e = heads[i];
                    let s = #[trigger] r@[i];
                    &&& s.conversation_id@ == e.conversation_id@
                    &&& s.last_preview@ == e.preview@
                    &&& s.last_timestamp@ == e.timestamp@
                    &&& s.last_seq == e.seq
                    &&& s.peer_id@ == spec_other_party(our_id@, e)
                }
            }),
    {
        let our: String = our_id.to_owned();
        let mut heads: Vec<InboxMessage> = Vec::new();
        let mut k: usize = self.entries.len();
        while k > 0
            invariant
                k <= self.entries@.len(),
                heads@ == spec_conversation_heads(self.entries@, k as int),
            decreases k,
        {
            k = k - 1;
            let e = &self.entries[k];
            let cid: String = e.conversation_id.clone();
            let mut present = false;
            let mut m: usize = 0;
            while m < heads.len()
                invariant
                    m <= heads@.len(),
                    k < self.entries@.len(),
                    cid@ == self.entries@[k as int].conversation_id@,
                    present == exists|w: int|
                        0 <= w < m && (#[trigger] heads@[w]).conversation_id@
                            == self.entries@[k as int].conversation_id@,
                decreases heads@.len() - m,
            {
                let hit = heads[m].conversation_id == cid;
                proof {
                    if hit {
                        assert(heads@[m as int].conversation_id@
                            == self.entries@[k as int].conversation_id@);
                    } else {
                        if !present {
                            if exists|w: int|
                                0 <= w < m + 1 && (#[trigger] heads@[w]).conversation_id@
                                    == self.entries@[k as int].conversation_id@ {
                                let w = choose|w: int|
                                    0 <= w < m + 1 && (#[trigger] heads@[w]).conversation_id@
                                        == self.entries@[k as int].conversation_id@;
                                assert(false);
                            }
                        }
                    }
                }
                if hit {
                    present = true;
                }
                m = m + 1;
            }
            proof {
                if present {
                    assert(spec_has_cid(heads@, self.entries@[k as int].conversation_id@)) by {
                        let w = choose|w: int|
                            0 <= w < heads@.len() && (#[trigger] heads@[w]).conversation_id@
                                == self.entries@[k as int].conversation_id@;
                    }
                } else {
                    if spec_has_cid(heads@, self.entries@[k as int].conversation_id@) {
                        let w = choose|w: int|
                            0 <= w < heads@.len() && (#[trigger] heads@[w]).conversation_id@
                                == self.entries@[k as int].conversation_id@;
                        assert(false);
                    }
                }
            }
            if !present {
                let ghost prevh = heads@;
                heads.push(e.duplicate());
                proof {
                    assert(heads@ =~= prevh.push(self.entries@[k as int]));
                }
            }
        }
        let mut r: Vec<ConversationSummary> = Vec::new();
        let mut i: usize = 0;
        while i < heads.len()
            invariant
                i <= heads@.len(),
                our@ == our_id@,
                r@.len() == i,
                forall|w: int| 0 <= w < i ==> {
                    let e = heads@[w];
                    let s = #[trigger] r@[w];
                    &&& s.conversation_id@ == e.conversation_id@
                    &&& s.last_preview@ == e.preview@
                    &&& s.last_timestamp@ == e.timestamp@
                    &&& s.last_seq == e.seq
                    &&& s.peer_id@ == spec_other_party(our_id@, e)
                },
            decreases heads@.len() - i,
        {
            let e = &heads[i];
            let peer_id: String = match &e.to {
                None => String::new(),
                Some(t) => if e.from == our {
                    t.clone()
                } else {
                    e.from.clone()
                },
            };
            r.push(ConversationSummary {
                conversation_id: e.conversation_id.clone(),
                peer_id,
                last_preview: e.preview.clone(),
                last_timestamp: e.timestamp.clone(),
                last_seq: e.seq,
            });
            i = i + 1;
        }
        r
    }
}

/// Whether some entry of the list carries this conversation id.
pub open spec fn spec_has_cid(s: Seq<InboxMessage>, cid: Seq<char>) -> bool {
    exists|i: int| 0 <= i < s.len() && (#[trigger] s[i]).conversation_id@ == cid
}

/// The newest entry per conversation among the entries from position `j`
/// on, newest first: walking from the log's end, an entry joins only when
/// its conversation has no newer entry already collected.
pub open spec fn spec_conversation_heads(s: Seq<InboxMessage>, j: int) -> Seq<InboxMessage>
    decreases s.len() - j,
{
    if j < 0 || j >= s.len() {
        Seq::empty()
    } else {
        let rest = spec_conversation_heads(s, j + 1);
        if spec_has_cid(rest, s[j].conversation_id@) {
            rest
        } else {
            rest.push(s[j])
        }
    }
}

/// The other party a summary names: nobody for a broadcast thread, else
/// whichever correspondent is not this node.
pub open spec fn spec_other_party(our: Seq<char>, m: InboxMessage) -> Seq<char> {
    match m@.to {
        None => Seq::empty(),
        Some(t) => if m.from@ == our {
            t
        } else {
            m.from@
        },
    }
}

/// The conversation fold is sound: every head is an entry of the log, no
/// two heads share a conversation id, and on a well-formed log the heads
/// carry strictly descending sequence numbers — each thread's newest entry
/// first.
pub proof fn lemma_conversation_heads_sound(s: Seq<InboxMessage>, j: int)
    requires
        forall|a: int, b: int| 0 <= a < b < s.len() ==> (#[trigger] s[a]).seq < (
        #[trigger] s[b]).seq,
    ensures
        ({
            let heads = spec_conversation_heads(s, j);
            &&& forall|i: int| 0 <= i < heads.len() ==> exists|w: int|
                j <= w < s.len() && #[trigger] heads[i] == s[w]
            &&& forall|a: int, b: int| 0 <= a < b < heads.len() ==> (
            #[trigger] heads[a]).conversation_id@ != (#[trigger] heads[b]).conversation_id@
            &&& forall|a: int, b: int| 0 <= a < b < heads.len() ==> (#[trigger] heads[a]).seq > (
            #[trigger] heads[b]).seq
        }),
    decreases s.len() - j,
{
    if j < 0 || j >= s.len() {
    } else {
        lemma_conversation_heads_sound(s, j + 1);
        let rest = spec_conversation_heads(s, j + 1);
        let heads = spec_conversation_heads(s, j);
        if !spec_has_cid(rest, s[j].conversation_id@) {
            assert(heads == rest.push(s[j]));
            assert forall|i: int| 0 <= i < heads.len() implies exists|w: int|
                j <= w < s.len() && #[trigger] heads[i] == s[w] by {
                if i < rest.len() {
                    assert(heads[i] == rest[i]);
                    let w = choose|w: int| j + 1 <= w < s.len() && rest[i] == s[w];
                    assert(heads[i] == s[w]);
                } else {
                    assert(heads[i] == s[j]);
                }
            }
            assert forall|a: int, b: int| 0 <= a < b < heads.len() implies (
            #[trigger] heads[a]).conversation_id@ != (#[trigger] heads[b]).conversation_id@ by {
                if b == heads.len() - 1 {
                    assert(heads[a] == rest[a]);
                    assert(heads[b] == s[j]);
                    if rest[a].conversation_id@ == s[j].conversation_id@ {
                        assert(spec_has_cid(rest, s[j].conversation_id@)) by {
                            assert(rest[a].conversation_id@ == s[j].conversation_id@);
                        }
                        assert(false);
                    }
                } else {
                    assert(heads[a] == rest[a] && heads[b] == rest[b]);
                }
            }
            assert forall|a: int, b: int| 0 <= a < b < heads.len() implies (
            #[trigger] heads[a]).seq > (#[trigger] heads[b]).seq by {
                if b == heads.len() - 1 {
                    assert(heads[a] == rest[a]);
                    assert(heads[b] == s[j]);
                    let w = choose|w: int| j + 1 <= w < s.len() && rest[a] == s[w];
                    assert(s[j].seq < s[w].seq);
                } else {
                    assert(heads[a] == rest[a] && heads[b] == rest[b]);
                }
            }
        }
    }
}

/// The since position asked for, with absence meaning the log's start.
pub open spec fn spec_since_val(since: Option<u64>) -> u64 {
    match since {
        Some(s) => s,
        None => 0,
    }
}

/// The larger of two numbers.
pub open spec fn spec_max_u64(a: u64, b: u64) -> u64 {
    if a >= b {
        a
    } else {
        b
    }
}

/// Limits are clamped into the ring size.
pub open spec fn spec_clamp_limit(limit: usize) -> usize {
    if limit < 1 {
        1
    } else if limit > MAX_INBOX {
        MAX_INBOX
    } else {
        limit
    }
}

fn clamp_limit(limit: usize) -> (r: usize)
    ensures
        r == spec_clamp_limit(limit),
{
    if limit < 1 {
        1
    } else if limit > MAX_INBOX {
        MAX_INBOX
    } else {
        limit
    }
}

/// The first `limit` entries with `seq` above `since`, oldest first.
pub open spec fn spec_page(s: Seq<InboxMessage>, since: u64, limit: int) -> Seq<InboxMessage>
    decreases s.len(),
{
    if s.len() == 0 || limit <= 0 {
        Seq::empty()
    } else if s[0].seq > since {
        seq![s[0]] + spec_page(s.drop_first(), since, limit - 1)
    } else {
        spec_page(s.drop_first(), since, limit)
    }
}

fn page_entries(entries: &Vec<InboxMessage>, since: u64, limit: usize) -> (r: Vec<InboxMessage>)
    ensures
        r@ == spec_page(entries@, since, limit as int),
{
    let mut r: Vec<InboxMessage> = Vec::new();
    let mut k: usize = 0;
    proof {
        assert(entries@.skip(0) =~= entries@);
        assert(r@ + spec_page(entries@, since, limit as int) =~= spec_page(
            entries@,
            since,
            limit as int,
        ));
    }
    while k < entries.len() && r.len() < limit
        invariant
            k <= entries@.len(),
            r@.len() <= limit,
            spec_page(entries@, since, limit as int) == r@ + spec_page(
                entries@.skip(k as int),
                since,
                limit - r@.len(),
            ),
        decreases entries@.len() - k,
    {
        proof {
            assert(entries@.skip(k as int)[0] == entries@[k as int]);
            assert(entries@.skip(k as int).drop_first() =~= entries@.skip(k + 1 as int));
        }
        if entries[k].seq > since {
            let ghost prevr = r@;
            r.push(entries[k].duplicate());
            proof {
                assert(r@ =~= prevr.push(entries@[k as int]));
                assert(prevr + (seq![entries@[k as int]] + spec_page(
                    entries@.skip(k + 1 as int),
                    since,
                    limit - prevr.len() - 1,
                )) =~= r@ + spec_page(entries@.skip(k + 1 as int), since, limit - r@.len()));
            }
        }
        k = k + 1;
    }
    proof {
        if k == entries@.len() {
            assert(entries@.skip(k as int).len() == 0);
        } else {
            assert(r@.len() == limit);
        }
        assert(spec_page(entries@.skip(k as int), since, limit - r@.len()) =~= Seq::<
            InboxMessage>::empty());
        assert(r@ + Seq::<InboxMessage>::empty() =~= r@);
    }
    r
}

/// The entries of one conversation, in log order.
pub open spec fn spec_conv_filter(s: Seq<InboxMessage>, cid: Seq<char>) -> Seq<InboxMessage>
    decreases s.len(),
{
    if s.len() == 0 {
        Seq::empty()
    } else if s.last().conversation_id@ == cid {
        spec_conv_filter(s.drop_last(), cid).push(s.last())
    } else {
        spec_conv_filter(s.drop_last(), cid)
    }
}

proof fn lemma_conv_filter_snoc(s: Seq<InboxMessage>, k: int, cid: Seq<char>)
    requires
        0 <= k < s.len(),
    ensures
        spec_conv_filter(s.take(k + 1), cid) == (if s[k].conversation_id@ == cid {
            spec_conv_filter(s.take(k), cid).push(s[k])
        } else {
            spec_conv_filter(s.take(k), cid)
        }),
{
    assert(s.take(k + 1).last() == s[k]);
    assert(s.take(k + 1).drop_last() =~= s.take(k));
}

} // verus!
