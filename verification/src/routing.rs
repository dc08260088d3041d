//! Mesh routing: deduplicating flood with TTL and path-based loop
//! prevention.
//!
//! The router decides local delivery (a fresh, unlooped message for this
//! node; a directed destination needs no remaining hop budget, a broadcast
//! does) and forwarding (hop budget positive, not seen inside the
//! sixty-second window, this node not on the path, and not a message
//! directed to this node), and names the forwarding targets: every peer but
//! the sender and the nodes already on the path.
use vstd::prelude::*;

verus! {

use crate::error::MeshError;
use crate::protocol::{Message, MessageView, opt_str_view};
use crate::util::new_message_id;

/// Repeats of a message id inside this window (milliseconds) are dropped.
pub const DEDUP_WINDOW_MS: u64 = 60_000;

/// Seen entries older than this (milliseconds) are evicted.
pub const SEEN_RETENTION_MS: u64 = 300_000;

/// The hop budget given to a freshly created mesh message.
pub const INITIAL_TTL: u8 = 10;

// ---------------------------------------------------------------------------
// addresses
// ---------------------------------------------------------------------------

/// Elysium address format: `ely://<node_id>`.
#[derive(Debug, Clone, PartialEq, Eq)]
pub struct ElysiumAddress {
    pub node_id: String,
}

/// The string form of an address naming `node_id`.
pub open spec fn spec_ely_url(node_id: Seq<char>) -> Seq<char> {
    "ely://"@ + node_id
}

impl ElysiumAddress {
    /// Parse from the string format `ely://<node_id>`; exactly the strings
    /// with that prefix are accepted.
    pub fn from_string(addr: &str) -> (r: Result<ElysiumAddress, MeshError>)
        ensures
            r is Ok <==> addr@.len() >= 6 && addr@.subrange(0, 6) == "ely://"@,
            r matches Ok(a) ==> a.node_id@ == addr@.subrange(6, addr@.len() as int),
            r matches Err(e) ==> e is Protocol,
    {
        proof {
            reveal_strlit("ely://");
        }
        let n = addr.unicode_len();
        if n >= 6 && addr.get_char(0) == 'e' && addr.get_char(1) == 'l' && addr.get_char(2) == 'y'
            && addr.get_char(3) == ':' && addr.get_char(4) == '/' && addr.get_char(5) == '/' {
            assert(addr@.subrange(0, 6) =~= "ely://"@);
            let node_id = addr.substring_char(6, n).to_owned();
            Ok(ElysiumAddress { node_id })
        } else {
            assert(addr@.len() >= 6 ==> addr@.subrange(0, 6) != "ely://"@) by {
                if addr@.len() >= 6 && addr@.subrange(0, 6) == "ely://"@ {
                    assert(addr@.subrange(0, 6)[0] == addr@[0]);
                    assert(addr@.subrange(0, 6)[1] == addr@[1]);
                    assert(addr@.subrange(0, 6)[2] == addr@[2]);
                    assert(addr@.subrange(0, 6)[3] == addr@[3]);
                    assert(addr@.subrange(0, 6)[4] == addr@[4]);
                    assert(addr@.subrange(0, 6)[5] == addr@[5]);
                }
            }
            Err(MeshError::Protocol(
                String::from_str("Invalid Elysium address format: ").concat(addr),
            ))
        }
    }

    /// The string form `ely://<node_id>`.
    pub fn to_string(&self) -> (r: String)
        ensures
            r@ == spec_ely_url(self.node_id@),
    {
        String::from_str("ely://").concat(self.node_id.as_str())
    }
}

// ---------------------------------------------------------------------------
// the routed unit
// ---------------------------------------------------------------------------

/// Mesh message: the routed unit with TTL, path, and optional destination.
#[derive(Debug, Clone, PartialEq, Eq)]
pub struct MeshMessage {
    pub from: String,
    /// Destination node id; absent means broadcast.
    pub to: Option<String>,
    pub data: Vec<u8>,
    pub message_id: String,
    pub ttl: u8,
    /// Node ids the message has passed through, for loop detection.
    pub path: Vec<String>,
}

/// The mathematical shape of a mesh message.
pub ghost struct MeshMessageView {
    pub from: Seq<char>,
    pub to: Option<Seq<char>>,
    pub data: Seq<u8>,
    pub message_id: Seq<char>,
    pub ttl: u8,
    pub path: Seq<Seq<char>>,
}

impl View for MeshMessage {
    type V = MeshMessageView;

    open spec fn view(&self) -> MeshMessageView {
        MeshMessageView {
            from: self.from@,
            to: opt_str_view(self.to),
            data: self.data@,
            message_id: self.message_id@,
            ttl: self.ttl,
            path: self.path.deep_view(),
        }
    }
}

impl MeshMessage {
    /// Create a fresh mesh message with a new id, the initial hop budget,
    /// and an empty path.
    pub fn new(from: String, to: Option<String>, data: Vec<u8>) -> (r: MeshMessage)
        ensures
            r@.from == from@,
            r@.to == opt_str_view(to),
            r@.data == data@,
            r@.message_id.len() == 36,
            r@.ttl == INITIAL_TTL,
            r@.path.len() == 0,
    {
        let r = MeshMessage {
            from,
            to,
            data,
            message_id: new_message_id(),
            ttl: INITIAL_TTL,
            path: Vec::new(),
        };
        proof {
            assert(r.path.deep_view() =~= Seq::<Seq<char>>::empty());
        }
        r
    }

    /// Wrap this message in the wire envelope; every field carries over.
    pub fn to_protocol_message(&self) -> (r: Message)
        ensures
            r@ == (MessageView::MeshMessage {
                from: self@.from,
                to: self@.to,
                data: self@.data,
                message_id: self@.message_id,
                ttl: self@.ttl,
                path: self@.path,
            }),
    {
        Message::MeshMessage {
            from: self.from.clone(),
            to: match &self.to {
                Some(t) => Some(t.clone()),
                None => None,
            },
            data: self.data.clone(),
            message_id: self.message_id.clone(),
            ttl: self.ttl,
            path: clone_string_vec(&self.path),
        }
    }

    /// Unwrap a wire envelope; some exactly when the envelope is a mesh
    /// message, and every field carries over.
    pub fn from_protocol_message(msg: &Message) -> (r: Option<MeshMessage>)
        ensures
            r is Some <==> msg@ is MeshMessage,
            r matches Some(m) ==> msg@ == (MessageView::MeshMessage {
                from: m@.from,
                to: m@.to,
                data: m@.data,
                message_id: m@.message_id,
                ttl: m@.ttl,
                path: m@.path,
            }),
    {
        match msg {
            Message::MeshMessage { from, to, data, message_id, ttl, path } => Some(MeshMessage {
                from: from.clone(),
                to: match to {
                    Some(t) => Some(t.clone()),
                    None => None,
                },
                data: data.clone(),
                message_id: message_id.clone(),
                ttl: *ttl,
                path: clone_string_vec(path),
            }),
            _ => None,
        }
    }
}

/// Clone a vector of strings; the deep view is preserved.
pub fn clone_string_vec(v: &Vec<String>) -> (r: Vec<String>)
    ensures
        r.deep_view() == v.deep_view(),
{
    let mut r: Vec<String> = Vec::new();
    let mut k: usize = 0;
    while k < v.len()
        invariant
            k <= v@.len(),
            r.deep_view().len() == k,
            forall|m: int| 0 <= m < k ==> r.deep_view()[m] == v.deep_view()[m],
            v.deep_view().len() == v@.len(),
        decreases v@.len() - k,
    {
        let ghost prev = r.deep_view();
        r.push(v[k].clone());
        proof {
            assert(r.deep_view() =~= prev.push(v@[k as int]@));
        }
        k = k + 1;
    }
    proof {
        assert(r.deep_view() =~= v.deep_view());
    }
    r
}

// ---------------------------------------------------------------------------
// the router state
// ---------------------------------------------------------------------------

/// When a message id was last admitted: the first matching entry.
pub open spec fn seen_time(s: Seq<(String, u64)>, id: Seq<char>) -> Option<u64>
    decreases s.len(),
{
    if s.len() == 0 {
        None
    } else if s[0].0@ == id {
        Some(s[0].1)
    } else {
        seen_time(s.drop_first(), id)
    }
}

/// True when `id` was admitted less than the dedup window ago.
pub open spec fn recently_seen(s: Seq<(String, u64)>, id: Seq<char>, now: u64) -> bool {
    match seen_time(s, id) {
        None => false,
        Some(t) => t <= now && now - t < DEDUP_WINDOW_MS,
    }
}

/// Forwarding admission: positive TTL, not a recent repeat, and this node
/// not on the path.
pub open spec fn spec_should_process(
    seen: Seq<(String, u64)>,
    our: Seq<char>,
    m: MeshMessageView,
    now: u64,
) -> bool {
    &&& m.ttl > 0
    &&& !recently_seen(seen, m.message_id, now)
    &&& !m.path.contains(our)
}

/// Local delivery: not a recent repeat, this node not on the path, and the
/// message is for this node. A message directed to this node is delivered
/// whatever its remaining hop budget — the budget was spent reaching us —
/// while a broadcast still needs a positive budget to be admitted at all.
pub open spec fn spec_should_deliver(
    seen: Seq<(String, u64)>,
    our: Seq<char>,
    m: MeshMessageView,
    now: u64,
) -> bool {
    &&& !recently_seen(seen, m.message_id, now)
    &&& !m.path.contains(our)
    &&& match m.to {
        Some(to) => to == our,
        None => m.ttl > 0,
    }
}

/// Forwarding: admitted for forwarding, and not a message directed to this
/// node — directed deliveries are not re-forwarded; broadcasts fan out after
/// local delivery.
pub open spec fn spec_should_forward(
    seen: Seq<(String, u64)>,
    our: Seq<char>,
    m: MeshMessageView,
    now: u64,
) -> bool {
    &&& spec_should_process(seen, our, m, now)
    &&& match m.to {
        Some(to) => to != our,
        None => true,
    }
}

/// What the router decides for one arriving message: deliver it locally,
/// forward copies, both, or neither.
#[derive(Debug, Clone, Copy, PartialEq, Eq, Structural)]
pub struct RouteDecision {
    pub deliver: bool,
    pub forward: bool,
}

proof fn lemma_seen_time_push(s: Seq<(String, u64)>, id: Seq<char>, e: (String, u64))
    ensures
        seen_time(s.push(e), id) == (match seen_time(s, id) {
            Some(t) => Some(t),
            None => if e.0@ == id {
                Some(e.1)
            } else {
                None
            },
        }),
    decreases s.len(),
{
    let sp = s.push(e);
    assert(sp.len() == s.len() + 1);
    if s.len() == 0 {
        assert(sp[0] == e);
        if e.0@ == id {
            assert(seen_time(sp, id) == Some(e.1));
        } else {
            assert(sp.drop_first() =~= Seq::<(String, u64)>::empty());
            assert(seen_time(sp.drop_first(), id) is None);
            assert(seen_time(sp, id) is None);
        }
    } else {
        assert(sp[0] == s[0]);
        assert(sp.drop_first() =~= s.drop_first().push(e));
        lemma_seen_time_push(s.drop_first(), id, e);
        if s[0].0@ == id {
            assert(seen_time(sp, id) == Some(s[0].1));
            assert(seen_time(s, id) == Some(s[0].1));
        } else {
            assert(seen_time(sp, id) == seen_time(s.drop_first().push(e), id));
            assert(seen_time(s, id) == seen_time(s.drop_first(), id));
        }
    }
}

pub proof fn lemma_seen_time_none_absent(s: Seq<(String, u64)>, id: Seq<char>)
    requires
        seen_time(s, id) is None,
    ensures
        forall|i: int| 0 <= i < s.len() ==> (#[trigger] s[i]).0@ != id,
    decreases s.len(),
{
    if s.len() > 0 {
        lemma_seen_time_none_absent(s.drop_first(), id);
        assert(forall|i: int| 1 <= i < s.len() ==> s[i] == s.drop_first()[i - 1]);
    }
}

/// Router for mesh messages: dedup state plus this node's identity.
pub struct Router {
    pub our_node_id: String,
    /// Message ids marked as seen, with the time of marking; ids are unique.
    pub seen: Vec<(String, u64)>,
}

impl Router {
    /// Ids in the dedup table are unique.
    pub open spec fn wf(&self) -> bool {
        forall|i: int, j: int| 0 <= i < j < self.seen@.len() ==> (#[trigger] self.seen@[i]).0@ != (
        #[trigger] self.seen@[j]).0@
    }

    /// Create a new router.
    pub fn new(our_node_id: String) -> (r: Router)
        ensures
            r.wf(),
            r.our_node_id@ == our_node_id@,
            r.seen@.len() == 0,
    {
        Router { our_node_id, seen: Vec::new() }
    }

    /// Whether this message id was marked as seen inside the dedup window.
    pub fn is_recently_seen(&self, message_id: &str, now: u64) -> (r: bool)
        ensures
            r == recently_seen(self.seen@, message_id@, now),
    {
        let mid: String = message_id.to_owned();
        let mut k: usize = 0;
        let n = self.seen.len();
        let mut decided = false;
        let mut rec = false;
        proof {
            assert(self.seen@.subrange(0, n as int) =~= self.seen@);
        }
        while k < n
            invariant
                k <= n,
                n == self.seen@.len(),
                mid@ == message_id@,
                decided ==> rec == recently_seen(self.seen@, message_id@, now),
                !decided ==> rec == false && recently_seen(self.seen@, message_id@, now)
                    == recently_seen(
                    self.seen@.subrange(k as int, n as int),
                    message_id@,
                    now,
                ),
            decreases n - k,
        {
            if !decided {
                let hit = self.seen[k].0 == mid;
                proof {
                    assert(self.seen@.subrange(k as int, n as int)[0] == self.seen@[k as int]);
                    assert(self.seen@.subrange(k as int, n as int).drop_first()
                        =~= self.seen@.subrange(k + 1 as int, n as int));
                }
                if hit {
                    let t = self.seen[k].1;
                    proof {
                        assert(seen_time(self.seen@.subrange(k as int, n as int), message_id@)
                            == Some(t));
                    }
                    decided = true;
                    if t <= now && now - t < DEDUP_WINDOW_MS {
                        rec = true;
                    }
                }
            }
            k = k + 1;
        }
        proof {
            if !decided {
                assert(self.seen@.subrange(n as int, n as int) =~= Seq::<(String, u64)>::empty());
                assert(seen_time(self.seen@.subrange(n as int, n as int), message_id@) is None);
            }
        }
        rec
    }

    /// Whether this node already stands on the message's path.
    pub fn path_contains_self(&self, message: &MeshMessage) -> (r: bool)
        ensures
            r == message@.path.contains(self.our_node_id@),
    {
        let mut p: usize = 0;
        while p < message.path.len()
            invariant
                p <= message.path@.len(),
                message@.path.len() == message.path@.len(),
                forall|m: int| 0 <= m < message.path@.len() ==> message@.path[m]
                    == message.path@[m]@,
                forall|m: int| 0 <= m < p ==> message@.path[m] != self.our_node_id@,
            decreases message.path@.len() - p,
        {
            if message.path[p] == self.our_node_id {
                assert(message@.path.contains(self.our_node_id@)) by {
                    assert(message@.path[p as int] == self.our_node_id@);
                }
                return true;
            }
            p = p + 1;
        }
        proof {
            if message@.path.contains(self.our_node_id@) {
                let w = choose|w: int| 0 <= w < message@.path.len() && message@.path[w]
                    == self.our_node_id@;
                assert(false);
            }
        }
        false
    }

    /// Whether the message passes forwarding admission: TTL positive, not
    /// seen within the dedup window, and this node not on its path.
    pub fn should_process(&self, message: &MeshMessage, now: u64) -> (r: bool)
        ensures
            r == spec_should_process(self.seen@, self.our_node_id@, message@, now),
    {
        if message.ttl == 0 {
            return false;
        }
        if self.is_recently_seen(message.message_id.as_str(), now) {
            return false;
        }
        !self.path_contains_self(message)
    }

    /// Decide one arriving message: deliver exactly when it is a fresh,
    /// unlooped message for this node (a directed destination needs no
    /// remaining hop budget, a broadcast does); forward exactly when it
    /// passes forwarding admission and is not directed to this node.
    pub fn route_decision(&self, message: &MeshMessage, now: u64) -> (r: RouteDecision)
        ensures
            r.deliver == spec_should_deliver(self.seen@, self.our_node_id@, message@, now),
            r.forward == spec_should_forward(self.seen@, self.our_node_id@, message@, now),
    {
        if self.is_recently_seen(message.message_id.as_str(), now) {
            return RouteDecision { deliver: false, forward: false };
        }
        if self.path_contains_self(message) {
            return RouteDecision { deliver: false, forward: false };
        }
        let live = message.ttl > 0;
        match &message.to {
            Some(to) => {
                if *to == self.our_node_id {
                    RouteDecision { deliver: true, forward: false }
                } else {
                    RouteDecision { deliver: false, forward: live }
                }
            },
            None => RouteDecision { deliver: live, forward: live },
        }
    }

    /// Record that this message id was admitted now, and drop entries older
    /// than the retention window.
    pub fn mark_seen(&mut self, message_id: &str, now: u64)
        requires
            old(self).wf(),
        ensures
            final(self).wf(),
            final(self).our_node_id@ == old(self).our_node_id@,
            seen_time(final(self).seen@, message_id@) == Some(now),
            forall|id: Seq<char>| id != message_id@ ==> #[trigger] seen_time(
                final(self).seen@,
                id,
            ) == (match seen_time(old(self).seen@, id) {
                Some(t) => if t <= now && now - t < SEEN_RETENTION_MS {
                    Some(t)
                } else {
                    None
                },
                None => None,
            }),
    {
        let mid: String = message_id.to_owned();
        let mut fresh: Vec<(String, u64)> = Vec::new();
        fresh.push((mid.clone(), now));
        proof {
            assert(fresh@.len() == 1);
            assert(fresh@[0].0@ == message_id@ && fresh@[0].1 == now);
            assert(fresh@.drop_first() =~= Seq::<(String, u64)>::empty());
            assert(seen_time(fresh@, message_id@) == Some(now));
            assert forall|id: Seq<char>| id != message_id@ implies #[trigger] seen_time(fresh@, id)
                is None by {
                assert(seen_time(fresh@.drop_first(), id) is None);
            }
            assert(self.seen@.subrange(0, 0) =~= Seq::<(String, u64)>::empty());
            assert(seen_time(self.seen@.subrange(0, 0), message_id@) is None);
        }
        let n = self.seen.len();
        let mut k: usize = 0;
        while k < n
            invariant
                k <= n,
                n == self.seen@.len(),
                old(self) == self,
                self.wf(),
                mid@ == message_id@,
                seen_time(fresh@, message_id@) == Some(now),
                forall|i: int, j: int| 0 <= i < j < fresh@.len() ==> (#[trigger] fresh@[i]).0@ != (
                #[trigger] fresh@[j]).0@,
                forall|id: Seq<char>| id != message_id@ ==> #[trigger] seen_time(fresh@, id) == (
                match seen_time(self.seen@.subrange(0, k as int), id) {
                    Some(t) => if t <= now && now - t < SEEN_RETENTION_MS {
                        Some(t)
                    } else {
                        None
                    },
                    None => None,
                }),
            decreases n - k,
        {
            let entry = (self.seen[k].0.clone(), self.seen[k].1);
            let ghost eidv = entry.0@;
            let ghost et = entry.1;
            let ghost prefix = self.seen@.subrange(0, k as int);
            let keep = !(entry.0 == mid) && entry.1 <= now && now - entry.1 < SEEN_RETENTION_MS;
            proof {
                assert(self.seen@.subrange(0, k + 1 as int) =~= prefix.push(self.seen@[k as int]));
                assert(self.seen@[k as int].0@ == eidv && self.seen@[k as int].1 == et);
                // the entry's id does not occur earlier, by uniqueness of the table
                if seen_time(prefix, eidv) is Some {
                    lemma_seen_time_some_present(prefix, eidv);
                    let w = choose|w: int| 0 <= w < prefix.len() && (#[trigger] prefix[w]).0@
                        == eidv;
                    assert(self.seen@[w].0@ == eidv);
                    assert(false);
                }
                assert forall|id: Seq<char>| id != message_id@ implies #[trigger] seen_time(
                    self.seen@.subrange(0, k + 1 as int),
                    id,
                ) == (match seen_time(prefix, id) {
                    Some(t) => Some(t),
                    None => if eidv == id {
                        Some(et)
                    } else {
                        None
                    },
                }) by {
                    lemma_seen_time_push(prefix, id, self.seen@[k as int]);
                }
            }
            if keep {
                let ghost prevf = fresh@;
                fresh.push(entry);
                proof {
                    assert(fresh@ =~= prevf.push((fresh@.last().0, fresh@.last().1)));
                    assert(fresh@.last().0@ == eidv && fresh@.last().1 == et);
                    assert forall|id: Seq<char>| true implies #[trigger] seen_time(fresh@, id) == (
                    match seen_time(prevf, id) {
                        Some(t) => Some(t),
                        None => if eidv == id {
                            Some(et)
                        } else {
                            None
                        },
                    }) by {
                        lemma_seen_time_push(prevf, id, fresh@.last());
                    }
                    // the pushed id is new to fresh, so uniqueness is kept
                    assert(seen_time(prevf, eidv) is None);
                    lemma_seen_time_none_absent(prevf, eidv);
                    assert(forall|i: int| 0 <= i < prevf.len() ==> fresh@[i] == prevf[i]);
                    assert forall|i: int, j: int| 0 <= i < j < fresh@.len() implies (
                    #[trigger] fresh@[i]).0@ != (#[trigger] fresh@[j]).0@ by {
                        if j == fresh@.len() - 1 {
                            assert(fresh@[j].0@ == eidv);
                        }
                    }
                }
            }
            k = k + 1;
        }
        proof {
            assert(self.seen@.subrange(0, n as int) =~= self.seen@);
        }
        self.seen = fresh;
    }

    /// Whether this message is for this node: a broadcast, or addressed to
    /// this node's id.
    pub fn is_for_us(&self, message: &MeshMessage) -> (r: bool)
        ensures
            r == spec_is_for_us(self.our_node_id@, message@),
    {
        match &message.to {
            None => true,
            Some(to) => *to == self.our_node_id,
        }
    }

    /// A forwarded copy: TTL down one (stopping at zero) and this node
    /// appended to the path; everything else unchanged.
    pub fn prepare_for_forwarding(&self, message: &MeshMessage) -> (r: MeshMessage)
        ensures
            r@.from == message@.from,
            r@.to == message@.to,
            r@.data == message@.data,
            r@.message_id == message@.message_id,
            r@.ttl == (if message@.ttl == 0 {
                0
            } else {
                (message@.ttl - 1) as u8
            }),
            r@.path == message@.path.push(self.our_node_id@),
    {
        let mut forward = MeshMessage {
            from: message.from.clone(),
            to: match &message.to {
                Some(t) => Some(t.clone()),
                None => None,
            },
            data: message.data.clone(),
            message_id: message.message_id.clone(),
            ttl: if message.ttl == 0 {
                0
            } else {
                message.ttl - 1
            },
            path: clone_string_vec(&message.path),
        };
        let ghost prev = forward.path.deep_view();
        forward.path.push(self.our_node_id.clone());
        proof {
            assert(forward.path.deep_view() =~= prev.push(self.our_node_id@));
        }
        forward
    }

    /// The peers a copy goes to: exactly the given list, in its order, with
    /// the sender and the nodes already on the path removed.
    pub fn get_forward_peers(&self, message: &MeshMessage, all_peers: &Vec<String>) -> (r: Vec<
        String>)
        ensures
            r.deep_view() == spec_forward_filter(message@, all_peers.deep_view()),
    {
        let mut r: Vec<String> = Vec::new();
        let mut k: usize = 0;
        proof {
            assert(all_peers.deep_view().take(0) =~= Seq::<Seq<char>>::empty());
        }
        while k < all_peers.len()
            invariant
                k <= all_peers@.len(),
                all_peers.deep_view().len() == all_peers@.len(),
                forall|m: int| 0 <= m < all_peers@.len() ==> all_peers.deep_view()[m]
                    == all_peers@[m]@,
                r.deep_view() == spec_forward_filter(
                    message@,
                    all_peers.deep_view().take(k as int),
                ),
            decreases all_peers@.len() - k,
        {
            proof {
                assert(all_peers.deep_view().take(k + 1 as int).drop_last()
                    =~= all_peers.deep_view().take(k as int));
                assert(all_peers.deep_view().take(k + 1 as int).last()
                    == all_peers.deep_view()[k as int]);
            }
            let peer = &all_peers[k];
            let is_sender = *peer == message.from;
            let mut on_path = false;
            let mut p: usize = 0;
            while p < message.path.len()
                invariant
                    p <= message.path@.len(),
                    message@.path.len() == message.path@.len(),
                    forall|m: int| 0 <= m < message.path@.len() ==> message@.path[m]
                        == message.path@[m]@,
                    on_path == exists|m: int| 0 <= m < p && #[trigger] message@.path[m] == peer@,
                decreases message.path@.len() - p,
            {
                let matched = message.path[p] == *peer;
                proof {
                    if matched {
                        assert(message@.path[p as int] == peer@);
                        assert(exists|m: int| 0 <= m < p + 1 && #[trigger] message@.path[m]
                            == peer@);
                    } else {
                        assert(message@.path[p as int] != peer@);
                        if !on_path {
                            if exists|m: int| 0 <= m < p + 1 && #[trigger] message@.path[m]
                                == peer@ {
                                let w = choose|m: int| 0 <= m < p + 1
                                    && #[trigger] message@.path[m] == peer@;
                                assert(false);
                            }
                        }
                    }
                }
                if matched {
                    on_path = true;
                }
                p = p + 1;
            }
            proof {
                if on_path {
                    assert(message@.path.contains(peer@)) by {
                        let w = choose|m: int| 0 <= m < p && #[trigger] message@.path[m] == peer@;
                        assert(message@.path[w] == peer@);
                    }
                } else {
                    if message@.path.contains(peer@) {
                        let w = choose|m: int| 0 <= m < message@.path.len()
                            && #[trigger] message@.path[m] == peer@;
                        assert(false);
                    }
                }
            }
            if !is_sender && !on_path {
                let ghost prevr = r.deep_view();
                r.push(peer.clone());
                proof {
                    assert(r.deep_view() =~= prevr.push(peer@));
                }
            }
            k = k + 1;
        }
        proof {
            assert(all_peers.deep_view().take(all_peers.deep_view().len() as int)
                =~= all_peers.deep_view());
        }
        r
    }
}

/// The order-preserving filter of the candidate list: only the peers that
/// are neither the sender nor already on the path survive.
pub open spec fn spec_forward_filter(m: MeshMessageView, peers: Seq<Seq<char>>) -> Seq<Seq<char>>
    decreases peers.len(),
{
    if peers.len() == 0 {
        Seq::empty()
    } else if spec_forward_target(m, peers.last()) {
        spec_forward_filter(m, peers.drop_last()).push(peers.last())
    } else {
        spec_forward_filter(m, peers.drop_last())
    }
}

/// Delivery test: a broadcast, or addressed to this node.
pub open spec fn spec_is_for_us(our: Seq<char>, m: MeshMessageView) -> bool {
    match m.to {
        None => true,
        Some(to) => to == our,
    }
}

/// A peer receives a forwarded copy exactly when it is neither the sender
/// nor already on the path.
pub open spec fn spec_forward_target(m: MeshMessageView, peer: Seq<char>) -> bool {
    peer != m.from && !m.path.contains(peer)
}

proof fn lemma_seen_time_take_snoc(s: Seq<(String, u64)>, k: int, id: Seq<char>)
    requires
        0 <= k < s.len(),
    ensures
        s.subrange(0, k + 1) == s.subrange(0, k).push(s[k]),
{
    assert(s.subrange(0, k + 1) =~= s.subrange(0, k).push(s[k]));
}

pub proof fn lemma_seen_time_some_present(s: Seq<(String, u64)>, id: Seq<char>)
    requires
        seen_time(s, id) is Some,
    ensures
        exists|i: int| 0 <= i < s.len() && (#[trigger] s[i]).0@ == id,
    decreases s.len(),
{
    if s.len() > 0 {
        if s[0].0@ == id {
        } else {
            lemma_seen_time_some_present(s.drop_first(), id);
            let w = choose|i: int| 0 <= i < s.drop_first().len() && (#[trigger] s.drop_first()[i]).0@
                == id;
            assert(s[w + 1].0@ == id);
        }
    }
}

// ---------------------------------------------------------------------------
// the routing laws
// ---------------------------------------------------------------------------

/// Loop prevention: a message is delivered or forwarded only while this
/// node is absent from its path, and every forwarded copy carries this node
/// on its path.
pub proof fn lemma_admission_excludes_self(
    seen: Seq<(String, u64)>,
    our: Seq<char>,
    m: MeshMessageView,
    now: u64,
)
    requires
        spec_should_deliver(seen, our, m, now) || spec_should_forward(seen, our, m, now),
    ensures
        !m.path.contains(our),
        m.path.push(our).contains(our),
{
    assert(m.path.push(our)[m.path.len() as int] == our);
}

/// TTL discipline on an exhausted hop budget: a forwarded copy carries one
/// hop less (stopping at zero), and a message whose TTL has reached zero is
/// never forwarded; it is still delivered when it is directed to this node
/// and fresh, while a spent broadcast is not delivered either.
pub proof fn lemma_ttl_exhaustion(
    seen: Seq<(String, u64)>,
    our: Seq<char>,
    m: MeshMessageView,
    now: u64,
)
    requires
        m.ttl == 0,
    ensures
        !spec_should_forward(seen, our, m, now),
        !spec_should_process(seen, our, m, now),
        (m.to == Some(our) && !recently_seen(seen, m.message_id, now) && !m.path.contains(our))
            ==> spec_should_deliver(seen, our, m, now),
        m.to is None ==> !spec_should_deliver(seen, our, m, now),
{
}

/// Dedup window: once a message id is marked at time `t`, any message with
/// that id is neither delivered nor forwarded at any instant closer than
/// the window.
pub proof fn lemma_dedup_window(
    seen: Seq<(String, u64)>,
    our: Seq<char>,
    m: MeshMessageView,
    t: u64,
    now: u64,
)
    requires
        seen_time(seen, m.message_id) == Some(t),
        t <= now,
        now - t < DEDUP_WINDOW_MS,
    ensures
        !spec_should_process(seen, our, m, now),
        !spec_should_deliver(seen, our, m, now),
        !spec_should_forward(seen, our, m, now),
{
}

} // verus!
