//! Score-based forwarding: each candidate peer is scored from its metrics
//! in thousandths, latency weighted most, and the best-scored bounded
//! fan-out is selected.
use vstd::prelude::*;

verus! {

use vstd::multiset::Multiset;
use crate::peer::{PeerMetrics, spec_reliability_ppk};

/// The default bounded fan-out of the flood.
pub const FORWARD_FAN_OUT: usize = 3;

/// The latency component in thousandths: full marks at zero round trip,
/// nothing from one second up, half when unknown.
pub open spec fn spec_latency_component(latency_ms: Option<u64>) -> u64 {
    match latency_ms {
        None => 500,
        Some(l) => if l >= 1000 {
            0
        } else {
            (1000 - l) as u64
        },
    }
}

/// The uptime component in thousandths: full marks from one hour up.
pub open spec fn spec_uptime_component(uptime_secs: u64) -> u64 {
    if uptime_secs >= 3600 {
        1000
    } else {
        ((uptime_secs * 1000) / 3600) as u64
    }
}

/// The history component in thousandths: half when no samples exist.
pub open spec fn spec_history_component(history_ppk: Option<u32>) -> u64 {
    match history_ppk {
        None => 500,
        Some(h) => if h > 1000 {
            1000
        } else {
            h as u64
        },
    }
}

/// The forwarding score in thousandths: four tenths latency, two tenths
/// uptime, three tenths reliability, one tenth route history.
pub open spec fn spec_score_ppk(m: PeerMetrics, history_ppk: Option<u32>) -> u64 {
    ((400 * spec_latency_component(m.latency_ms) + 200 * spec_uptime_component(m.uptime_secs)
        + 300 * spec_reliability_ppk(m) + 100 * spec_history_component(history_ppk)) / 1000) as u64
}

/// Score a candidate peer for forwarding; the result is in thousandths.
pub fn calculate_score_ppk(m: &PeerMetrics, history_ppk: Option<u32>) -> (r: u64)
    ensures
        r == spec_score_ppk(*m, history_ppk),
        r <= 1000,
{
    let lat: u64 = match m.latency_ms {
        None => 500,
        Some(l) => if l >= 1000 {
            0
        } else {
            1000 - l
        },
    };
    let upt: u64 = if m.uptime_secs >= 3600 {
        1000
    } else {
        (m.uptime_secs * 1000) / 3600
    };
    let rel: u64 = m.reliability_ppk() as u64;
    let hist: u64 = match history_ppk {
        None => 500,
        Some(h) => if h > 1000 {
            1000
        } else {
            h as u64
        },
    };
    (400 * lat + 200 * upt + 300 * rel + 100 * hist) / 1000
}

/// Select the best-scored candidates: at most `k` of them, each taken from
/// the input, scores non-increasing, and every peer passed over scores no
/// better than any peer selected.
pub fn select_top_k(scored: &Vec<(String, u64)>, k: usize) -> (r: Vec<(String, u64)>)
    ensures
        r@.len() == (if k < scored@.len() {
            k as int
        } else {
            scored@.len() as int
        }),
        forall|i: int| 0 <= i < r@.len() ==> scored@.to_multiset().contains(#[trigger] r@[i]),
        forall|i: int, j: int| 0 <= i < j < r@.len() ==> (#[trigger] r@[i]).1 >= (
        #[trigger] r@[j]).1,
        forall|x: (String, u64)| #[trigger] scored@.to_multiset().count(x)
            > r@.to_multiset().count(x) ==> forall|i: int| 0 <= i < r@.len() ==> (
        #[trigger] r@[i]).1 >= x.1,
{
    let mut rem: Vec<(String, u64)> = Vec::new();
    let mut c: usize = 0;
    while c < scored.len()
        invariant
            c <= scored@.len(),
            rem@.len() == c,
            forall|m: int| 0 <= m < c ==> #[trigger] rem@[m] == scored@[m],
        decreases scored@.len() - c,
    {
        rem.push((scored[c].0.clone(), scored[c].1));
        proof {
            assert(rem@.last().0 == scored@[c as int].0 && rem@.last().1 == scored@[c as int].1);
            assert(rem@.last() == scored@[c as int]);
        }
        c = c + 1;
    }
    proof {
        assert(rem@ =~= scored@);
    }
    let mut r: Vec<(String, u64)> = Vec::new();
    proof {
        r@.to_multiset_ensures();
        assert(r@.to_multiset().len() == 0);
        assert(r@.to_multiset() =~= Multiset::<(String, u64)>::empty());
        assert(r@.to_multiset().add(rem@.to_multiset()) =~= rem@.to_multiset());
    }
    while r.len() < k && rem.len() > 0
        invariant
            r@.len() + rem@.len() == scored@.len(),
            r@.len() <= k,
            r@.to_multiset().add(rem@.to_multiset()) == scored@.to_multiset(),
            forall|i: int| 0 <= i < r@.len() ==> scored@.to_multiset().contains(
                #[trigger] r@[i],
            ),
            forall|i: int, j: int| 0 <= i < j < r@.len() ==> (#[trigger] r@[i]).1 >= (
            #[trigger] r@[j]).1,
            forall|i: int, j: int| 0 <= i < r@.len() && 0 <= j < rem@.len() ==> (
            #[trigger] r@[i]).1 >= (#[trigger] rem@[j]).1,
        decreases k - r@.len(),
    {
        let mut mi: usize = 0;
        let mut j: usize = 1;
        while j < rem.len()
            invariant
                mi < j <= rem@.len(),
                rem@.len() > 0,
                forall|m: int| 0 <= m < j ==> (#[trigger] rem@[m]).1 <= rem@[mi as int].1,
            decreases rem@.len() - j,
        {
            if rem[j].1 > rem[mi].1 {
                mi = j;
            }
            j = j + 1;
        }
        let ghost prev_rem = rem@;
        let ghost prev_r = r@;
        let e = rem.remove(mi);
        proof {
            prev_rem.to_multiset_ensures();
            prev_r.to_multiset_ensures();
            assert(rem@ == prev_rem.remove(mi as int));
            assert(e == prev_rem[mi as int]);
            assert(prev_rem.remove(mi as int).to_multiset() == prev_rem.to_multiset().remove(e));
            assert(prev_rem.contains(e)) by {
                assert(prev_rem[mi as int] == e);
            }
            assert(prev_rem.to_multiset().count(e) > 0);
        }
        r.push(e);
        proof {
            assert(r@ =~= prev_r.push(e));
            assert(r@.last() == e);
            assert(prev_r.push(e).to_multiset() == prev_r.to_multiset().insert(e));
            assert(r@.to_multiset() == prev_r.to_multiset().insert(e));
            assert(r@.to_multiset().add(rem@.to_multiset()) =~= scored@.to_multiset());
            assert(scored@.to_multiset().contains(e)) by {
                assert(scored@.to_multiset().count(e) >= prev_rem.to_multiset().count(e));
            }
            assert forall|i: int, j2: int|
                0 <= i < r@.len() && 0 <= j2 < rem@.len() implies (#[trigger] r@[i]).1 >= (
            #[trigger] rem@[j2]).1 by {
                assert(rem@[j2] == prev_rem.remove(mi as int)[j2]);
                if j2 < mi {
                    assert(rem@[j2] == prev_rem[j2]);
                } else {
                    assert(rem@[j2] == prev_rem[j2 + 1]);
                }
                if i < prev_r.len() {
                    assert(r@[i] == prev_r[i]);
                } else {
                    assert(r@[i] == e);
                }
            }
            assert forall|i: int, j2: int| 0 <= i < j2 < r@.len() implies (#[trigger] r@[i]).1
                >= (#[trigger] r@[j2]).1 by {
                if j2 == r@.len() - 1 {
                    assert(r@[i] == prev_r[i]);
                    assert(prev_rem[mi as int] == e);
                    assert(prev_rem.contains(e));
                }
            }
        }
    }
    proof {
        rem@.to_multiset_ensures();
        if r@.len() < k {
            assert(rem@.len() == 0);
            assert(rem@.to_multiset().len() == 0);
        }
        assert forall|x: (String, u64)| #[trigger] scored@.to_multiset().count(x)
            > r@.to_multiset().count(x) implies forall|i: int| 0 <= i < r@.len() ==> (
        #[trigger] r@[i]).1 >= x.1 by {
            assert(scored@.to_multiset().count(x) == r@.to_multiset().count(x)
                + rem@.to_multiset().count(x));
            assert(rem@.to_multiset().count(x) > 0);
            assert(rem@.to_multiset().contains(x));
            assert(rem@.contains(x));
            let w = choose|w: int| 0 <= w < rem@.len() && rem@[w] == x;
            assert forall|i: int| 0 <= i < r@.len() implies (#[trigger] r@[i]).1 >= x.1 by {
                assert(r@[i].1 >= rem@[w].1);
            }
        }
    }
    r
}

// ---------------------------------------------------------------------------
// route history
// ---------------------------------------------------------------------------

/// The first history entry for this peer: successes and failures.
pub open spec fn history_of(s: Seq<(String, u32, u32)>, peer: Seq<char>) -> Option<(u32, u32)>
    decreases s.len(),
{
    if s.len() == 0 {
        None
    } else if s[0].0@ == peer {
        Some((s[0].1, s[0].2))
    } else {
        history_of(s.drop_first(), peer)
    }
}

/// Rolling success and failure samples per forwarding peer.
pub struct RouteHistory {
    /// Peer id, successes, failures; ids unique.
    pub entries: Vec<(String, u32, u32)>,
}

impl RouteHistory {
    /// Peer ids in the table are unique.
    pub open spec fn wf(&self) -> bool {
        forall|i: int, j: int| 0 <= i < j < self.entries@.len() ==> (
        #[trigger] self.entries@[i]).0@ != (#[trigger] self.entries@[j]).0@
    }

    /// An empty history.
    pub fn new() -> (r: RouteHistory)
        ensures
            r.wf(),
            r.entries@.len() == 0,
    {
        RouteHistory { entries: Vec::new() }
    }

    /// The index of the peer's entry, when one exists.
    fn find(&self, peer: &str) -> (r: Option<usize>)
        ensures
            r matches Some(i) ==> i < self.entries@.len() && self.entries@[i as int].0@ == peer@
                && (forall|j: int| 0 <= j < i ==> (#[trigger] self.entries@[j]).0@ != peer@),
            r is None ==> forall|j: int| 0 <= j < self.entries@.len() ==> (
            #[trigger] self.entries@[j]).0@ != peer@,
    {
        let mid: String = peer.to_owned();
        let mut k: usize = 0;
        while k < self.entries.len()
            invariant
                k <= self.entries@.len(),
                mid@ == peer@,
                forall|j: int| 0 <= j < k ==> (#[trigger] self.entries@[j]).0@ != peer@,
            decreases self.entries@.len() - k,
        {
            if self.entries[k].0 == mid {
                return Some(k);
            }
            k = k + 1;
        }
        None
    }

    /// Count one routing outcome against the peer; other entries do not
    /// move, and a first sample creates the entry.
    pub fn record(&mut self, peer: &str, success: bool)
        requires
            old(self).wf(),
        ensures
            final(self).wf(),
            forall|i: int| 0 <= i < old(self).entries@.len() ==> #[trigger] final(self).entries@[i] == (if old(self).entries@[i].0@ == peer@ {
                (
                    old(self).entries@[i].0,
                    if success && old(self).entries@[i].1 < u32::MAX {
                        (old(self).entries@[i].1 + 1) as u32
                    } else {
                        old(self).entries@[i].1
                    },
                    if !success && old(self).entries@[i].2 < u32::MAX {
                        (old(self).entries@[i].2 + 1) as u32
                    } else {
                        old(self).entries@[i].2
                    },
                )
            } else {
                old(self).entries@[i]
            }),
            final(self).entries@.len() == (if history_of(old(self).entries@, peer@) is Some {
                old(self).entries@.len()
            } else {
                old(self).entries@.len() + 1
            }),
            history_of(old(self).entries@, peer@) is None ==> final(self).entries@.last().0@
                == peer@ && final(self).entries@.last().1 == (if success {
                1u32
            } else {
                0u32
            }) && final(self).entries@.last().2 == (if success {
                0u32
            } else {
                1u32
            }),
    {
        match self.find(peer) {
            Some(i) => {
                proof {
                    lemma_history_of_first(self.entries@, i as int, peer@);
                }
                let (name, s0, f0) = (
                    self.entries[i].0.clone(),
                    self.entries[i].1,
                    self.entries[i].2,
                );
                let s1: u32 = if success && s0 < u32::MAX {
                    s0 + 1
                } else {
                    s0
                };
                let f1: u32 = if !success && f0 < u32::MAX {
                    f0 + 1
                } else {
                    f0
                };
                self.entries.set(i, (name, s1, f1));
                proof {
                    assert forall|a: int, b: int| 0 <= a < b < self.entries@.len() implies (
                    #[trigger] self.entries@[a]).0@ != (#[trigger] self.entries@[b]).0@ by {
                        assert(self.entries@[a].0@ == old(self).entries@[a].0@);
                        assert(self.entries@[b].0@ == old(self).entries@[b].0@);
                    }
                }
            },
            None => {
                proof {
                    lemma_history_of_absent(self.entries@, peer@);
                }
                let s1: u32 = if success {
                    1
                } else {
                    0
                };
                let f1: u32 = if success {
                    0
                } else {
                    1
                };
                self.entries.push((peer.to_owned(), s1, f1));
                proof {
                    assert forall|a: int, b: int| 0 <= a < b < self.entries@.len() implies (
                    #[trigger] self.entries@[a]).0@ != (#[trigger] self.entries@[b]).0@ by {
                        if b == self.entries@.len() - 1 {
                            assert(self.entries@[a].0@ == old(self).entries@[a].0@);
                        } else {
                            assert(self.entries@[a].0@ == old(self).entries@[a].0@);
                            assert(self.entries@[b].0@ == old(self).entries@[b].0@);
                        }
                    }
                }
            },
        }
    }

    /// The rolling success ratio in thousandths; none when the peer has no
    /// samples yet, so that scoring falls back to its half-mark default.
    pub fn history_ppk(&self, peer: &str) -> (r: Option<u32>)
        requires
            self.wf(),
        ensures
            r is Some <==> (history_of(self.entries@, peer@) matches Some(h) && h.0 + h.1 > 0),
            r matches Some(v) ==> (history_of(self.entries@, peer@) matches Some(h) && v == (
            h.0 as u64 * 1000 / (h.0 as u64 + h.1 as u64)) as u32 && v <= 1000),
    {
        match self.find(peer) {
            Some(i) => {
                proof {
                    lemma_history_of_first(self.entries@, i as int, peer@);
                }
                let s = self.entries[i].1;
                let f = self.entries[i].2;
                let total: u64 = s as u64 + f as u64;
                if total == 0 {
                    return None;
                }
                proof {
                    let sc: int = s as int;
                    let tt: int = total as int;
                    assert(sc * 1000 / tt <= 1000) by (nonlinear_arith)
                        requires
                            tt > 0,
                            0 <= sc <= tt,
                    ;
                }
                Some(((s as u64 * 1000) / total) as u32)
            },
            None => {
                proof {
                    lemma_history_of_absent(self.entries@, peer@);
                }
                None
            },
        }
    }
}

proof fn lemma_history_of_first(s: Seq<(String, u32, u32)>, i: int, peer: Seq<char>)
    requires
        0 <= i < s.len(),
        s[i].0@ == peer,
        forall|j: int| 0 <= j < i ==> (#[trigger] s[j]).0@ != peer,
    ensures
        history_of(s, peer) == Some((s[i].1, s[i].2)),
    decreases i,
{
    if i == 0 {
    } else {
        assert(s.drop_first()[i - 1] == s[i]);
        assert(forall|j: int| 0 <= j < i - 1 ==> s.drop_first()[j] == s[j + 1]);
        lemma_history_of_first(s.drop_first(), i - 1, peer);
    }
}

proof fn lemma_history_of_absent(s: Seq<(String, u32, u32)>, peer: Seq<char>)
    requires
        forall|j: int| 0 <= j < s.len() ==> (#[trigger] s[j]).0@ != peer,
    ensures
        history_of(s, peer) is None,
    decreases s.len(),
{
    if s.len() > 0 {
        assert(forall|j: int| 0 <= j < s.drop_first().len() ==> s.drop_first()[j] == s[j + 1]);
        lemma_history_of_absent(s.drop_first(), peer);
    }
}

// ---------------------------------------------------------------------------
// the routing decision record
// ---------------------------------------------------------------------------

/// The routed message's situation at decision time.
#[derive(Debug, Clone, PartialEq, Eq)]
pub struct MessageContext {
    pub ttl: u8,
    pub path_length: usize,
    pub is_broadcast: bool,
    pub target_peer: Option<String>,
}

/// One structured forwarding decision, for offline analysis when the
/// routing-debug flag is set: the message, the scored selection, every
/// candidate's score, and the message context.
#[derive(Debug, Clone, PartialEq, Eq)]
pub struct RoutingDecisionRecord {
    pub message_id: String,
    pub node_id: String,
    pub from_peer: String,
    /// Selected peers with their scores in thousandths.
    pub selected_peers: Vec<(String, u64)>,
    /// Every candidate with its score in thousandths.
    pub available_peers: Vec<(String, u64)>,
    pub message_context: MessageContext,
}

/// Assemble the decision record; every field carries its argument over
/// unchanged.
pub fn build_routing_record(
    message_id: String,
    node_id: String,
    from_peer: String,
    selected_peers: Vec<(String, u64)>,
    available_peers: Vec<(String, u64)>,
    ttl: u8,
    path_length: usize,
    is_broadcast: bool,
    target_peer: Option<String>,
) -> (r: RoutingDecisionRecord)
    ensures
        r.message_id@ == message_id@,
        r.node_id@ == node_id@,
        r.from_peer@ == from_peer@,
        r.selected_peers@ == selected_peers@,
        r.available_peers@ == available_peers@,
        r.message_context.ttl == ttl,
        r.message_context.path_length == path_length,
        r.message_context.is_broadcast == is_broadcast,
        r.message_context.target_peer == target_peer,
{
    RoutingDecisionRecord {
        message_id,
        node_id,
        from_peer,
        selected_peers,
        available_peers,
        message_context: MessageContext { ttl, path_length, is_broadcast, target_peer },
    }
}

} // verus!
