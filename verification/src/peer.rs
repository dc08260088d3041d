//! Peer lifecycle: connection states, per-peer metrics, staleness, dial
//! cooldown with exponential backoff, and the bounded candidate selection
//! that keeps connection counts under their caps.
use vstd::prelude::*;

verus! {

use vstd::pervasive::VecAdditionalExecFns;
use vstd::multiset::Multiset;

/// A peer is not considered stale within this grace after first sight
/// (milliseconds).
pub const STALE_GRACE_MS: u64 = 30_000;

/// The backoff exponent stops growing after this many attempts.
pub const BACKOFF_EXP_CAP: u32 = 6;

/// Connection state of a peer.
#[derive(Debug, Clone, Copy, PartialEq, Eq, Structural)]
pub enum ConnectionState {
    /// Not connected.
    Disconnected,
    /// Attempting to connect.
    Connecting,
    /// Handshake in progress.
    Handshaking,
    /// Fully connected and ready.
    Connected,
    /// Connection is closing.
    Closing,
}

/// Latency, uptime and reliability samples for one peer.
#[derive(Debug, Clone, Copy, PartialEq, Eq, Structural)]
pub struct PeerMetrics {
    /// Exponential moving average of measured round trips, milliseconds.
    pub latency_ms: Option<u64>,
    /// Cumulative uptime since the most recent connect, seconds.
    pub uptime_secs: u64,
    pub ping_count: u32,
    pub ping_failures: u32,
}

/// Round trips are clipped to this ceiling before entering the average.
pub const LATENCY_CAP_MS: u64 = 1_000_000_000;

impl PeerMetrics {
    /// Fresh metrics with no samples.
    pub fn new() -> (r: PeerMetrics)
        ensures
            r.latency_ms is None,
            r.uptime_secs == 0,
            r.ping_count == 0,
            r.ping_failures == 0,
    {
        PeerMetrics { latency_ms: None, uptime_secs: 0, ping_count: 0, ping_failures: 0 }
    }

    /// Fold a measured round trip into the moving average with smoothing
    /// factor three tenths, and count the ping.
    pub fn record_ping_success(&mut self, rtt_ms: u64)
        ensures
            final(self).latency_ms == Some(spec_ema(old(self).latency_ms, rtt_ms)),
            final(self).ping_count == (if old(self).ping_count < u32::MAX {
                (old(self).ping_count + 1) as u32
            } else {
                u32::MAX
            }),
            final(self).ping_failures == old(self).ping_failures,
            final(self).uptime_secs == old(self).uptime_secs,
    {
        let sample: u64 = if rtt_ms > LATENCY_CAP_MS {
            LATENCY_CAP_MS
        } else {
            rtt_ms
        };
        let nl: u64 = match self.latency_ms {
            None => sample,
            Some(old_l) => {
                let ol: u64 = if old_l > LATENCY_CAP_MS {
                    LATENCY_CAP_MS
                } else {
                    old_l
                };
                (3 * sample + 7 * ol) / 10
            },
        };
        self.latency_ms = Some(nl);
        if self.ping_count < u32::MAX {
            self.ping_count = self.ping_count + 1;
        }
    }

    /// Count a ping that got no answer.
    pub fn record_ping_failure(&mut self)
        ensures
            final(self).ping_failures == (if old(self).ping_failures < u32::MAX {
                (old(self).ping_failures + 1) as u32
            } else {
                u32::MAX
            }),
            final(self).ping_count == old(self).ping_count,
            final(self).latency_ms == old(self).latency_ms,
            final(self).uptime_secs == old(self).uptime_secs,
    {
        if self.ping_failures < u32::MAX {
            self.ping_failures = self.ping_failures + 1;
        }
    }

    /// The fraction of pings answered, in thousandths; half when no sample
    /// exists yet.
    pub fn reliability_ppk(&self) -> (r: u32)
        ensures
            r == spec_reliability_ppk(*self),
            r <= 1000,
    {
        let total: u64 = self.ping_count as u64 + self.ping_failures as u64;
        if total == 0 {
            500
        } else {
            proof {
                let pc: int = self.ping_count as int;
                let tt: int = total as int;
                assert(pc * 1000 / tt <= 1000) by (nonlinear_arith)
                    requires
                        tt > 0,
                        0 <= pc <= tt,
                ;
            }
            ((self.ping_count as u64 * 1000) / total) as u32
        }
    }
}

/// The moving average after one sample: the whole sample when none existed,
/// else three tenths of the new and seven of the old.
pub open spec fn spec_ema(old_l: Option<u64>, rtt_ms: u64) -> u64 {
    let sample: u64 = if rtt_ms > LATENCY_CAP_MS {
        LATENCY_CAP_MS
    } else {
        rtt_ms
    };
    match old_l {
        None => sample,
        Some(l) => {
            let ol: u64 = if l > LATENCY_CAP_MS {
                LATENCY_CAP_MS
            } else {
                l
            };
            ((3 * sample + 7 * ol) / 10) as u64
        },
    }
}

/// `ping_count / (ping_count + ping_failures)` in thousandths, half when no
/// samples exist.
pub open spec fn spec_reliability_ppk(m: PeerMetrics) -> u32 {
    if m.ping_count + m.ping_failures == 0 {
        500
    } else {
        ((m.ping_count as u64 * 1000) / (m.ping_count as u64 + m.ping_failures as u64)) as u32
    }
}

/// Everything the node tracks about one peer ever seen.
#[derive(Debug, Clone, PartialEq, Eq)]
pub struct PeerInfo {
    pub node_id: String,
    /// host:port to dial.
    pub address: String,
    pub state: ConnectionState,
    pub protocol_version: Option<u8>,
    /// Milliseconds, from the node's clock.
    pub last_seen: Option<u64>,
    pub connected_at: Option<u64>,
    pub connection_attempts: u32,
    /// When this peer was first added, milliseconds.
    pub added_at: u64,
    /// When the dialer last attempted this peer, milliseconds.
    pub last_attempt_at: Option<u64>,
    pub metrics: PeerMetrics,
}

impl PeerInfo {
    /// A newly sighted peer: disconnected, no samples.
    pub fn new(node_id: String, address: String, now: u64) -> (r: PeerInfo)
        ensures
            r.node_id@ == node_id@,
            r.address@ == address@,
            r.state is Disconnected,
            r.protocol_version is None,
            r.last_seen is None,
            r.connected_at is None,
            r.connection_attempts == 0,
            r.added_at == now,
            r.last_attempt_at is None,
            r.metrics == PeerMetrics::spec_fresh(),
    {
        PeerInfo {
            node_id,
            address,
            state: ConnectionState::Disconnected,
            protocol_version: None,
            last_seen: None,
            connected_at: None,
            connection_attempts: 0,
            added_at: now,
            last_attempt_at: None,
            metrics: PeerMetrics::new(),
        }
    }

    /// A field-for-field copy, proved equal to the original.
    pub fn duplicate(&self) -> (r: PeerInfo)
        ensures
            r == *self,
    {
        PeerInfo {
            node_id: self.node_id.clone(),
            address: self.address.clone(),
            state: self.state,
            protocol_version: self.protocol_version,
            last_seen: self.last_seen,
            connected_at: self.connected_at,
            connection_attempts: self.connection_attempts,
            added_at: self.added_at,
            last_attempt_at: self.last_attempt_at,
            metrics: self.metrics,
        }
    }

    /// Whether the peer holds a live, handshaken connection.
    pub fn is_connected(&self) -> (r: bool)
        ensures
            r == (self.state is Connected),
    {
        self.state == ConnectionState::Connected
    }

    /// Note traffic from this peer now.
    pub fn update_last_seen(&mut self, now: u64)
        ensures
            *final(self) == (PeerInfo { last_seen: Some(now), ..*old(self) }),
    {
        self.last_seen = Some(now);
    }

    /// Staleness: silent for longer than the timeout, and past the grace
    /// period after first sight.
    pub fn is_stale(&self, now: u64, timeout_ms: u64) -> (r: bool)
        ensures
            r == spec_is_stale(*self, now, timeout_ms),
    {
        if now <= self.added_at || now - self.added_at < STALE_GRACE_MS {
            return false;
        }
        match self.last_seen {
            Some(ls) => ls < now && now - ls > timeout_ms,
            None => now - self.added_at > timeout_ms,
        }
    }
}

impl PeerMetrics {
    pub open spec fn spec_fresh() -> PeerMetrics {
        PeerMetrics { latency_ms: None, uptime_secs: 0, ping_count: 0, ping_failures: 0 }
    }
}

/// Stale: added more than the grace ago, and the last sign of life (or the
/// first sight, if none) is older than the timeout.
pub open spec fn spec_is_stale(p: PeerInfo, now: u64, timeout_ms: u64) -> bool {
    &&& now > p.added_at
    &&& now - p.added_at >= STALE_GRACE_MS
    &&& match p.last_seen {
        Some(ls) => ls < now && now - ls > timeout_ms,
        None => now - p.added_at > timeout_ms,
    }
}

// ---------------------------------------------------------------------------
// the peer table
// ---------------------------------------------------------------------------

/// The first entry with this node id.
pub open spec fn peer_of(s: Seq<PeerInfo>, id: Seq<char>) -> Option<PeerInfo>
    decreases s.len(),
{
    if s.len() == 0 {
        None
    } else if s[0].node_id@ == id {
        Some(s[0])
    } else {
        peer_of(s.drop_first(), id)
    }
}

/// Peer manager: one record per peer ever seen, ids unique.
pub struct PeerManager {
    pub peers: Vec<PeerInfo>,
    pub our_node_id: String,
    pub our_listen_port: u16,
}

impl PeerManager {
    /// Node ids in the table are unique.
    pub open spec fn wf(&self) -> bool {
        forall|i: int, j: int| 0 <= i < j < self.peers@.len() ==> (
        #[trigger] self.peers@[i]).node_id@ != (#[trigger] self.peers@[j]).node_id@
    }

    /// A fresh manager with no peers.
    pub fn new(our_node_id: String, our_listen_port: u16) -> (r: PeerManager)
        ensures
            r.wf(),
            r.peers@.len() == 0,
            r.our_node_id@ == our_node_id@,
            r.our_listen_port == our_listen_port,
    {
        PeerManager { peers: Vec::new(), our_node_id, our_listen_port }
    }

    /// The index of the peer with this id, when present.
    fn find(&self, node_id: &str) -> (r: Option<usize>)
        ensures
            r matches Some(i) ==> i < self.peers@.len() && self.peers@[i as int].node_id@
                == node_id@ && (forall|j: int| 0 <= j < i ==> (
            #[trigger] self.peers@[j]).node_id@ != node_id@),
            r is None ==> forall|j: int| 0 <= j < self.peers@.len() ==> (
            #[trigger] self.peers@[j]).node_id@ != node_id@,
    {
        let mid: String = node_id.to_owned();
        let mut k: usize = 0;
        while k < self.peers.len()
            invariant
                k <= self.peers@.len(),
                mid@ == node_id@,
                forall|j: int| 0 <= j < k ==> (#[trigger] self.peers@[j]).node_id@ != node_id@,
            decreases self.peers@.len() - k,
        {
            if self.peers[k].node_id == mid {
                return Some(k);
            }
            k = k + 1;
        }
        None
    }

    /// Look a peer up by id: exactly the first-match view of the table.
    pub fn get_peer(&self, node_id: &str) -> (r: Option<PeerInfo>)
        requires
            self.wf(),
        ensures
            r == peer_of(self.peers@, node_id@),
    {
        match self.find(node_id) {
            Some(i) => {
                proof {
                    lemma_peer_of_first(self.peers@, i as int, node_id@);
                }
                Some(self.peers[i].duplicate())
            },
            None => {
                proof {
                    lemma_peer_of_absent(self.peers@, node_id@);
                }
                None
            },
        }
    }

    /// Add a peer, or refresh its address and last-seen time when it is
    /// already known.
    pub fn add_peer(&mut self, node_id: String, address: String, now: u64)
        requires
            old(self).wf(),
        ensures
            final(self).wf(),
            final(self).our_node_id == old(self).our_node_id,
            final(self).our_listen_port == old(self).our_listen_port,
            forall|i: int| 0 <= i < old(self).peers@.len() ==> #[trigger] final(self).peers@[i]
                == (if old(self).peers@[i].node_id@ == node_id@ {
                (PeerInfo {
                    address: address,
                    last_seen: Some(now),
                    ..old(self).peers@[i]
                })
            } else {
                old(self).peers@[i]
            }),
            final(self).peers@.len() == (if peer_of(old(self).peers@, node_id@) is Some {
                old(self).peers@.len()
            } else {
                old(self).peers@.len() + 1
            }),
            peer_of(old(self).peers@, node_id@) is None ==> final(self).peers@.last().node_id@
                == node_id@ && final(self).peers@.last().address@ == address@ && final(self).peers@.last().state is Disconnected && final(self).peers@.last().added_at == now
                && final(self).peers@.last().connection_attempts == 0 && final(self).peers@.last().last_seen is None && final(self).peers@.last().last_attempt_at is None
                && final(self).peers@.last().metrics == PeerMetrics::spec_fresh() && final(self).peers@.last().protocol_version is None && final(self).peers@.last().connected_at
                is None,
    {
        match self.find(node_id.as_str()) {
            Some(i) => {
                proof {
                    lemma_peer_of_first(self.peers@, i as int, node_id@);
                }
                let mut p = self.peers[i].duplicate();
                p.address = address;
                p.last_seen = Some(now);
                self.peers.set(i, p);
                proof {
                    assert forall|a: int, b: int| 0 <= a < b < self.peers@.len() implies (
                    #[trigger] self.peers@[a]).node_id@ != (#[trigger] self.peers@[b]).node_id@
                        by {
                        assert(self.peers@[a].node_id@ == old(self).peers@[a].node_id@);
                        assert(self.peers@[b].node_id@ == old(self).peers@[b].node_id@);
                    }
                }
            },
            None => {
                proof {
                    lemma_peer_of_absent(self.peers@, node_id@);
                }
                let fresh = PeerInfo::new(node_id, address, now);
                self.peers.push(fresh);
                proof {
                    assert forall|a: int, b: int| 0 <= a < b < self.peers@.len() implies (
                    #[trigger] self.peers@[a]).node_id@ != (#[trigger] self.peers@[b]).node_id@
                        by {
                        if b == self.peers@.len() - 1 {
                            assert(self.peers@[a].node_id@ == old(self).peers@[a].node_id@);
                        } else {
                            assert(self.peers@[a].node_id@ == old(self).peers@[a].node_id@);
                            assert(self.peers@[b].node_id@ == old(self).peers@[b].node_id@);
                        }
                    }
                }
            },
        }
    }

    /// Set a peer's lifecycle state; entering Connected also stamps the
    /// connect time and the last-seen time.
    pub fn update_peer_state(&mut self, node_id: &str, state: ConnectionState, now: u64)
        requires
            old(self).wf(),
        ensures
            final(self).wf(),
            final(self).our_node_id == old(self).our_node_id,
            final(self).our_listen_port == old(self).our_listen_port,
            final(self).peers@.len() == old(self).peers@.len(),
            forall|i: int| 0 <= i < old(self).peers@.len() ==> #[trigger] final(self).peers@[i]
                == (if old(self).peers@[i].node_id@ == node_id@ {
                (PeerInfo {
                    state: state,
                    connected_at: if state is Connected {
                        Some(now)
                    } else {
                        old(self).peers@[i].connected_at
                    },
                    last_seen: if state is Connected {
                        Some(now)
                    } else {
                        old(self).peers@[i].last_seen
                    },
                    ..old(self).peers@[i]
                })
            } else {
                old(self).peers@[i]
            }),
    {
        match self.find(node_id) {
            Some(i) => {
                let mut p = self.peers[i].duplicate();
                p.state = state;
                if state == ConnectionState::Connected {
                    p.connected_at = Some(now);
                    p.last_seen = Some(now);
                }
                self.peers.set(i, p);
                proof {
                    self.lemma_pointwise_wf(old(self));
                }
            },
            None => {},
        }
    }

    /// Record a peer's protocol version.
    pub fn update_peer_protocol(&mut self, node_id: &str, version: u8)
        requires
            old(self).wf(),
        ensures
            final(self).wf(),
            final(self).our_node_id == old(self).our_node_id,
            final(self).our_listen_port == old(self).our_listen_port,
            final(self).peers@.len() == old(self).peers@.len(),
            forall|i: int| 0 <= i < old(self).peers@.len() ==> #[trigger] final(self).peers@[i]
                == (if old(self).peers@[i].node_id@ == node_id@ {
                (PeerInfo { protocol_version: Some(version), ..old(self).peers@[i] })
            } else {
                old(self).peers@[i]
            }),
    {
        match self.find(node_id) {
            Some(i) => {
                let mut p = self.peers[i].duplicate();
                p.protocol_version = Some(version);
                self.peers.set(i, p);
                proof {
                    self.lemma_pointwise_wf(old(self));
                }
            },
            None => {},
        }
    }

    /// Count a dial attempt against this peer and stamp its time, for the
    /// backoff cooldown.
    pub fn increment_connection_attempts(&mut self, node_id: &str, now: u64)
        requires
            old(self).wf(),
        ensures
            final(self).wf(),
            final(self).our_node_id == old(self).our_node_id,
            final(self).our_listen_port == old(self).our_listen_port,
            final(self).peers@.len() == old(self).peers@.len(),
            forall|i: int| 0 <= i < old(self).peers@.len() ==> #[trigger] final(self).peers@[i]
                == (if old(self).peers@[i].node_id@ == node_id@ {
                (PeerInfo {
                    connection_attempts: if old(self).peers@[i].connection_attempts < u32::MAX {
                        (old(self).peers@[i].connection_attempts + 1) as u32
                    } else {
                        u32::MAX
                    },
                    last_attempt_at: Some(now),
                    ..old(self).peers@[i]
                })
            } else {
                old(self).peers@[i]
            }),
    {
        match self.find(node_id) {
            Some(i) => {
                let mut p = self.peers[i].duplicate();
                if p.connection_attempts < u32::MAX {
                    p.connection_attempts = p.connection_attempts + 1;
                }
                p.last_attempt_at = Some(now);
                self.peers.set(i, p);
                proof {
                    self.lemma_pointwise_wf(old(self));
                }
            },
            None => {},
        }
    }

    /// Note traffic from this peer now.
    pub fn update_peer_last_seen(&mut self, node_id: &str, now: u64)
        requires
            old(self).wf(),
        ensures
            final(self).wf(),
            final(self).our_node_id == old(self).our_node_id,
            final(self).our_listen_port == old(self).our_listen_port,
            final(self).peers@.len() == old(self).peers@.len(),
            forall|i: int| 0 <= i < old(self).peers@.len() ==> #[trigger] final(self).peers@[i]
                == (if old(self).peers@[i].node_id@ == node_id@ {
                (PeerInfo { last_seen: Some(now), ..old(self).peers@[i] })
            } else {
                old(self).peers@[i]
            }),
    {
        match self.find(node_id) {
            Some(i) => {
                let mut p = self.peers[i].duplicate();
                p.last_seen = Some(now);
                self.peers.set(i, p);
                proof {
                    self.lemma_pointwise_wf(old(self));
                }
            },
            None => {},
        }
    }

    /// Fold a ping outcome into the peer's metrics.
    pub fn record_ping_result(&mut self, node_id: &str, success: bool, rtt_ms: u64)
        requires
            old(self).wf(),
        ensures
            final(self).wf(),
            final(self).our_node_id == old(self).our_node_id,
            final(self).our_listen_port == old(self).our_listen_port,
            final(self).peers@.len() == old(self).peers@.len(),
            forall|i: int| 0 <= i < old(self).peers@.len() ==> #[trigger] final(self).peers@[i]
                == (if old(self).peers@[i].node_id@ == node_id@ {
                (PeerInfo {
                    metrics: spec_metrics_after_ping(old(self).peers@[i].metrics, success, rtt_ms),
                    ..old(self).peers@[i]
                })
            } else {
                old(self).peers@[i]
            }),
    {
        match self.find(node_id) {
            Some(i) => {
                let mut p = self.peers[i].duplicate();
                if success {
                    p.metrics.record_ping_success(rtt_ms);
                } else {
                    p.metrics.record_ping_failure();
                }
                self.peers.set(i, p);
                proof {
                    self.lemma_pointwise_wf(old(self));
                }
            },
            None => {},
        }
    }

    /// Every peer record, copied.
    pub fn get_all_peers(&self) -> (r: Vec<PeerInfo>)
        ensures
            r@ == self.peers@,
    {
        let mut r: Vec<PeerInfo> = Vec::new();
        let mut k: usize = 0;
        while k < self.peers.len()
            invariant
                k <= self.peers@.len(),
                r@ == self.peers@.subrange(0, k as int),
            decreases self.peers@.len() - k,
        {
            r.push(self.peers[k].duplicate());
            proof {
                assert(r@ =~= self.peers@.subrange(0, k + 1 as int));
            }
            k = k + 1;
        }
        proof {
            assert(self.peers@.subrange(0, self.peers@.len() as int) =~= self.peers@);
        }
        r
    }

    /// The peers currently holding a live connection, in table order.
    pub fn get_connected_peers(&self) -> (r: Vec<PeerInfo>)
        ensures
            r@ == spec_connected(self.peers@),
    {
        let mut r: Vec<PeerInfo> = Vec::new();
        let mut k: usize = 0;
        proof {
            assert(self.peers@.take(0) =~= Seq::<PeerInfo>::empty());
        }
        while k < self.peers.len()
            invariant
                k <= self.peers@.len(),
                r@ == spec_connected(self.peers@.take(k as int)),
            decreases self.peers@.len() - k,
        {
            proof {
                assert(self.peers@.take(k + 1 as int).drop_last() =~= self.peers@.take(k as int));
                assert(self.peers@.take(k + 1 as int).last() == self.peers@[k as int]);
            }
            if self.peers[k].is_connected() {
                r.push(self.peers[k].duplicate());
            }
            k = k + 1;
        }
        proof {
            assert(self.peers@.take(self.peers@.len() as int) =~= self.peers@);
        }
        r
    }

    /// Evict every peer that is stale and not in an active state; returns
    /// how many left.
    pub fn remove_stale_peers(&mut self, now: u64, timeout_ms: u64) -> (removed: usize)
        requires
            old(self).wf(),
        ensures
            final(self).wf(),
            final(self).our_node_id == old(self).our_node_id,
            final(self).our_listen_port == old(self).our_listen_port,
            final(self).peers@ == spec_keep_fresh(old(self).peers@, now, timeout_ms),
            removed == old(self).peers@.len() - final(self).peers@.len(),
    {
        let before = self.peers.len();
        let mut kept: Vec<PeerInfo> = Vec::new();
        let mut k: usize = 0;
        proof {
            assert(self.peers@.take(0) =~= Seq::<PeerInfo>::empty());
        }
        while k < self.peers.len()
            invariant
                k <= self.peers@.len(),
                old(self) == self,
                kept@ == spec_keep_fresh(self.peers@.take(k as int), now, timeout_ms),
            decreases self.peers@.len() - k,
        {
            proof {
                assert(self.peers@.take(k + 1 as int).drop_last() =~= self.peers@.take(k as int));
                assert(self.peers@.take(k + 1 as int).last() == self.peers@[k as int]);
            }
            let p = &self.peers[k];
            let active = p.state == ConnectionState::Connecting || p.state
                == ConnectionState::Handshaking || p.state == ConnectionState::Connected;
            if active || !p.is_stale(now, timeout_ms) {
                kept.push(p.duplicate());
            }
            k = k + 1;
        }
        proof {
            assert(self.peers@.take(self.peers@.len() as int) =~= self.peers@);
            lemma_keep_fresh_len(self.peers@, now, timeout_ms);
            lemma_keep_fresh_unique(self.peers@, now, timeout_ms);
        }
        self.peers = kept;
        before - self.peers.len()
    }
}

/// The metrics after one ping outcome.
pub open spec fn spec_metrics_after_ping(m: PeerMetrics, success: bool, rtt_ms: u64)
    -> PeerMetrics {
    if success {
        PeerMetrics {
            latency_ms: Some(spec_ema(m.latency_ms, rtt_ms)),
            ping_count: if m.ping_count < u32::MAX {
                (m.ping_count + 1) as u32
            } else {
                u32::MAX
            },
            ..m
        }
    } else {
        PeerMetrics {
            ping_failures: if m.ping_failures < u32::MAX {
                (m.ping_failures + 1) as u32
            } else {
                u32::MAX
            },
            ..m
        }
    }
}

/// The connected entries, in order.
pub open spec fn spec_connected(s: Seq<PeerInfo>) -> Seq<PeerInfo>
    decreases s.len(),
{
    if s.len() == 0 {
        Seq::empty()
    } else if s.last().state is Connected {
        spec_connected(s.drop_last()).push(s.last())
    } else {
        spec_connected(s.drop_last())
    }
}

/// A peer survives eviction when it is in an active state or not stale.
pub open spec fn spec_peer_kept(p: PeerInfo, now: u64, timeout_ms: u64) -> bool {
    p.state is Connecting || p.state is Handshaking || p.state is Connected || !spec_is_stale(
        p,
        now,
        timeout_ms,
    )
}

/// The surviving entries, in order.
pub open spec fn spec_keep_fresh(s: Seq<PeerInfo>, now: u64, timeout_ms: u64) -> Seq<PeerInfo>
    decreases s.len(),
{
    if s.len() == 0 {
        Seq::empty()
    } else if spec_peer_kept(s.last(), now, timeout_ms) {
        spec_keep_fresh(s.drop_last(), now, timeout_ms).push(s.last())
    } else {
        spec_keep_fresh(s.drop_last(), now, timeout_ms)
    }
}

proof fn lemma_keep_fresh_len(s: Seq<PeerInfo>, now: u64, timeout_ms: u64)
    ensures
        spec_keep_fresh(s, now, timeout_ms).len() <= s.len(),
        forall|m: int| 0 <= m < spec_keep_fresh(s, now, timeout_ms).len() ==> s.contains(
            #[trigger] spec_keep_fresh(s, now, timeout_ms)[m],
        ),
    decreases s.len(),
{
    if s.len() > 0 {
        lemma_keep_fresh_len(s.drop_last(), now, timeout_ms);
        let kf = spec_keep_fresh(s, now, timeout_ms);
        let kfp = spec_keep_fresh(s.drop_last(), now, timeout_ms);
        assert forall|m: int| 0 <= m < kf.len() implies s.contains(#[trigger] kf[m]) by {
            if spec_peer_kept(s.last(), now, timeout_ms) && m == kf.len() - 1 {
                assert(kf[m] == s.last());
                assert(s[s.len() - 1] == s.last());
            } else {
                assert(kf[m] == kfp[m]);
                assert(s.drop_last().contains(kfp[m]));
                let w = choose|w: int| 0 <= w < s.drop_last().len() && s.drop_last()[w] == kfp[m];
                assert(s[w] == kfp[m]);
            }
        }
    }
}

proof fn lemma_keep_fresh_unique(s: Seq<PeerInfo>, now: u64, timeout_ms: u64)
    requires
        forall|i: int, j: int| 0 <= i < j < s.len() ==> (#[trigger] s[i]).node_id@ != (
        #[trigger] s[j]).node_id@,
    ensures
        forall|i: int, j: int|
            0 <= i < j < spec_keep_fresh(s, now, timeout_ms).len() ==> (
            #[trigger] spec_keep_fresh(s, now, timeout_ms)[i]).node_id@ != (
            #[trigger] spec_keep_fresh(s, now, timeout_ms)[j]).node_id@,
    decreases s.len(),
{
    if s.len() > 0 {
        assert(forall|i: int, j: int| 0 <= i < j < s.drop_last().len() ==> (
        #[trigger] s.drop_last()[i]).node_id@ != (#[trigger] s.drop_last()[j]).node_id@);
        lemma_keep_fresh_unique(s.drop_last(), now, timeout_ms);
        let kf = spec_keep_fresh(s, now, timeout_ms);
        let kfp = spec_keep_fresh(s.drop_last(), now, timeout_ms);
        if spec_peer_kept(s.last(), now, timeout_ms) {
            lemma_keep_fresh_len(s.drop_last(), now, timeout_ms);
            assert forall|i: int, j: int| 0 <= i < j < kf.len() implies (
            #[trigger] kf[i]).node_id@ != (#[trigger] kf[j]).node_id@ by {
                if j == kf.len() - 1 {
                    assert(kf[j] == s.last());
                    assert(kf[i] == kfp[i]);
                    assert(s.drop_last().contains(kfp[i]));
                    let w = choose|w: int| 0 <= w < s.drop_last().len() && s.drop_last()[w]
                        == kfp[i];
                    assert(s[w].node_id@ != s[s.len() - 1].node_id@);
                } else {
                    assert(kf[i] == kfp[i] && kf[j] == kfp[j]);
                }
            }
        }
    }
}

impl PeerManager {
    proof fn lemma_pointwise_wf(&self, prev: &PeerManager)
        requires
            prev.wf(),
            self.peers@.len() == prev.peers@.len(),
            forall|i: int| 0 <= i < prev.peers@.len() ==> (#[trigger] self.peers@[i]).node_id@
                == prev.peers@[i].node_id@,
        ensures
            self.wf(),
    {
    }
}

proof fn lemma_peer_of_first(s: Seq<PeerInfo>, i: int, id: Seq<char>)
    requires
        0 <= i < s.len(),
        s[i].node_id@ == id,
        forall|j: int| 0 <= j < i ==> (#[trigger] s[j]).node_id@ != id,
    ensures
        peer_of(s, id) == Some(s[i]),
    decreases i,
{
    if i == 0 {
    } else {
        assert(s.drop_first()[i - 1] == s[i]);
        assert(forall|j: int| 0 <= j < i - 1 ==> s.drop_first()[j] == s[j + 1]);
        lemma_peer_of_first(s.drop_first(), i - 1, id);
    }
}

proof fn lemma_peer_of_absent(s: Seq<PeerInfo>, id: Seq<char>)
    requires
        forall|j: int| 0 <= j < s.len() ==> (#[trigger] s[j]).node_id@ != id,
    ensures
        peer_of(s, id) is None,
    decreases s.len(),
{
    if s.len() > 0 {
        assert(forall|j: int| 0 <= j < s.drop_first().len() ==> s.drop_first()[j] == s[j + 1]);
        lemma_peer_of_absent(s.drop_first(), id);
    }
}

// ---------------------------------------------------------------------------
// dial cooldown and bounded candidate selection
// ---------------------------------------------------------------------------

/// Two to the given power, the exponent capped at the backoff ceiling.
pub open spec fn spec_backoff_factor(attempts: u32) -> u64 {
    if attempts >= BACKOFF_EXP_CAP {
        64
    } else if attempts == 0 {
        1
    } else if attempts == 1 {
        2
    } else if attempts == 2 {
        4
    } else if attempts == 3 {
        8
    } else if attempts == 4 {
        16
    } else {
        32
    }
}

/// The per-address cooldown: the base doubled per attempt (exponent capped),
/// held below the configured maximum.
pub open spec fn spec_cooldown_ms(base_ms: u64, attempts: u32, max_ms: u64) -> u64 {
    if base_ms * spec_backoff_factor(attempts) > max_ms {
        max_ms
    } else {
        (base_ms * spec_backoff_factor(attempts)) as u64
    }
}

/// Exponential backoff: `base · 2^min(attempts, cap)`, bounded by the
/// configured maximum.
pub fn connect_cooldown_ms(base_ms: u64, attempts: u32, max_ms: u64) -> (r: u64)
    ensures
        r == spec_cooldown_ms(base_ms, attempts, max_ms),
        r <= max_ms,
{
    let factor: u64 = if attempts >= BACKOFF_EXP_CAP {
        64
    } else if attempts == 0 {
        1
    } else if attempts == 1 {
        2
    } else if attempts == 2 {
        4
    } else if attempts == 3 {
        8
    } else if attempts == 4 {
        16
    } else {
        32
    };
    if factor != 0 && base_ms > max_ms / factor {
        proof {
            assert(base_ms * factor > max_ms) by (nonlinear_arith)
                requires
                    factor > 0,
                    base_ms > max_ms / factor,
                    max_ms / factor == max_ms as int / factor as int,
            ;
        }
        max_ms
    } else {
        if base_ms * factor > max_ms {
            max_ms
        } else {
            base_ms * factor
        }
    }
}

/// Whether the dialer may try this peer now: not connected or in progress,
/// attempts under the cap, not this node itself, and the backoff cooldown
/// elapsed since the last attempt.
pub open spec fn spec_dial_eligible(
    p: PeerInfo,
    our: Seq<char>,
    now: u64,
    max_attempts: u32,
    base_ms: u64,
    max_cooldown_ms: u64,
) -> bool {
    &&& p.state is Disconnected
    &&& p.node_id@ != our
    &&& p.connection_attempts < max_attempts
    &&& match p.last_attempt_at {
        None => true,
        Some(t) => now >= t && now - t >= spec_cooldown_ms(
            base_ms,
            p.connection_attempts,
            max_cooldown_ms,
        ),
    }
}

/// The latency key a candidate is ranked by; an unknown latency sorts last.
pub open spec fn spec_latency_key(m: PeerMetrics) -> u64 {
    match m.latency_ms {
        None => u64::MAX,
        Some(l) => l,
    }
}

/// The dialer's ranking: ascending attempts, then descending first-sight
/// time (newer peers first), then ascending known latency.
pub open spec fn spec_rank_le(a: PeerInfo, b: PeerInfo) -> bool {
    if a.connection_attempts != b.connection_attempts {
        a.connection_attempts < b.connection_attempts
    } else if a.added_at != b.added_at {
        a.added_at > b.added_at
    } else {
        spec_latency_key(a.metrics) <= spec_latency_key(b.metrics)
    }
}

/// The ranking orders any two candidates.
pub proof fn lemma_rank_le_total(a: PeerInfo, b: PeerInfo)
    ensures
        spec_rank_le(a, b) || spec_rank_le(b, a),
{
}

/// The ranking is transitive.
pub proof fn lemma_rank_le_trans(a: PeerInfo, b: PeerInfo, c: PeerInfo)
    requires
        spec_rank_le(a, b),
        spec_rank_le(b, c),
    ensures
        spec_rank_le(a, c),
{
}

/// Compare two candidates in the dialer's ranking.
pub fn dial_rank_le(a: &PeerInfo, b: &PeerInfo) -> (r: bool)
    ensures
        r == spec_rank_le(*a, *b),
{
    if a.connection_attempts != b.connection_attempts {
        a.connection_attempts < b.connection_attempts
    } else if a.added_at != b.added_at {
        a.added_at > b.added_at
    } else {
        let ka: u64 = match a.metrics.latency_ms {
            None => u64::MAX,
            Some(l) => l,
        };
        let kb: u64 = match b.metrics.latency_ms {
            None => u64::MAX,
            Some(l) => l,
        };
        ka <= kb
    }
}

/// The dial-eligible entries of the table, in table order.
pub open spec fn spec_eligible(
    s: Seq<PeerInfo>,
    our: Seq<char>,
    now: u64,
    max_attempts: u32,
    base_ms: u64,
    max_cooldown_ms: u64,
) -> Seq<PeerInfo>
    decreases s.len(),
{
    if s.len() == 0 {
        Seq::empty()
    } else if spec_dial_eligible(s.last(), our, now, max_attempts, base_ms, max_cooldown_ms) {
        spec_eligible(s.drop_last(), our, now, max_attempts, base_ms, max_cooldown_ms).push(
            s.last(),
        )
    } else {
        spec_eligible(s.drop_last(), our, now, max_attempts, base_ms, max_cooldown_ms)
    }
}

proof fn lemma_eligible_elems(
    s: Seq<PeerInfo>,
    our: Seq<char>,
    now: u64,
    max_attempts: u32,
    base_ms: u64,
    max_cooldown_ms: u64,
)
    ensures
        ({
            let f = spec_eligible(s, our, now, max_attempts, base_ms, max_cooldown_ms);
            &&& f.len() <= s.len()
            &&& forall|m: int| 0 <= m < f.len() ==> s.contains(#[trigger] f[m])
                && spec_dial_eligible(f[m], our, now, max_attempts, base_ms, max_cooldown_ms)
        }),
    decreases s.len(),
{
    if s.len() > 0 {
        lemma_eligible_elems(s.drop_last(), our, now, max_attempts, base_ms, max_cooldown_ms);
        let f = spec_eligible(s, our, now, max_attempts, base_ms, max_cooldown_ms);
        let fp = spec_eligible(s.drop_last(), our, now, max_attempts, base_ms, max_cooldown_ms);
        assert forall|m: int| 0 <= m < f.len() implies s.contains(#[trigger] f[m])
            && spec_dial_eligible(f[m], our, now, max_attempts, base_ms, max_cooldown_ms) by {
            if spec_dial_eligible(s.last(), our, now, max_attempts, base_ms, max_cooldown_ms)
                && m == f.len() - 1 {
                assert(f[m] == s.last());
                assert(s[s.len() - 1] == s.last());
            } else {
                assert(f[m] == fp[m]);
                assert(s.drop_last().contains(fp[m]));
                let w = choose|w: int| 0 <= w < s.drop_last().len() && s.drop_last()[w] == fp[m];
                assert(s[w] == fp[m]);
            }
        }
    }
}

/// Take the best-ranked candidates out of a pool: at most `budget` of them,
/// each from the pool, ranks non-decreasing, and every candidate passed
/// over ranks no better than any candidate taken.
fn rank_candidates(pool: Vec<PeerInfo>, budget: usize) -> (r: Vec<PeerInfo>)
    ensures
        r@.len() == (if budget < pool@.len() {
            budget as int
        } else {
            pool@.len() as int
        }),
        forall|i: int| 0 <= i < r@.len() ==> pool@.to_multiset().contains(#[trigger] r@[i]),
        forall|i: int, j: int| 0 <= i < j < r@.len() ==> spec_rank_le(
            #[trigger] r@[i],
            #[trigger] r@[j],
        ),
        forall|x: PeerInfo| #[trigger] pool@.to_multiset().count(x) > r@.to_multiset().count(x)
            ==> forall|i: int| 0 <= i < r@.len() ==> spec_rank_le(#[trigger] r@[i], x),
{
    let ghost pool0 = pool@;
    let mut rem = pool;
    let mut r: Vec<PeerInfo> = Vec::new();
    proof {
        r@.to_multiset_ensures();
        assert(r@.to_multiset().len() == 0);
        assert(r@.to_multiset() =~= Multiset::<PeerInfo>::empty());
        assert(r@.to_multiset().add(rem@.to_multiset()) =~= rem@.to_multiset());
    }
    while r.len() < budget && rem.len() > 0
        invariant
            r@.len() + rem@.len() == pool0.len(),
            r@.len() <= budget,
            r@.to_multiset().add(rem@.to_multiset()) == pool0.to_multiset(),
            forall|i: int| 0 <= i < r@.len() ==> pool0.to_multiset().contains(#[trigger] r@[i]),
            forall|i: int, j: int| 0 <= i < j < r@.len() ==> spec_rank_le(
                #[trigger] r@[i],
                #[trigger] r@[j],
            ),
            forall|i: int, j: int| 0 <= i < r@.len() && 0 <= j < rem@.len() ==> spec_rank_le(
                #[trigger] r@[i],
                #[trigger] rem@[j],
            ),
        decreases budget - r@.len(),
    {
        let mut mi: usize = 0;
        let mut j: usize = 1;
        while j < rem.len()
            invariant
                mi < j <= rem@.len(),
                rem@.len() > 0,
                forall|m: int| 0 <= m < j ==> spec_rank_le(rem@[mi as int], #[trigger] rem@[m]),
            decreases rem@.len() - j,
        {
            let better = dial_rank_le(&rem[j], &rem[mi]);
            proof {
                lemma_rank_le_total(rem@[j as int], rem@[mi as int]);
                if better {
                    assert forall|m: int| 0 <= m < j + 1 implies spec_rank_le(
                        rem@[j as int],
                        #[trigger] rem@[m],
                    ) by {
                        if m < j {
                            lemma_rank_le_trans(rem@[j as int], rem@[mi as int], rem@[m]);
                        } else {
                            lemma_rank_le_total(rem@[j as int], rem@[j as int]);
                        }
                    }
                }
            }
            if better {
                mi = j;
            }
            j = j + 1;
        }
        let ghost prev_rem = rem@;
        let ghost prev_r = r@;
        let e = rem.remove(mi);
        proof {
            prev_rem.to_multiset_ensures();
            prev_r.to_multiset_ensures();
            assert(rem@ == prev_rem.remove(mi as int));
            assert(e == prev_rem[mi as int]);
            assert(prev_rem.remove(mi as int).to_multiset() == prev_rem.to_multiset().remove(e));
            assert(prev_rem.contains(e)) by {
                assert(prev_rem[mi as int] == e);
            }
            assert(prev_rem.to_multiset().count(e) > 0);
        }
        r.push(e);
        proof {
            assert(r@ =~= prev_r.push(e));
            assert(r@.last() == e);
            assert(prev_r.push(e).to_multiset() == prev_r.to_multiset().insert(e));
            assert(r@.to_multiset() == prev_r.to_multiset().insert(e));
            assert(r@.to_multiset().add(rem@.to_multiset()) =~= pool0.to_multiset());
            assert(pool0.to_multiset().contains(e)) by {
                assert(pool0.to_multiset().count(e) >= prev_rem.to_multiset().count(e));
            }
            assert forall|i: int, j2: int|
                0 <= i < r@.len() && 0 <= j2 < rem@.len() implies spec_rank_le(
                #[trigger] r@[i],
                #[trigger] rem@[j2],
            ) by {
                assert(rem@[j2] == prev_rem.remove(mi as int)[j2]);
                if j2 < mi {
                    assert(rem@[j2] == prev_rem[j2]);
                } else {
                    assert(rem@[j2] == prev_rem[j2 + 1]);
                }
                if i < prev_r.len() {
                    assert(r@[i] == prev_r[i]);
                } else {
                    assert(r@[i] == e);
                }
            }
            assert forall|i: int, j2: int| 0 <= i < j2 < r@.len() implies spec_rank_le(
                #[trigger] r@[i],
                #[trigger] r@[j2],
            ) by {
                if j2 == r@.len() - 1 {
                    assert(r@[i] == prev_r[i]);
                    assert(prev_rem[mi as int] == e);
                    assert(prev_rem.contains(e));
                }
            }
        }
    }
    proof {
        rem@.to_multiset_ensures();
        if r@.len() < budget {
            assert(rem@.len() == 0);
            assert(rem@.to_multiset().len() == 0);
        }
        assert forall|x: PeerInfo| #[trigger] pool0.to_multiset().count(x)
            > r@.to_multiset().count(x) implies forall|i: int| 0 <= i < r@.len()
            ==> spec_rank_le(#[trigger] r@[i], x) by {
            assert(pool0.to_multiset().count(x) == r@.to_multiset().count(x)
                + rem@.to_multiset().count(x));
            assert(rem@.to_multiset().count(x) > 0);
            assert(rem@.to_multiset().contains(x));
            assert(rem@.contains(x));
            let w = choose|w: int| 0 <= w < rem@.len() && rem@[w] == x;
            assert forall|i: int| 0 <= i < r@.len() implies spec_rank_le(#[trigger] r@[i], x) by {
                assert(spec_rank_le(r@[i], rem@[w]));
            }
        }
    }
    r
}

impl PeerManager {
    /// The peers the dialer tries this tick. The result is capped so that
    /// neither the total connection count nor the in-flight connect count
    /// can pass its bound, and it is complete up to that budget: when
    /// eligible peers exist and the budget is positive, exactly
    /// `min(budget, eligible)` of them come back, the best ranked first
    /// (ascending attempts, then newest first sight, then lowest latency),
    /// and no eligible peer passed over ranks better than one returned.
    pub fn select_dial_candidates(
        &self,
        now: u64,
        max_connections: usize,
        max_connect_in_flight: usize,
        connected: usize,
        in_flight: usize,
        max_attempts: u32,
        base_cooldown_ms: u64,
        max_cooldown_ms: u64,
    ) -> (r: Vec<PeerInfo>)
        ensures
            connected + r@.len() <= spec_max_usize(max_connections, connected),
            in_flight + r@.len() <= spec_max_usize(max_connect_in_flight, in_flight),
            ({
                let budget = spec_dial_budget(max_connections, max_connect_in_flight, connected,
                    in_flight);
                let elig = spec_eligible(
                    self.peers@,
                    self.our_node_id@,
                    now,
                    max_attempts,
                    base_cooldown_ms,
                    max_cooldown_ms,
                );
                &&& r@.len() == (if budget < elig.len() {
                    budget as int
                } else {
                    elig.len() as int
                })
                &&& forall|i: int| 0 <= i < r@.len() ==> self.peers@.contains(#[trigger] r@[i])
                    && spec_dial_eligible(
                    r@[i],
                    self.our_node_id@,
                    now,
                    max_attempts,
                    base_cooldown_ms,
                    max_cooldown_ms,
                )
                &&& forall|i: int, j: int| 0 <= i < j < r@.len() ==> spec_rank_le(
                    #[trigger] r@[i],
                    #[trigger] r@[j],
                )
                &&& forall|x: PeerInfo| #[trigger] elig.to_multiset().count(x)
                    > r@.to_multiset().count(x) ==> forall|i: int| 0 <= i < r@.len()
                    ==> spec_rank_le(#[trigger] r@[i], x)
            }),
    {
        let slots: usize = if max_connections > connected {
            max_connections - connected
        } else {
            0
        };
        let permits: usize = if max_connect_in_flight > in_flight {
            max_connect_in_flight - in_flight
        } else {
            0
        };
        let budget: usize = if slots < permits {
            slots
        } else {
            permits
        };
        let mut pool: Vec<PeerInfo> = Vec::new();
        let mut k: usize = 0;
        proof {
            assert(self.peers@.take(0) =~= Seq::<PeerInfo>::empty());
        }
        while k < self.peers.len()
            invariant
                k <= self.peers@.len(),
                pool@ == spec_eligible(
                    self.peers@.take(k as int),
                    self.our_node_id@,
                    now,
                    max_attempts,
                    base_cooldown_ms,
                    max_cooldown_ms,
                ),
            decreases self.peers@.len() - k,
        {
            proof {
                assert(self.peers@.take(k + 1 as int).drop_last() =~= self.peers@.take(k as int));
                assert(self.peers@.take(k + 1 as int).last() == self.peers@[k as int]);
            }
            let p = &self.peers[k];
            let cooled = match p.last_attempt_at {
                None => true,
                Some(t) => now >= t && now - t >= connect_cooldown_ms(
                    base_cooldown_ms,
                    p.connection_attempts,
                    max_cooldown_ms,
                ),
            };
            let eligible = p.state == ConnectionState::Disconnected && !(p.node_id
                == self.our_node_id) && p.connection_attempts < max_attempts && cooled;
            if eligible {
                pool.push(p.duplicate());
            }
            k = k + 1;
        }
        proof {
            assert(self.peers@.take(self.peers@.len() as int) =~= self.peers@);
            lemma_eligible_elems(
                self.peers@,
                self.our_node_id@,
                now,
                max_attempts,
                base_cooldown_ms,
                max_cooldown_ms,
            );
        }
        let ghost elig = pool@;
        let r = rank_candidates(pool, budget);
        proof {
            elig.to_multiset_ensures();
            assert forall|i: int| 0 <= i < r@.len() implies self.peers@.contains(#[trigger] r@[i])
                && spec_dial_eligible(
                r@[i],
                self.our_node_id@,
                now,
                max_attempts,
                base_cooldown_ms,
                max_cooldown_ms,
            ) by {
                assert(elig.to_multiset().contains(r@[i]));
                assert(elig.contains(r@[i]));
                let w = choose|w: int| 0 <= w < elig.len() && elig[w] == r@[i];
            }
        }
        r
    }
}

/// The tick's candidate budget: the smaller of the free connection slots
/// and the free in-flight connect permits.
pub open spec fn spec_dial_budget(
    max_connections: usize,
    max_connect_in_flight: usize,
    connected: usize,
    in_flight: usize,
) -> usize {
    let slots = if max_connections > connected {
        (max_connections - connected) as usize
    } else {
        0
    };
    let permits = if max_connect_in_flight > in_flight {
        (max_connect_in_flight - in_flight) as usize
    } else {
        0
    };
    if slots < permits {
        slots
    } else {
        permits
    }
}

pub open spec fn spec_max_usize(a: usize, b: usize) -> usize {
    if a >= b {
        a
    } else {
        b
    }
}

} // verus!
