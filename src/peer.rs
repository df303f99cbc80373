use vstd::prelude::*;
use std::collections::{HashMap, HashSet};
use crate::error::{PeerAddr, RudpError};
use crate::protocol::{PacketType, MAX_LISTED_SEQS, seq_list_payload, be64, be64_at, DataAckPacket, PingPacket, extend_bytes};
use crate::security::{signed_frame, signed_frame_bytes};
use crate::buffer_pool::PooledBuffer;
use crate::stats::{
    ConnectionStats, ConnectionState, ConnectionStatus, RttStats, elapsed, inc, clamp, avg_after,
    MIN_RTO, MAX_RETRIES, CLEANUP_THRESHOLD,
};

verus! {

broadcast use vstd::std_specs::hash::group_hash_axioms;

/// Largest retransmission timeout of a single frame.
pub const MAX_PACKET_RTO: u64 = 3000;

/// Nanoseconds in a millisecond: ping timestamps are carried in nanoseconds.
pub const NANOS_PER_MILLI: u64 = 1000000;

/// `x + 1`, wrapping from `u32::MAX` to 0.
pub open spec fn wrap_inc(x: u32) -> u32 {
    if x == u32::MAX {
        0
    } else {
        (x + 1) as u32
    }
}

/// The retransmission timeout given to a newly sent frame.
pub open spec fn packet_rto(rto: u64) -> u64 {
    clamp(rto as int, MIN_RTO as int, MAX_PACKET_RTO as int) as u64
}

/// The timeout after one more retransmission: doubled, at most `MAX_PACKET_RTO`.
pub open spec fn backoff(rto: u64) -> u64 {
    if 2 * rto > MAX_PACKET_RTO {
        MAX_PACKET_RTO
    } else {
        (2 * rto) as u64
    }
}

/// A time in milliseconds as nanoseconds, held at `u64::MAX`.
pub open spec fn millis_to_nanos(t: u64) -> u64 {
    if t * NANOS_PER_MILLI > u64::MAX {
        u64::MAX
    } else {
        (t * NANOS_PER_MILLI) as u64
    }
}

/// A time in milliseconds as nanoseconds, held at `u64::MAX`.
pub fn to_nanos(t: u64) -> (r: u64)
    ensures
        r == millis_to_nanos(t),
{
    if t > u64::MAX / NANOS_PER_MILLI {
        assert(t * NANOS_PER_MILLI > u64::MAX) by (nonlinear_arith)
            requires
                t > u64::MAX / NANOS_PER_MILLI,
        ;
        u64::MAX
    } else {
        assert(t * NANOS_PER_MILLI <= u64::MAX) by (nonlinear_arith)
            requires
                t <= u64::MAX / NANOS_PER_MILLI,
        ;
        t * NANOS_PER_MILLI
    }
}

/// A datagram that must leave: its bytes and its destination.
pub struct Transmit {
    pub to: PeerAddr,
    pub bytes: Vec<u8>,
}

/// A frame sent and not yet acknowledged.
pub struct PendingPacket {
    /// The frame bytes
    pub data: Vec<u8>,
    /// Time of the last transmission
    pub send_time: u64,
    /// Retransmissions so far
    pub retry_count: u8,
    /// Timeout before the next retransmission
    pub rto: u64,
}

impl PendingPacket {
    pub open spec fn due(&self, now: u64) -> bool {
        elapsed(now, self.send_time) >= self.rto
    }

    pub fn new(data: Vec<u8>, now: u64, rto: u64) -> (r: Self)
        ensures
            r.data == data,
            r.send_time == now,
            r.retry_count == 0,
            r.rto == rto,
    {
        Self { data, send_time: now, retry_count: 0, rto }
    }

    /// Whether the timeout has run out at `now`.
    pub fn should_retry(&self, now: u64) -> (r: bool)
        ensures
            r == self.due(now),
    {
        now.saturating_sub(self.send_time) >= self.rto
    }

    /// Count one more transmission at `now`, with the timeout `rto` until the next.
    pub fn retry(&mut self, now: u64, rto: u64)
        ensures
            final(self).data == old(self).data,
            final(self).retry_count == if old(self).retry_count == u8::MAX {
                u8::MAX
            } else {
                (old(self).retry_count + 1) as u8
            },
            final(self).send_time == now,
            final(self).rto == rto,
    {
        self.retry_count = self.retry_count.saturating_add(1);
        self.send_time = now;
        self.rto = rto;
    }
}

/// A copy of a byte vector.
fn copy_bytes(v: &Vec<u8>) -> (r: Vec<u8>)
    ensures
        r@ == v@,
{
    let mut r: Vec<u8> = Vec::new();
    extend_bytes(&mut r, v.as_slice());
    r
}

/// Appending a new value to a list without repeats keeps it without repeats.
proof fn lemma_push_distinct(s: Seq<u32>, x: u32)
    requires
        s.no_duplicates(),
        !s.to_set().contains(x),
    ensures
        s.push(x).no_duplicates(),
        s.push(x).to_set() == s.to_set().insert(x),
{
    let t = s.push(x);
    assert forall|i: int, j: int| 0 <= i < t.len() && 0 <= j < t.len() && i != j implies t[i]
        != t[j] by {
        if i == s.len() as int {
            assert(s.to_set().contains(s[j]));
        } else if j == s.len() as int {
            assert(s.to_set().contains(s[i]));
        }
    }
    assert forall|y: u32| t.to_set().contains(y) <==> s.to_set().insert(x).contains(y) by {
        if t.to_set().contains(y) {
            let k = choose|k: int| 0 <= k < t.len() && t[k] == y;
            if k < s.len() {
                assert(s[k] == y);
            }
        }
        if s.to_set().contains(y) {
            let k = choose|k: int| 0 <= k < s.len() && s[k] == y;
            assert(t[k] == y);
        }
        if y == x {
            assert(t[s.len() as int] == x);
        }
    }
    assert(t.to_set() =~= s.to_set().insert(x));
}

/// Removing one entry of a list without repeats removes exactly that value.
proof fn lemma_remove_distinct(s: Seq<u32>, i: int)
    requires
        s.no_duplicates(),
        0 <= i < s.len(),
    ensures
        s.remove(i).no_duplicates(),
        s.remove(i).to_set() == s.to_set().remove(s[i]),
{
    let t = s.remove(i);
    assert forall|a: int, b: int| 0 <= a < t.len() && 0 <= b < t.len() && a != b implies t[a]
        != t[b] by {
        let a2 = if a < i {
            a
        } else {
            a + 1
        };
        let b2 = if b < i {
            b
        } else {
            b + 1
        };
        assert(t[a] == s[a2] && t[b] == s[b2]);
    }
    assert forall|y: u32| t.to_set().contains(y) <==> s.to_set().remove(s[i]).contains(y) by {
        if t.to_set().contains(y) {
            let k = choose|k: int| 0 <= k < t.len() && t[k] == y;
            let k2 = if k < i {
                k
            } else {
                k + 1
            };
            assert(s[k2] == y);
        }
        if s.to_set().contains(y) && y != s[i] {
            let k = choose|k: int| 0 <= k < s.len() && s[k] == y;
            if k < i {
                assert(t[k] == y);
            } else {
                assert(t[k - 1] == y);
            }
        }
    }
    assert(t.to_set() =~= s.to_set().remove(s[i]));
}

fn index_of(v: &Vec<u32>, x: u32) -> (r: Option<usize>)
    ensures
        match r {
            Some(i) => i < v@.len() && v@[i as int] == x,
            None => !v@.to_set().contains(x),
        },
{
    let mut i: usize = 0;
    while i < v.len()
        invariant
            i <= v@.len(),
            forall|j: int| 0 <= j < i ==> v@[j] != x,
        decreases v@.len() - i,
    {
        if v[i] == x {
            return Some(i);
        }
        i = i + 1;
    }
    None
}

pub open spec fn same_seq(a: PeerState, b: PeerState) -> bool {
    a.next_seq() == b.next_seq() && a.seq_wrapped() == b.seq_wrapped()
}

pub open spec fn same_pending(a: PeerState, b: PeerState) -> bool {
    a.pending() == b.pending()
}

pub open spec fn same_received(a: PeerState, b: PeerState) -> bool {
    a.received() == b.received()
}

pub open spec fn same_acks(a: PeerState, b: PeerState) -> bool {
    a.acks() == b.acks()
}

/// The estimator after the round-trip samples that an acknowledgement list gives: each
/// listed frame held in `m` and not listed before gives one, unless it was retransmitted.
pub open spec fn ack_samples(r: RttStats, m: Map<u32, PendingPacket>, seqs: Seq<u32>, now: u64) -> RttStats
    decreases seqs.len(),
{
    if seqs.len() == 0 {
        r
    } else {
        let r1 = ack_samples(r, m, seqs.drop_last(), now);
        let x = seqs.last();
        if m.contains_key(x) && !seqs.drop_last().contains(x) && m[x].retry_count == 0 {
            r1.sampled(elapsed(now, m[x].send_time))
        } else {
            r1
        }
    }
}

/// The moving average of round-trip time after the same samples.
pub open spec fn avg_samples(avg: u64, m: Map<u32, PendingPacket>, seqs: Seq<u32>, now: u64) -> u64
    decreases seqs.len(),
{
    if seqs.len() == 0 {
        avg
    } else {
        let a1 = avg_samples(avg, m, seqs.drop_last(), now);
        let x = seqs.last();
        if m.contains_key(x) && !seqs.drop_last().contains(x) && m[x].retry_count == 0 {
            avg_after(a1, elapsed(now, m[x].send_time))
        } else {
            a1
        }
    }
}

/// How many distinct sequences of `seqs` the retransmit map holds.
pub open spec fn acked_count(dom: Set<u32>, seqs: Seq<u32>) -> nat {
    seqs.to_set().intersect(dom).len()
}

/// A count as a `u32`, held at `u32::MAX`.
pub open spec fn count_u32(n: nat) -> u32 {
    if n > u32::MAX {
        u32::MAX
    } else {
        n as u32
    }
}

/// Everything the engine knows of one remote address.
pub struct PeerState {
    addr: PeerAddr,
    next_seq: u32,
    seq_wrapped: bool,
    send_buffer: HashMap<u32, PendingPacket>,
    send_order: Vec<u32>,
    recv_acks: HashSet<u32>,
    pending_acks: Vec<u32>,
    rtt_stats: RttStats,
    connection_stats: ConnectionStats,
    connection_state: ConnectionState,
}

impl PeerState {
    pub closed spec fn addr(&self) -> PeerAddr {
        self.addr
    }

    /// The sequence the next frame to this peer gets.
    pub closed spec fn next_seq(&self) -> u32 {
        self.next_seq
    }

    /// Whether the sequence counter wrapped to 0 since the last cleanup.
    pub closed spec fn seq_wrapped(&self) -> bool {
        self.seq_wrapped
    }

    /// The retransmit map: sequence to frame awaiting acknowledgement.
    pub closed spec fn pending(&self) -> Map<u32, PendingPacket> {
        self.send_buffer@
    }

    /// The sequences of the retransmit map, in the order they were first parked.
    pub closed spec fn order(&self) -> Seq<u32> {
        self.send_order@
    }

    /// Sequences received from this peer.
    pub closed spec fn received(&self) -> Set<u32> {
        self.recv_acks@
    }

    /// Sequences waiting to be acknowledged, oldest first.
    pub closed spec fn acks(&self) -> Seq<u32> {
        self.pending_acks@
    }

    pub closed spec fn rtt(&self) -> RttStats {
        self.rtt_stats
    }

    pub closed spec fn stats(&self) -> ConnectionStats {
        self.connection_stats
    }

    pub closed spec fn state(&self) -> ConnectionState {
        self.connection_state
    }

    /// The parking order lists each sequence of the retransmit map exactly once.
    pub proof fn lemma_order_tracks_pending(&self)
        requires
            self.wf(),
        ensures
            self.order().no_duplicates(),
            self.order().to_set() == self.pending().dom(),
    {
    }

    pub closed spec fn wf(&self) -> bool {
        &&& self.send_order@.no_duplicates()
        &&& self.send_order@.to_set() == self.send_buffer@.dom()
        &&& self.rtt_stats.rto >= MIN_RTO
    }

    /// An entry for `addr` as created at `now`: nothing sent, pending or received yet.
    pub open spec fn is_fresh(p: PeerState, addr: PeerAddr, now: u64) -> bool {
        &&& p.wf()
        &&& p.addr() == addr
        &&& p.next_seq() == 0
        &&& !p.seq_wrapped()
        &&& p.pending() == Map::<u32, PendingPacket>::empty()
        &&& p.received() == Set::<u32>::empty()
        &&& p.acks() == Seq::<u32>::empty()
        &&& p.rtt() == RttStats::initial()
        &&& p.stats() == (ConnectionStats {
            packets_sent: 0,
            packets_received: 0,
            packets_lost: 0,
            retransmissions: 0,
            avg_rtt: 200,
            last_activity: now,
        })
        &&& p.state() == (ConnectionState {
            last_activity: now,
            ping_sent: None,
            consecutive_ping_failures: 0,
            status: ConnectionStatus::Alive,
        })
    }

    /// A fresh peer entry at `now`.
    pub fn new(addr: PeerAddr, now: u64) -> (r: Self)
        ensures
            Self::is_fresh(r, addr, now),
            r.wf(),
            r.addr() == addr,
            r.next_seq() == 0,
            !r.seq_wrapped(),
            r.pending() == Map::<u32, PendingPacket>::empty(),
            r.received() == Set::<u32>::empty(),
            r.acks() == Seq::<u32>::empty(),
            r.rtt() == RttStats::initial(),
            r.stats() == (ConnectionStats {
                packets_sent: 0,
                packets_received: 0,
                packets_lost: 0,
                retransmissions: 0,
                avg_rtt: 200,
                last_activity: now,
            }),
            r.state() == (ConnectionState {
                last_activity: now,
                ping_sent: None,
                consecutive_ping_failures: 0,
                status: ConnectionStatus::Alive,
            }),
    {
        let r = PeerState {
            addr,
            next_seq: 0,
            seq_wrapped: false,
            send_buffer: HashMap::new(),
            send_order: Vec::new(),
            recv_acks: HashSet::new(),
            pending_acks: Vec::new(),
            rtt_stats: RttStats::new(),
            connection_stats: ConnectionStats::new(now),
            connection_state: ConnectionState::new(now),
        };
        assert(r.send_order@.to_set() =~= Set::<u32>::empty());
        r
    }

    pub fn peer_addr(&self) -> (r: PeerAddr)
        ensures
            r == self.addr(),
    {
        self.addr
    }

    /// The statistics of this peer.
    pub fn connection_stats(&self) -> (r: ConnectionStats)
        ensures
            r == self.stats(),
    {
        self.connection_stats
    }

    /// The liveness of this peer.
    pub fn connection_state(&self) -> (r: ConnectionState)
        ensures
            r == self.state(),
    {
        self.connection_state
    }

    /// The timing and congestion state of this peer.
    pub fn rtt_stats(&self) -> (r: RttStats)
        ensures
            r == self.rtt(),
    {
        self.rtt_stats
    }

    /// Whether nothing is pending and nothing is remembered as received.
    pub fn is_empty(&self) -> (r: bool)
        ensures
            r == (self.pending().is_empty() && self.received().is_empty()),
    {
        self.send_buffer.is_empty() && self.recv_acks.is_empty()
    }

    /// Take the next outgoing sequence; the counter wraps from `u32::MAX` to 0.
    pub fn take_seq(&mut self) -> (r: u32)
        requires
            old(self).wf(),
        ensures
            final(self).wf(),
            r == old(self).next_seq(),
            final(self).next_seq() == wrap_inc(old(self).next_seq()),
            final(self).seq_wrapped() == (old(self).seq_wrapped() || r == u32::MAX),
            final(self).addr() == old(self).addr(),
            same_pending(*old(self), *final(self)),
            same_received(*old(self), *final(self)),
            same_acks(*old(self), *final(self)),
            final(self).rtt() == old(self).rtt(),
            final(self).stats() == old(self).stats(),
            final(self).state() == old(self).state(),
    {
        let seq = self.next_seq;
        self.next_seq = seq.wrapping_add(1);
        if seq == u32::MAX {
            self.seq_wrapped = true;
        }
        seq
    }
}


impl PeerState {
    /// Remove the frame with sequence `seq` from the retransmit map.
    fn remove_pending(&mut self, seq: u32) -> (r: Option<PendingPacket>)
        requires
            old(self).wf(),
        ensures
            final(self).wf(),
            match r {
                Some(p) => old(self).pending().contains_key(seq) && p == old(self).pending()[seq],
                None => !old(self).pending().contains_key(seq),
            },
            final(self).pending() == old(self).pending().remove(seq),
            final(self).addr() == old(self).addr(),
            same_seq(*old(self), *final(self)),
            same_received(*old(self), *final(self)),
            same_acks(*old(self), *final(self)),
            final(self).rtt() == old(self).rtt(),
            final(self).stats() == old(self).stats(),
            final(self).state() == old(self).state(),
    {
        let r = self.send_buffer.remove(&seq);
        match index_of(&self.send_order, seq) {
            Some(i) => {
                proof {
                    lemma_remove_distinct(self.send_order@, i as int);
                }
                self.send_order.remove(i);
            },
            None => {},
        }
        proof {
            if r is None {
                assert(!old(self).send_order@.to_set().contains(seq));
            } else {
                assert(old(self).send_order@.to_set().contains(seq));
            }
            assert(self.send_order@.to_set() =~= self.send_buffer@.dom());
        }
        r
    }

    /// Put `pkt` into the retransmit map under `seq`, replacing any frame held there.
    fn insert_pending(&mut self, seq: u32, pkt: PendingPacket)
        requires
            old(self).wf(),
        ensures
            final(self).wf(),
            final(self).pending() == old(self).pending().insert(seq, pkt),
            final(self).addr() == old(self).addr(),
            same_seq(*old(self), *final(self)),
            same_received(*old(self), *final(self)),
            same_acks(*old(self), *final(self)),
            final(self).rtt() == old(self).rtt(),
            final(self).stats() == old(self).stats(),
            final(self).state() == old(self).state(),
    {
        if !self.send_buffer.contains_key(&seq) {
            proof {
                lemma_push_distinct(self.send_order@, seq);
            }
            self.send_order.push(seq);
        }
        self.send_buffer.insert(seq, pkt);
        assert(self.send_order@.to_set() =~= self.send_buffer@.dom());
    }

    /// Send the payload of `buffer` as a Data frame, if the congestion window admits it.
    ///
    /// On success the buffer's header is filled, the frame is parked for retransmission
    /// and returned for transmission.
    pub fn submit(&mut self, buffer: &mut PooledBuffer, now: u64) -> (r: Result<Vec<u8>, RudpError>)
        requires
            old(self).wf(),
            old(buffer).wf(),
        ensures
            final(self).wf(),
            final(buffer).wf(),
            final(buffer).payload() == old(buffer).payload(),
            final(self).addr() == old(self).addr(),
            old(self).rtt().in_flight >= old(self).rtt().cwnd ==> (r matches Err(
                RudpError::CongestionWindowFull,
            ) && *final(self) == *old(self)),
            old(self).rtt().in_flight < old(self).rtt().cwnd ==> (r matches Ok(frame) && ({
                let seq = old(self).next_seq();
                &&& frame@ == signed_frame_bytes(PacketType::Data, seq, old(buffer).payload())
                &&& final(self).next_seq() == wrap_inc(seq)
                &&& final(self).seq_wrapped() == (old(self).seq_wrapped() || seq == u32::MAX)
                &&& final(self).pending().contains_key(seq)
                &&& final(self).pending() == old(self).pending().insert(
                    seq,
                    final(self).pending()[seq],
                )
                &&& final(self).pending()[seq].data@ == frame@
                &&& final(self).pending()[seq].send_time == now
                &&& final(self).pending()[seq].retry_count == 0
                &&& final(self).pending()[seq].rto == packet_rto(old(self).rtt().rto)
                &&& final(self).rtt() == (RttStats {
                    in_flight: (old(self).rtt().in_flight + 1) as u32,
                    ..old(self).rtt()
                })
                &&& final(self).stats() == (ConnectionStats {
                    packets_sent: inc(old(self).stats().packets_sent),
                    last_activity: now,
                    ..old(self).stats()
                })
                &&& final(self).state() == (ConnectionState {
                    last_activity: now,
                    consecutive_ping_failures: 0,
                    status: ConnectionStatus::Alive,
                    ..old(self).state()
                })
                &&& same_received(*old(self), *final(self))
                &&& same_acks(*old(self), *final(self))
            })),
    {
        if !self.rtt_stats.can_send() {
            return Err(RudpError::CongestionWindowFull);
        }
        let seq = self.take_seq();
        let _ = buffer.fill_protocol_header(PacketType::Data, seq);
        let mut frame: Vec<u8> = Vec::new();
        extend_bytes(&mut frame, buffer.full_packet());
        let rto = if self.rtt_stats.rto < MIN_RTO {
            MIN_RTO
        } else if self.rtt_stats.rto > MAX_PACKET_RTO {
            MAX_PACKET_RTO
        } else {
            self.rtt_stats.rto
        };
        let pkt = PendingPacket::new(copy_bytes(&frame), now, rto);
        self.insert_pending(seq, pkt);
        self.connection_stats.record_packet_sent(now);
        self.connection_state.update_activity(now);
        self.rtt_stats.on_packet_sent();
        Ok(frame)
    }

    /// A Data frame with sequence `seq` arrived. Returns whether it is new; either way an
    /// acknowledgement is scheduled.
    pub fn receive_data(&mut self, seq: u32, now: u64) -> (r: bool)
        requires
            old(self).wf(),
        ensures
            final(self).wf(),
            r == !old(self).received().contains(seq),
            final(self).received() == old(self).received().insert(seq),
            final(self).acks() == old(self).acks().push(seq),
            final(self).stats() == if r {
                ConnectionStats {
                    packets_received: inc(old(self).stats().packets_received),
                    last_activity: now,
                    ..old(self).stats()
                }
            } else {
                old(self).stats()
            },
            final(self).addr() == old(self).addr(),
            same_seq(*old(self), *final(self)),
            same_pending(*old(self), *final(self)),
            final(self).rtt() == old(self).rtt(),
            final(self).state() == old(self).state(),
    {
        let fresh = self.recv_acks.insert(seq);
        self.pending_acks.push(seq);
        if fresh {
            self.connection_stats.record_packet_received(now);
        }
        fresh
    }

    /// Fold a round-trip sample into the estimator and the statistics.
    fn sample_rtt(&mut self, rtt: u64)
        requires
            old(self).wf(),
        ensures
            final(self).wf(),
            final(self).rtt() == old(self).rtt().sampled(rtt),
            final(self).stats() == (ConnectionStats {
                avg_rtt: avg_after(old(self).stats().avg_rtt, rtt),
                ..old(self).stats()
            }),
            final(self).addr() == old(self).addr(),
            same_seq(*old(self), *final(self)),
            same_pending(*old(self), *final(self)),
            same_received(*old(self), *final(self)),
            same_acks(*old(self), *final(self)),
            final(self).state() == old(self).state(),
    {
        self.rtt_stats.update_rtt(rtt);
        self.connection_stats.update_rtt(rtt);
    }

    /// Acknowledge one sequence: the frame leaves the retransmit map, and unless it was
    /// retransmitted its round trip is sampled.
    pub fn ack_one(&mut self, seq: u32, now: u64) -> (r: bool)
        requires
            old(self).wf(),
        ensures
            final(self).wf(),
            r == old(self).pending().contains_key(seq),
            final(self).pending() == old(self).pending().remove(seq),
            r && old(self).pending()[seq].retry_count == 0 ==> {
                let m = elapsed(now, old(self).pending()[seq].send_time);
                &&& final(self).rtt() == old(self).rtt().sampled(m)
                &&& final(self).stats() == (ConnectionStats {
                    avg_rtt: avg_after(old(self).stats().avg_rtt, m),
                    ..old(self).stats()
                })
            },
            !(r && old(self).pending()[seq].retry_count == 0) ==> {
                &&& final(self).rtt() == old(self).rtt()
                &&& final(self).stats() == old(self).stats()
            },
            final(self).addr() == old(self).addr(),
            same_seq(*old(self), *final(self)),
            same_received(*old(self), *final(self)),
            same_acks(*old(self), *final(self)),
            final(self).state() == old(self).state(),
    {
        match self.remove_pending(seq) {
            Some(pkt) => {
                if pkt.retry_count == 0 {
                    self.sample_rtt(now.saturating_sub(pkt.send_time));
                }
                true
            },
            None => false,
        }
    }

    /// A DataAck listing `seqs` arrived: each listed frame leaves the retransmit map, clean
    /// round trips are sampled, and the congestion window learns how many were acknowledged.
    pub fn on_data_ack(&mut self, seqs: &Vec<u32>, now: u64)
        requires
            old(self).wf(),
        ensures
            final(self).wf(),
            final(self).pending() == old(self).pending().remove_keys(seqs@.to_set()),
            (forall|i: int|
                0 <= i < seqs@.len() && old(self).pending().contains_key(#[trigger] seqs@[i])
                    ==> old(self).pending()[seqs@[i]].retry_count > 0) ==> {
                &&& final(self).rtt().srtt == old(self).rtt().srtt
                &&& final(self).rtt().rttvar == old(self).rtt().rttvar
                &&& final(self).rtt().rto == old(self).rtt().rto
            },
            final(self).rtt() == if acked_count(old(self).pending().dom(), seqs@) > 0 {
                ack_samples(old(self).rtt(), old(self).pending(), seqs@, now).acked(
                    count_u32(acked_count(old(self).pending().dom(), seqs@)),
                )
            } else {
                ack_samples(old(self).rtt(), old(self).pending(), seqs@, now)
            },
            final(self).stats() == (ConnectionStats {
                avg_rtt: avg_samples(old(self).stats().avg_rtt, old(self).pending(), seqs@, now),
                ..old(self).stats()
            }),
            final(self).addr() == old(self).addr(),
            same_seq(*old(self), *final(self)),
            same_received(*old(self), *final(self)),
            same_acks(*old(self), *final(self)),
            final(self).state() == old(self).state(),
    {
        let mut count: usize = 0;
        let mut i: usize = 0;
        proof {
            let e = seqs@.subrange(0, 0);
            assert(e.to_set() =~= Set::<u32>::empty());
            assert(e.to_set().intersect(old(self).pending().dom()) =~= Set::<u32>::empty());
        }
        while i < seqs.len()
            invariant
                i <= seqs@.len(),
                self.wf(),
                self.pending() == old(self).pending().remove_keys(seqs@.subrange(0, i as int).to_set()),
                (forall|j: int|
                    0 <= j < i && old(self).pending().contains_key(#[trigger] seqs@[j])
                        ==> old(self).pending()[seqs@[j]].retry_count > 0) ==> {
                    &&& self.rtt().srtt == old(self).rtt().srtt
                    &&& self.rtt().rttvar == old(self).rtt().rttvar
                    &&& self.rtt().rto == old(self).rtt().rto
                },
                self.rtt() == ack_samples(old(self).rtt(), old(self).pending(), seqs@.subrange(0, i as int), now),
                self.stats() == (ConnectionStats {
                    avg_rtt: avg_samples(old(self).stats().avg_rtt, old(self).pending(), seqs@.subrange(0, i as int), now),
                    ..old(self).stats()
                }),
                count <= i,
                count == acked_count(old(self).pending().dom(), seqs@.subrange(0, i as int)),
                self.addr() == old(self).addr(),
                same_seq(*old(self), *self),
                same_received(*old(self), *self),
                same_acks(*old(self), *self),
                self.state() == old(self).state(),
            decreases seqs@.len() - i,
        {
            let seq = seqs[i];
            let ghost before = self.pending();
            proof {
                if before.contains_key(seq) {
                    assert(old(self).pending().contains_key(seq));
                    assert(before[seq] == old(self).pending()[seq]);
                }
            }
            let ghost cnt0 = count;
            if self.ack_one(seq, now) {
                count = count + 1;
            }
            i = i + 1;
            proof {
                let ghost pre = seqs@.subrange(0, i - 1);
                let ghost dom = old(self).pending().dom();
                assert(seqs@.subrange(0, i as int) == pre.push(seq));
                assert(pre.push(seq).drop_last() == pre);
                assert(pre.to_set().contains(seq) == pre.contains(seq));
                pre.lemma_push_to_set_commute(seq);
                let a = pre.to_set().intersect(dom);
                assert(a.finite()) by {
                    vstd::seq_lib::seq_to_set_is_finite(pre);
                    vstd::set_lib::lemma_set_subset_finite(pre.to_set(), a);
                }
                if dom.contains(seq) {
                    assert(pre.push(seq).to_set().intersect(dom) =~= a.insert(seq));
                    if pre.to_set().contains(seq) {
                        assert(a.contains(seq));
                        assert(a.insert(seq) =~= a);
                    }
                } else {
                    assert(pre.push(seq).to_set().intersect(dom) =~= a);
                }
                assert(self.pending() =~= old(self).pending().remove_keys(seqs@.subrange(0, i as int).to_set()));
            }
        }
        assert(seqs@.subrange(0, seqs@.len() as int) == seqs@);
        if count > 0 {
            let n: u32 = if count > u32::MAX as usize {
                u32::MAX
            } else {
                count as u32
            };
            self.rtt_stats.on_ack_received(n);
        }
    }
}


/// What one retransmission pass does to the frame held under `s`: untouched unless due;
/// abandoned if due after `MAX_RETRIES` retransmissions; else sent again with a doubled
/// timeout.
pub open spec fn retransmitted(before: Map<u32, PendingPacket>, after: Map<u32, PendingPacket>, s: u32, now: u64) -> bool {
    let p = before[s];
    if !p.due(now) {
        after.contains_key(s) && after[s] == p
    } else if p.retry_count >= MAX_RETRIES {
        !after.contains_key(s)
    } else {
        &&& after.contains_key(s)
        &&& after[s].data == p.data
        &&& after[s].retry_count == p.retry_count + 1
        &&& after[s].send_time == now
        &&& after[s].rto == backoff(p.rto)
    }
}

/// Whether the frame under `s` is sent again by a retransmission pass at `now`.
pub open spec fn resent_pred(m: Map<u32, PendingPacket>, now: u64) -> spec_fn(u32) -> bool {
    |s: u32| m[s].due(now) && m[s].retry_count < MAX_RETRIES
}

/// `after` is `before` followed by one datagram to `to` for each of `seqs`, in that order,
/// carrying the frame bytes that `m` holds under it.
pub open spec fn sends_of(
    before: Seq<Transmit>,
    after: Seq<Transmit>,
    to: PeerAddr,
    m: Map<u32, PendingPacket>,
    seqs: Seq<u32>,
) -> bool {
    &&& after.len() == before.len() + seqs.len()
    &&& after.subrange(0, before.len() as int) == before
    &&& forall|j: int|
        0 <= j < seqs.len() ==> (#[trigger] after[before.len() + j]).to == to && after[before.len()
            + j].bytes@ == m[seqs[j]].data@
}

/// Filtering a list without repeats keeps it without repeats, and keeps exactly the
/// members that pass.
pub proof fn lemma_filter_distinct(s: Seq<u32>, f: spec_fn(u32) -> bool)
    requires
        s.no_duplicates(),
    ensures
        s.filter(f).no_duplicates(),
        forall|x: u32| #[trigger] s.filter(f).contains(x) <==> (s.contains(x) && f(x)),
    decreases s.len(),
{
    reveal(Seq::filter);
    if s.len() > 0 {
        let t = s.drop_last();
        let x = s.last();
        assert(t.no_duplicates());
        lemma_filter_distinct(t, f);
        assert(s == t.push(x));
        assert(!t.contains(x)) by {
            if t.contains(x) {
                let k = choose|k: int| 0 <= k < t.len() && t[k] == x;
                assert(s[k] == s[s.len() - 1]);
            }
        }
        assert forall|y: u32| #[trigger] s.filter(f).contains(y) <==> (s.contains(y) && f(y)) by {
            if s.contains(y) && y != x {
                let k = choose|k: int| 0 <= k < s.len() && s[k] == y;
                assert(t[k] == y);
            }
            if t.contains(y) {
                let k = choose|k: int| 0 <= k < t.len() && t[k] == y;
                assert(s[k] == y);
            }
            if f(x) {
                assert(t.filter(f).push(x)[t.filter(f).len() as int] == x);
                if t.filter(f).push(x).contains(y) && y != x {
                    let k = choose|k: int| 0 <= k < t.filter(f).len() + 1 && t.filter(f).push(x)[k] == y;
                    assert(t.filter(f)[k] == y);
                }
                if t.filter(f).contains(y) {
                    let k = choose|k: int| 0 <= k < t.filter(f).len() && t.filter(f)[k] == y;
                    assert(t.filter(f).push(x)[k] == y);
                }
            }
        }
        if f(x) {
            let u = t.filter(f);
            assert forall|a: int, b: int| 0 <= a < u.len() + 1 && 0 <= b < u.len() + 1 && a != b implies u.push(x)[a] != u.push(x)[b] by {
                if a == u.len() {
                    assert(u.contains(u[b]));
                } else if b == u.len() {
                    assert(u.contains(u[a]));
                }
            }
        }
    }
}

/// The frames a retransmission pass sends again are listed once each: exactly the due
/// frames that are not abandoned.
pub proof fn lemma_resent_once(p: PeerState, now: u64)
    requires
        p.wf(),
    ensures
        p.order().filter(resent_pred(p.pending(), now)).no_duplicates(),
        p.order().filter(resent_pred(p.pending(), now)).to_set() == resent_set(p.pending(), now),
{
    p.lemma_order_tracks_pending();
    lemma_filter_distinct(p.order(), resent_pred(p.pending(), now));
    let r = p.order().filter(resent_pred(p.pending(), now));
    assert forall|x: u32| r.to_set().contains(x) <==> resent_set(p.pending(), now).contains(x) by {
        assert(r.to_set().contains(x) == r.contains(x));
        assert(p.order().to_set().contains(x) == p.order().contains(x));
    }
    assert(r.to_set() =~= resent_set(p.pending(), now));
}

/// Whether the map holds a frame under `s`.
pub open spec fn held_pred(m: Map<u32, PendingPacket>) -> spec_fn(u32) -> bool {
    |s: u32| m.contains_key(s)
}

/// Whether a sequence is `x`.
pub open spec fn eq_pred(x: u32) -> spec_fn(u32) -> bool {
    |s: u32| s == x
}

/// `a + n`, held at `u8::MAX`.
pub open spec fn add_held8(a: u8, n: nat) -> u8 {
    if a + n > u8::MAX {
        u8::MAX
    } else {
        (a + n) as u8
    }
}

/// `a + n`, held at `u64::MAX`.
pub open spec fn add_held(a: u64, n: nat) -> u64 {
    if a + n > u64::MAX {
        u64::MAX
    } else {
        (a + n) as u64
    }
}

/// Sequences of frames abandoned by a retransmission pass at `now`.
pub open spec fn abandoned_set(m: Map<u32, PendingPacket>, now: u64) -> Set<u32> {
    m.dom().filter(|s: u32| m[s].due(now) && m[s].retry_count >= MAX_RETRIES)
}

/// Sequences of frames sent again by a retransmission pass at `now`.
pub open spec fn resent_set(m: Map<u32, PendingPacket>, now: u64) -> Set<u32> {
    m.dom().filter(|s: u32| m[s].due(now) && m[s].retry_count < MAX_RETRIES)
}

/// Counting one more member of a finite set that `x` joins.
proof fn lemma_count_step(a: Set<u32>, pre: Set<u32>, x: u32)
    requires
        pre.finite(),
        !pre.contains(x),
    ensures
        a.intersect(pre.insert(x)).len() == a.intersect(pre).len() + if a.contains(x) {
            1int
        } else {
            0int
        },
        a.intersect(pre).finite(),
{
    vstd::set_lib::lemma_set_subset_finite(pre, a.intersect(pre));
    if a.contains(x) {
        assert(a.intersect(pre.insert(x)) =~= a.intersect(pre).insert(x));
    } else {
        assert(a.intersect(pre.insert(x)) =~= a.intersect(pre));
    }
}

/// Whether some frame of the map is due at `now`.
pub open spec fn any_due(m: Map<u32, PendingPacket>, now: u64) -> bool {
    exists|s: u32| m.contains_key(s) && (#[trigger] m[s]).due(now)
}

/// Whether some frame of the map is due at `now` after its last retransmission.
pub open spec fn any_abandoned(m: Map<u32, PendingPacket>, now: u64) -> bool {
    exists|s: u32| m.contains_key(s) && (#[trigger] m[s]).due(now) && m[s].retry_count >= MAX_RETRIES
}

/// Whether a pending ping has gone unanswered for more than `PING_INTERVAL` at `now`.
pub open spec fn ping_timed_out_at(st: ConnectionState, now: u64) -> bool {
    st.ping_sent matches Some(t) && elapsed(now, t) > crate::stats::PING_INTERVAL
}

/// Whether the liveness step at `now` tears the peer down: a ping that ran out and made the
/// failures reach the limit; or else, when no ping is due, the close rule.
pub open spec fn liveness_closes(st: ConnectionState, now: u64) -> bool {
    let s1 = after_ping_timeout(st, now);
    (ping_timed_out_at(st, now) && s1.should_close_spec(now)) || (!s1.should_ping_spec(now)
        && s1.should_close_spec(now))
}

/// Whether the liveness step at `now` sends a Ping: the peer is not torn down for a ping
/// that ran out, and the ping rule holds.
pub open spec fn liveness_pings(st: ConnectionState, now: u64) -> bool {
    let s1 = after_ping_timeout(st, now);
    !(ping_timed_out_at(st, now) && s1.should_close_spec(now)) && s1.should_ping_spec(now)
}

/// The liveness of a peer after an unanswered ping, if one has run out at `now`.
pub open spec fn after_ping_timeout(st: ConnectionState, now: u64) -> ConnectionState {
    if st.ping_sent matches Some(t) && elapsed(now, t) > crate::stats::PING_INTERVAL {
        st.ping_failed_spec()
    } else {
        st
    }
}

fn copy_seqs(v: &Vec<u32>) -> (r: Vec<u32>)
    ensures
        r@ == v@,
{
    let mut r: Vec<u32> = Vec::new();
    let mut i: usize = 0;
    while i < v.len()
        invariant
            i <= v@.len(),
            r@ == v@.subrange(0, i as int),
        decreases v@.len() - i,
    {
        r.push(v[i]);
        i = i + 1;
    }
    r
}

impl PeerState {
    /// Retransmit every frame whose timeout has run out at `now`, abandoning those that
    /// were already retransmitted `MAX_RETRIES` times. Each loss feeds the congestion
    /// controller, which counts one event per RTO.
    pub fn retransmit(&mut self, now: u64, out: &mut Vec<Transmit>)
        requires
            old(self).wf(),
        ensures
            final(self).wf(),
            forall|s: u32| #[trigger] old(self).pending().contains_key(s) ==> retransmitted(old(self).pending(), final(self).pending(), s, now),
            forall|s: u32| #[trigger] final(self).pending().contains_key(s) ==> old(self).pending().contains_key(s),
            final(self).rtt() == if any_due(old(self).pending(), now) {
                old(self).rtt().lost(now)
            } else {
                old(self).rtt()
            },
            final(self).state() == if any_abandoned(old(self).pending(), now) {
                ConnectionState { status: ConnectionStatus::Degraded, ..old(self).state() }
            } else {
                old(self).state()
            },
            final(self).stats() == (ConnectionStats {
                packets_lost: add_held(old(self).stats().packets_lost, abandoned_set(old(self).pending(), now).len()),
                retransmissions: add_held(old(self).stats().retransmissions, resent_set(old(self).pending(), now).len()),
                ..old(self).stats()
            }),
            sends_of(
                old(out)@,
                final(out)@,
                old(self).addr(),
                old(self).pending(),
                old(self).order().filter(resent_pred(old(self).pending(), now)),
            ),
            old(self).order().no_duplicates(),
            old(self).order().to_set() == old(self).pending().dom(),
            final(self).addr() == old(self).addr(),
            same_seq(*old(self), *final(self)),
            same_received(*old(self), *final(self)),
            same_acks(*old(self), *final(self)),
    {
        let order = copy_seqs(&self.send_order);
        let ghost before = self.pending();
        let ghost r0 = self.rtt();
        let ghost st0 = self.state();
        let ghost lost0 = self.stats().packets_lost;
        let mut i: usize = 0;
        proof {
            let e = order@.subrange(0, 0);
            assert(e.to_set() =~= Set::<u32>::empty());
            assert(abandoned_set(before, now).intersect(e.to_set()) =~= Set::<u32>::empty());
            assert(resent_set(before, now).intersect(e.to_set()) =~= Set::<u32>::empty());
            reveal(Seq::filter);
            assert(e.filter(resent_pred(before, now)) =~= Seq::<u32>::empty());
            assert(out@.subrange(0, old(out)@.len() as int) =~= old(out)@);
        }
        while i < order.len()
            invariant
                i <= order@.len(),
                self.wf(),
                order@ == old(self).send_order@,
                before == old(self).pending(),
                r0 == old(self).rtt(),
                st0 == old(self).state(),
                lost0 == old(self).stats().packets_lost,
                order@.no_duplicates(),
                order@.to_set() == before.dom(),
                forall|k: int| 0 <= k < i ==> retransmitted(before, self.pending(), #[trigger] order@[k], now),
                forall|k: int| i <= k < order@.len() ==> self.pending().contains_key(#[trigger] order@[k]) && self.pending()[order@[k]] == before[order@[k]],
                forall|s: u32| #[trigger] self.pending().contains_key(s) ==> before.contains_key(s),
                self.rtt() == if (exists|k: int| 0 <= k < i && (#[trigger] before[order@[k]]).due(now)) {
                    r0.lost(now)
                } else {
                    r0
                },
                self.state() == if (exists|k: int| 0 <= k < i && (#[trigger] before[order@[k]]).due(now) && before[order@[k]].retry_count >= MAX_RETRIES) {
                    ConnectionState { status: ConnectionStatus::Degraded, ..st0 }
                } else {
                    st0
                },
                self.stats() == (ConnectionStats {
                    packets_lost: add_held(lost0, abandoned_set(before, now).intersect(order@.subrange(0, i as int).to_set()).len()),
                    retransmissions: add_held(old(self).stats().retransmissions, resent_set(before, now).intersect(order@.subrange(0, i as int).to_set()).len()),
                    ..old(self).stats()
                }),
                sends_of(
                    old(out)@,
                    out@,
                    old(self).addr(),
                    before,
                    order@.subrange(0, i as int).filter(resent_pred(before, now)),
                ),
                out@.len() >= old(out)@.len(),
                out@.subrange(0, old(out)@.len() as int) == old(out)@,
                forall|j: int| old(out)@.len() <= j < out@.len() ==> (#[trigger] out@[j]).to == old(self).addr(),
                self.addr() == old(self).addr(),
                same_seq(*old(self), *self),
                same_received(*old(self), *self),
                same_acks(*old(self), *self),
            decreases order@.len() - i,
        {
            let seq = order[i];
            let ghost mid = self.pending();
            let ghost out_before = out@;
            assert(self.pending().contains_key(order@[i as int]));
            proof {
                assert forall|k: int| i < k < order@.len() implies order@[k] != seq by {
                    assert(order@[i as int] == seq);
                }
            }
            let removed = self.remove_pending(seq);
            match removed {
                Some(mut pkt) => {
                    if pkt.should_retry(now) {
                        proof {
                            assert(self.rtt_stats.rto >= MIN_RTO);
                        }
                        self.rtt_stats.on_packet_lost(now);
                        if pkt.retry_count >= MAX_RETRIES {
                            self.connection_stats.record_packet_lost();
                            self.connection_state.mark_packet_lost();
                        } else {
                            let rto = if pkt.rto > MAX_PACKET_RTO / 2 {
                                MAX_PACKET_RTO
                            } else {
                                pkt.rto * 2
                            };
                            pkt.retry(now, rto);
                            out.push(Transmit { to: self.addr, bytes: copy_bytes(&pkt.data) });
                            self.connection_stats.record_retransmission();
                            self.insert_pending(seq, pkt);
                        }
                    } else {
                        self.insert_pending(seq, pkt);
                    }
                },
                None => {},
            }
            proof {
                assert forall|k: int| 0 <= k < i implies retransmitted(before, self.pending(), #[trigger] order@[k], now) by {
                    assert(order@[k] != seq);
                    assert(retransmitted(before, mid, order@[k], now));
                }
                assert forall|k: int| i < k < order@.len() implies self.pending().contains_key(#[trigger] order@[k]) && self.pending()[order@[k]] == before[order@[k]] by {
                    assert(order@[k] != seq);
                }
                assert(retransmitted(before, self.pending(), order@[i as int], now));
                assert(out@.subrange(0, old(out)@.len() as int) =~= old(out)@) by {
                    assert(out_before.subrange(0, old(out)@.len() as int) == old(out)@);
                }
                if before[seq].due(now) {
                    assert(r0.lost(now).lost(now) == r0.lost(now));
                }
            }
            i = i + 1;
            proof {
                assert(exists|k: int| 0 <= k < i && (#[trigger] before[order@[k]]).due(now) <==> ((exists|k: int| 0 <= k < i - 1 && (#[trigger] before[order@[k]]).due(now)) || before[seq].due(now)));
                let pre = order@.subrange(0, i - 1);
                assert(order@.subrange(0, i as int) == pre.push(seq));
                pre.lemma_push_to_set_commute(seq);
                vstd::seq_lib::seq_to_set_is_finite(pre);
                assert(!pre.to_set().contains(seq)) by {
                    if pre.to_set().contains(seq) {
                        let k = choose|k: int| 0 <= k < pre.len() && pre[k] == seq;
                        assert(order@[k] == order@[i - 1]);
                    }
                }
                lemma_count_step(abandoned_set(before, now), pre.to_set(), seq);
                lemma_count_step(resent_set(before, now), pre.to_set(), seq);
                pre.lemma_filter_push(seq, resent_pred(before, now));
                let f0 = pre.filter(resent_pred(before, now));
                if resent_pred(before, now)(seq) {
                    assert forall|j: int| 0 <= j < f0.len() + 1 implies (#[trigger] out@[old(out)@.len() + j]).to == old(self).addr()
                        && out@[old(out)@.len() + j].bytes@ == before[f0.push(seq)[j]].data@ by {
                        if j < f0.len() {
                            assert(out@[old(out)@.len() + j] == out_before[old(out)@.len() + j]);
                        }
                    }
                }
                assert(out@.subrange(0, old(out)@.len() as int) =~= old(out)@) by {
                    assert(out_before.subrange(0, old(out)@.len() as int) == old(out)@);
                }
            }
        }
        proof {
            assert(order@.subrange(0, order@.len() as int) == order@);
            assert(abandoned_set(before, now).intersect(order@.to_set()) =~= abandoned_set(before, now));
            assert(resent_set(before, now).intersect(order@.to_set()) =~= resent_set(before, now));
            assert forall|s: u32| #[trigger] before.contains_key(s) implies retransmitted(before, self.pending(), s, now) by {
                assert(order@.to_set().contains(s));
                let k = choose|k: int| 0 <= k < order@.len() && order@[k] == s;
                assert(retransmitted(before, self.pending(), order@[k], now));
            }
            if any_due(before, now) {
                let s = choose|s: u32| before.contains_key(s) && (#[trigger] before[s]).due(now);
                assert(order@.to_set().contains(s));
                let k = choose|k: int| 0 <= k < order@.len() && order@[k] == s;
                assert(before[order@[k]].due(now));
            }
            if any_abandoned(before, now) {
                let s = choose|s: u32| before.contains_key(s) && (#[trigger] before[s]).due(now) && before[s].retry_count >= MAX_RETRIES;
                assert(order@.to_set().contains(s));
                let k = choose|k: int| 0 <= k < order@.len() && order@[k] == s;
                assert(before[order@[k]].due(now));
            }
        }
    }
}


impl PeerState {
    /// A DataNack listing `seqs` arrived: each listed frame still held is sent again at
    /// once, and the retransmission counts toward its cap. The congestion controller's
    /// suppression window is cleared, so that a later timeout counts.
    pub fn on_data_nack(&mut self, seqs: &Vec<u32>, now: u64, out: &mut Vec<Transmit>)
        requires
            old(self).wf(),
        ensures
            final(self).wf(),
            final(self).pending().dom() == old(self).pending().dom(),
            forall|s: u32| #[trigger] old(self).pending().contains_key(s) ==> {
                &&& final(self).pending()[s].data == old(self).pending()[s].data
                &&& final(self).pending()[s].rto == old(self).pending()[s].rto
                &&& final(self).pending()[s].retry_count == add_held8(
                    old(self).pending()[s].retry_count,
                    seqs@.filter(eq_pred(s)).len(),
                )
                &&& !seqs@.contains(s) ==> final(self).pending()[s] == old(self).pending()[s]
                &&& seqs@.contains(s) ==> final(self).pending()[s].send_time == now
            },
            final(self).rtt() == if seqs@.filter(held_pred(old(self).pending())).len() > 0 {
                RttStats { last_congestion: None, ..old(self).rtt() }
            } else {
                old(self).rtt()
            },
            final(self).stats() == (ConnectionStats {
                retransmissions: add_held(
                    old(self).stats().retransmissions,
                    seqs@.filter(held_pred(old(self).pending())).len(),
                ),
                ..old(self).stats()
            }),
            sends_of(
                old(out)@,
                final(out)@,
                old(self).addr(),
                old(self).pending(),
                seqs@.filter(held_pred(old(self).pending())),
            ),
            final(self).addr() == old(self).addr(),
            same_seq(*old(self), *final(self)),
            same_received(*old(self), *final(self)),
            same_acks(*old(self), *final(self)),
            final(self).state() == old(self).state(),
    {
        let ghost m0 = old(self).pending();
        let mut i: usize = 0;
        proof {
            let e = seqs@.subrange(0, 0);
            reveal(Seq::filter);
            assert(e.filter(held_pred(m0)) =~= Seq::<u32>::empty());
            assert forall|s: u32| #[trigger] e.filter(eq_pred(s)) =~= Seq::<u32>::empty() by {
                reveal(Seq::filter);
            }
            assert(out@.subrange(0, old(out)@.len() as int) =~= old(out)@);
        }
        while i < seqs.len()
            invariant
                i <= seqs@.len(),
                self.wf(),
                m0 == old(self).pending(),
                self.pending().dom() == m0.dom(),
                forall|s: u32| #[trigger] m0.contains_key(s) ==> {
                    &&& self.pending()[s].data == m0[s].data
                    &&& self.pending()[s].rto == m0[s].rto
                    &&& self.pending()[s].retry_count == add_held8(
                        m0[s].retry_count,
                        seqs@.subrange(0, i as int).filter(eq_pred(s)).len(),
                    )
                    &&& !seqs@.subrange(0, i as int).contains(s) ==> self.pending()[s] == m0[s]
                    &&& seqs@.subrange(0, i as int).contains(s) ==> self.pending()[s].send_time == now
                },
                self.rtt() == if seqs@.subrange(0, i as int).filter(held_pred(m0)).len() > 0 {
                    RttStats { last_congestion: None, ..old(self).rtt() }
                } else {
                    old(self).rtt()
                },
                self.stats() == (ConnectionStats {
                    retransmissions: add_held(
                        old(self).stats().retransmissions,
                        seqs@.subrange(0, i as int).filter(held_pred(m0)).len(),
                    ),
                    ..old(self).stats()
                }),
                sends_of(old(out)@, out@, old(self).addr(), m0, seqs@.subrange(0, i as int).filter(held_pred(m0))),
                self.addr() == old(self).addr(),
                same_seq(*old(self), *self),
                same_received(*old(self), *self),
                same_acks(*old(self), *self),
                self.state() == old(self).state(),
            decreases seqs@.len() - i,
        {
            let seq = seqs[i];
            let ghost mid = self.pending();
            let ghost out_before = out@;
            match self.remove_pending(seq) {
                Some(mut pkt) => {
                    let rto = pkt.rto;
                    pkt.retry(now, rto);
                    out.push(Transmit { to: self.addr, bytes: copy_bytes(&pkt.data) });
                    self.connection_stats.record_retransmission();
                    self.rtt_stats.clear_congestion_suppression();
                    self.insert_pending(seq, pkt);
                },
                None => {},
            }
            proof {
                let pre = seqs@.subrange(0, i as int);
                assert(seqs@.subrange(0, i + 1) == pre.push(seq));
                let post = pre.push(seq);
                pre.lemma_push_to_set_commute(seq);
                assert forall|s: u32| post.contains(s) <==> (pre.contains(s) || s == seq) by {
                    assert(post.to_set().contains(s) == post.contains(s));
                    assert(pre.to_set().contains(s) == pre.contains(s));
                }
                pre.lemma_filter_push(seq, held_pred(m0));
                assert forall|s: u32| #[trigger] post.filter(eq_pred(s)).len() == pre.filter(eq_pred(s)).len() + if s == seq { 1int } else { 0int } by {
                    pre.lemma_filter_push(seq, eq_pred(s));
                }
                let f0 = pre.filter(held_pred(m0));
                if held_pred(m0)(seq) {
                    assert forall|j: int| 0 <= j < f0.len() + 1 implies (#[trigger] out@[old(out)@.len() + j]).to == old(self).addr()
                        && out@[old(out)@.len() + j].bytes@ == m0[f0.push(seq)[j]].data@ by {
                        if j < f0.len() {
                            assert(out@[old(out)@.len() + j] == out_before[old(out)@.len() + j]);
                        }
                    }
                }
                assert(out@.subrange(0, old(out)@.len() as int) =~= old(out)@) by {
                    assert(out_before.subrange(0, old(out)@.len() as int) == old(out)@);
                }
            }
            i = i + 1;
        }
        assert(seqs@.subrange(0, seqs@.len() as int) == seqs@);
    }

    /// A PingAck with `payload` arrived at `now`: a timestamp earlier than now gives a
    /// round-trip sample, and the ping counts as answered.
    pub fn on_ping_ack(&mut self, payload: &[u8], now: u64)
        requires
            old(self).wf(),
        ensures
            final(self).wf(),
            ({
                let now_ns = millis_to_nanos(now);
                if payload@.len() >= 8 && be64_at(payload@, 0) < now_ns {
                    let m = ((now_ns - be64_at(payload@, 0)) / NANOS_PER_MILLI as int) as u64;
                    &&& final(self).rtt() == old(self).rtt().sampled(m)
                    &&& final(self).stats() == (ConnectionStats {
                        avg_rtt: avg_after(old(self).stats().avg_rtt, m),
                        ..old(self).stats()
                    })
                } else {
                    &&& final(self).rtt() == old(self).rtt()
                    &&& final(self).stats() == old(self).stats()
                }
            }),
            final(self).state() == (ConnectionState {
                last_activity: now,
                ping_sent: None,
                consecutive_ping_failures: 0,
                status: ConnectionStatus::Alive,
            }),
            final(self).addr() == old(self).addr(),
            same_seq(*old(self), *final(self)),
            same_pending(*old(self), *final(self)),
            same_received(*old(self), *final(self)),
            same_acks(*old(self), *final(self)),
    {
        let now_ns = to_nanos(now);
        match PingPacket::deserialize(payload) {
            Some(ping) => {
                if ping.timestamp < now_ns {
                    self.sample_rtt((now_ns - ping.timestamp) / NANOS_PER_MILLI);
                }
            },
            None => {},
        }
        self.connection_state.mark_ping_received(now);
    }

    /// Emit one DataAck listing the oldest pending acknowledgements, at most
    /// `MAX_LISTED_SEQS` of them, under a fresh sequence. The rest wait for the next flush.
    pub fn flush_acks(&mut self, out: &mut Vec<Transmit>)
        requires
            old(self).wf(),
        ensures
            final(self).wf(),
            final(self).addr() == old(self).addr(),
            old(self).acks().len() == 0 ==> *final(self) == *old(self) && final(out)@ == old(out)@,
            old(self).acks().len() > 0 ==> {
                let k = vstd::math::min(old(self).acks().len() as int, MAX_LISTED_SEQS as int);
                let seq = old(self).next_seq();
                &&& final(out)@.len() == old(out)@.len() + 1
                &&& final(out)@.subrange(0, old(out)@.len() as int) == old(out)@
                &&& final(out)@.last().to == old(self).addr()
                &&& final(out)@.last().bytes@ == signed_frame_bytes(
                    PacketType::DataAck,
                    seq,
                    seq_list_payload(old(self).acks().subrange(0, k)),
                )
                &&& final(self).acks() == old(self).acks().subrange(k, old(self).acks().len() as int)
                &&& final(self).next_seq() == wrap_inc(seq)
                &&& final(self).seq_wrapped() == (old(self).seq_wrapped() || seq == u32::MAX)
                &&& same_pending(*old(self), *final(self))
                &&& same_received(*old(self), *final(self))
                &&& final(self).rtt() == old(self).rtt()
                &&& final(self).stats() == old(self).stats()
                &&& final(self).state() == old(self).state()
            },
    {
        if self.pending_acks.len() == 0 {
            return;
        }
        let k: usize = if self.pending_acks.len() < MAX_LISTED_SEQS {
            self.pending_acks.len()
        } else {
            MAX_LISTED_SEQS
        };
        let mut listed = self.pending_acks.split_off(k);
        std::mem::swap(&mut self.pending_acks, &mut listed);
        let seq = self.take_seq();
        let payload = DataAckPacket::new(listed).serialize();
        let frame = signed_frame(PacketType::DataAck, seq, payload.as_slice());
        out.push(Transmit { to: self.addr, bytes: frame });
        assert(out@.subrange(0, old(out)@.len() as int) =~= old(out)@);
    }

    /// The liveness step at `now`. An unanswered ping that ran out counts as a failure,
    /// and if that brings the failures to the limit the peer is due for teardown (returns
    /// true). Otherwise, if the peer has been idle too long with no ping pending, a Ping
    /// stamped with `now` is emitted; else the close rule decides.
    pub fn check_liveness(&mut self, now: u64, out: &mut Vec<Transmit>) -> (r: bool)
        requires
            old(self).wf(),
        ensures
            final(self).wf(),
            ({
                let st = after_ping_timeout(old(self).state(), now);
                &&& r == liveness_closes(old(self).state(), now)
                &&& if liveness_pings(old(self).state(), now) {
                    let seq = old(self).next_seq();
                    &&& final(out)@.len() == old(out)@.len() + 1
                    &&& final(out)@.subrange(0, old(out)@.len() as int) == old(out)@
                    &&& final(out)@.last().to == old(self).addr()
                    &&& final(out)@.last().bytes@ == signed_frame_bytes(
                        PacketType::Ping,
                        seq,
                        be64(millis_to_nanos(now)),
                    )
                    &&& final(self).next_seq() == wrap_inc(seq)
                    &&& final(self).seq_wrapped() == (old(self).seq_wrapped() || seq == u32::MAX)
                    &&& final(self).state() == (ConnectionState {
                        ping_sent: Some(now),
                        status: ConnectionStatus::Probing,
                        ..st
                    })
                } else {
                    &&& final(out)@ == old(out)@
                    &&& same_seq(*old(self), *final(self))
                    &&& final(self).state() == st
                }
            }),
            final(self).addr() == old(self).addr(),
            same_pending(*old(self), *final(self)),
            same_received(*old(self), *final(self)),
            same_acks(*old(self), *final(self)),
            final(self).rtt() == old(self).rtt(),
            final(self).stats() == old(self).stats(),
    {
        if self.connection_state.ping_timed_out(now) {
            self.connection_state.mark_ping_failed();
            if self.connection_state.should_close(now) {
                return true;
            }
        }
        if self.connection_state.should_ping(now) {
            let ping = PingPacket { timestamp: to_nanos(now) };
            let seq = self.take_seq();
            let payload = ping.serialize();
            let frame = signed_frame(PacketType::Ping, seq, payload.as_slice());
            out.push(Transmit { to: self.addr, bytes: frame });
            self.connection_state.mark_ping_sent(now);
            assert(out@.subrange(0, old(out)@.len() as int) =~= old(out)@);
            false
        } else {
            self.connection_state.should_close(now)
        }
    }

    /// The periodic cleanup at `now`: after a wrap of the sequence counter the received set
    /// is cleared. Returns whether the entry may be dropped: nothing pending, nothing
    /// received, and idle for more than `CLEANUP_THRESHOLD`.
    pub fn periodic_cleanup(&mut self, now: u64) -> (r: bool)
        requires
            old(self).wf(),
        ensures
            final(self).wf(),
            final(self).received() == if old(self).seq_wrapped() {
                Set::<u32>::empty()
            } else {
                old(self).received()
            },
            !final(self).seq_wrapped(),
            final(self).next_seq() == old(self).next_seq(),
            r == (final(self).received().is_empty() && final(self).pending().is_empty() && elapsed(
                now,
                final(self).state().last_activity,
            ) > CLEANUP_THRESHOLD),
            final(self).addr() == old(self).addr(),
            same_pending(*old(self), *final(self)),
            same_acks(*old(self), *final(self)),
            final(self).rtt() == old(self).rtt(),
            final(self).stats() == old(self).stats(),
            final(self).state() == old(self).state(),
    {
        if self.seq_wrapped {
            self.recv_acks.clear();
            self.seq_wrapped = false;
        }
        self.is_empty() && now.saturating_sub(self.connection_state.last_activity)
            > CLEANUP_THRESHOLD
    }
}


impl PeerState {
    /// A successful send or receive at `now`.
    pub fn touch(&mut self, now: u64)
        requires
            old(self).wf(),
        ensures
            final(self).wf(),
            final(self).state() == (ConnectionState {
                last_activity: now,
                consecutive_ping_failures: 0,
                status: ConnectionStatus::Alive,
                ..old(self).state()
            }),
            final(self).addr() == old(self).addr(),
            same_seq(*old(self), *final(self)),
            same_pending(*old(self), *final(self)),
            same_received(*old(self), *final(self)),
            same_acks(*old(self), *final(self)),
            final(self).rtt() == old(self).rtt(),
            final(self).stats() == old(self).stats(),
    {
        self.connection_state.update_activity(now);
    }
}

/// Whether the liveness step at `now` tears the peer down.
pub open spec fn dead_at(p: PeerState, now: u64) -> bool {
    liveness_closes(p.state(), now)
}

/// What one maintenance step at `now` does to a peer that it keeps: due frames are
/// retransmitted or abandoned, at most `MAX_LISTED_SEQS` acknowledgements are flushed, an
/// idle peer with no ping pending is probed, and the received set is kept or cleared.
pub open spec fn ticked(p: PeerState, q: PeerState, now: u64) -> bool {
    &&& forall|s: u32| #[trigger] p.pending().contains_key(s) ==> retransmitted(p.pending(), q.pending(), s, now)
    &&& forall|s: u32| #[trigger] q.pending().contains_key(s) ==> p.pending().contains_key(s)
    &&& q.acks() == p.acks().subrange(
        vstd::math::min(p.acks().len() as int, MAX_LISTED_SEQS as int),
        p.acks().len() as int,
    )
    &&& (q.received() == p.received() || q.received() == Set::<u32>::empty())
    &&& q.state().last_activity == p.state().last_activity
    &&& q.stats() == (ConnectionStats {
        packets_lost: add_held(p.stats().packets_lost, abandoned_set(p.pending(), now).len()),
        retransmissions: add_held(p.stats().retransmissions, resent_set(p.pending(), now).len()),
        ..p.stats()
    })
    &&& (p.state().ping_sent is None && p.state().consecutive_ping_failures
        < crate::stats::MAX_PING_FAILURES && p.state().should_ping_spec(now)) ==> (
    q.state().ping_sent == Some(now) && q.state().status == ConnectionStatus::Probing)
}

/// Whether the liveness step at `now` pings the peer.
pub open spec fn pinged_at(p: PeerState, now: u64) -> bool {
    liveness_pings(p.state(), now)
}

/// The datagrams that one maintenance step at `now` sends to peer `p`, in order: each due
/// frame that is not abandoned, in the order the frames were parked; then one DataAck for
/// the oldest pending acknowledgements, if any; then a Ping, if the peer is probed.
pub open spec fn maintain_frames(p: PeerState, f: Seq<Transmit>, now: u64) -> bool {
    let r = p.order().filter(resent_pred(p.pending(), now));
    let k = r.len() as int;
    let has_ack = p.acks().len() > 0;
    let n_ack: int = if has_ack { 1 } else { 0 };
    let ping_seq = if has_ack { wrap_inc(p.next_seq()) } else { p.next_seq() };
    &&& f.len() == k + n_ack + if pinged_at(p, now) { 1int } else { 0int }
    &&& forall|j: int| 0 <= j < k ==> (#[trigger] f[j]).to == p.addr() && f[j].bytes@ == p.pending()[r[j]].data@
    &&& has_ack ==> f[k].to == p.addr() && f[k].bytes@ == signed_frame_bytes(
        PacketType::DataAck,
        p.next_seq(),
        seq_list_payload(p.acks().subrange(0, vstd::math::min(p.acks().len() as int, MAX_LISTED_SEQS as int))),
    )
    &&& pinged_at(p, now) ==> f[k + n_ack].to == p.addr() && f[k + n_ack].bytes@ == signed_frame_bytes(
        PacketType::Ping,
        ping_seq,
        be64(millis_to_nanos(now)),
    )
}

/// A peer with nothing parked for retransmission gets from a maintenance step at most one
/// DataAck, if acknowledgements wait, and one Ping, if it is probed, and nothing else. An
/// idle peer with no ping pending and failures below the limit is probed.
pub proof fn lemma_quiet_peer_frames(p: PeerState, f: Seq<Transmit>, now: u64)
    requires
        p.wf(),
        p.pending().dom() == Set::<u32>::empty(),
        maintain_frames(p, f, now),
    ensures
        f.len() == (if p.acks().len() > 0 { 1int } else { 0int }) + (if pinged_at(p, now) {
            1int
        } else {
            0int
        }),
        (p.state().ping_sent is None && p.state().consecutive_ping_failures
            < crate::stats::MAX_PING_FAILURES && p.state().should_ping_spec(now)) ==> pinged_at(p, now),
{
    p.lemma_order_tracks_pending();
    if p.order().len() > 0 {
        assert(p.order().to_set().contains(p.order()[0]));
    }
    assert(p.order() =~= Seq::<u32>::empty());
    reveal(Seq::filter);
    assert(p.order().filter(resent_pred(p.pending(), now)) =~= Seq::<u32>::empty());
}

impl PeerState {
    /// One maintenance step at `now`: retransmission, acknowledgement flush, liveness.
    /// Returns whether the peer is to be torn down.
    pub fn maintain(&mut self, now: u64, out: &mut Vec<Transmit>) -> (r: bool)
        requires
            old(self).wf(),
        ensures
            final(self).wf(),
            final(self).addr() == old(self).addr(),
            r == dead_at(*old(self), now),
            ticked(*old(self), *final(self), now),
            final(self).received() == old(self).received(),
            final(out)@.len() >= old(out)@.len(),
            final(out)@.subrange(0, old(out)@.len() as int) == old(out)@,
            maintain_frames(*old(self), final(out)@.subrange(old(out)@.len() as int, final(out)@.len() as int), now),
            old(self).seq_wrapped() ==> final(self).seq_wrapped(),
            old(self).pending().is_empty() ==> final(self).pending().is_empty(),
    {
        let ghost o0 = out@;
        let ghost p0 = *self;
        self.retransmit(now, out);
        let ghost o1 = out@;
        self.flush_acks(out);
        let ghost o2 = out@;
        let r = self.check_liveness(now, out);
        proof {
            assert(o1.subrange(0, o0.len() as int) == o0);
            assert(o2.subrange(0, o1.len() as int) == o1);
            assert(out@.subrange(0, o2.len() as int) == o2);
            assert(out@.subrange(0, o0.len() as int) =~= o0);
            if old(self).acks().len() == 0 {
                assert(old(self).acks().subrange(0, 0) =~= old(self).acks());
            }
            let f = out@.subrange(o0.len() as int, out@.len() as int);
            let rr = p0.order().filter(resent_pred(p0.pending(), now));
            let k = rr.len() as int;
            assert forall|j: int| 0 <= j < k implies (#[trigger] f[j]).to == p0.addr() && f[j].bytes@ == p0.pending()[rr[j]].data@ by {
                assert(f[j] == o1[o0.len() + j]);
            }
            if p0.acks().len() > 0 {
                assert(f[k] == o2[o0.len() + k]);
            }
            if p0.pending().is_empty() {
                assert forall|s: u32| !self.pending().contains_key(s) by {}
                assert(self.pending().dom() =~= Set::<u32>::empty());
            }
        }
        r
    }
}

} // verus!
