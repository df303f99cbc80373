use vstd::prelude::*;
use crate::error::{PeerAddr, RudpError};
use crate::protocol::{
    PacketType, RawPacket, DataAckPacket, DataNackPacket, packet_type_of, be32_at, seq_list_of,
    PROTOCOL_HEADER_SIZE, MAX_BUFFER_SIZE,
};
use crate::security::{SecurityCode, security_code, signed_frame, signed_frame_bytes};
use crate::buffer_pool::{PooledBuffer, SharedBufferPool, PoolStats, DEFAULT_INITIAL_CAPACITY};
use crate::stats::{
    ConnectionStats, ConnectionState, ConnectionStatus, CongestionInfo, RttStats, elapsed, inc, avg_after,
    CLEANUP_THRESHOLD,
};
use crate::peer::{
    PeerState, PendingPacket, maintain_frames, resent_pred, Transmit, wrap_inc, dead_at, ticked, same_seq, same_pending, same_received,
    same_acks, ack_samples, avg_samples, acked_count, count_u32, sends_of, held_pred, eq_pred,
    add_held8, add_held, millis_to_nanos, NANOS_PER_MILLI,
};
use crate::protocol::be64_at;

verus! {

/// Interval between two periodic cleanups.
pub const CLEANUP_INTERVAL: u64 = 60000;

/// A Data payload handed to the caller, or an error met on the way.
pub struct ReceivedData {
    /// Data source address
    pub from: PeerAddr,
    /// Reception result
    pub result: Result<PooledBuffer, RudpError>,
}

/// The entry for address `a` in a list of peers, if there is one.
pub open spec fn peer_in(s: Seq<PeerState>, a: PeerAddr) -> Option<PeerState> {
    if exists|i: int| 0 <= i < s.len() && (#[trigger] s[i]).addr() == a {
        Some(s[choose|i: int| 0 <= i < s.len() && (#[trigger] s[i]).addr() == a])
    } else {
        None
    }
}

/// No two entries share an address.
pub open spec fn distinct_addrs(s: Seq<PeerState>) -> bool {
    forall|i: int, j: int|
        0 <= i < s.len() && 0 <= j < s.len() && i != j ==> (#[trigger] s[i]).addr() != (#[trigger] s[j]).addr()
}

/// In a list without repeated addresses, the entry found for an address is the one at its index.
proof fn lemma_peer_at(s: Seq<PeerState>, i: int)
    requires
        distinct_addrs(s),
        0 <= i < s.len(),
    ensures
        peer_in(s, s[i].addr()) == Some(s[i]),
{
    let a = s[i].addr();
    assert(s[i].addr() == a);
    let j = choose|j: int| 0 <= j < s.len() && (#[trigger] s[j]).addr() == a;
    assert(s[j].addr() == a);
    if j != i {
        assert(s[i].addr() != s[j].addr());
    }
}

/// Replacing an entry by one with the same address changes the lookup of that address only.
proof fn lemma_peer_update(s: Seq<PeerState>, i: int, p: PeerState)
    requires
        distinct_addrs(s),
        0 <= i < s.len(),
        p.addr() == s[i].addr(),
    ensures
        distinct_addrs(s.update(i, p)),
        peer_in(s.update(i, p), p.addr()) == Some(p),
        forall|b: PeerAddr| b != p.addr() ==> #[trigger] peer_in(s.update(i, p), b) == peer_in(s, b),
{
    let t = s.update(i, p);
    assert forall|x: int, y: int| 0 <= x < t.len() && 0 <= y < t.len() && x != y implies (#[trigger] t[x]).addr() != (#[trigger] t[y]).addr() by {
        assert(s[x].addr() != s[y].addr());
    }
    lemma_peer_at(t, i);
    assert forall|b: PeerAddr| b != p.addr() implies #[trigger] peer_in(t, b) == peer_in(s, b) by {
        if exists|k: int| 0 <= k < s.len() && (#[trigger] s[k]).addr() == b {
            let k = choose|k: int| 0 <= k < s.len() && (#[trigger] s[k]).addr() == b;
            assert(k != i);
            assert(t[k] == s[k]);
            lemma_peer_at(s, k);
            lemma_peer_at(t, k);
        } else {
            assert forall|k: int| 0 <= k < t.len() implies (#[trigger] t[k]).addr() != b by {
                if k != i {
                    assert(t[k] == s[k]);
                }
            }
        }
    }
}

/// Appending an entry for a new address changes the lookup of that address only.
proof fn lemma_peer_push(s: Seq<PeerState>, p: PeerState)
    requires
        distinct_addrs(s),
        peer_in(s, p.addr()) is None,
    ensures
        distinct_addrs(s.push(p)),
        peer_in(s.push(p), p.addr()) == Some(p),
        forall|b: PeerAddr| b != p.addr() ==> #[trigger] peer_in(s.push(p), b) == peer_in(s, b),
{
    let t = s.push(p);
    assert forall|x: int, y: int| 0 <= x < t.len() && 0 <= y < t.len() && x != y implies (#[trigger] t[x]).addr() != (#[trigger] t[y]).addr() by {
        if x == s.len() {
            assert(s[y].addr() != p.addr());
        } else if y == s.len() {
            assert(s[x].addr() != p.addr());
        } else {
            assert(s[x].addr() != s[y].addr());
        }
    }
    lemma_peer_at(t, s.len() as int);
    assert forall|b: PeerAddr| b != p.addr() implies #[trigger] peer_in(t, b) == peer_in(s, b) by {
        if exists|k: int| 0 <= k < s.len() && (#[trigger] s[k]).addr() == b {
            let k = choose|k: int| 0 <= k < s.len() && (#[trigger] s[k]).addr() == b;
            assert(t[k] == s[k]);
            lemma_peer_at(s, k);
            lemma_peer_at(t, k);
        } else {
            assert forall|k: int| 0 <= k < t.len() implies (#[trigger] t[k]).addr() != b by {
                if k < s.len() {
                    assert(t[k] == s[k]);
                }
            }
        }
    }
}

/// Removing an entry makes its address untracked and changes nothing else.
proof fn lemma_peer_remove(s: Seq<PeerState>, i: int)
    requires
        distinct_addrs(s),
        0 <= i < s.len(),
    ensures
        distinct_addrs(s.remove(i)),
        peer_in(s.remove(i), s[i].addr()) is None,
        forall|b: PeerAddr| b != s[i].addr() ==> #[trigger] peer_in(s.remove(i), b) == peer_in(s, b),
{
    let t = s.remove(i);
    assert forall|x: int, y: int| 0 <= x < t.len() && 0 <= y < t.len() && x != y implies (#[trigger] t[x]).addr() != (#[trigger] t[y]).addr() by {
        let x2 = if x < i { x } else { x + 1 };
        let y2 = if y < i { y } else { y + 1 };
        assert(t[x] == s[x2] && t[y] == s[y2]);
        assert(s[x2].addr() != s[y2].addr());
    }
    assert forall|k: int| 0 <= k < t.len() implies (#[trigger] t[k]).addr() != s[i].addr() by {
        let k2 = if k < i { k } else { k + 1 };
        assert(t[k] == s[k2]);
        assert(s[k2].addr() != s[i].addr());
    }
    assert forall|b: PeerAddr| b != s[i].addr() implies #[trigger] peer_in(t, b) == peer_in(s, b) by {
        if exists|k: int| 0 <= k < s.len() && (#[trigger] s[k]).addr() == b {
            let k = choose|k: int| 0 <= k < s.len() && (#[trigger] s[k]).addr() == b;
            assert(k != i);
            let k2 = if k < i { k } else { k - 1 };
            assert(t[k2] == s[k]);
            lemma_peer_at(s, k);
            lemma_peer_at(t, k2);
        } else {
            assert forall|k: int| 0 <= k < t.len() implies (#[trigger] t[k]).addr() != b by {
                let k2 = if k < i { k } else { k + 1 };
                assert(t[k] == s[k2]);
            }
        }
    }
}

/// The protocol engine: all peers of one datagram endpoint.
///
/// The engine does no I/O and reads no clock. Each operation takes the current time in
/// milliseconds; datagrams that must leave are queued and handed out by
/// `take_outgoing`, except the Data frame of `send`, which is returned to the caller.
pub struct Rudpbase {
    peers: Vec<PeerState>,
    last_cleanup: u64,
    buffer_pool: SharedBufferPool,
    outbox: Vec<Transmit>,
}

impl Rudpbase {
    /// The entry of peer `a`, if one is tracked.
    pub closed spec fn peer(&self, a: PeerAddr) -> Option<PeerState> {
        peer_in(self.peers@, a)
    }

    /// The tracked peers, in the order they are served.
    pub closed spec fn peer_list(&self) -> Seq<PeerState> {
        self.peers@
    }

    /// Datagrams queued for transmission, oldest first.
    pub closed spec fn outgoing(&self) -> Seq<Transmit> {
        self.outbox@
    }

    pub closed spec fn wf(&self) -> bool {
        &&& distinct_addrs(self.peers@)
        &&& forall|i: int| 0 <= i < self.peers@.len() ==> (#[trigger] self.peers@[i]).wf()
        &&& self.buffer_pool.wf()
    }

    /// An engine with no peers, drawing buffers from `buffer_pool`.
    pub fn with_buffer_pool(buffer_pool: SharedBufferPool, now: u64) -> (r: Self)
        requires
            buffer_pool.wf(),
        ensures
            r.wf(),
            forall|a: PeerAddr| #[trigger] r.peer(a) is None,
            r.outgoing() == Seq::<Transmit>::empty(),
    {
        Rudpbase { peers: Vec::new(), last_cleanup: now, buffer_pool, outbox: Vec::new() }
    }

    /// An engine with no peers and a pool of its own, warmed up with
    /// `DEFAULT_INITIAL_CAPACITY` more blocks.
    pub fn new(now: u64) -> (r: Self)
        ensures
            r.wf(),
            forall|a: PeerAddr| #[trigger] r.peer(a) is None,
            r.outgoing() == Seq::<Transmit>::empty(),
    {
        let buffer_pool = SharedBufferPool::default();
        let _ = buffer_pool.warmup(DEFAULT_INITIAL_CAPACITY);
        Self::with_buffer_pool(buffer_pool, now)
    }

    /// A buffer from the pool, with an empty payload.
    pub fn get_buffer(&self) -> (r: Result<PooledBuffer, RudpError>)
        requires
            self.wf(),
        ensures
            r matches Ok(b) && b.wf() && b.len_spec() == 0,
    {
        self.buffer_pool.get_write_buffer()
    }

    /// Give a buffer back to the pool.
    pub fn release_buffer(&self, buffer: PooledBuffer)
        requires
            self.wf(),
            buffer.wf(),
    {
        self.buffer_pool.release(buffer)
    }

    /// The counters of the buffer pool.
    pub fn get_buffer_pool_stats(&self) -> (r: Result<PoolStats, RudpError>)
        requires
            self.wf(),
        ensures
            r matches Ok(s) && s.free_count <= crate::buffer_pool::MAX_POOL_CAPACITY,
    {
        self.buffer_pool.stats()
    }

    /// The status of peer `addr`; an untracked peer is dead.
    pub fn connection_status(&self, addr: PeerAddr) -> (r: ConnectionStatus)
        requires
            self.wf(),
        ensures
            r == match self.peer(addr) {
                Some(p) => p.state().status,
                None => ConnectionStatus::Dead,
            },
    {
        match self.find_peer(addr) {
            Some(i) => {
                proof {
                    lemma_peer_at(self.peers@, i as int);
                }
                self.peers[i].connection_state().status
            },
            None => ConnectionStatus::Dead,
        }
    }

    /// The statistics of peer `addr`, if it is tracked.
    pub fn get_stats(&self, addr: PeerAddr) -> (r: Option<ConnectionStats>)
        requires
            self.wf(),
        ensures
            r == match self.peer(addr) {
                Some(p) => Some(p.stats()),
                None => None::<ConnectionStats>,
            },
    {
        match self.find_peer(addr) {
            Some(i) => {
                proof {
                    lemma_peer_at(self.peers@, i as int);
                }
                Some(self.peers[i].connection_stats())
            },
            None => None,
        }
    }

    /// The congestion control of peer `addr`, if it is tracked.
    pub fn congestion_info(&self, addr: PeerAddr) -> (r: Option<CongestionInfo>)
        requires
            self.wf(),
        ensures
            r is Some <==> self.peer(addr) is Some,
            r matches Some(c) ==> self.peer(addr) matches Some(p) && c.congestion_window
                == p.rtt().cwnd && c.slow_start_threshold == p.rtt().ssthresh
                && c.available_window == (if p.rtt().cwnd >= p.rtt().in_flight {
                p.rtt().cwnd - p.rtt().in_flight
            } else {
                0
            })
                && c.in_flight_packets == p.rtt().in_flight && c.congestion_state
                == p.rtt().congestion_state && c.current_rto == p.rtt().rto,
    {
        match self.find_peer(addr) {
            Some(i) => {
                proof {
                    lemma_peer_at(self.peers@, i as int);
                }
                let r = self.peers[i].rtt_stats();
                Some(
                    CongestionInfo {
                        congestion_window: r.cwnd,
                        slow_start_threshold: r.ssthresh,
                        in_flight_packets: r.in_flight,
                        available_window: r.available_window(),
                        congestion_state: r.congestion_state,
                        current_rto: r.rto,
                    },
                )
            },
            None => None,
        }
    }

    /// Hand out the queued datagrams.
    pub fn take_outgoing(&mut self) -> (r: Vec<Transmit>)
        requires
            old(self).wf(),
        ensures
            final(self).wf(),
            r@ == old(self).outgoing(),
            final(self).outgoing() == Seq::<Transmit>::empty(),
            forall|a: PeerAddr| #[trigger] final(self).peer(a) == old(self).peer(a),
    {
        let mut r: Vec<Transmit> = Vec::new();
        std::mem::swap(&mut r, &mut self.outbox);
        r
    }

    fn find_peer(&self, addr: PeerAddr) -> (r: Option<usize>)
        ensures
            match r {
                Some(i) => i < self.peers@.len() && self.peers@[i as int].addr() == addr,
                None => self.peer(addr) is None,
            },
    {
        let mut i: usize = 0;
        while i < self.peers.len()
            invariant
                i <= self.peers@.len(),
                forall|j: int| 0 <= j < i ==> (#[trigger] self.peers@[j]).addr() != addr,
            decreases self.peers@.len() - i,
        {
            if self.peers[i].peer_addr() == addr {
                return Some(i);
            }
            i = i + 1;
        }
        None
    }
}


/// Whether some entry at an index flagged in `flags` has address `a`.
pub open spec fn flagged(s: Seq<PeerState>, flags: Seq<bool>, a: PeerAddr) -> bool {
    exists|k: int| 0 <= k < s.len() && k < flags.len() && flags[k] && (#[trigger] s[k]).addr() == a
}

/// The liveness of a peer after a successful send or receive at `now`.
pub open spec fn touched(st: ConnectionState, now: u64) -> ConnectionState {
    ConnectionState {
        last_activity: now,
        consecutive_ping_failures: 0,
        status: ConnectionStatus::Alive,
        ..st
    }
}

/// The sequence the next frame to a peer gets: 0 for an untracked peer.
pub open spec fn next_seq_of(p: Option<PeerState>) -> u32 {
    match p {
        Some(q) => q.next_seq(),
        None => 0,
    }
}

/// The retransmit map of a peer: empty for an untracked peer.
pub open spec fn pending_of(p: Option<PeerState>) -> Map<u32, PendingPacket> {
    match p {
        Some(q) => q.pending(),
        None => Map::empty(),
    }
}

/// The timing and window of a peer: the initial ones for an untracked peer.
pub open spec fn rtt_of(p: Option<PeerState>) -> RttStats {
    match p {
        Some(q) => q.rtt(),
        None => RttStats::initial(),
    }
}

/// The statistics of a peer: those of a fresh entry at `now` for an untracked peer.
pub open spec fn stats_of(p: Option<PeerState>, now: u64) -> ConnectionStats {
    match p {
        Some(q) => q.stats(),
        None => ConnectionStats {
            packets_sent: 0,
            packets_received: 0,
            packets_lost: 0,
            retransmissions: 0,
            avg_rtt: 200,
            last_activity: now,
        },
    }
}

/// The liveness of a peer: that of a fresh entry at `now` for an untracked peer.
pub open spec fn state_of(p: Option<PeerState>, now: u64) -> ConnectionState {
    match p {
        Some(q) => q.state(),
        None => ConnectionState {
            last_activity: now,
            ping_sent: None,
            consecutive_ping_failures: 0,
            status: ConnectionStatus::Alive,
        },
    }
}

/// Whether a peer's sequence counter wrapped since the last cleanup: no for an untracked peer.
pub open spec fn seq_wrapped_of(p: Option<PeerState>) -> bool {
    match p {
        Some(q) => q.seq_wrapped(),
        None => false,
    }
}

/// Sequences received from a peer: none for an untracked peer.
pub open spec fn received_of(p: Option<PeerState>) -> Set<u32> {
    match p {
        Some(q) => q.received(),
        None => Set::empty(),
    }
}

/// Data frames received from a peer: none for an untracked peer.
pub open spec fn received_count_of(p: Option<PeerState>) -> u64 {
    match p {
        Some(q) => q.stats().packets_received,
        None => 0,
    }
}

/// Acknowledgements waiting for a peer: none for an untracked peer.
pub open spec fn acks_of(p: Option<PeerState>) -> Seq<u32> {
    match p {
        Some(q) => q.acks(),
        None => Seq::empty(),
    }
}

impl Rudpbase {
    /// The index of the entry of `addr`, created fresh at `now` if there is none.
    fn peer_for(&mut self, addr: PeerAddr, now: u64) -> (r: usize)
        requires
            old(self).wf(),
        ensures
            final(self).wf(),
            r < final(self).peers@.len(),
            final(self).peers@[r as int].addr() == addr,
            final(self).peer(addr) == Some(final(self).peers@[r as int]),
            old(self).peer(addr) matches Some(p) ==> final(self).peers@ == old(self).peers@ && p
                == final(self).peers@[r as int],
            old(self).peer(addr) is None ==> PeerState::is_fresh(final(self).peers@[r as int], addr, now),
            forall|b: PeerAddr| b != addr ==> #[trigger] final(self).peer(b) == old(self).peer(b),
            final(self).outbox == old(self).outbox,
            final(self).last_cleanup == old(self).last_cleanup,
            final(self).buffer_pool == old(self).buffer_pool,
    {
        match self.find_peer(addr) {
            Some(i) => {
                proof {
                    lemma_peer_at(self.peers@, i as int);
                }
                i
            },
            None => {
                let p = PeerState::new(addr, now);
                proof {
                    lemma_peer_push(self.peers@, p);
                }
                self.peers.push(p);
                self.peers.len() - 1
            },
        }
    }

    /// Submit the payload of `buffer` to `target` as a Data frame at `now`.
    ///
    /// Fails with `CongestionWindowFull` when the target's frames in flight fill its
    /// window; otherwise the frame gets the target's next sequence, is parked for
    /// retransmission, and is returned for the caller to transmit. The buffer goes back to
    /// the pool either way.
    pub fn send(&mut self, buffer: PooledBuffer, target: PeerAddr, now: u64) -> (r: Result<
        Vec<u8>,
        RudpError,
    >)
        requires
            old(self).wf(),
            buffer.wf(),
        ensures
            final(self).wf(),
            final(self).outgoing() == old(self).outgoing(),
            forall|b: PeerAddr| b != target ==> #[trigger] final(self).peer(b) == old(self).peer(b),
            (old(self).peer(target) matches Some(p) && p.rtt().in_flight >= p.rtt().cwnd) ==> (r matches Err(
                RudpError::CongestionWindowFull,
            ) && final(self).peer(target) == old(self).peer(target)),
            !(old(self).peer(target) matches Some(p) && p.rtt().in_flight >= p.rtt().cwnd) ==> (r matches Ok(frame)
                && final(self).peer(target) matches Some(q) && {
                let seq = next_seq_of(old(self).peer(target));
                &&& frame@ == signed_frame_bytes(PacketType::Data, seq, buffer.payload())
                &&& q.next_seq() == wrap_inc(seq)
                &&& q.pending().contains_key(seq)
                &&& q.pending()[seq].data@ == frame@
                &&& q.pending()[seq].send_time == now
                &&& q.pending()[seq].retry_count == 0
                &&& q.state().status == ConnectionStatus::Alive
                &&& q.state().last_activity == now
                &&& q.received() == received_of(old(self).peer(target))
                &&& q.pending()[seq].rto == crate::peer::packet_rto(rtt_of(old(self).peer(target)).rto)
                &&& q.pending() == pending_of(old(self).peer(target)).insert(seq, q.pending()[seq])
                &&& q.rtt() == (RttStats {
                    in_flight: (rtt_of(old(self).peer(target)).in_flight + 1) as u32,
                    ..rtt_of(old(self).peer(target))
                })
                &&& q.stats() == (ConnectionStats {
                    packets_sent: inc(stats_of(old(self).peer(target), now).packets_sent),
                    last_activity: now,
                    ..stats_of(old(self).peer(target), now)
                })
                &&& q.state() == touched(state_of(old(self).peer(target), now), now)
                &&& q.acks() == acks_of(old(self).peer(target))
                &&& q.seq_wrapped() == (seq_wrapped_of(old(self).peer(target)) || seq == u32::MAX)
            }),
    {
        let i = self.peer_for(target, now);
        let mut buffer = buffer;
        let ghost before = self.peers@;
        let ghost mid = *self;
        let r = self.peers[i].submit(&mut buffer, now);
        proof {
            lemma_peer_update(before, i as int, self.peers@[i as int]);
            assert(self.peers@ == before.update(i as int, self.peers@[i as int]));
            assert forall|b: PeerAddr| b != target implies #[trigger] peer_in(self.peers@, b) == peer_in(before, b) by {
                assert(peer_in(before.update(i as int, self.peers@[i as int]), b) == peer_in(before, b));
                assert(mid.peer(b) == old(self).peer(b));
            }
        }
        self.buffer_pool.release(buffer);
        assert forall|b: PeerAddr| b != target implies #[trigger] self.peer(b) == old(self).peer(b) by {
            assert(peer_in(self.peers@, b) == peer_in(before, b));
            assert(mid.peer(b) == old(self).peer(b));
        }
        r
    }
}


/// Whether a datagram is a well-formed frame whose integrity tag matches its contents.
pub open spec fn valid_frame(packet: Seq<u8>) -> bool {
    &&& packet.len() >= PROTOCOL_HEADER_SIZE
    &&& packet_type_of(packet[0]) matches Some(t) && be32_at(packet, 1) == security_code(
        t,
        be32_at(packet, 5),
        packet.subrange(PROTOCOL_HEADER_SIZE as int, packet.len() as int),
    )
}

/// The type of a well-formed frame.
pub open spec fn frame_type(packet: Seq<u8>) -> PacketType {
    packet_type_of(packet[0])->Some_0
}

/// The sequence of a frame.
pub open spec fn frame_seq(packet: Seq<u8>) -> u32 {
    be32_at(packet, 5)
}

/// The payload of a frame.
pub open spec fn frame_payload(packet: Seq<u8>) -> Seq<u8> {
    packet.subrange(PROTOCOL_HEADER_SIZE as int, packet.len() as int)
}

/// A Data frame as `send` produces it is accepted by the receiving engine as a valid Data
/// frame carrying the same sequence and payload; so, when it arrives with a sequence the
/// receiver has not seen from that sender, `handle_received_packet` hands out exactly that
/// payload, stamped with the sender's address.
pub proof fn lemma_sent_frame_is_delivered(seq: u32, payload: Seq<u8>)
    ensures
        ({
            let f = signed_frame_bytes(PacketType::Data, seq, payload);
            &&& valid_frame(f)
            &&& frame_type(f) == PacketType::Data
            &&& frame_seq(f) == seq
            &&& frame_payload(f) == payload
        }),
{
    crate::security::lemma_parse_serialize_round_trip(PacketType::Data, seq, payload);
    crate::security::lemma_serialized_frame_verifies(PacketType::Data, seq, payload);
}

impl Rudpbase {
    /// Forget peer `addr`.
    fn remove_peer(&mut self, addr: PeerAddr)
        requires
            old(self).wf(),
        ensures
            final(self).wf(),
            final(self).peer(addr) is None,
            forall|b: PeerAddr| b != addr ==> #[trigger] final(self).peer(b) == old(self).peer(b),
            final(self).outbox == old(self).outbox,
            final(self).last_cleanup == old(self).last_cleanup,
            final(self).buffer_pool == old(self).buffer_pool,
    {
        match self.find_peer(addr) {
            Some(i) => {
                proof {
                    lemma_peer_remove(self.peers@, i as int);
                }
                self.peers.remove(i);
            },
            None => {},
        }
    }

    /// Queue a frame for `to`.
    fn emit(&mut self, to: PeerAddr, bytes: Vec<u8>)
        ensures
            final(self).outgoing().len() == old(self).outgoing().len() + 1,
            final(self).outgoing().subrange(0, old(self).outgoing().len() as int) == old(self).outgoing(),
            final(self).outgoing().last().to == to,
            final(self).outgoing().last().bytes == bytes,
            final(self).peers == old(self).peers,
            final(self).last_cleanup == old(self).last_cleanup,
            final(self).buffer_pool == old(self).buffer_pool,
    {
        self.outbox.push(Transmit { to, bytes });
        assert(self.outbox@.subrange(0, old(self).outbox@.len() as int) =~= old(self).outbox@);
    }

    /// Handle one datagram that arrived from `from` at `now`.
    ///
    /// Malformed frames and frames whose integrity tag does not match are reported and
    /// change nothing. A Data frame is acknowledged (later, in a batch) and its payload is
    /// handed out in a pooled buffer unless its sequence was received before. Control frames
    /// change the engine's state and hand nothing out.
    pub fn handle_received_packet(&mut self, packet: &[u8], from: PeerAddr, now: u64) -> (r: Result<
        Option<ReceivedData>,
        RudpError,
    >)
        requires
            old(self).wf(),
        ensures
            final(self).wf(),
            packet@.len() < PROTOCOL_HEADER_SIZE ==> (r matches Err(RudpError::PacketTooSmall { size, min })
                && size == packet@.len() && min == PROTOCOL_HEADER_SIZE),
            packet@.len() >= PROTOCOL_HEADER_SIZE && packet_type_of(packet@[0]) is None ==> r matches Err(
                RudpError::Protocol { .. },
            ),
            packet@.len() >= PROTOCOL_HEADER_SIZE && packet_type_of(packet@[0]) is Some && !valid_frame(packet@)
                ==> r matches Err(RudpError::Security),
            !valid_frame(packet@) ==> {
                &&& final(self).outgoing() == old(self).outgoing()
                &&& forall|b: PeerAddr| #[trigger] final(self).peer(b) == old(self).peer(b)
            },
            valid_frame(packet@) ==> forall|b: PeerAddr| b != from ==> #[trigger] final(self).peer(b) == old(self).peer(b),
            valid_frame(packet@) && frame_type(packet@) == PacketType::Data ==> ({
                let seq = frame_seq(packet@);
                let payload = frame_payload(packet@);
                let seen = received_of(old(self).peer(from)).contains(seq);
                &&& (final(self).peer(from) matches Some(q) && q.received() == received_of(
                    old(self).peer(from),
                ).insert(seq) && q.acks() == acks_of(old(self).peer(from)).push(seq)
                    && q.state().last_activity == now && q.state().status == ConnectionStatus::Alive
                    && q.stats().packets_received == if seen {
                    received_count_of(old(self).peer(from))
                } else {
                    inc(received_count_of(old(self).peer(from)))
                })
                &&& final(self).outgoing() == old(self).outgoing()
                &&& (seen ==> r matches Ok(None))
                &&& (!seen && payload.len() <= MAX_BUFFER_SIZE ==> (r matches Ok(Some(d)) && d.from == from
                    && (d.result matches Ok(b) && b.wf() && b.payload() == payload)))
                &&& (!seen && payload.len() > MAX_BUFFER_SIZE ==> r matches Err(
                    RudpError::BufferTooLarge { .. },
                ))
            }),
            valid_frame(packet@) && frame_type(packet@) == PacketType::DataAck ==> ({
                &&& (r matches Ok(None))
                &&& final(self).outgoing() == old(self).outgoing()
                &&& old(self).peer(from) is None ==> final(self).peer(from) is None
                &&& (old(self).peer(from) matches Some(p) ==> (final(self).peer(from) matches Some(q)
                    && q.state() == touched(p.state(), now) && same_seq(p, q) && same_received(p, q)
                    && same_acks(p, q) && (seq_list_of(frame_payload(packet@)) matches Some(l) ==> {
                    &&& q.pending() == p.pending().remove_keys(l.to_set())
                    &&& q.rtt() == if acked_count(p.pending().dom(), l) > 0 {
                        ack_samples(p.rtt(), p.pending(), l, now).acked(count_u32(acked_count(p.pending().dom(), l)))
                    } else {
                        ack_samples(p.rtt(), p.pending(), l, now)
                    }
                    &&& q.stats() == (ConnectionStats {
                        avg_rtt: avg_samples(p.stats().avg_rtt, p.pending(), l, now),
                        ..p.stats()
                    })
                    &&& (forall|i: int|
                        0 <= i < l.len() && p.pending().contains_key(#[trigger] l[i])
                            ==> p.pending()[l[i]].retry_count > 0) ==> q.rtt().srtt
                        == p.rtt().srtt && q.rtt().rttvar == p.rtt().rttvar && q.rtt().rto == p.rtt().rto
                }) && (seq_list_of(frame_payload(packet@)) is None ==> q.pending() == p.pending()
                    && q.rtt() == p.rtt() && q.stats() == p.stats())))
            }),
            valid_frame(packet@) && frame_type(packet@) == PacketType::DataNack ==> ({
                &&& (r matches Ok(None))
                &&& old(self).peer(from) is None ==> final(self).peer(from) is None && final(self).outgoing() == old(self).outgoing()
                &&& (old(self).peer(from) matches Some(p) ==> (final(self).peer(from) matches Some(q)
                    && q.state() == touched(p.state(), now) && same_seq(p, q) && same_received(p, q)
                    && same_acks(p, q) && q.pending().dom() == p.pending().dom()
                    && (seq_list_of(frame_payload(packet@)) matches Some(l) ==> {
                    &&& sends_of(old(self).outgoing(), final(self).outgoing(), from, p.pending(), l.filter(held_pred(p.pending())))
                    &&& q.stats() == (ConnectionStats {
                        retransmissions: add_held(p.stats().retransmissions, l.filter(held_pred(p.pending())).len()),
                        ..p.stats()
                    })
                    &&& forall|s: u32| #[trigger] p.pending().contains_key(s) ==> {
                        &&& q.pending()[s].data == p.pending()[s].data
                        &&& q.pending()[s].rto == p.pending()[s].rto
                        &&& q.pending()[s].retry_count == add_held8(p.pending()[s].retry_count, l.filter(eq_pred(s)).len())
                        &&& !l.contains(s) ==> q.pending()[s] == p.pending()[s]
                        &&& l.contains(s) ==> q.pending()[s].send_time == now
                    }
                }) && (seq_list_of(frame_payload(packet@)) is None ==> q.pending() == p.pending()
                    && q.stats() == p.stats() && final(self).outgoing() == old(self).outgoing())))
            }),
            valid_frame(packet@) && frame_type(packet@) == PacketType::Ping ==> ({
                &&& (r matches Ok(None))
                &&& final(self).outgoing().len() == old(self).outgoing().len() + 1
                &&& final(self).outgoing().subrange(0, old(self).outgoing().len() as int) == old(self).outgoing()
                &&& final(self).outgoing().last().to == from
                &&& final(self).outgoing().last().bytes@ == signed_frame_bytes(
                    PacketType::PingAck,
                    frame_seq(packet@),
                    frame_payload(packet@),
                )
                &&& old(self).peer(from) is None ==> final(self).peer(from) is None
            }),
            valid_frame(packet@) && frame_type(packet@) == PacketType::PingAck ==> ({
                &&& (r matches Ok(None))
                &&& final(self).outgoing() == old(self).outgoing()
                &&& old(self).peer(from) is None ==> final(self).peer(from) is None
                &&& (old(self).peer(from) matches Some(p) ==> (final(self).peer(from) matches Some(q)
                    && q.state().ping_sent is None && q.state().status == ConnectionStatus::Alive
                    && q.state().last_activity == now && q.state().consecutive_ping_failures == 0
                    && same_seq(p, q) && same_pending(p, q) && same_received(p, q) && same_acks(p, q)
                    && ({
                    let pl = frame_payload(packet@);
                    let now_ns = millis_to_nanos(now);
                    if pl.len() >= 8 && be64_at(pl, 0) < now_ns {
                        let m = ((now_ns - be64_at(pl, 0)) / NANOS_PER_MILLI as int) as u64;
                        q.rtt() == p.rtt().sampled(m) && q.stats() == (ConnectionStats {
                            avg_rtt: avg_after(p.stats().avg_rtt, m),
                            ..p.stats()
                        })
                    } else {
                        q.rtt() == p.rtt() && q.stats() == p.stats()
                    }
                })))
            }),
            valid_frame(packet@) && frame_type(packet@) == PacketType::Close ==> ({
                &&& (r matches Ok(None))
                &&& final(self).peer(from) is None
                &&& final(self).outgoing().len() == old(self).outgoing().len() + 1
                &&& final(self).outgoing().subrange(0, old(self).outgoing().len() as int) == old(self).outgoing()
                &&& final(self).outgoing().last().to == from
                &&& final(self).outgoing().last().bytes@ == signed_frame_bytes(
                    PacketType::CloseAck,
                    frame_seq(packet@),
                    Seq::empty(),
                )
            }),
            valid_frame(packet@) && frame_type(packet@) == PacketType::CloseAck ==> ({
                &&& (r matches Ok(None))
                &&& final(self).peer(from) is None
                &&& final(self).outgoing() == old(self).outgoing()
            }),
    {
        let pk = match RawPacket::parse(packet) {
            Ok(p) => p,
            Err(e) => {
                return Err(e);
            },
        };
        if !SecurityCode::verify(pk.packet_type, pk.seq, pk.data.as_slice(), pk.security_code) {
            return Err(RudpError::Security);
        }
        let ghost old_peers = self.peers@;
        let found = self.find_peer(from);
        match found {
            Some(i) => {
                proof {
                    lemma_peer_at(self.peers@, i as int);
                }
                self.peers[i].touch(now);
                proof {
                    lemma_peer_update(old_peers, i as int, self.peers@[i as int]);
                    assert(self.peers@ == old_peers.update(i as int, self.peers@[i as int]));
                }
            },
            None => {},
        }
        let ghost touched = *self;
        assert forall|b: PeerAddr| b != from implies #[trigger] touched.peer(b) == old(self).peer(b) by {
            if found is Some {
                assert(peer_in(old_peers.update(found->Some_0 as int, self.peers@[found->Some_0 as int]), b) == peer_in(old_peers, b));
            }
        }
        assert(touched.peer(from) is Some <==> old(self).peer(from) is Some);
        match pk.packet_type {
            PacketType::Data => {
                let i = self.peer_for(from, now);
                let ghost before = self.peers@;
                let ghost mid = *self;
                let fresh = self.peers[i].receive_data(pk.seq, now);
                proof {
                    lemma_peer_update(before, i as int, self.peers@[i as int]);
                    assert(self.peers@ == before.update(i as int, self.peers@[i as int]));
                    assert forall|b: PeerAddr| b != from implies #[trigger] self.peer(b) == old(self).peer(b) by {
                        assert(peer_in(self.peers@, b) == peer_in(before, b));
                        assert(mid.peer(b) == touched.peer(b));
                    }
                }
                if !fresh {
                    return Ok(None);
                }
                if pk.data.len() > MAX_BUFFER_SIZE {
                    return Err(RudpError::BufferTooLarge { size: pk.data.len(), max: MAX_BUFFER_SIZE });
                }
                match self.buffer_pool.get_write_buffer() {
                    Ok(mut buffer) => {
                        buffer.set_payload(pk.data.as_slice());
                        Ok(Some(ReceivedData { from, result: Ok(buffer) }))
                    },
                    Err(e) => Err(e),
                }
            },
            PacketType::DataAck => {
                match found {
                    Some(i) => {
                        match DataAckPacket::deserialize(pk.data.as_slice()) {
                            Some(ack) => {
                                let ghost before = self.peers@;
                                proof {
                                    lemma_peer_at(old_peers, i as int);
                                }
                                self.peers[i].on_data_ack(&ack.ack_seqs, now);
                                proof {
                                    lemma_peer_update(before, i as int, self.peers@[i as int]);
                                    assert(self.peers@ == before.update(i as int, self.peers@[i as int]));
                                    assert forall|b: PeerAddr| b != from implies #[trigger] self.peer(b) == old(self).peer(b) by {
                                        assert(peer_in(self.peers@, b) == peer_in(before, b));
                                    }
                                }
                            },
                            None => {},
                        }
                    },
                    None => {},
                }
                Ok(None)
            },
            PacketType::DataNack => {
                match found {
                    Some(i) => {
                        match DataNackPacket::deserialize(pk.data.as_slice()) {
                            Some(nack) => {
                                let ghost before = self.peers@;
                                proof {
                                    lemma_peer_at(old_peers, i as int);
                                }
                                self.peers[i].on_data_nack(&nack.nack_seqs, now, &mut self.outbox);
                                proof {
                                    lemma_peer_update(before, i as int, self.peers@[i as int]);
                                    assert(self.peers@ == before.update(i as int, self.peers@[i as int]));
                                    assert forall|b: PeerAddr| b != from implies #[trigger] self.peer(b) == old(self).peer(b) by {
                                        assert(peer_in(self.peers@, b) == peer_in(before, b));
                                    }
                                }
                            },
                            None => {},
                        }
                    },
                    None => {},
                }
                Ok(None)
            },
            PacketType::Ping => {
                let frame = signed_frame(PacketType::PingAck, pk.seq, pk.data.as_slice());
                self.emit(from, frame);
                Ok(None)
            },
            PacketType::PingAck => {
                match found {
                    Some(i) => {
                        let ghost before = self.peers@;
                        proof {
                            lemma_peer_at(old_peers, i as int);
                        }
                        self.peers[i].on_ping_ack(pk.data.as_slice(), now);
                        proof {
                            lemma_peer_update(before, i as int, self.peers@[i as int]);
                            assert(self.peers@ == before.update(i as int, self.peers@[i as int]));
                            assert forall|b: PeerAddr| b != from implies #[trigger] self.peer(b) == old(self).peer(b) by {
                                assert(peer_in(self.peers@, b) == peer_in(before, b));
                            }
                        }
                    },
                    None => {},
                }
                Ok(None)
            },
            PacketType::Close => {
                let empty: Vec<u8> = Vec::new();
                let frame = signed_frame(PacketType::CloseAck, pk.seq, empty.as_slice());
                self.emit(from, frame);
                let ghost mid = *self;
                self.remove_peer(from);
                assert forall|b: PeerAddr| b != from implies #[trigger] self.peer(b) == old(self).peer(b) by {
                    assert(mid.peer(b) == touched.peer(b));
                }
                Ok(None)
            },
            PacketType::CloseAck => {
                self.remove_peer(from);
                assert forall|b: PeerAddr| b != from implies #[trigger] self.peer(b) == old(self).peer(b) by {
                    assert(touched.peer(b) == old(self).peer(b));
                }
                Ok(None)
            },
        }
    }
}


/// What one maintenance step at `now` does to peer `p`: `q` is what is left of it, if
/// anything, and `sent` the datagrams that went to it; `cleanup` tells whether the
/// periodic cleanup ran.
pub open spec fn tick_outcome(p: PeerState, q: Option<PeerState>, sent: Seq<Transmit>, cleanup: bool, now: u64) -> bool {
    &&& maintain_frames(p, sent, now)
    &&& dead_at(p, now) ==> q is None
    &&& (cleanup && p.pending().is_empty() && (p.received().is_empty() || p.seq_wrapped())
        && elapsed(now, p.state().last_activity) > CLEANUP_THRESHOLD) ==> q is None
    &&& q is None ==> dead_at(p, now) || (cleanup && elapsed(now, p.state().last_activity) > CLEANUP_THRESHOLD)
    &&& q matches Some(r) ==> {
        &&& ticked(p, r, now)
        &&& cleanup ==> !r.seq_wrapped() && (p.seq_wrapped() ==> r.received() == Set::<u32>::empty())
        &&& !cleanup ==> r.received() == p.received()
    }
}

/// Whether an entry at index `lo` or above, flagged in `flags`, has address `a`.
pub open spec fn flagged_from(s: Seq<PeerState>, flags: Seq<bool>, lo: int, a: PeerAddr) -> bool {
    exists|k: int| lo <= k < s.len() && k < flags.len() && flags[k] && (#[trigger] s[k]).addr() == a
}

/// The index of a tracked address.
proof fn lemma_peer_some(s: Seq<PeerState>, a: PeerAddr) -> (k: int)
    requires
        peer_in(s, a) is Some,
    ensures
        0 <= k < s.len(),
        s[k].addr() == a,
        peer_in(s, a) == Some(s[k]),
{
    choose|i: int| 0 <= i < s.len() && (#[trigger] s[i]).addr() == a
}

impl Rudpbase {
    /// Drop every entry whose index is flagged.
    fn remove_flagged(&mut self, flags: &Vec<bool>)
        requires
            old(self).wf(),
            flags@.len() == old(self).peers@.len(),
        ensures
            final(self).wf(),
            forall|a: PeerAddr| #[trigger] final(self).peer(a) == if flagged(old(self).peers@, flags@, a) {
                None
            } else {
                old(self).peer(a)
            },
            final(self).outbox == old(self).outbox,
            final(self).last_cleanup == old(self).last_cleanup,
            final(self).buffer_pool == old(self).buffer_pool,
    {
        let ghost s0 = self.peers@;
        let mut i: usize = flags.len();
        while i > 0
            invariant
                i <= flags@.len(),
                flags@.len() == s0.len(),
                s0 == old(self).peers@,
                i <= self.peers@.len(),
                self.peers@.subrange(0, i as int) == s0.subrange(0, i as int),
                self.wf(),
                forall|a: PeerAddr| #[trigger] peer_in(self.peers@, a) == if flagged_from(s0, flags@, i as int, a) {
                    None
                } else {
                    peer_in(s0, a)
                },
                self.outbox == old(self).outbox,
                self.last_cleanup == old(self).last_cleanup,
                self.buffer_pool == old(self).buffer_pool,
            decreases i,
        {
            i = i - 1;
            let ghost cur = self.peers@;
            assert(cur[i as int] == cur.subrange(0, i + 1)[i as int]);
            assert(s0[i as int] == s0.subrange(0, i + 1)[i as int]);
            let ghost ai = s0[i as int].addr();
            if flags[i] {
                proof {
                    lemma_peer_remove(cur, i as int);
                }
                self.peers.remove(i);
                assert(self.peers@.subrange(0, i as int) =~= s0.subrange(0, i as int));
            } else {
                assert(self.peers@.subrange(0, i as int) =~= s0.subrange(0, i as int));
            }
            assert forall|a: PeerAddr| #[trigger] peer_in(self.peers@, a) == if flagged_from(s0, flags@, i as int, a) {
                None
            } else {
                peer_in(s0, a)
            } by {
                if a != ai {
                    if flagged_from(s0, flags@, i as int, a) {
                        let k = choose|k: int| i <= k < s0.len() && k < flags@.len() && flags@[k] && (#[trigger] s0[k]).addr() == a;
                        assert(k != i);
                        assert(flagged_from(s0, flags@, i + 1, a));
                    }
                } else if flags@[i as int] {
                    assert(flagged_from(s0, flags@, i as int, a));
                } else {
                    if flagged_from(s0, flags@, i + 1, a) {
                        let k = choose|k: int| i + 1 <= k < s0.len() && k < flags@.len() && flags@[k] && (#[trigger] s0[k]).addr() == a;
                        assert(s0[k].addr() != s0[i as int].addr());
                    }
                    if flagged_from(s0, flags@, i as int, a) {
                        let k = choose|k: int| i <= k < s0.len() && k < flags@.len() && flags@[k] && (#[trigger] s0[k]).addr() == a;
                        assert(k != i);
                        assert(flagged_from(s0, flags@, i + 1, a));
                    }
                }
            }
        }
        assert forall|a: PeerAddr| flagged_from(s0, flags@, 0, a) == flagged(s0, flags@, a) by {
        }
    }

    /// The maintenance step of every entry; returns which ones are to be torn down.
    fn maintain_all(&mut self, now: u64) -> (dead: Vec<bool>)
        requires
            old(self).wf(),
        ensures
            final(self).wf(),
            final(self).peers@.len() == old(self).peers@.len(),
            dead@.len() == old(self).peers@.len(),
            forall|k: int| 0 <= k < old(self).peers@.len() ==> {
                &&& (#[trigger] final(self).peers@[k]).addr() == old(self).peers@[k].addr()
                &&& ticked(old(self).peers@[k], final(self).peers@[k], now)
                &&& final(self).peers@[k].received() == old(self).peers@[k].received()
                &&& (old(self).peers@[k].seq_wrapped() ==> final(self).peers@[k].seq_wrapped())
                &&& (old(self).peers@[k].pending().is_empty() ==> final(self).peers@[k].pending().is_empty())
                &&& dead@[k] == dead_at(old(self).peers@[k], now)
                &&& maintain_frames(old(self).peers@[k], sent_to(old(self).outbox@, final(self).outbox@, old(self).peers@[k].addr()), now)
            },
            forall|a: PeerAddr| (forall|k: int| 0 <= k < old(self).peers@.len() ==> (#[trigger] old(self).peers@[k]).addr() != a)
                ==> #[trigger] sent_to(old(self).outbox@, final(self).outbox@, a) == Seq::<Transmit>::empty(),
            final(self).outgoing().len() >= old(self).outgoing().len(),
            final(self).outgoing().subrange(0, old(self).outgoing().len() as int) == old(self).outgoing(),
            final(self).last_cleanup == old(self).last_cleanup,
            final(self).buffer_pool == old(self).buffer_pool,
    {
        let ghost o0 = self.outbox@;
        let mut dead: Vec<bool> = Vec::new();
        let mut i: usize = 0;
        proof {
            assert forall|a: PeerAddr| #[trigger] sent_to(o0, self.outbox@, a) == Seq::<Transmit>::empty() by {
                reveal(Seq::filter);
                assert(self.outbox@.subrange(o0.len() as int, o0.len() as int) =~= Seq::<Transmit>::empty());
            }
        }
        while i < self.peers.len()
            invariant
                i <= self.peers@.len(),
                o0 == old(self).outbox@,
                self.peers@.len() == old(self).peers@.len(),
                dead@.len() == i,
                forall|k: int| 0 <= k < self.peers@.len() ==> (#[trigger] self.peers@[k]).addr() == old(self).peers@[k].addr(),
                forall|k: int| 0 <= k < self.peers@.len() ==> (#[trigger] self.peers@[k]).wf(),
                forall|k: int| i <= k < self.peers@.len() ==> #[trigger] self.peers@[k] == old(self).peers@[k],
                forall|k: int| 0 <= k < i ==> {
                    &&& ticked(old(self).peers@[k], #[trigger] self.peers@[k], now)
                    &&& self.peers@[k].received() == old(self).peers@[k].received()
                    &&& (old(self).peers@[k].seq_wrapped() ==> self.peers@[k].seq_wrapped())
                    &&& (old(self).peers@[k].pending().is_empty() ==> self.peers@[k].pending().is_empty())
                    &&& dead@[k] == dead_at(old(self).peers@[k], now)
                    &&& maintain_frames(old(self).peers@[k], sent_to(o0, self.outbox@, old(self).peers@[k].addr()), now)
                },
                forall|a: PeerAddr| (forall|k: int| 0 <= k < i ==> (#[trigger] old(self).peers@[k]).addr() != a)
                    ==> #[trigger] sent_to(o0, self.outbox@, a) == Seq::<Transmit>::empty(),
                distinct_addrs(old(self).peers@),
                self.buffer_pool.wf(),
                self.outbox@.len() >= old(self).outbox@.len(),
                self.outbox@.subrange(0, old(self).outbox@.len() as int) == old(self).outbox@,
                self.last_cleanup == old(self).last_cleanup,
                self.buffer_pool == old(self).buffer_pool,
            decreases self.peers@.len() - i,
        {
            let ghost o = self.outbox@;
            let ghost pi = self.peers@[i as int];
            let d = self.peers[i].maintain(now, &mut self.outbox);
            dead.push(d);
            proof {
                let ai = pi.addr();
                let seg = self.outbox@.subrange(o.len() as int, self.outbox@.len() as int);
                assert(self.outbox@.subrange(0, old(self).outbox@.len() as int) =~= old(self).outbox@) by {
                    assert(self.outbox@.subrange(0, o.len() as int) == o);
                    assert(o.subrange(0, old(self).outbox@.len() as int) == old(self).outbox@);
                }
                lemma_frames_to(pi, seg, now);
                assert(self.outbox@.subrange(o0.len() as int, self.outbox@.len() as int) =~= o.subrange(o0.len() as int, o.len() as int) + seg) by {
                    assert(self.outbox@.subrange(0, o.len() as int) == o);
                }
                assert forall|a: PeerAddr| #[trigger] sent_to(o0, self.outbox@, a) == sent_to(o0, o, a) + seg.filter(to_pred(a)) by {
                    Seq::filter_distributes_over_add(o.subrange(o0.len() as int, o.len() as int), seg, to_pred(a));
                }
                lemma_filter_all(seg, ai);
                assert forall|a: PeerAddr| a != ai implies #[trigger] sent_to(o0, self.outbox@, a) == sent_to(o0, o, a) by {
                    lemma_filter_none(seg, a);
                    assert(sent_to(o0, o, a) + Seq::<Transmit>::empty() =~= sent_to(o0, o, a));
                }
                assert forall|k: int| 0 <= k < i implies (#[trigger] old(self).peers@[k]).addr() != ai by {
                    assert(old(self).peers@[k].addr() != old(self).peers@[i as int].addr());
                }
                assert(sent_to(o0, o, ai) == Seq::<Transmit>::empty());
                assert(sent_to(o0, self.outbox@, ai) =~= seg);
            }
            i = i + 1;
        }
        assert(distinct_addrs(self.peers@)) by {
            assert forall|x: int, y: int| 0 <= x < self.peers@.len() && 0 <= y < self.peers@.len() && x != y implies (#[trigger] self.peers@[x]).addr() != (#[trigger] self.peers@[y]).addr() by {
                assert(old(self).peers@[x].addr() != old(self).peers@[y].addr());
            }
        }
        dead
    }

    /// The periodic cleanup of every entry; returns which ones may be dropped.
    fn cleanup_all(&mut self, now: u64) -> (drop: Vec<bool>)
        requires
            old(self).wf(),
        ensures
            final(self).wf(),
            final(self).peers@.len() == old(self).peers@.len(),
            drop@.len() == old(self).peers@.len(),
            forall|k: int| 0 <= k < old(self).peers@.len() ==> {
                let p = old(self).peers@[k];
                let q = #[trigger] final(self).peers@[k];
                &&& q.addr() == p.addr()
                &&& q.received() == if p.seq_wrapped() { Set::<u32>::empty() } else { p.received() }
                &&& !q.seq_wrapped()
                &&& q.next_seq() == p.next_seq()
                &&& q.pending() == p.pending()
                &&& q.acks() == p.acks()
                &&& q.state() == p.state()
                &&& q.rtt() == p.rtt()
                &&& q.stats() == p.stats()
                &&& drop@[k] == (q.received().is_empty() && q.pending().is_empty() && elapsed(now, p.state().last_activity) > CLEANUP_THRESHOLD)
            },
            final(self).outbox == old(self).outbox,
            final(self).last_cleanup == old(self).last_cleanup,
            final(self).buffer_pool == old(self).buffer_pool,
    {
        let mut drop: Vec<bool> = Vec::new();
        let mut i: usize = 0;
        while i < self.peers.len()
            invariant
                i <= self.peers@.len(),
                self.peers@.len() == old(self).peers@.len(),
                drop@.len() == i,
                forall|k: int| 0 <= k < self.peers@.len() ==> (#[trigger] self.peers@[k]).addr() == old(self).peers@[k].addr(),
                forall|k: int| 0 <= k < self.peers@.len() ==> (#[trigger] self.peers@[k]).wf(),
                forall|k: int| i <= k < self.peers@.len() ==> #[trigger] self.peers@[k] == old(self).peers@[k],
                forall|k: int| 0 <= k < i ==> {
                    let p = old(self).peers@[k];
                    let q = #[trigger] self.peers@[k];
                    &&& q.received() == if p.seq_wrapped() { Set::<u32>::empty() } else { p.received() }
                    &&& !q.seq_wrapped()
                    &&& q.next_seq() == p.next_seq()
                    &&& q.pending() == p.pending()
                    &&& q.acks() == p.acks()
                    &&& q.state() == p.state()
                    &&& q.rtt() == p.rtt()
                    &&& q.stats() == p.stats()
                    &&& drop@[k] == (q.received().is_empty() && q.pending().is_empty() && elapsed(now, p.state().last_activity) > CLEANUP_THRESHOLD)
                },
                distinct_addrs(old(self).peers@),
                self.buffer_pool.wf(),
                self.outbox == old(self).outbox,
                self.last_cleanup == old(self).last_cleanup,
                self.buffer_pool == old(self).buffer_pool,
            decreases self.peers@.len() - i,
        {
            let d = self.peers[i].periodic_cleanup(now);
            drop.push(d);
            i = i + 1;
        }
        assert(distinct_addrs(self.peers@)) by {
            assert forall|x: int, y: int| 0 <= x < self.peers@.len() && 0 <= y < self.peers@.len() && x != y implies (#[trigger] self.peers@[x]).addr() != (#[trigger] self.peers@[y]).addr() by {
                assert(old(self).peers@[x].addr() != old(self).peers@[y].addr());
            }
        }
        drop
    }
}

/// The datagrams of `after` beyond the prefix `before` that go to `a`, in order.
pub open spec fn sent_to(before: Seq<Transmit>, after: Seq<Transmit>, a: PeerAddr) -> Seq<Transmit> {
    after.subrange(before.len() as int, after.len() as int).filter(to_pred(a))
}

/// Whether a datagram goes to `a`.
pub open spec fn to_pred(a: PeerAddr) -> spec_fn(Transmit) -> bool {
    |t: Transmit| t.to == a
}

/// Keeping the datagrams to `a` keeps all of a list addressed to `a` alone.
proof fn lemma_filter_all(s: Seq<Transmit>, a: PeerAddr)
    requires
        forall|j: int| 0 <= j < s.len() ==> (#[trigger] s[j]).to == a,
    ensures
        s.filter(to_pred(a)) == s,
    decreases s.len(),
{
    reveal(Seq::filter);
    if s.len() > 0 {
        lemma_filter_all(s.drop_last(), a);
        assert(s.drop_last().push(s.last()) =~= s);
    }
}

/// Keeping the datagrams to `a` keeps nothing of a list with none addressed to `a`.
proof fn lemma_filter_none(s: Seq<Transmit>, a: PeerAddr)
    requires
        forall|j: int| 0 <= j < s.len() ==> (#[trigger] s[j]).to != a,
    ensures
        s.filter(to_pred(a)) == Seq::<Transmit>::empty(),
    decreases s.len(),
{
    reveal(Seq::filter);
    if s.len() > 0 {
        lemma_filter_none(s.drop_last(), a);
    }
}

/// Every datagram of a maintenance step goes to the peer maintained.
proof fn lemma_frames_to(p: PeerState, f: Seq<Transmit>, now: u64)
    requires
        maintain_frames(p, f, now),
    ensures
        forall|j: int| 0 <= j < f.len() ==> (#[trigger] f[j]).to == p.addr(),
{
    let k = p.order().filter(resent_pred(p.pending(), now)).len() as int;
    assert forall|j: int| 0 <= j < f.len() implies (#[trigger] f[j]).to == p.addr() by {
        if j < k {
        } else if j == k && p.acks().len() > 0 {
        } else {
        }
    }
}

impl Rudpbase {
    /// Every tracked peer is well formed.
    pub proof fn lemma_tracked_peer_wf(&self, a: PeerAddr)
        requires
            self.wf(),
            self.peer(a) is Some,
        ensures
            self.peer(a)->Some_0.wf(),
    {
        let k = lemma_peer_some(self.peers@, a);
    }

    /// The time of the last periodic cleanup.
    pub closed spec fn last_cleanup_time(&self) -> u64 {
        self.last_cleanup
    }

    /// The maintenance step at `now`, to be called regularly by the caller.
    ///
    /// Every peer retransmits its due frames (abandoning those past the retry cap), flushes
    /// one batch of acknowledgements and runs its liveness step; peers found dead are torn
    /// down. When more than `CLEANUP_INTERVAL` has passed since the last cleanup, a cleanup
    /// clears the received set of peers whose sequence counter wrapped, and drops empty
    /// peers idle for more than `CLEANUP_THRESHOLD`. No peer is created, and no datagram
    /// goes to an untracked address.
    pub fn tick(&mut self, now: u64)
        requires
            old(self).wf(),
        ensures
            final(self).wf(),
            final(self).outgoing().len() >= old(self).outgoing().len(),
            final(self).outgoing().subrange(0, old(self).outgoing().len() as int) == old(self).outgoing(),
            final(self).last_cleanup_time() == if elapsed(now, old(self).last_cleanup_time()) > CLEANUP_INTERVAL {
                now
            } else {
                old(self).last_cleanup_time()
            },
            forall|a: PeerAddr| #[trigger] final(self).peer(a) is Some ==> old(self).peer(a) is Some,
            forall|a: PeerAddr| old(self).peer(a) is None ==> #[trigger] sent_to(old(self).outgoing(), final(self).outgoing(), a) == Seq::<Transmit>::empty(),
            forall|a: PeerAddr| #[trigger] old(self).peer(a) is Some ==> tick_outcome(
                old(self).peer(a)->Some_0,
                final(self).peer(a),
                sent_to(old(self).outgoing(), final(self).outgoing(), a),
                elapsed(now, old(self).last_cleanup_time()) > CLEANUP_INTERVAL,
                now,
            ),
    {
        let ghost s0 = self.peers@;
        let ghost o0 = self.outbox@;
        let ghost due = elapsed(now, self.last_cleanup) > CLEANUP_INTERVAL;
        let dead = self.maintain_all(now);
        let ghost s1 = self.peers@;
        let ghost o1 = self.outbox@;
        self.remove_flagged(&dead);
        let ghost e2 = *self;
        proof {
            assert forall|a: PeerAddr| #[trigger] old(self).peer(a) is Some implies ({
                let p = old(self).peer(a)->Some_0;
                &&& maintain_frames(p, sent_to(o0, o1, a), now)
                &&& dead_at(p, now) <==> e2.peer(a) is None
                &&& e2.peer(a) matches Some(q) ==> ticked(p, q, now) && q.received() == p.received()
                    && (p.seq_wrapped() ==> q.seq_wrapped()) && (p.pending().is_empty() ==> q.pending().is_empty())
                    && q.state().last_activity == p.state().last_activity
            }) by {
                let k = lemma_peer_some(s0, a);
                assert(s1[k].addr() == a);
                lemma_peer_at(s1, k);
                if flagged(s1, dead@, a) {
                    let j = choose|j: int| 0 <= j < s1.len() && j < dead@.len() && dead@[j] && (#[trigger] s1[j]).addr() == a;
                    if j != k {
                        assert(s1[j].addr() != s1[k].addr());
                    }
                } else {
                    if dead_at(s0[k], now) {
                        assert(flagged(s1, dead@, a));
                    }
                }
            }
            assert forall|a: PeerAddr| #[trigger] e2.peer(a) is Some implies old(self).peer(a) is Some by {
                let k = lemma_peer_some(s1, a);
                assert(s0[k].addr() == a);
            }
            assert forall|a: PeerAddr| old(self).peer(a) is None implies #[trigger] sent_to(o0, o1, a) == Seq::<Transmit>::empty() by {
                assert forall|k: int| 0 <= k < s0.len() implies (#[trigger] s0[k]).addr() != a by {
                    if s0[k].addr() == a {
                        lemma_peer_at(s0, k);
                    }
                }
            }
        }
        if now.saturating_sub(self.last_cleanup) > CLEANUP_INTERVAL {
            let ghost s2 = self.peers@;
            let drop = self.cleanup_all(now);
            let ghost s3 = self.peers@;
            self.last_cleanup = now;
            let ghost e3 = *self;
            self.remove_flagged(&drop);
            proof {
                assert forall|a: PeerAddr| #[trigger] e2.peer(a) is Some implies ({
                    let q1 = e2.peer(a)->Some_0;
                    &&& self.peer(a) is None <==> (elapsed(now, q1.state().last_activity) > CLEANUP_THRESHOLD && q1.pending().is_empty()
                        && (q1.received().is_empty() || q1.seq_wrapped()))
                    &&& self.peer(a) matches Some(q) ==> q.pending() == q1.pending() && q.acks() == q1.acks() && q.state() == q1.state()
                        && q.addr() == q1.addr() && q.rtt() == q1.rtt() && q.stats() == q1.stats() && !q.seq_wrapped()
                        && q.received() == if q1.seq_wrapped() { Set::<u32>::empty() } else { q1.received() }
                }) by {
                    let k = lemma_peer_some(s2, a);
                    assert(s3[k].addr() == a);
                    lemma_peer_at(s3, k);
                    assert(e2.peer(a) == peer_in(s2, a));
                    assert(e3.peer(a) == peer_in(s3, a));
                    assert(self.peer(a) == if flagged(s3, drop@, a) { None } else { e3.peer(a) });
                    if flagged(s3, drop@, a) {
                        let j = choose|j: int| 0 <= j < s3.len() && j < drop@.len() && drop@[j] && (#[trigger] s3[j]).addr() == a;
                        if j != k {
                            assert(s3[j].addr() != s3[k].addr());
                        }
                    } else {
                        if elapsed(now, s2[k].state().last_activity) > CLEANUP_THRESHOLD && s2[k].pending().is_empty()
                            && (s2[k].received().is_empty() || s2[k].seq_wrapped()) {
                            assert(s3[k].received() =~= Set::<u32>::empty());
                            assert(flagged(s3, drop@, a));
                        }
                    }
                }
                assert forall|a: PeerAddr| #[trigger] self.peer(a) is Some implies e2.peer(a) is Some by {
                    assert(self.peer(a) == if flagged(s3, drop@, a) { None } else { e3.peer(a) });
                    assert(e3.peer(a) == peer_in(s3, a));
                    let k = lemma_peer_some(s3, a);
                    assert(s2[k].addr() == a);
                    lemma_peer_at(s2, k);
                }
                assert forall|a: PeerAddr| #[trigger] old(self).peer(a) is Some implies tick_outcome(
                    old(self).peer(a)->Some_0, self.peer(a), sent_to(o0, self.outbox@, a), true, now) by {
                    let p = old(self).peer(a)->Some_0;
                    if e2.peer(a) is Some {
                        let q1 = e2.peer(a)->Some_0;
                        if self.peer(a) is Some {
                            let q = self.peer(a)->Some_0;
                            assert(q.pending() == q1.pending());
                            assert(ticked(p, q, now));
                        }
                    }
                }
            }
        } else {
            proof {
                assert forall|a: PeerAddr| #[trigger] old(self).peer(a) is Some implies tick_outcome(
                    old(self).peer(a)->Some_0, self.peer(a), sent_to(o0, self.outbox@, a), false, now) by {
                }
            }
        }
    }

    /// Send a Close frame to every tracked peer, then forget them all.
    pub fn close(&mut self)
        requires
            old(self).wf(),
        ensures
            final(self).wf(),
            forall|a: PeerAddr| #[trigger] final(self).peer(a) is None,
            final(self).outgoing().len() >= old(self).outgoing().len(),
            final(self).outgoing().subrange(0, old(self).outgoing().len() as int) == old(self).outgoing(),
            distinct_addrs(old(self).peer_list()),
            forall|a: PeerAddr| #[trigger] old(self).peer(a) == peer_in(old(self).peer_list(), a),
            final(self).outgoing().len() == old(self).outgoing().len() + old(self).peer_list().len(),
            forall|k: int| 0 <= k < old(self).peer_list().len() ==> {
                let t = #[trigger] final(self).outgoing()[old(self).outgoing().len() + k];
                &&& t.to == old(self).peer_list()[k].addr()
                &&& t.bytes@ == signed_frame_bytes(PacketType::Close, old(self).peer_list()[k].next_seq(), Seq::empty())
            },
            forall|a: PeerAddr| #[trigger] old(self).peer(a) is Some ==> exists|j: int|
                old(self).outgoing().len() <= j < final(self).outgoing().len() && (#[trigger] final(self).outgoing()[j]).to == a
                    && final(self).outgoing()[j].bytes@ == signed_frame_bytes(
                    PacketType::Close,
                    old(self).peer(a)->Some_0.next_seq(),
                    Seq::empty(),
                ),
    {
        let ghost s0 = self.peers@;
        let ghost n0 = self.outbox@.len();
        let mut i: usize = 0;
        while i < self.peers.len()
            invariant
                i <= self.peers@.len(),
                self.peers@.len() == s0.len(),
                forall|k: int| 0 <= k < self.peers@.len() ==> (#[trigger] self.peers@[k]).wf(),
                forall|k: int| i <= k < self.peers@.len() ==> #[trigger] self.peers@[k] == s0[k],
                forall|k: int| 0 <= k < self.peers@.len() ==> (#[trigger] self.peers@[k]).addr() == s0[k].addr(),
                self.outbox@.len() == n0 + i,
                forall|k: int| 0 <= k < i ==> (#[trigger] self.outbox@[n0 + k]).to == s0[k].addr()
                    && self.outbox@[n0 + k].bytes@ == signed_frame_bytes(
                    PacketType::Close,
                    s0[k].next_seq(),
                    Seq::empty(),
                ),
                n0 == old(self).outbox@.len(),
                self.outbox@.subrange(0, n0 as int) == old(self).outbox@,
                s0 == old(self).peers@,
                self.buffer_pool == old(self).buffer_pool,
                self.buffer_pool.wf(),
            decreases self.peers@.len() - i,
        {
            let ghost o = self.outbox@;
            let seq = self.peers[i].take_seq();
            let to = self.peers[i].peer_addr();
            let empty: Vec<u8> = Vec::new();
            let frame = signed_frame(PacketType::Close, seq, empty.as_slice());
            self.outbox.push(Transmit { to, bytes: frame });
            proof {
                assert(self.outbox@.subrange(0, n0 as int) =~= old(self).outbox@) by {
                    assert(o.subrange(0, n0 as int) == old(self).outbox@);
                }
                assert forall|k: int| 0 <= k < i + 1 implies (#[trigger] self.outbox@[n0 + k]).to == s0[k].addr()
                    && self.outbox@[n0 + k].bytes@ == signed_frame_bytes(
                    PacketType::Close,
                    s0[k].next_seq(),
                    Seq::empty(),
                ) by {
                    if k < i {
                        assert(self.outbox@[n0 + k] == o[n0 + k]);
                    }
                }
            }
            i = i + 1;
        }
        self.peers.clear();
        proof {
            assert forall|a: PeerAddr| #[trigger] old(self).peer(a) is Some implies exists|j: int|
                old(self).outgoing().len() <= j < self.outgoing().len() && (#[trigger] self.outgoing()[j]).to == a
                    && self.outgoing()[j].bytes@ == signed_frame_bytes(
                    PacketType::Close,
                    old(self).peer(a)->Some_0.next_seq(),
                    Seq::empty(),
                ) by {
                let k = lemma_peer_some(s0, a);
                assert(k < i);
                assert(old(self).peer(a) == peer_in(s0, a));
                assert(old(self).peer(a)->Some_0 == s0[k]);
                assert(self.outgoing() == self.outbox@);
                assert(self.outbox@[n0 + k].to == s0[k].addr());
                assert(old(self).outgoing().len() == n0);
            }
        }
    }
}

} // verus!
