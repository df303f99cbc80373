use vstd::prelude::*;

verus! {

// All times are milliseconds on the caller's clock.

/// Idle time after which a peer is pinged.
pub const IDLE_TIMEOUT: u64 = 30000;

/// Time a ping is given before it counts as failed.
pub const PING_INTERVAL: u64 = 10000;

/// Consecutive ping failures after which a peer is dead.
pub const MAX_PING_FAILURES: u8 = 3;

/// Retransmissions of a frame before it is abandoned.
pub const MAX_RETRIES: u8 = 5;

/// Idle time after which an empty peer entry is dropped.
pub const CLEANUP_THRESHOLD: u64 = 300000;

/// Lower bound of every retransmission timeout.
pub const MIN_RTO: u64 = 200;

/// Upper bound of the estimator's retransmission timeout.
pub const MAX_RTO: u64 = 60000;

/// Largest congestion window, in frames.
pub const MAX_CWND: u32 = 1000;

/// Time from `then` to `now`, 0 if `now` is earlier.
pub open spec fn elapsed(now: u64, then: u64) -> u64 {
    if now >= then {
        (now - then) as u64
    } else {
        0
    }
}

/// `n + 1`, held at `u64::MAX`.
pub open spec fn inc(n: u64) -> u64 {
    if n == u64::MAX {
        n
    } else {
        (n + 1) as u64
    }
}

/// Connection status enumeration
#[derive(Debug, Clone, Copy, PartialEq, Eq, Structural)]
pub enum ConnectionStatus {
    /// Connection is alive and healthy
    Alive,
    /// Connection is being probed (ping sent, waiting for response)
    Probing,
    /// Connection quality is degraded (high packet loss, etc.)
    Degraded,
    /// Connection is dead (no response to multiple pings)
    Dead,
}

/// Cumulative statistics of one peer.
#[derive(Debug, Clone, Copy)]
pub struct ConnectionStats {
    /// Total packets sent to this connection
    pub packets_sent: u64,
    /// Total packets received from this connection
    pub packets_received: u64,
    /// Total packets abandoned after the last retransmission
    pub packets_lost: u64,
    /// Total number of retransmissions
    pub retransmissions: u64,
    /// Moving average of the round-trip time, in milliseconds
    pub avg_rtt: u64,
    /// Time of the last send or receive
    pub last_activity: u64,
}

/// The moving average of round-trip time after a sample: seven parts old, one part new.
pub open spec fn avg_after(avg: u64, sample: u64) -> u64 {
    ((7 * avg + sample) / 8) as u64
}

impl ConnectionStats {
    pub fn new(now: u64) -> (r: Self)
        ensures
            r.packets_sent == 0,
            r.packets_received == 0,
            r.packets_lost == 0,
            r.retransmissions == 0,
            r.avg_rtt == 200,
            r.last_activity == now,
    {
        Self {
            packets_sent: 0,
            packets_received: 0,
            packets_lost: 0,
            retransmissions: 0,
            avg_rtt: 200,
            last_activity: now,
        }
    }

    pub fn record_packet_sent(&mut self, now: u64)
        ensures
            *final(self) == (ConnectionStats {
                packets_sent: inc(old(self).packets_sent),
                last_activity: now,
                ..*old(self)
            }),
    {
        self.packets_sent = self.packets_sent.saturating_add(1);
        self.last_activity = now;
    }

    pub fn record_packet_received(&mut self, now: u64)
        ensures
            *final(self) == (ConnectionStats {
                packets_received: inc(old(self).packets_received),
                last_activity: now,
                ..*old(self)
            }),
    {
        self.packets_received = self.packets_received.saturating_add(1);
        self.last_activity = now;
    }

    pub fn record_packet_lost(&mut self)
        ensures
            *final(self) == (ConnectionStats {
                packets_lost: inc(old(self).packets_lost),
                ..*old(self)
            }),
    {
        self.packets_lost = self.packets_lost.saturating_add(1);
    }

    pub fn record_retransmission(&mut self)
        ensures
            *final(self) == (ConnectionStats {
                retransmissions: inc(old(self).retransmissions),
                ..*old(self)
            }),
    {
        self.retransmissions = self.retransmissions.saturating_add(1);
    }

    /// Fold a round-trip sample, in milliseconds, into the moving average.
    pub fn update_rtt(&mut self, rtt: u64)
        ensures
            *final(self) == (ConnectionStats { avg_rtt: avg_after(old(self).avg_rtt, rtt), ..*old(self) }),
    {
        let a = self.avg_rtt as u128;
        let r = rtt as u128;
        let v = (a * 7 + r) / 8;
        assert(v <= u64::MAX) by (nonlinear_arith)
            requires
                v == (a * 7 + r) / 8,
                a <= u64::MAX,
                r <= u64::MAX,
        ;
        self.avg_rtt = v as u64;
    }
}

/// Congestion control state
#[derive(Debug, Clone, Copy, PartialEq, Eq, Structural)]
pub enum CongestionState {
    /// Slow start
    SlowStart,
    /// Congestion avoidance
    CongestionAvoidance,
    /// Fast recovery
    FastRecovery,
}

/// Round-trip timing and congestion window of one peer.
#[derive(Debug, Clone, Copy)]
pub struct RttStats {
    /// Smoothed round-trip time, in milliseconds
    pub srtt: u64,
    /// Round-trip time variation, in milliseconds
    pub rttvar: u64,
    /// Retransmission timeout, in milliseconds
    pub rto: u64,
    /// Congestion window, in frames
    pub cwnd: u32,
    /// Slow-start threshold, in frames
    pub ssthresh: u32,
    /// Frames in flight
    pub in_flight: u32,
    /// Time of the last congestion event
    pub last_congestion: Option<u64>,
    /// Congestion control state
    pub congestion_state: CongestionState,
}

pub open spec fn abs_diff(a: u64, b: u64) -> int {
    if a >= b {
        a - b
    } else {
        b - a
    }
}

pub open spec fn clamp(x: int, lo: int, hi: int) -> int {
    if x < lo {
        lo
    } else if x > hi {
        hi
    } else {
        x
    }
}

/// The RTO for a smoothed RTT and a variation: SRTT + max(10, 4 * RTTVAR), kept in
/// `[MIN_RTO, MAX_RTO]`.
pub open spec fn rto_of(srtt: u64, rttvar: u64) -> u64 {
    clamp(srtt + vstd::math::max(10, 4 * rttvar), MIN_RTO as int, MAX_RTO as int) as u64
}

impl RttStats {
    pub open spec fn initial() -> RttStats {
        RttStats {
            srtt: 100,
            rttvar: 50,
            rto: 200,
            cwnd: 1,
            ssthresh: 65535,
            in_flight: 0,
            last_congestion: None,
            congestion_state: CongestionState::SlowStart,
        }
    }

    /// The estimator after a round-trip sample `m`:
    /// RTTVAR <- 3/4 RTTVAR + 1/4 |SRTT - m|, SRTT <- 7/8 SRTT + 1/8 m, then the RTO.
    pub open spec fn sampled(self, m: u64) -> RttStats {
        let rttvar = ((3 * self.rttvar + abs_diff(self.srtt, m)) / 4) as u64;
        let srtt = ((7 * self.srtt + m) / 8) as u64;
        RttStats { srtt, rttvar, rto: rto_of(srtt, rttvar), ..self }
    }

    /// The window bookkeeping after `n` frames were acknowledged.
    pub open spec fn acked(self, n: u32) -> RttStats {
        let in_flight = if self.in_flight >= n {
            (self.in_flight - n) as u32
        } else {
            0
        };
        let (cwnd, state) = match self.congestion_state {
            CongestionState::SlowStart => {
                let c = self.cwnd + n;
                (c, if c >= self.ssthresh {
                    CongestionState::CongestionAvoidance
                } else {
                    CongestionState::SlowStart
                })
            },
            CongestionState::CongestionAvoidance => (
                self.cwnd + vstd::math::max(1, n as int) / vstd::math::max(1, self.cwnd as int),
                CongestionState::CongestionAvoidance,
            ),
            CongestionState::FastRecovery => (self.cwnd as int, CongestionState::FastRecovery),
        };
        RttStats {
            in_flight,
            cwnd: vstd::math::min(cwnd, MAX_CWND as int) as u32,
            congestion_state: state,
            ..self
        }
    }

    /// Whether a loss at `now` falls within one RTO of the last congestion event.
    pub open spec fn loss_suppressed(self, now: u64) -> bool {
        self.last_congestion matches Some(l) && elapsed(now, l) < self.rto
    }

    /// The window bookkeeping after a loss at `now`.
    pub open spec fn lost(self, now: u64) -> RttStats {
        if self.loss_suppressed(now) {
            self
        } else {
            let ssthresh = vstd::math::max(2, self.cwnd as int / 2) as u32;
            match self.congestion_state {
                CongestionState::FastRecovery => RttStats {
                    last_congestion: Some(now),
                    ssthresh,
                    cwnd: vstd::math::max(1, self.cwnd as int / 2) as u32,
                    ..self
                },
                _ => RttStats {
                    last_congestion: Some(now),
                    ssthresh,
                    cwnd: ssthresh,
                    congestion_state: CongestionState::CongestionAvoidance,
                    ..self
                },
            }
        }
    }

    pub open spec fn wf(self) -> bool {
        1 <= self.cwnd <= MAX_CWND
    }

    pub fn new() -> (r: Self)
        ensures
            r == Self::initial(),
    {
        Self {
            srtt: 100,
            rttvar: 50,
            rto: 200,
            cwnd: 1,
            ssthresh: 65535,
            in_flight: 0,
            last_congestion: None,
            congestion_state: CongestionState::SlowStart,
        }
    }

    /// Fold a round-trip sample, in milliseconds, into the estimator.
    pub fn update_rtt(&mut self, rtt_sample: u64)
        ensures
            *final(self) == old(self).sampled(rtt_sample),
    {
        let srtt = self.srtt as u128;
        let rttvar = self.rttvar as u128;
        let m = rtt_sample as u128;
        let diff: u128 = if srtt >= m {
            srtt - m
        } else {
            m - srtt
        };
        let new_rttvar = (3 * rttvar + diff) / 4;
        let new_srtt = (7 * srtt + m) / 8;
        assert(new_rttvar <= u64::MAX && new_srtt <= u64::MAX) by (nonlinear_arith)
            requires
                new_rttvar == (3 * rttvar + diff) / 4,
                new_srtt == (7 * srtt + m) / 8,
                rttvar <= u64::MAX,
                srtt <= u64::MAX,
                m <= u64::MAX,
                diff <= u64::MAX,
        ;
        let var4 = 4 * new_rttvar;
        let spread: u128 = if var4 > 10 {
            var4
        } else {
            10
        };
        let raw = new_srtt + spread;
        let rto: u128 = if raw < MIN_RTO as u128 {
            MIN_RTO as u128
        } else if raw > MAX_RTO as u128 {
            MAX_RTO as u128
        } else {
            raw
        };
        self.rttvar = new_rttvar as u64;
        self.srtt = new_srtt as u64;
        self.rto = rto as u64;
    }

    /// A frame was sent: one more in flight.
    pub fn on_packet_sent(&mut self)
        ensures
            *final(self) == (RttStats {
                in_flight: if old(self).in_flight == u32::MAX {
                    u32::MAX
                } else {
                    (old(self).in_flight + 1) as u32
                },
                ..*old(self)
            }),
    {
        self.in_flight = self.in_flight.saturating_add(1);
    }

    /// `acked_packets` frames were acknowledged.
    pub fn on_ack_received(&mut self, acked_packets: u32)
        ensures
            *final(self) == old(self).acked(acked_packets),
    {
        self.in_flight = self.in_flight.saturating_sub(acked_packets);
        let mut cwnd: u64 = self.cwnd as u64;
        match self.congestion_state {
            CongestionState::SlowStart => {
                cwnd = cwnd + acked_packets as u64;
                if cwnd >= self.ssthresh as u64 {
                    self.congestion_state = CongestionState::CongestionAvoidance;
                }
            },
            CongestionState::CongestionAvoidance => {
                let n: u64 = if acked_packets > 1 {
                    acked_packets as u64
                } else {
                    1
                };
                let c: u64 = if cwnd > 1 {
                    cwnd
                } else {
                    1
                };
                cwnd = cwnd + n / c;
            },
            CongestionState::FastRecovery => {},
        }
        self.cwnd = if cwnd < MAX_CWND as u64 {
            cwnd as u32
        } else {
            MAX_CWND
        };
    }

    /// A loss was detected at `now`. Within one RTO of the last congestion event this does
    /// nothing; otherwise the threshold drops to half the window (at least 2) and the window
    /// follows it.
    pub fn on_packet_lost(&mut self, now: u64)
        ensures
            *final(self) == old(self).lost(now),
    {
        if let Some(last) = self.last_congestion {
            if now.saturating_sub(last) < self.rto {
                return;
            }
        }
        self.last_congestion = Some(now);
        let half = self.cwnd / 2;
        self.ssthresh = if half > 2 {
            half
        } else {
            2
        };
        match self.congestion_state {
            CongestionState::SlowStart | CongestionState::CongestionAvoidance => {
                self.cwnd = self.ssthresh;
                self.congestion_state = CongestionState::CongestionAvoidance;
            },
            CongestionState::FastRecovery => {
                self.cwnd = if half > 1 {
                    half
                } else {
                    1
                };
            },
        }
    }

    /// Forget the last congestion event, so that the next loss counts.
    pub fn clear_congestion_suppression(&mut self)
        ensures
            *final(self) == (RttStats { last_congestion: None, ..*old(self) }),
    {
        self.last_congestion = None;
    }

    /// Whether another frame may be sent: fewer in flight than the window.
    pub fn can_send(&self) -> (r: bool)
        ensures
            r == (self.in_flight < self.cwnd),
    {
        self.in_flight < self.cwnd
    }

    /// How many more frames the window admits.
    pub fn available_window(&self) -> (r: u32)
        ensures
            r == if self.cwnd >= self.in_flight {
                self.cwnd - self.in_flight
            } else {
                0
            },
    {
        self.cwnd.saturating_sub(self.in_flight)
    }
}

/// In slow start, an acknowledgement of one frame widens the window by one (below the
/// window's cap) and leaves the threshold alone.
pub proof fn lemma_slow_start_ack(s: RttStats)
    requires
        s.congestion_state == CongestionState::SlowStart,
        s.cwnd < MAX_CWND,
    ensures
        s.acked(1).cwnd == s.cwnd + 1,
        s.acked(1).ssthresh == s.ssthresh,
{
}

/// A loss outside the suppression window, in slow start or congestion avoidance, sets the
/// threshold to max(2, cwnd / 2) and the window to the same value.
pub proof fn lemma_loss_halves_window(s: RttStats, now: u64)
    requires
        !s.loss_suppressed(now),
        s.congestion_state != CongestionState::FastRecovery,
    ensures
        s.lost(now).cwnd == vstd::math::max(2, s.cwnd as int / 2),
        s.lost(now).ssthresh == vstd::math::max(2, s.cwnd as int / 2),
        s.lost(now).congestion_state == CongestionState::CongestionAvoidance,
{
}

/// Two losses within one RTO reduce the window only once: after a loss that counted, a
/// second one within the RTO changes nothing.
pub proof fn lemma_second_loss_within_rto(s: RttStats, t1: u64, t2: u64)
    requires
        !s.loss_suppressed(t1),
        t1 <= t2,
        t2 - t1 < s.rto,
    ensures
        s.lost(t1).lost(t2) == s.lost(t1),
{
}

/// Liveness of one peer.
#[derive(Debug, Clone, Copy)]
pub struct ConnectionState {
    /// Time of the last send or receive
    pub last_activity: u64,
    /// Time the pending ping was sent, if one is pending
    pub ping_sent: Option<u64>,
    /// Number of consecutive ping failures
    pub consecutive_ping_failures: u8,
    /// Connection status
    pub status: ConnectionStatus,
}

impl ConnectionState {
    pub open spec fn should_ping_spec(self, now: u64) -> bool {
        elapsed(now, self.last_activity) > IDLE_TIMEOUT && self.ping_sent is None
    }

    /// Whether the peer is due for teardown at `now`: (a ping pending for more than
    /// `PING_INTERVAL` and `MAX_PING_FAILURES` failures) or `MAX_PING_FAILURES` failures,
    /// which comes to the failure count alone.
    pub open spec fn should_close_spec(self, now: u64) -> bool {
        self.consecutive_ping_failures >= MAX_PING_FAILURES
    }

    pub open spec fn ping_failed_spec(self) -> ConnectionState {
        let failures = if self.consecutive_ping_failures == u8::MAX {
            u8::MAX
        } else {
            (self.consecutive_ping_failures + 1) as u8
        };
        ConnectionState {
            ping_sent: None,
            consecutive_ping_failures: failures,
            status: if failures >= MAX_PING_FAILURES {
                ConnectionStatus::Dead
            } else {
                ConnectionStatus::Degraded
            },
            ..self
        }
    }

    pub fn new(now: u64) -> (r: Self)
        ensures
            r == (ConnectionState {
                last_activity: now,
                ping_sent: None,
                consecutive_ping_failures: 0,
                status: ConnectionStatus::Alive,
            }),
    {
        Self {
            last_activity: now,
            ping_sent: None,
            consecutive_ping_failures: 0,
            status: ConnectionStatus::Alive,
        }
    }

    /// A successful send or receive at `now`.
    pub fn update_activity(&mut self, now: u64)
        ensures
            *final(self) == (ConnectionState {
                last_activity: now,
                consecutive_ping_failures: 0,
                status: ConnectionStatus::Alive,
                ..*old(self)
            }),
    {
        self.last_activity = now;
        self.consecutive_ping_failures = 0;
        self.status = ConnectionStatus::Alive;
    }

    pub fn mark_ping_sent(&mut self, now: u64)
        ensures
            *final(self) == (ConnectionState {
                ping_sent: Some(now),
                status: ConnectionStatus::Probing,
                ..*old(self)
            }),
    {
        self.ping_sent = Some(now);
        self.status = ConnectionStatus::Probing;
    }

    pub fn mark_ping_received(&mut self, now: u64)
        ensures
            *final(self) == (ConnectionState {
                last_activity: now,
                ping_sent: None,
                consecutive_ping_failures: 0,
                status: ConnectionStatus::Alive,
            }),
    {
        self.ping_sent = None;
        self.consecutive_ping_failures = 0;
        self.status = ConnectionStatus::Alive;
        self.last_activity = now;
    }

    /// A ping went unanswered: one more failure; dead at `MAX_PING_FAILURES`, else degraded.
    pub fn mark_ping_failed(&mut self)
        ensures
            *final(self) == old(self).ping_failed_spec(),
    {
        self.ping_sent = None;
        self.consecutive_ping_failures = self.consecutive_ping_failures.saturating_add(1);
        if self.consecutive_ping_failures >= MAX_PING_FAILURES {
            self.status = ConnectionStatus::Dead;
        } else {
            self.status = ConnectionStatus::Degraded;
        }
    }

    /// Whether the peer has been idle for more than `IDLE_TIMEOUT` with no ping pending.
    pub fn should_ping(&self, now: u64) -> (r: bool)
        ensures
            r == self.should_ping_spec(now),
    {
        now.saturating_sub(self.last_activity) > IDLE_TIMEOUT && self.ping_sent.is_none()
    }

    /// Whether the peer should be torn down.
    pub fn should_close(&self, now: u64) -> (r: bool)
        ensures
            r == self.should_close_spec(now),
    {
        let _ = now;
        self.consecutive_ping_failures >= MAX_PING_FAILURES
    }

    /// Whether a pending ping has gone unanswered for more than `PING_INTERVAL`.
    pub fn ping_timed_out(&self, now: u64) -> (r: bool)
        ensures
            r == (self.ping_sent matches Some(t) && elapsed(now, t) > PING_INTERVAL),
    {
        match self.ping_sent {
            Some(t) => now.saturating_sub(t) > PING_INTERVAL,
            None => false,
        }
    }

    pub fn mark_packet_lost(&mut self)
        ensures
            *final(self) == (ConnectionState { status: ConnectionStatus::Degraded, ..*old(self) }),
    {
        self.status = ConnectionStatus::Degraded;
    }
}

/// Three consecutive ping failures, starting from none, leave the peer dead and due for
/// teardown.
pub proof fn lemma_three_failures_dead(s: ConnectionState, now: u64)
    requires
        s.consecutive_ping_failures == 0,
    ensures
        s.ping_failed_spec().ping_failed_spec().ping_failed_spec().status == ConnectionStatus::Dead,
        s.ping_failed_spec().ping_failed_spec().ping_failed_spec().should_close_spec(now),
{
}

/// A snapshot of the congestion control of one peer.
#[derive(Debug, Clone, Copy)]
pub struct CongestionInfo {
    /// Congestion window, in frames
    pub congestion_window: u32,
    /// Slow-start threshold
    pub slow_start_threshold: u32,
    /// Frames in flight
    pub in_flight_packets: u32,
    /// Frames the window still admits
    pub available_window: u32,
    /// Congestion control state
    pub congestion_state: CongestionState,
    /// Current retransmission timeout, in milliseconds
    pub current_rto: u64,
}

} // verus!
