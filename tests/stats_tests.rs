use rudpbase::{
    CongestionState, ConnectionState, ConnectionStats, ConnectionStatus, ErrorSeverity, RttStats,
    RudpError,
};

#[test]
fn slow_start_ack_of_one_grows_window_by_one() {
    let mut r = RttStats::new();
    r.on_packet_sent();
    r.on_ack_received(1);
    assert_eq!(r.cwnd, 2);
    assert_eq!(r.ssthresh, 65535);
    assert_eq!(r.in_flight, 0);
    assert_eq!(r.congestion_state, CongestionState::SlowStart);
}

#[test]
fn slow_start_ends_at_threshold_and_window_is_capped() {
    let mut r = RttStats::new();
    r.ssthresh = 4;
    r.on_ack_received(3);
    assert_eq!(r.cwnd, 4);
    assert_eq!(r.congestion_state, CongestionState::CongestionAvoidance);
    r.on_ack_received(8);
    assert_eq!(r.cwnd, 6);
    let mut big = RttStats::new();
    big.on_ack_received(5000);
    assert_eq!(big.cwnd, 1000);
}

#[test]
fn one_loss_halves_and_a_second_within_rto_does_nothing() {
    let mut r = RttStats::new();
    r.cwnd = 21;
    r.on_packet_lost(1000);
    assert_eq!(r.cwnd, 10);
    assert_eq!(r.ssthresh, 10);
    assert_eq!(r.congestion_state, CongestionState::CongestionAvoidance);
    r.on_packet_lost(1000 + r.rto - 1);
    assert_eq!(r.cwnd, 10);
    assert_eq!(r.ssthresh, 10);
    r.on_packet_lost(1000 + r.rto);
    assert_eq!(r.cwnd, 5);
    let mut small = RttStats::new();
    small.on_packet_lost(0);
    assert_eq!(small.cwnd, 2);
    assert_eq!(small.ssthresh, 2);
}

#[test]
fn fast_recovery_loss_halves_window_to_at_least_one() {
    let mut r = RttStats::new();
    r.congestion_state = CongestionState::FastRecovery;
    r.cwnd = 3;
    r.on_packet_lost(0);
    assert_eq!(r.cwnd, 1);
    assert_eq!(r.ssthresh, 2);
    assert_eq!(r.congestion_state, CongestionState::FastRecovery);
}

#[test]
fn can_send_exactly_below_window() {
    let mut r = RttStats::new();
    assert!(r.can_send());
    assert_eq!(r.available_window(), 1);
    r.on_packet_sent();
    assert!(!r.can_send());
    assert_eq!(r.available_window(), 0);
}

#[test]
fn four_samples_of_100ms() {
    let mut r = RttStats::new();
    for _ in 0..4 {
        r.update_rtt(100);
    }
    assert!(r.srtt >= 95 && r.srtt <= 105);
    assert_eq!(r.rttvar, 15);
    assert!(r.rto >= 100 + 4 * r.rttvar && r.rto <= 3000);
    assert_eq!(r.rto, 200);
}

#[test]
fn rtt_sample_formula() {
    let mut r = RttStats::new();
    r.update_rtt(900);
    // rttvar = (3 * 50 + 800) / 4, srtt = (7 * 100 + 900) / 8
    assert_eq!(r.rttvar, 237);
    assert_eq!(r.srtt, 200);
    assert_eq!(r.rto, 200 + 4 * 237);
    let mut slow = RttStats::new();
    slow.update_rtt(1_000_000);
    assert_eq!(slow.rto, 60000);
}

#[test]
fn connection_stats_counters() {
    let mut s = ConnectionStats::new(5);
    assert_eq!(s.avg_rtt, 200);
    s.record_packet_sent(7);
    s.record_packet_received(9);
    s.record_packet_lost();
    s.record_retransmission();
    s.update_rtt(40);
    assert_eq!((s.packets_sent, s.packets_received, s.packets_lost, s.retransmissions), (1, 1, 1, 1));
    assert_eq!(s.last_activity, 9);
    assert_eq!(s.avg_rtt, (7 * 200 + 40) / 8);
}

#[test]
fn liveness_transitions() {
    let mut c = ConnectionState::new(0);
    assert!(!c.should_ping(30000));
    assert!(c.should_ping(30001));
    c.mark_ping_sent(30001);
    assert_eq!(c.status, ConnectionStatus::Probing);
    assert!(!c.should_ping(40000));
    c.mark_ping_failed();
    assert_eq!(c.status, ConnectionStatus::Degraded);
    assert!(!c.should_close(40000));
    c.mark_ping_failed();
    c.mark_ping_failed();
    assert_eq!(c.status, ConnectionStatus::Dead);
    assert!(c.should_close(40000));
    c.mark_ping_received(50000);
    assert_eq!(c.status, ConnectionStatus::Alive);
    assert_eq!(c.consecutive_ping_failures, 0);
    c.mark_packet_lost();
    assert_eq!(c.status, ConnectionStatus::Degraded);
    c.update_activity(60000);
    assert_eq!(c.status, ConnectionStatus::Alive);
    assert_eq!(c.last_activity, 60000);
}

#[test]
fn severity_levels() {
    assert_eq!(RudpError::Security.severity(), ErrorSeverity::Critical);
    assert_eq!(RudpError::Timeout.severity(), ErrorSeverity::Degraded);
    assert_eq!(RudpError::CongestionWindowFull.severity(), ErrorSeverity::Recoverable);
}

#[test]
fn three_failures_close_even_with_a_fresh_ping_pending() {
    let mut c = ConnectionState::new(0);
    c.mark_ping_failed();
    c.mark_ping_failed();
    c.mark_ping_failed();
    c.mark_ping_sent(50000);
    assert!(c.should_close(50000));
    let mut d = ConnectionState::new(0);
    d.mark_ping_failed();
    d.mark_ping_sent(100);
    assert!(!d.should_close(100000));
}
