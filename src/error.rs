use vstd::prelude::*;

verus! {

/// A network address of a peer, as plain values.
///
/// An IPv4 address is held in the low 32 bits of `ip`, with `v6` false.
#[derive(Clone, Copy, Debug, PartialEq, Eq, Hash, Structural)]
pub struct PeerAddr {
    pub ip: u128,
    pub port: u16,
    pub v6: bool,
}

/// Errors reported by the engine.
#[derive(Debug)]
pub enum RudpError {
    /// The datagram endpoint failed.
    Io { message: String },
    /// A connection-scoped condition.
    Connection(ConnectionError),
    /// A malformed frame.
    Protocol { message: String },
    /// The integrity tag of a frame does not match its contents.
    Security,
    /// A payload longer than a buffer can hold.
    BufferTooLarge { size: usize, max: usize },
    /// An internal invariant was violated.
    InternalError,
    /// A datagram shorter than the frame header.
    PacketTooSmall { size: usize, min: usize },
    /// The peer did not answer in time.
    Timeout,
    /// The congestion window of the destination is full.
    CongestionWindowFull,
}

/// Connection-scoped conditions.
#[derive(Debug)]
pub enum ConnectionError {
    Dead { addr: PeerAddr },
    Timeout { addr: PeerAddr },
    MaxRetriesExceeded { addr: PeerAddr },
    Degraded { addr: PeerAddr },
    Reset { addr: PeerAddr },
}

/// How serious an error is.
#[derive(Debug, Clone, Copy, PartialEq, Eq, Structural)]
pub enum ErrorSeverity {
    /// Recoverable errors like single packet loss
    Recoverable,
    /// Performance degradation like high packet loss rate
    Degraded,
    /// Critical errors like connection failure
    Critical,
}

impl ConnectionError {
    pub open spec fn severity_spec(&self) -> ErrorSeverity {
        match self {
            ConnectionError::Dead { .. } => ErrorSeverity::Critical,
            ConnectionError::Timeout { .. } => ErrorSeverity::Degraded,
            ConnectionError::MaxRetriesExceeded { .. } => ErrorSeverity::Critical,
            ConnectionError::Degraded { .. } => ErrorSeverity::Degraded,
            ConnectionError::Reset { .. } => ErrorSeverity::Critical,
        }
    }

    /// The severity level of this connection error.
    pub fn severity(&self) -> (r: ErrorSeverity)
        ensures
            r == self.severity_spec(),
    {
        match self {
            ConnectionError::Dead { .. } => ErrorSeverity::Critical,
            ConnectionError::Timeout { .. } => ErrorSeverity::Degraded,
            ConnectionError::MaxRetriesExceeded { .. } => ErrorSeverity::Critical,
            ConnectionError::Degraded { .. } => ErrorSeverity::Degraded,
            ConnectionError::Reset { .. } => ErrorSeverity::Critical,
        }
    }
}

impl RudpError {
    pub open spec fn severity_spec(&self) -> ErrorSeverity {
        match self {
            RudpError::Io { .. } => ErrorSeverity::Recoverable,
            RudpError::Connection(c) => c.severity_spec(),
            RudpError::Protocol { .. } => ErrorSeverity::Recoverable,
            RudpError::Security => ErrorSeverity::Critical,
            RudpError::BufferTooLarge { .. } => ErrorSeverity::Recoverable,
            RudpError::InternalError => ErrorSeverity::Critical,
            RudpError::PacketTooSmall { .. } => ErrorSeverity::Recoverable,
            RudpError::Timeout => ErrorSeverity::Degraded,
            RudpError::CongestionWindowFull => ErrorSeverity::Recoverable,
        }
    }

    /// The severity level of this error.
    pub fn severity(&self) -> (r: ErrorSeverity)
        ensures
            r == self.severity_spec(),
    {
        match self {
            RudpError::Io { .. } => ErrorSeverity::Recoverable,
            RudpError::Connection(c) => c.severity(),
            RudpError::Protocol { .. } => ErrorSeverity::Recoverable,
            RudpError::Security => ErrorSeverity::Critical,
            RudpError::BufferTooLarge { .. } => ErrorSeverity::Recoverable,
            RudpError::InternalError => ErrorSeverity::Critical,
            RudpError::PacketTooSmall { .. } => ErrorSeverity::Recoverable,
            RudpError::Timeout => ErrorSeverity::Degraded,
            RudpError::CongestionWindowFull => ErrorSeverity::Recoverable,
        }
    }
}

} // verus!
