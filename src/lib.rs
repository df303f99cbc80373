//! A reliable datagram transport engine.
//!
//! Payloads submitted to one endpoint are delivered at most once to the peer,
//! with acknowledgement, retransmission, congestion control and keepalive, but
//! without ordering. The engine is driven by the caller: every operation takes
//! the current time, and every datagram that must leave is handed back.
pub mod error;
pub mod protocol;
pub mod security;
pub mod buffer_pool;
pub mod stats;
pub mod peer;
pub mod engine;

pub use buffer_pool::{
    BufferPool, PoolStats, PooledBuffer, SharedBufferPool, DEFAULT_BUFFER_SIZE,
    DEFAULT_INITIAL_CAPACITY, MAX_POOL_CAPACITY,
};
pub use engine::{ReceivedData, Rudpbase};
pub use error::{ConnectionError, ErrorSeverity, PeerAddr, RudpError};
pub use peer::{PeerState, PendingPacket, Transmit};
pub use protocol::{
    DataAckPacket, DataNackPacket, PacketType, PingPacket, RawPacket, MAX_BUFFER_SIZE,
    PROTOCOL_HEADER_SIZE,
};
pub use security::SecurityCode;
pub use stats::{
    CongestionInfo, CongestionState, ConnectionState, ConnectionStats, ConnectionStatus, RttStats,
};
