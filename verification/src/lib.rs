//! miknet: a reliable-transport protocol engine over unreliable datagrams.
//!
//! The crate is sans-io: it contains the wire codec for protocol messages,
//! the event model that feeds the connection logic, the stateless-cookie
//! handshake, and the connection state machine that turns events into
//! outbound actions. The embedding performs the actual socket and timer
//! work and feeds the results back in as events.

pub mod cookie;
pub mod event;
pub mod gram;
pub mod timer;
pub mod connection;
