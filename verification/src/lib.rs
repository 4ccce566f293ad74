//! A minimal request/response wire-protocol substrate: an incremental frame
//! codec for a Redis-style byte format, a connection buffer that reassembles
//! frames from arbitrary read fragments, a cooperative shutdown coordinator,
//! and the supervisor decision logic for accepting connections with bounded
//! backoff.

pub mod connection;
pub mod frame;
pub mod laws;
pub mod server;
pub mod shutdown;
