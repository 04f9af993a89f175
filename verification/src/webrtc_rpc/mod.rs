//! Requests between nodes over WebRTC data channels.

pub mod error;
pub mod introduction;
pub mod named;
pub mod transport;
