//! The wire format of a session and the state machines that drive it.

pub mod framing;
pub mod handshake;
pub mod pump;
pub mod roles;
