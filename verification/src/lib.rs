//! Building blocks of a two-party encrypted chat session: a small
//! Diffie-Hellman key exchange, a repeating-key stream cipher, the
//! continuation-byte frame format, and the state machines that drive a
//! session over one connection.

pub mod crypt;
pub mod net;
pub mod number_theory;
pub mod text;
pub mod tui;
pub mod utils;
