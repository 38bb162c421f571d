//! Core of a real-time multiplayer relay: the datagram codec, the session and
//! level registry, and the per-datagram protocol state machine, with the
//! properties of that state machine proved in `laws`.
pub mod codec;
pub mod registry;
pub mod dispatch;
pub mod laws;
