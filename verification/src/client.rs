//! The client's side of connection establishment.

pub mod handshake;
