//! Wire formats: byte-level primitives, offline packets, frames and datagrams.

pub mod ack;
pub mod datagram;
pub mod frame;
pub mod offline;
pub mod online;
pub mod stream;
