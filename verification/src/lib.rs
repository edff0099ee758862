//! Core of a RakNet-compatible reliable datagram transport: the offline
//! handshake, the wire formats, and the queues that give reliability,
//! ordering and fragmentation on top of plain datagrams.
//!
//! Everything in this crate is synchronous and free of I/O. A host drives it
//! by handing in the datagrams it received and the ticks of its clock, and by
//! sending what the library hands back.

pub mod client;
pub mod conn;
pub mod protocol;
