//! Per-connection state: the queues behind reliability and ordering.

pub mod fragment;
pub mod framing;
pub mod pending;
pub mod queue;
pub mod recv;
pub mod send;
pub mod session;
pub mod window;
