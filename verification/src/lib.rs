//! A sliding window protocol (MDSWP) built on top of UDP datagrams.
//!
//! This library holds the protocol logic: the wire format of segments, the
//! sending and receiving windows, and the state machine of one connection.
//! Sockets, threads and timers are driven by the caller.

pub mod clock;
pub mod laws;
pub mod listener;
pub mod segment;
pub mod storage;
pub mod stream;
pub mod util;
