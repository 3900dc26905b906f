//! The state of one MDSWP stream: its sending and receiving storages and the
//! decisions of the connection.

pub mod inner;
pub mod recv;
pub mod send;
