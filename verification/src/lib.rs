//! An encrypted message protocol between a device and a host over a raw byte
//! stream. The library holds the protocol's rules as state machines that are
//! fed with bytes and outcomes and answer with what to do next. Callers perform
//! the reads, writes and waits.

pub mod bytes;
pub mod scripted;
pub mod server;
pub mod side_ark;
pub mod side_host;
pub mod transport;
