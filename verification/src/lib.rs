//! A verified core for a networked TTL key-value cache.
//!
//! The crate holds the logic of the server: parsing the line protocol,
//! the TTL cache store, the per-connection protocol state machine, and
//! the coordinator that serializes every mutation of shared state.
//! Sockets, timers and configuration loading live outside, in the
//! surrounding application, which hands the library plain values:
//! byte lines, addresses, and the current time in seconds.

pub mod addr;
pub mod client;
pub mod conf;
pub mod config;
pub mod database;
pub mod message;
pub mod server;
pub mod text;
