//! A peer-to-peer in-memory key-value cache node, without its sockets and timers.
//!
//! Each node holds a cache ([`store`]), learns of its siblings from the
//! announcements they broadcast ([`discovery`], [`peers`]), answers a line
//! protocol ([`protocol`]), hands each local write on to every known peer
//! ([`replication`]) and writes the cache out as a columnar file from time to
//! time ([`snapshot`]). The functions here decide and compute; receiving,
//! sending, probing and waiting are the caller's, who passes in what arrived
//! and carries out what comes back.

pub mod config;
pub mod discovery;
pub mod peers;
pub mod protocol;
pub mod replication;
pub mod snapshot;
pub mod store;
pub mod text;
