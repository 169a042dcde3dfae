//! Core of a write-behind block cache that keeps a virtual disk on a local SSD
//! and flushes it to object storage.
//!
//! The crate holds the decisions: which state each block is in, what a write,
//! a read, a flush, a crash recovery or a garbage collection does, and how the
//! files it relies on are laid out. Reading and writing files, sockets and
//! object stores is the caller's business: functions here take plain values
//! and hand plain values back.

pub mod checksum;
pub mod circuit_breaker;
pub mod cli;
pub mod gc;
pub mod text;
pub mod time;
pub mod write_cache;
pub mod write_trace;
