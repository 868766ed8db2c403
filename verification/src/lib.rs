//! A persistent, log-structured key-value store with string keys and
//! values, together with the text protocol its server and client speak.
//!
//! The engine keeps every pair as the most recent record about its key in
//! a set of numbered append-only segments, finds it again through an
//! in-memory index, and compacts the segments online once enough stale
//! records accumulate.  The engine's whole observable behaviour is a
//! mathematical map from key to value: every operation's contract says
//! how it moves that map, and the store's invariant ties the map to the
//! bytes that reach the segments, which is what makes a close and reopen
//! lossless.  The caller mirrors the engine's recorded segment changes to
//! real files and moves protocol text over real sockets; everything that
//! decides or computes stands here, verified.

pub mod codec;
pub mod common;
pub mod engines;
pub mod index;
pub mod laws;
pub mod resp;
pub mod server;
pub mod store;
pub mod thread_pool;

pub use engines::KvsEngine;
pub use store::KvStore;

use vstd::prelude::*;

verus! {

/// Errors surfaced by the store.
#[derive(Debug)]
pub enum KvsError {
    Message(String),
    KeyNotFound,
    InvalidCommand,
}

} // verus!
