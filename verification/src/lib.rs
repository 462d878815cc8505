//! Core of a replicated transactional key-value engine.
//!
//! A cluster of nodes agrees on a totally ordered command log through a
//! consensus protocol (`raft`); every node applies the committed commands, in
//! log order, to a local multi-version key-value store (`mvcc`) that provides
//! snapshot-isolated transactions with key-level write-conflict detection.
//!
//! The byte-oriented durable storage underneath, the SQL layer above, and the
//! client protocol around the engine are outside this crate: the engine works
//! on plain byte keys and values held in memory, and a host program drives the
//! consensus state machine with events and carries its messages to peers.

pub mod command;
pub mod error;
pub mod log;
pub mod mvcc;
pub mod raft;
