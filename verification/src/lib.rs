//! A hashed latch manager. Commands take exclusive ownership of sets of
//! keys through a table of slots, each slot behind a lock of its own. A key
//! is hashed to 64 bits and falls into one slot; where it is held, the
//! commands that ask for it queue up and are served first come, first
//! served. Every command takes its keys in ascending order of their hashes,
//! which rules out deadlock.
//!
//! - [`lock`]: the keys one command needs, and how many it owns.
//! - [`latch`]: one slot, with its queue and its holders.
//! - [`key`]: what a slot does to each key hash by itself.
//! - [`latches`]: the table of locked slots and the protocol on it.
//! - [`table`]: the table seen as plain values, and a command's run on it.
//! - [`local`]: the table for one thread, where every call is exact.
//! - [`progress`]: many commands on one table: exclusion and progress.
//! - [`linkedlist`]: a singly linked list, for its own sake.

pub mod key;
pub mod latch;
pub mod latches;
pub mod linkedlist;
pub mod local;
pub mod lock;
pub mod progress;
pub mod table;
