//! Delayed commit release: commits are created locally at once, but are
//! published to a remote only after their scheduled release time has passed.
//!
//! The crate keeps a durable log of pending release records, selects the
//! push frontier (the most advanced record whose release time has arrived),
//! and decides between a partial push, a full push, and doing nothing.

pub mod codec;
pub mod commit;
pub mod config;
pub mod data;
