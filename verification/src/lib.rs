//! Core of a chat bot that bridges a group-messaging protocol and an
//! issue-tracker search service.
//!
//! The crate holds the parts of the bot that carry real invariants: the
//! configuration validation and assembly engine (feature resolution and
//! group-ping alias expansion), the three persistent runtime-state stores
//! with their text codec, the per-room correction cooldown query, and the
//! transaction-id allocator.  File and network handling live outside this
//! crate; callers hand in plain values (file contents, the current time)
//! and receive plain values back.

pub mod check_format;
pub mod codec;
pub mod config;
pub mod group_ping;
pub mod numerals;
pub mod storage;
pub mod strutil;
pub mod validators;
