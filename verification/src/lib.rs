//! State-management core of a social-graph program: a per-user record
//! (online flag plus friend set) packed into a fixed-capacity storage slot,
//! four idempotent mutation operations, and an opcode-driven dispatcher.

pub mod codec;
pub mod error;
pub mod instruction;
pub mod processor;
pub mod state;
