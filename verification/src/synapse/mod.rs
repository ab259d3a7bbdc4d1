//! Agents with a mailbox and a memory.

pub mod actor;
