//! Checker configuration: the registry of supported tools, per-checker
//! commands, and resolution of a repo configuration into concrete invocations.

pub mod checker;
pub mod resolve;
pub mod cmds;
pub mod deserialization;
