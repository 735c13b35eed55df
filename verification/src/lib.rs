//! Orchestration library for running static-analysis checkers over many
//! repositories: it resolves hierarchical checker configurations into concrete
//! invocation plans, caches results in a transactional key-value store, and
//! extracts and deduplicates structured diagnostics from raw tool output.

pub mod cli;
pub mod config;
pub mod db;
pub mod extract;
pub mod layout;
pub mod repo;
pub mod run_checker;
pub mod strutil;
