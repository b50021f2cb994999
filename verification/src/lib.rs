//! Resolves numeric addresses and structure offsets inside a snapshot of a
//! foreign process's memory: byte-pattern scanning with wildcards, arithmetic
//! resolution rules for turning a raw match into a usable address, and a
//! cycle-guarded walk of the target's reflection tables to answer named
//! offset lookups.

pub mod batch;
pub mod memory;
pub mod pattern;
pub mod resolver;
pub mod scanner;
pub mod types;
pub mod walker;
