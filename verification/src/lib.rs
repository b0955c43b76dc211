//! A symlink package manager core: reconciles a package's declared
//! source-to-destination mappings against the previously recorded state,
//! journals every filesystem mutation, and can roll the last operation
//! back.
//!
//! The engine decides and journals against an explicit filesystem model
//! (`fs_state`); the caller keeps that model in step with the world and
//! mirrors the journal (`message`) onto it.  `engine` holds the
//! reconciliation itself, `runner` the owning instance with rollback,
//! `semantics` the meaning of a journal run, `laws` the proved properties,
//! `trace` and `codec` the persisted state and its format, and `config`,
//! `var`, `cli` the declaration side.

pub mod cli;
pub mod codec;
pub mod config;
pub mod engine;
pub mod errors;
pub mod fs_state;
pub mod laws;
pub mod logger;
pub mod message;
pub mod meta;
pub(crate) mod ops;
pub mod path;
pub mod runner;
pub mod semantics;
pub mod trace;
pub mod var;
