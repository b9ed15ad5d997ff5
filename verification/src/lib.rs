//! Deployment state tracking for a pipeline of environments whose desired
//! state lives in one Git repository.
//!
//! Everything in this crate is pure: it decides and computes on plain values.
//! Reading the repository, the working tree and the state files is left to the
//! caller, who hands the results in.

pub mod concourse;
pub mod config;
pub mod database;
pub mod diff;
pub mod error;
pub mod pattern;
pub mod repo;
pub mod sorted_map;
pub mod state;
pub mod text;
pub mod walk;
pub mod workspace;
