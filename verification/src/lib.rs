//! Exhaustive feature-flag build validation: a combinatorial engine that
//! enumerates every allowed subset of a package's feature flags, filters the
//! subsets through a declarative rule system and a dependency-closure check,
//! and partitions the resulting work across parallel workers.

pub mod ansi;
pub mod chunk;
pub mod cli;
pub mod combos;
pub mod config;
pub mod driver;
pub mod intern;
pub mod manifest;
pub mod ncr;
pub mod pipeline;
pub mod rule;
pub mod schema;
