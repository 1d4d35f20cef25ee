//! Runs an independent build crate from a private staging copy: the rules
//! for rewriting its manifest, naming and guarding the staging directory,
//! mirroring its source tree and choosing the environment it is built with.

pub mod manifest;
pub mod staging;
pub mod config;
pub mod mirror;
pub mod pipeline;
