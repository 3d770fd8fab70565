//! Archive extraction/packing orchestration engine.
//!
//! The crate keeps a registry of opened archive containers ("paks"), builds a
//! unified virtual file tree across them using a shared filename-hash table,
//! plans unpack and pack jobs, and tracks job lifecycle and rate-limited
//! progress reporting. All file and thread handling is left to the embedding
//! application; this library holds the bookkeeping and the decisions, with
//! contracts proved by Verus.

pub mod common;
pub mod error;
pub mod group;
pub mod manifest;
pub mod names;
pub mod pak;
pub mod progress;
pub mod render;
pub mod service;
pub mod text;
pub mod tree;
