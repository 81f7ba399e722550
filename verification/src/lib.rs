//! Symbol-level inspection of relocatable object files and static archives.
//!
//! The crate normalizes a set of object files and archive members into one
//! addressable universe of plain records, builds name-indexed and
//! per-occurrence symbol indices, resolves a symbol's byte extent (stored or
//! inferred), caches decompressed section bytes, indexes relocations per
//! section for range queries, and diffs aggregated symbol maps of two builds.

pub mod errors;
pub mod names;
pub mod model;
pub mod readobj;
pub mod load;
pub mod sorting;
pub mod common;
pub mod index;
pub mod link;
pub mod command;
pub mod diff;
pub mod search;
pub mod contains;
