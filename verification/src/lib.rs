//! An article indexing, caching and pagination engine.
//!
//! Articles live as per-item directories holding a metadata record and a
//! body file.  This crate builds a queryable in-memory index of all
//! articles, serves individual article bodies through a bounded
//! least-recently-used cache, and slices ordered listings into pages.
//! Filesystem access stays with the caller: the engine consumes directory
//! listings and file contents as plain values and hands back typed results.

pub mod article;
pub mod cache;
pub mod config;
pub mod engine;
pub mod errors;
pub mod index;
pub mod metadata;
pub mod pagination;
pub mod recorder;
pub mod render;
pub mod search;
pub mod storage;
