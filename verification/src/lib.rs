//! A fixed-capacity, block-based, in-memory flat file store.
//!
//! The store keeps a small, closed set of named files.  Each file's bytes live
//! in a chain of equally sized blocks drawn from a shared pool, and a fixed
//! table of entry slots holds the per-file metadata.  Every operation either
//! fully succeeds or leaves the visible state as its contract describes; the
//! contracts speak about an abstract view (`model::FsView`) of the slot table
//! and the pool's free-block count.

pub mod bstring;
pub mod color;
pub mod fs;
pub mod keyboard;
pub mod laws;
pub mod model;
