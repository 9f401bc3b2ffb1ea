//! File system implementations.
pub mod memfs;
