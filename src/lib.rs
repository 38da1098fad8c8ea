//! Versioned workspace storage: a sandboxed path resolver, numbered full-copy
//! revisions behind a HEAD marker, ordered tree listings, name and content
//! search, and archive import into a fresh revision.
//!
//! The library decides; the caller performs the filesystem work that the
//! library's results describe.

pub mod archive;
pub mod error;
pub mod revision;
pub mod sandbox;
pub mod search;
pub mod text;
pub mod tree;
pub mod workspace;
