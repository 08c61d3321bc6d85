//! In-memory tree manifests: a directory tree built from zero, one or two
//! stored parent trees, edited in place, and written back to a
//! content-addressed store bottom-up, each tree under the hash of its
//! canonical record.

pub mod blobstore;
pub mod cache;
pub mod hash;
pub mod helpers;
pub mod laws;
pub mod lemmas;
pub mod manifest;
pub mod queries;
pub mod types;
