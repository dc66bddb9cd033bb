//! Core of a content-addressed build store: hashing primitives, a blob store
//! planned as atomic canonical writes, an ordered directory/value model, a
//! resolver that reduces lazy values to complete values, filesystem input
//! ingestion, and project-definition resolution.

pub mod blob;
pub mod directory;
pub mod hashing;
pub mod input;
pub mod project;
pub mod resolver;
pub mod value;
