//! Core of a Hacker News reader: parsers that turn listing and discussion
//! markup into typed records, a builder that reconstructs nested discussion
//! trees from flat indentation-annotated lists, a TTL-gated snapshot cache,
//! and the URL / pagination-cursor logic that drives fetching.

pub mod models;
pub mod text;
pub mod dom;
pub mod listing;
pub mod comments;
pub mod tree;
pub mod pagination;
