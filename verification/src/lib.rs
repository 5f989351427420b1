//! Semantic code search for Rust sources: the verified core.
//!
//! Source files are cut into chunks along their syntax tree, chunks are
//! stored with their embedding vectors, and a query is answered by ranking
//! the stored chunks by similarity.

pub mod text;
pub mod syntax;
pub mod chunker;
pub mod store;
pub mod search;
pub mod config;
pub mod ollama;
pub mod index;
