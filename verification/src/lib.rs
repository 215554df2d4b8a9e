//! A verified core for a repository embedding index.
//!
//! The library ingests the text files of a source repository, pairs each
//! with a fixed-dimension integer embedding vector, stores the resulting
//! points in a per-repository collection of an in-memory vector store, and
//! answers queries by ranking stored points by similarity to a query
//! vector.

pub mod archive;
pub mod pipeline;
pub mod repo;
pub mod score;
pub mod store;
pub mod text;
