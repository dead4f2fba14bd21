//! Embedding-backed similarity search: a token-bounded text chunker with
//! line provenance, a lossless store codec for labeled embedding vectors,
//! and a deterministic top-k cosine-similarity ranker.
//!
//! Vector components are carried as `u32` IEEE-754 bit patterns, so the
//! store and the ranker are exact; the floating-point arithmetic itself
//! (cosine scoring, done by the caller) stays outside the library.

pub mod chunker;
pub mod embedder;
pub mod errors;
pub mod output;
pub mod ranker;
pub mod store;
pub mod text;
