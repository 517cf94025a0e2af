//! A verified storage and retrieval engine for collections of text documents:
//! a content-addressed store with a soft-deleting document catalog, the
//! synchronization of a directory walk into that catalog, token-window
//! chunking for embeddings, exact cosine similarity over quantized vectors,
//! Reciprocal Rank Fusion of ranked lists, and the routing of expanded
//! queries and reranked results.

pub mod chunk;
pub mod context;
pub mod embed;
pub mod fusion;
pub mod lexical;
pub mod maintenance;
pub mod params;
pub mod paths;
pub mod query;
pub mod rank;
pub mod semantic;
pub mod store;
pub mod sync;
pub mod text;
pub mod vectors;
