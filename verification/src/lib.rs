//! Documentation query service library.
//!
//! The library splits rendered documentation into content-defined chunks,
//! fingerprints content with a whitespace-normalized 64-bit hash, keeps a
//! two-tier content-addressed embedding cache, caps an embedding pipeline
//! by token count, ranks stored embeddings against a query, and drives the
//! line-oriented RPC surface as a verified state machine.

pub mod codec;
pub mod crate_discovery;
pub mod doc_loader;
pub mod document_chunker;
pub mod embedding_cache;
pub mod embedding_pipeline;
pub mod embeddings;
pub mod error;
pub mod fast_hash;
pub mod query;
pub mod registry;
pub mod render;
pub mod rpc;
pub mod text;
