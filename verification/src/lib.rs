//! Document chunking and retrieval pipeline: text normalization, structural
//! filtering, sentence-aware chunk assembly, embedding batching, and the
//! indexing/query contract against a vector store.

pub mod chars;
pub mod chunk;
pub mod embed;
pub mod header;
pub mod lines;
pub mod qdrant;
pub mod registry;
pub mod segment;
pub mod strutil;
pub mod text;
pub mod textlaws;
