//! Chunk-graph construction layer of a module bundler: partitions a resolved
//! module dependency graph into output chunks, gives each chunk a
//! deterministic filename and content-identity hash, and tracks chunk
//! membership and inter-chunk load edges.

pub mod module;
pub mod strings;
pub mod hashing;
pub mod module_graph;
pub mod member_set;
pub mod chunk;
pub mod laws;
pub mod chunk_graph;
pub mod grouping;
