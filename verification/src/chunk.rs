//! Sizing of the retrieval chunks the search side works with.
//!
//! The semantic search that produces candidate passages cuts a document's
//! text into sliding word windows: small chunks carry the embeddings,
//! parent chunks give surrounding context. The cutting itself belongs to
//! the ingestion side; this library only fixes the window sizes shared
//! with it.

use vstd::prelude::*;

verus! {

/// Word-window sizes for the document chunker, in words.
pub struct ChunkConfig {
    pub small_chunk_size: usize,
    pub small_chunk_overlap: usize,
    pub parent_chunk_size: usize,
    pub parent_chunk_overlap: usize,
}

impl Default for ChunkConfig {
    /// The window sizes used when a caller gives none.
    fn default() -> (r: ChunkConfig)
        ensures
            r.small_chunk_size == 50,
            r.small_chunk_overlap == 5,
            r.parent_chunk_size == 10000,
            r.parent_chunk_overlap == 200,
    {
        ChunkConfig {
            small_chunk_size: 50,
            small_chunk_overlap: 5,
            parent_chunk_size: 10000,
            parent_chunk_overlap: 200,
        }
    }
}

} // verus!
