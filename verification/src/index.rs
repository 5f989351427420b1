//! Putting chunks and their embeddings together before they are stored.

use vstd::prelude::*;
use crate::chunker::{Chunk, chunks_view};

verus! {

/// The chunks that got an embedding, and how many did not: the embeddings that come back
/// belong to the first chunks.
pub fn embedded_chunks(chunks: Vec<Chunk>, embedded: usize) -> (r: (Vec<Chunk>, usize))
    requires
        embedded <= chunks@.len(),
    ensures
        r.1 == chunks@.len() - embedded,
        chunks_view(r.0@) == chunks_view(chunks@).take(embedded as int),
{
    let mut kept = chunks;
    let skipped = kept.len() - embedded;
    if skipped > 0 {
        kept.truncate(embedded);
    }
    assert(chunks_view(kept@) =~= chunks_view(chunks@).take(embedded as int));
    (kept, skipped)
}

} // verus!
