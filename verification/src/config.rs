//! Settings of a search index.

use vstd::prelude::*;

verus! {

/// Largest chunk, in bytes, unless the settings say otherwise.
pub const DEFAULT_MAX_CHUNK_CHARS: usize = 5000;

/// The embedding model used unless the settings say otherwise.
pub open spec fn default_model() -> Seq<char> {
    "nomic-embed-text"@
}

/// The default for `Config::max_chunk_chars` when the settings leave it out.
pub fn default_max_chunk_chars() -> (n: usize)
    ensures
        n == DEFAULT_MAX_CHUNK_CHARS,
{
    DEFAULT_MAX_CHUNK_CHARS
}

/// Settings of a search index.
#[derive(Debug)]
pub struct Config {
    /// Name of the embedding model.
    pub model: String,
    pub max_chunk_chars: usize,
}

impl Default for Config {
    fn default() -> (c: Self)
        ensures
            c.model@ == default_model(),
            c.max_chunk_chars == DEFAULT_MAX_CHUNK_CHARS,
    {
        Config { model: "nomic-embed-text".to_string(), max_chunk_chars: DEFAULT_MAX_CHUNK_CHARS }
    }
}

} // verus!
