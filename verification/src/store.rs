//! How chunks are kept: an embedding is stored as a blob of little-endian bytes.
//!
//! An embedding value is an `f32`; here each is held by its bit pattern
//! (`f32::to_bits`), which is what its little-endian bytes encode.

use vstd::prelude::*;

verus! {

/// A chunk as read back from the store.
#[derive(Debug)]
pub struct StoredChunk {
    pub id: i64,
    pub file_path: String,
    pub line_start: usize,
    pub line_end: usize,
    pub content: String,
    /// The bit patterns of the embedding's values.
    pub embedding: Vec<u32>,
}

/// The little-endian bytes of `x`.
pub open spec fn le_bytes(x: u32) -> Seq<u8> {
    seq![
        (x & 0xff) as u8,
        ((x >> 8u32) & 0xff) as u8,
        ((x >> 16u32) & 0xff) as u8,
        ((x >> 24u32) & 0xff) as u8,
    ]
}

/// The value whose little-endian bytes are `b0, b1, b2, b3`.
pub open spec fn from_le(b0: u8, b1: u8, b2: u8, b3: u8) -> u32 {
    (b0 as u32) | ((b1 as u32) << 8u32) | ((b2 as u32) << 16u32) | ((b3 as u32) << 24u32)
}

/// The blob of an embedding: the little-endian bytes of each value, in order.
pub open spec fn blob_of(e: Seq<u32>) -> Seq<u8>
    decreases e.len(),
{
    if e.len() == 0 {
        seq![]
    } else {
        blob_of(e.drop_last()) + le_bytes(e.last())
    }
}

/// The embedding read from a blob: one value per whole group of four bytes; bytes left
/// over at the end are ignored.
pub open spec fn values_of(blob: Seq<u8>) -> Seq<u32> {
    Seq::new(
        blob.len() / 4,
        |i: int| from_le(blob[4 * i], blob[4 * i + 1], blob[4 * i + 2], blob[4 * i + 3]),
    )
}

proof fn lemma_le_roundtrip(x: u32)
    ensures
        from_le(
            (x & 0xff) as u8,
            ((x >> 8u32) & 0xff) as u8,
            ((x >> 16u32) & 0xff) as u8,
            ((x >> 24u32) & 0xff) as u8,
        ) == x,
{
    assert(((((x & 0xff) as u8) as u32) | (((((x >> 8u32) & 0xff) as u8) as u32) << 8u32) | (
    ((((x >> 16u32) & 0xff) as u8) as u32) << 16u32) | (((((x >> 24u32) & 0xff) as u8) as u32)
        << 24u32)) == x) by (bit_vector);
}

proof fn lemma_from_le_roundtrip(b0: u8, b1: u8, b2: u8, b3: u8)
    ensures
        le_bytes(from_le(b0, b1, b2, b3)) == seq![b0, b1, b2, b3],
{
    let x = from_le(b0, b1, b2, b3);
    assert((((b0 as u32) | ((b1 as u32) << 8u32) | ((b2 as u32) << 16u32) | ((b3 as u32) << 24u32))
        & 0xff) as u8 == b0) by (bit_vector);
    assert(((((b0 as u32) | ((b1 as u32) << 8u32) | ((b2 as u32) << 16u32) | ((b3 as u32) << 24u32))
        >> 8u32) & 0xff) as u8 == b1) by (bit_vector);
    assert(((((b0 as u32) | ((b1 as u32) << 8u32) | ((b2 as u32) << 16u32) | ((b3 as u32) << 24u32))
        >> 16u32) & 0xff) as u8 == b2) by (bit_vector);
    assert(((((b0 as u32) | ((b1 as u32) << 8u32) | ((b2 as u32) << 16u32) | ((b3 as u32) << 24u32))
        >> 24u32) & 0xff) as u8 == b3) by (bit_vector);
    assert(le_bytes(x) =~= seq![b0, b1, b2, b3]);
}

proof fn lemma_blob_of_len(e: Seq<u32>)
    ensures
        blob_of(e).len() == 4 * e.len(),
    decreases e.len(),
{
    if e.len() > 0 {
        lemma_blob_of_len(e.drop_last());
    }
}

proof fn lemma_blob_of_index(e: Seq<u32>, i: int, j: int)
    requires
        0 <= i < e.len(),
        0 <= j < 4,
    ensures
        blob_of(e)[4 * i + j] == le_bytes(e[i])[j],
    decreases e.len(),
{
    lemma_blob_of_len(e.drop_last());
    if i < e.len() - 1 {
        lemma_blob_of_index(e.drop_last(), i, j);
    }
}

/// The blob holds four bytes per value, least significant first: byte `j` of value `i`
/// stands at position `4 * i + j` and is the value's base-256 digit `j`.
pub proof fn law_blob_is_little_endian(e: Seq<u32>, i: int)
    requires
        0 <= i < e.len(),
    ensures
        blob_of(e).len() == 4 * e.len(),
        blob_of(e)[4 * i] == e[i] % 256,
        blob_of(e)[4 * i + 1] == (e[i] / 256) % 256,
        blob_of(e)[4 * i + 2] == (e[i] / 65536) % 256,
        blob_of(e)[4 * i + 3] == e[i] / 16777216,
{
    lemma_blob_of_len(e);
    lemma_blob_of_index(e, i, 0);
    lemma_blob_of_index(e, i, 1);
    lemma_blob_of_index(e, i, 2);
    lemma_blob_of_index(e, i, 3);
    let x = e[i];
    assert(((x & 0xff) as u8) as u32 == x % 256) by (bit_vector);
    assert((((x >> 8u32) & 0xff) as u8) as u32 == (x / 256) % 256) by (bit_vector);
    assert((((x >> 16u32) & 0xff) as u8) as u32 == (x / 65536) % 256) by (bit_vector);
    assert((((x >> 24u32) & 0xff) as u8) as u32 == x / 16777216) by (bit_vector);
}

/// Reading back a stored embedding gives the embedding.
pub proof fn law_blob_roundtrip(e: Seq<u32>)
    ensures
        values_of(blob_of(e)) == e,
{
    lemma_blob_of_len(e);
    let b = blob_of(e);
    assert forall|i: int| 0 <= i < e.len() implies #[trigger] values_of(b)[i] == e[i] by {
        lemma_blob_of_index(e, i, 0);
        lemma_blob_of_index(e, i, 1);
        lemma_blob_of_index(e, i, 2);
        lemma_blob_of_index(e, i, 3);
        lemma_le_roundtrip(e[i]);
    }
    assert(values_of(b) =~= e);
}

/// Storing an embedding read from a blob whose length is a multiple of four gives the blob.
pub proof fn law_values_roundtrip(blob: Seq<u8>)
    requires
        blob.len() % 4 == 0,
    ensures
        blob_of(values_of(blob)) == blob,
{
    let e = values_of(blob);
    lemma_blob_of_len(e);
    assert forall|k: int| 0 <= k < blob.len() implies #[trigger] blob_of(e)[k] == blob[k] by {
        let i = k / 4;
        let j = k % 4;
        assert(k == 4 * i + j);
        lemma_blob_of_index(e, i, j);
        lemma_from_le_roundtrip(blob[4 * i], blob[4 * i + 1], blob[4 * i + 2], blob[4 * i + 3]);
        assert(le_bytes(e[i]) == seq![blob[4 * i], blob[4 * i + 1], blob[4 * i + 2], blob[4 * i + 3]]);
    }
    assert(blob_of(e) =~= blob);
}

/// The blob that stores an embedding, given by the bit patterns of its values.
pub fn embedding_to_blob(embedding: &[u32]) -> (blob: Vec<u8>)
    ensures
        blob@ == blob_of(embedding@),
{
    let mut blob: Vec<u8> = Vec::new();
    let mut i: usize = 0;
    while i < embedding.len()
        invariant
            0 <= i <= embedding@.len(),
            blob@ == blob_of(embedding@.take(i as int)),
        decreases embedding@.len() - i,
    {
        let x = embedding[i];
        let ghost before = blob@;
        blob.push((x & 0xff) as u8);
        blob.push(((x >> 8) & 0xff) as u8);
        blob.push(((x >> 16) & 0xff) as u8);
        blob.push(((x >> 24) & 0xff) as u8);
        assert(embedding@.take(i + 1).drop_last() =~= embedding@.take(i as int));
        assert(embedding@.take(i + 1).last() == x);
        assert(blob@ =~= before + le_bytes(x));
        i = i + 1;
    }
    assert(embedding@.take(i as int) =~= embedding@);
    blob
}

/// The bit patterns of the embedding stored in `blob`; see `values_of`.
pub fn blob_to_embedding(blob: &[u8]) -> (e: Vec<u32>)
    ensures
        e@ == values_of(blob@),
{
    let len = blob.len();
    let n = len / 4;
    let mut e: Vec<u32> = Vec::new();
    let mut i: usize = 0;
    while i < n
        invariant
            n == blob@.len() / 4,
            len == blob@.len(),
            0 <= i <= n,
            e@ == values_of(blob@).take(i as int),
        decreases n - i,
    {
        assert(4 * i + 3 < blob@.len()) by (nonlinear_arith)
            requires
                i < n,
                n == len / 4,
                len == blob@.len(),
        ;
        let b0 = blob[4 * i];
        let b1 = blob[4 * i + 1];
        let b2 = blob[4 * i + 2];
        let b3 = blob[4 * i + 3];
        e.push((b0 as u32) | ((b1 as u32) << 8) | ((b2 as u32) << 16) | ((b3 as u32) << 24));
        i = i + 1;
        assert(e@ =~= values_of(blob@).take(i as int));
    }
    assert(values_of(blob@).take(n as int) =~= values_of(blob@));
    e
}

} // verus!
