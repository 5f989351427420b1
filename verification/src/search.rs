//! Ranking stored chunks against a query and presenting the best of them.
//!
//! Similarity scores are `f32` values computed outside this crate; here each is held
//! by its bit pattern, and ordered through `score_key`, which orders bit patterns as
//! the scores they stand for compare (`-0.0` and `0.0` alike; NaN is left out).

use vstd::prelude::*;
use vstd::string::StringExecFns;
use crate::store::StoredChunk;
use crate::chunker::{positions, sat_sub};
use crate::text::{chars_of, split_lines, lines_of, char_vecs_view, spaces, string_from_chars};

verus! {

/// A chunk chosen for a query, with its score's bit pattern.
#[derive(Debug)]
pub struct SearchResult {
    pub file_path: String,
    pub line_start: usize,
    pub line_end: usize,
    pub content: String,
    /// The bit pattern (`f32::to_bits`) of the similarity score.
    pub score: u32,
}

pub struct ResultView {
    pub file_path: Seq<char>,
    pub line_start: usize,
    pub line_end: usize,
    pub content: Seq<char>,
    pub score: u32,
}

impl View for SearchResult {
    type V = ResultView;

    open spec fn view(&self) -> ResultView {
        ResultView {
            file_path: self.file_path@,
            line_start: self.line_start,
            line_end: self.line_end,
            content: self.content@,
            score: self.score,
        }
    }
}

pub open spec fn results_view(v: Seq<SearchResult>) -> Seq<ResultView> {
    v.map_values(|r: SearchResult| r@)
}

/// Whether the bit pattern is that of a NaN.
pub open spec fn is_nan_bits(b: u32) -> bool {
    (b & 0x7f80_0000u32) == 0x7f80_0000u32 && (b & 0x007f_ffffu32) != 0
}

/// Whether a score, given by its bit pattern, is NaN.
pub fn is_nan_score(b: u32) -> (r: bool)
    ensures
        r == is_nan_bits(b),
{
    (b & 0x7f80_0000u32) == 0x7f80_0000u32 && (b & 0x007f_ffffu32) != 0
}

/// The key by which a score's bit pattern is ordered: positive scores above negative ones,
/// larger magnitudes further out, and `-0.0` with `0.0`.
pub open spec fn score_key(b: u32) -> u32 {
    if b == 0x8000_0000u32 {
        0x8000_0000u32
    } else if b >= 0x8000_0000u32 {
        (0xffff_ffffu32 - b) as u32
    } else {
        (b + 0x8000_0000u32) as u32
    }
}

pub fn order_key(b: u32) -> (k: u32)
    ensures
        k == score_key(b),
{
    if b == 0x8000_0000u32 {
        0x8000_0000u32
    } else if b >= 0x8000_0000u32 {
        0xffff_ffffu32 - b
    } else {
        b + 0x8000_0000u32
    }
}

pub open spec fn keys_of(bits: Seq<u32>) -> Seq<u32> {
    bits.map_values(|b: u32| score_key(b))
}

/// Chunk `i` comes before chunk `j`: a higher key, or an equal key and an earlier position.
pub open spec fn ranks_before(keys: Seq<u32>, i: int, j: int) -> bool {
    keys[i] > keys[j] || (keys[i] == keys[j] && i < j)
}

/// `r` lists the positions of the `top_n` best keys (all of them when there are fewer),
/// best first, ties in the order of the input.
pub open spec fn is_top_ranking(keys: Seq<u32>, r: Seq<int>, top_n: int) -> bool {
    &&& r.len() == if keys.len() < top_n {
        keys.len() as int
    } else {
        top_n
    }
    &&& forall|a: int| 0 <= a < r.len() ==> 0 <= #[trigger] r[a] < keys.len()
    &&& forall|a: int, b: int| 0 <= a < b < r.len() ==> ranks_before(keys, #[trigger] r[a], #[trigger] r[b])
    &&& forall|a: int, x: int|
        #![trigger r[a], r.contains(x)]
        0 <= a < r.len() && 0 <= x < keys.len() && !r.contains(x) ==> ranks_before(keys, r[a], x)
}

/// The value of a binary32 float, up to scale, as IEEE 754 orders it: its magnitude bits
/// (exponent then fraction) grow with its magnitude, and its sign bit makes it negative;
/// `-0.0` and `0.0` both have value 0.
pub open spec fn float_order_value(b: u32) -> int {
    if b >= 0x8000_0000u32 {
        0x8000_0000int - b
    } else {
        b as int
    }
}

/// The key of a score orders scores as their float values do: for scores that are not
/// NaN, one key is below another exactly when its value is, and keys are equal exactly
/// for equal values (so `-0.0` and `0.0` tie).
pub proof fn law_score_key_orders_values(a: u32, b: u32)
    requires
        !is_nan_bits(a),
        !is_nan_bits(b),
    ensures
        score_key(a) < score_key(b) <==> float_order_value(a) < float_order_value(b),
        score_key(a) == score_key(b) <==> float_order_value(a) == float_order_value(b),
{
}

/// A top ranking lists scores from the highest value down: along the ranking, no score's
/// value is above that of the score before it.
pub proof fn law_ranking_descends(bits: Seq<u32>, r: Seq<int>, top_n: int)
    requires
        is_top_ranking(keys_of(bits), r, top_n),
        forall|i: int| 0 <= i < bits.len() ==> !is_nan_bits(#[trigger] bits[i]),
    ensures
        forall|a: int, b: int|
            0 <= a < b < r.len() ==> float_order_value(bits[#[trigger] r[a]]) >= float_order_value(
                bits[#[trigger] r[b]],
            ),
        forall|a: int, x: int|
            0 <= a < r.len() && 0 <= x < bits.len() && !r.contains(x) ==> float_order_value(
                bits[#[trigger] r[a]],
            ) >= float_order_value(#[trigger] bits[x]),
{
    assert forall|a: int, b: int| 0 <= a < b < r.len() implies float_order_value(
        bits[#[trigger] r[a]],
    ) >= float_order_value(bits[#[trigger] r[b]]) by {
        assert(ranks_before(keys_of(bits), r[a], r[b]));
        law_score_key_orders_values(bits[r[a]], bits[r[b]]);
    }
    assert forall|a: int, x: int|
        0 <= a < r.len() && 0 <= x < bits.len() && !r.contains(x) implies float_order_value(
        bits[#[trigger] r[a]],
    ) >= float_order_value(#[trigger] bits[x]) by {
        assert(ranks_before(keys_of(bits), r[a], x));
        law_score_key_orders_values(bits[r[a]], bits[x]);
    }
}

/// The ranking is determined by the keys: two top rankings of the same keys are equal.
pub proof fn law_ranking_unique(keys: Seq<u32>, r1: Seq<int>, r2: Seq<int>, top_n: int)
    requires
        is_top_ranking(keys, r1, top_n),
        is_top_ranking(keys, r2, top_n),
    ensures
        r1 == r2,
{
    assert forall|a: int| 0 <= a < r1.len() implies #[trigger] r1[a] == r2[a] by {
        lemma_ranking_agree(keys, r1, r2, top_n, a);
    }
    assert(r1 =~= r2);
}

proof fn lemma_ranking_agree(keys: Seq<u32>, r1: Seq<int>, r2: Seq<int>, top_n: int, a: int)
    requires
        is_top_ranking(keys, r1, top_n),
        is_top_ranking(keys, r2, top_n),
        0 <= a < r1.len(),
    ensures
        r1[a] == r2[a],
    decreases a,
{
    if a > 0 {
        lemma_ranking_agree(keys, r1, r2, top_n, a - 1);
    }
    if r1[a] != r2[a] {
        let x = r1[a];
        let y = r2[a];
        // y comes before x in r2's order, or x is absent from r2
        if r2.contains(x) {
            let c = choose|c: int| 0 <= c < r2.len() && r2[c] == x;
            if c < a {
                lemma_ranking_agree(keys, r1, r2, top_n, c);
                assert(r1[c] == x);
                assert(ranks_before(keys, r1[c], r1[a]));
            } else {
                assert(ranks_before(keys, r2[a], r2[c]));
            }
        } else {
            assert(ranks_before(keys, r2[a], x));
        }
        assert(ranks_before(keys, y, x));
        if r1.contains(y) {
            let c = choose|c: int| 0 <= c < r1.len() && r1[c] == y;
            if c < a {
                lemma_ranking_agree(keys, r1, r2, top_n, c);
                assert(r2[c] == y);
                assert(ranks_before(keys, r2[c], r2[a]));
            } else {
                assert(ranks_before(keys, r1[a], r1[c]));
            }
        } else {
            assert(ranks_before(keys, r1[a], y));
        }
        assert(ranks_before(keys, x, y));
        assert(false);
    }
}


/// The positions of the `top_n` best scores, best first (see `is_top_ranking`), scores
/// being given by their bit patterns.
pub fn rank_scores(score_bits: &[u32], top_n: usize) -> (r: Vec<usize>)
    ensures
        is_top_ranking(keys_of(score_bits@), positions(r@), top_n as int),
{
    let n = score_bits.len();
    let ghost keys = keys_of(score_bits@);
    let mut keyv: Vec<u32> = Vec::new();
    let mut remaining: Vec<usize> = Vec::new();
    let mut j: usize = 0;
    while j < n
        invariant
            n == score_bits@.len(),
            keys == keys_of(score_bits@),
            0 <= j <= n,
            keyv@ == keys.take(j as int),
            remaining@.len() == j,
            forall|q: int| 0 <= q < j ==> #[trigger] remaining@[q] == q,
        decreases n - j,
    {
        keyv.push(order_key(score_bits[j]));
        remaining.push(j);
        j = j + 1;
        assert(keyv@ =~= keys.take(j as int));
    }
    assert(keyv@ =~= keys);
    let m = if n < top_n {
        n
    } else {
        top_n
    };
    let mut r: Vec<usize> = Vec::new();
    assert forall|x: int| 0 <= x < n implies (#[trigger] positions(r@).contains(x) || positions(
        remaining@,
    ).contains(x)) by {
        assert(positions(remaining@)[x] == x);
    }
    while r.len() < m
        invariant
            n == keys.len(),
            keyv@ == keys,
            m <= n,
            m == (if n < top_n { n } else { top_n }),
            r@.len() <= m,
            remaining@.len() + r@.len() == n,
            forall|q: int| 0 <= q < remaining@.len() ==> #[trigger] remaining@[q] < n,
            forall|q: int, w: int| 0 <= q < w < remaining@.len() ==> #[trigger] remaining@[q] < #[trigger] remaining@[w],
            forall|a: int| 0 <= a < r@.len() ==> #[trigger] r@[a] < n,
            forall|x: int| 0 <= x < n ==> (#[trigger] positions(r@).contains(x) || positions(remaining@).contains(x)),
            forall|a: int, b: int| 0 <= a < b < r@.len() ==> ranks_before(keys, #[trigger] r@[a] as int, #[trigger] r@[b] as int),
            forall|a: int, q: int| 0 <= a < r@.len() && 0 <= q < remaining@.len() ==> ranks_before(keys, #[trigger] r@[a] as int, #[trigger] remaining@[q] as int),
        decreases m - r@.len(),
    {
        // the best of the remaining positions
        let mut best_pos: usize = 0;
        let mut p: usize = 1;
        while p < remaining.len()
            invariant
                n == keys.len(),
                keyv@ == keys,
                remaining@.len() >= 1,
                0 <= best_pos < p <= remaining@.len(),
                forall|q: int| 0 <= q < remaining@.len() ==> #[trigger] remaining@[q] < n,
                forall|q: int, w: int| 0 <= q < w < remaining@.len() ==> #[trigger] remaining@[q] < #[trigger] remaining@[w],
                forall|q: int| 0 <= q < p && q != best_pos ==> ranks_before(keys, remaining@[best_pos as int] as int, #[trigger] remaining@[q] as int),
            decreases remaining@.len() - p,
        {
            let ghost old_best = best_pos;
            if keyv[remaining[p]] > keyv[remaining[best_pos]] {
                best_pos = p;
                assert forall|q: int| 0 <= q < p + 1 && q != best_pos implies ranks_before(keys, remaining@[best_pos as int] as int, #[trigger] remaining@[q] as int) by {
                    if q != old_best {
                        assert(ranks_before(keys, remaining@[old_best as int] as int, remaining@[q] as int));
                    }
                }
            } else {
                assert(remaining@[old_best as int] < remaining@[p as int]);
            }
            p = p + 1;
        }
        let ghost old_rem = remaining@;
        let ghost before = r@;
        let best = remaining.remove(best_pos);
        assert(remaining@ == old_rem.remove(best_pos as int));
        assert(best == old_rem[best_pos as int]);
        r.push(best);
        proof {
            assert forall|q: int| 0 <= q < remaining@.len() implies #[trigger] remaining@[q] == if q
                < best_pos {
                old_rem[q]
            } else {
                old_rem[q + 1]
            } by {}
            assert forall|x: int|
                0 <= x < n implies (#[trigger] positions(r@).contains(x) || positions(
                remaining@,
            ).contains(x)) by {
                if positions(before).contains(x) {
                    let a = choose|a: int| 0 <= a < before.len() && positions(before)[a] == x;
                    assert(positions(r@)[a] == x);
                } else {
                    assert(positions(old_rem).contains(x));
                    let q = choose|q: int| 0 <= q < old_rem.len() && positions(old_rem)[q] == x;
                    if q == best_pos {
                        assert(positions(r@)[before.len() as int] == x);
                    } else if q < best_pos {
                        assert(positions(remaining@)[q] == x);
                    } else {
                        assert(positions(remaining@)[q - 1] == x);
                    }
                }
            }
            assert forall|a: int, b: int| 0 <= a < b < r@.len() implies ranks_before(
                keys,
                #[trigger] r@[a] as int,
                #[trigger] r@[b] as int,
            ) by {
                if b == before.len() {
                    assert(ranks_before(keys, before[a] as int, old_rem[best_pos as int] as int));
                } else {
                    assert(ranks_before(keys, before[a] as int, before[b] as int));
                }
            }
            assert forall|a: int, q: int| 0 <= a < r@.len() && 0 <= q < remaining@.len() implies ranks_before(
                keys,
                #[trigger] r@[a] as int,
                #[trigger] remaining@[q] as int,
            ) by {
                let oq = if q < best_pos {
                    q
                } else {
                    q + 1
                };
                assert(remaining@[q] == old_rem[oq]);
                if a == before.len() {
                    assert(oq != best_pos);
                    assert(ranks_before(keys, old_rem[best_pos as int] as int, old_rem[oq] as int));
                } else {
                    assert(ranks_before(keys, before[a] as int, old_rem[oq] as int));
                }
            }
        }
    }
    proof {
        let pr = positions(r@);
        assert forall|a: int| 0 <= a < pr.len() implies 0 <= #[trigger] pr[a] < keys.len() by {}
        assert forall|a: int, b: int| 0 <= a < b < pr.len() implies ranks_before(
            keys,
            #[trigger] pr[a],
            #[trigger] pr[b],
        ) by {
            assert(ranks_before(keys, r@[a] as int, r@[b] as int));
        }
        assert forall|a: int, x: int|
            #![trigger pr[a], pr.contains(x)]
            0 <= a < pr.len() && 0 <= x < keys.len() && !pr.contains(x) implies ranks_before(
            keys,
            pr[a],
            x,
        ) by {
            assert(positions(remaining@).contains(x));
            let q = choose|q: int| 0 <= q < remaining@.len() && positions(remaining@)[q] == x;
            assert(ranks_before(keys, r@[a] as int, remaining@[q] as int));
        }
    }
    r
}


/// The result made of a stored chunk and its score.
pub open spec fn result_of(c: StoredChunk, score: u32) -> ResultView {
    ResultView {
        file_path: c.file_path@,
        line_start: c.line_start,
        line_end: c.line_end,
        content: c.content@,
        score,
    }
}

/// Whether some score is NaN.
pub open spec fn has_nan(bits: Seq<u32>) -> bool {
    exists|i: int| 0 <= i < bits.len() && is_nan_bits(#[trigger] bits[i])
}

/// Whether the scores can be ordered by comparing them, a NaN comparing equal to every
/// score: either no score is NaN, or all scores that are not NaN are equal.
pub open spec fn orderable(bits: Seq<u32>) -> bool {
    !has_nan(bits) || forall|i: int, j: int|
        0 <= i < bits.len() && 0 <= j < bits.len() && !is_nan_bits(#[trigger] bits[i])
            && !is_nan_bits(#[trigger] bits[j]) ==> score_key(bits[i]) == score_key(bits[j])
}

/// The first `top_n` chunks (all of them when there are fewer), in their stored order.
pub open spec fn first_results(chunks: Seq<StoredChunk>, bits: Seq<u32>, top_n: int) -> Seq<ResultView> {
    Seq::new(
        if chunks.len() < top_n {
            chunks.len()
        } else {
            top_n as nat
        },
        |i: int| result_of(chunks[i], bits[i]),
    )
}

/// The `top_n` chunks with the best scores, best first, ties in their stored order; the
/// score of `chunks[i]` has the bit pattern `score_bits[i]`. A NaN score compares equal
/// to every score, so where some score is NaN (and the others are all equal) every
/// chunk ties and the first `top_n` come in their stored order.
pub fn search(chunks: &[StoredChunk], score_bits: &[u32], top_n: usize) -> (res: Vec<SearchResult>)
    requires
        chunks@.len() == score_bits@.len(),
        orderable(score_bits@),
    ensures
        !has_nan(score_bits@) ==> exists|r: Seq<int>|
            #![trigger is_top_ranking(keys_of(score_bits@), r, top_n as int)]
            is_top_ranking(keys_of(score_bits@), r, top_n as int) && results_view(res@) == r.map_values(
                |i: int| result_of(chunks@[i], score_bits@[i]),
            ),
        has_nan(score_bits@) ==> results_view(res@) == first_results(
            chunks@,
            score_bits@,
            top_n as int,
        ),
{
    let mut q: usize = 0;
    while q < score_bits.len()
        invariant
            0 <= q <= score_bits@.len(),
            chunks@.len() == score_bits@.len(),
            forall|p: int| 0 <= p < q ==> !is_nan_bits(#[trigger] score_bits@[p]),
        decreases score_bits@.len() - q,
    {
        if is_nan_score(score_bits[q]) {
            return first_chunks(chunks, score_bits, top_n);
        }
        q = q + 1;
    }
    let order = rank_scores(score_bits, top_n);
    let ghost r = positions(order@);
    let mut res: Vec<SearchResult> = Vec::new();
    let mut k: usize = 0;
    while k < order.len()
        invariant
            0 <= k <= order@.len(),
            r == positions(order@),
            is_top_ranking(keys_of(score_bits@), r, top_n as int),
            chunks@.len() == score_bits@.len(),
            res@.len() == k,
            forall|q: int| 0 <= q < k ==> #[trigger] res@[q]@ == result_of(chunks@[r[q]], score_bits@[r[q]]),
        decreases order@.len() - k,
    {
        let i = order[k];
        assert(r[k as int] == i as int);
        assert(keys_of(score_bits@).len() == score_bits@.len());
        let c = &chunks[i];
        res.push(
            SearchResult {
                file_path: c.file_path.clone(),
                line_start: c.line_start,
                line_end: c.line_end,
                content: c.content.clone(),
                score: score_bits[i],
            },
        );
        k = k + 1;
    }
    assert(results_view(res@) =~= r.map_values(|i: int| result_of(chunks@[i], score_bits@[i])));
    res
}

/// The first `top_n` chunks as results, in their stored order.
fn first_chunks(chunks: &[StoredChunk], score_bits: &[u32], top_n: usize) -> (res: Vec<SearchResult>)
    requires
        chunks@.len() == score_bits@.len(),
    ensures
        results_view(res@) == first_results(chunks@, score_bits@, top_n as int),
{
    let m = if chunks.len() < top_n {
        chunks.len()
    } else {
        top_n
    };
    let mut res: Vec<SearchResult> = Vec::new();
    let mut k: usize = 0;
    while k < m
        invariant
            0 <= k <= m,
            m <= chunks@.len(),
            chunks@.len() == score_bits@.len(),
            m == (if chunks@.len() < top_n {
                chunks@.len()
            } else {
                top_n as nat
            }),
            res@.len() == k,
            forall|p: int| 0 <= p < k ==> #[trigger] res@[p]@ == result_of(chunks@[p], score_bits@[p]),
        decreases m - k,
    {
        let c = &chunks[k];
        res.push(
            SearchResult {
                file_path: c.file_path.clone(),
                line_start: c.line_start,
                line_end: c.line_end,
                content: c.content.clone(),
                score: score_bits[k],
            },
        );
        k = k + 1;
    }
    assert(results_view(res@) =~= first_results(chunks@, score_bits@, top_n as int));
    res
}

// ---------------------------------------------------------------------------
// Presenting results
// ---------------------------------------------------------------------------

/// The decimal digit for `d < 10`.
pub open spec fn digit(d: int) -> char {
    seq!['0', '1', '2', '3', '4', '5', '6', '7', '8', '9'][d]
}

/// `n` written in decimal.
pub open spec fn decimal(n: nat) -> Seq<char>
    decreases n,
{
    if n < 10 {
        seq![digit(n as int)]
    } else {
        decimal(n / 10).push(digit((n % 10) as int))
    }
}

/// The number that a string of decimal digits stands for.
pub open spec fn digits_value(d: Seq<char>) -> int
    decreases d.len(),
{
    if d.len() == 0 {
        0
    } else {
        digits_value(d.drop_last()) * 10 + (d.last() as u32 - 48)
    }
}

proof fn lemma_digit(d: int)
    requires
        0 <= d < 10,
    ensures
        '0' <= digit(d) <= '9',
        digit(d) as u32 - 48 == d,
        d > 0 ==> digit(d) != '0',
{
    let ds = seq!['0', '1', '2', '3', '4', '5', '6', '7', '8', '9'];
    assert(digit(d) == ds[d]);
    if d == 0 {} else if d == 1 {} else if d == 2 {} else if d == 3 {} else if d == 4 {}
    else if d == 5 {} else if d == 6 {} else if d == 7 {} else if d == 8 {} else {}
}

/// `decimal(n)` is `n` in decimal: digits only, standing for `n`, without a leading zero.
pub proof fn law_decimal_is_base_ten(n: nat)
    ensures
        decimal(n).len() >= 1,
        forall|i: int| 0 <= i < decimal(n).len() ==> '0' <= #[trigger] decimal(n)[i] <= '9',
        digits_value(decimal(n)) == n,
        decimal(n).len() > 1 ==> decimal(n)[0] != '0',
        n >= 10 ==> decimal(n).len() >= 2,
    decreases n,
{
    if n < 10 {
        lemma_digit(n as int);
        assert(decimal(n) == seq![digit(n as int)]);
        assert(decimal(n).drop_last() =~= Seq::<char>::empty());
        assert(decimal(n).last() == digit(n as int));
        assert(digits_value(decimal(n)) == digits_value(Seq::<char>::empty()) * 10 + (digit(
            n as int,
        ) as u32 - 48));
    } else {
        let q = n / 10;
        let d = (n % 10) as int;
        law_decimal_is_base_ten(q);
        lemma_digit(d);
        let dq = decimal(q);
        assert(decimal(n) == dq.push(digit(d)));
        assert(decimal(n).drop_last() =~= dq);
        assert forall|i: int| 0 <= i < decimal(n).len() implies '0' <= #[trigger] decimal(n)[i] <= '9' by {
            if i < dq.len() {
                assert(decimal(n)[i] == dq[i]);
            }
        }
        assert(n == q * 10 + d);
        assert(decimal(n).last() == digit(d));
        assert(digits_value(decimal(n)) == digits_value(dq) * 10 + (digit(d) as u32 - 48));
        if dq.len() == 1 {
            assert(q > 0);
            assert(dq[0] != '0') by {
                lemma_digit(q as int);
                assert(dq == seq![digit(q as int)]);
            }
        }
        assert(decimal(n)[0] == dq[0]);
    }
}

fn digit_char(d: usize) -> (c: char)
    requires
        d < 10,
    ensures
        c == digit(d as int),
{
    let ds = ['0', '1', '2', '3', '4', '5', '6', '7', '8', '9'];
    assert(ds@ =~= seq!['0', '1', '2', '3', '4', '5', '6', '7', '8', '9']);
    ds[d]
}

/// Appends `n` in decimal to `v`.
fn push_decimal(v: &mut Vec<char>, n: usize)
    ensures
        final(v)@ == old(v)@ + decimal(n as nat),
    decreases n,
{
    if n < 10 {
        v.push(digit_char(n));
        assert(decimal(n as nat) =~= seq![digit(n as int)]);
    } else {
        push_decimal(v, n / 10);
        v.push(digit_char(n % 10));
    }
}

/// `s` right-aligned in a field of `w` characters.
pub open spec fn right_align(s: Seq<char>, w: nat) -> Seq<char> {
    if s.len() < w {
        spaces((w - s.len()) as nat) + s
    } else {
        s
    }
}

/// Right-aligning pads with spaces on the left up to the width and keeps the text whole.
pub proof fn law_right_align_pads_left(s: Seq<char>, w: nat)
    ensures
        right_align(s, w).len() == if s.len() < w {
            w as int
        } else {
            s.len() as int
        },
        s.is_suffix_of(right_align(s, w)),
        forall|i: int| 0 <= i < right_align(s, w).len() - s.len() ==> #[trigger] right_align(s, w)[i] == ' ',
{
    let r = right_align(s, w);
    assert(r.subrange(r.len() - s.len(), r.len() as int) =~= s);
}

/// A numbered line of context: the marker, the number right-aligned in four places,
/// `": "`, the line.
pub open spec fn context_line(marker: char, num: nat, line: Seq<char>) -> Seq<char> {
    seq![marker] + right_align(decimal(num), 4) + seq![':', ' '] + line + seq!['\n']
}

/// Context lines numbered `num` to `end` (inclusive) of a file whose lines are `fl`; line
/// `num` shows line `num - 1` of the list (line 0 shows the first line as well), and lines
/// of the result's own range `[line_start, line_end)` are marked with `'>'`.
pub open spec fn context_from(r: ResultView, fl: Seq<Seq<char>>, num: int, end: int) -> Seq<char>
    decreases end + 1 - num,
{
    if num > end || num < 0 {
        seq![]
    } else {
        let idx = sat_sub(num, 1);
        (if idx < fl.len() {
            context_line(
                if r.line_start <= num < r.line_end {
                    '>'
                } else {
                    ' '
                },
                num as nat,
                fl[idx],
            )
        } else {
            seq![]
        }) + context_from(r, fl, num + 1, end)
    }
}

/// The context shown around a result: `ctx` lines on each side, within the file, then an
/// empty line.
pub open spec fn context_block(r: ResultView, fl: Seq<Seq<char>>, ctx: nat) -> Seq<char> {
    let start = sat_sub(r.line_start as int, ctx as int);
    let last = r.line_end + ctx - 1;
    let end = if last < fl.len() {
        last
    } else {
        fl.len() as int
    };
    context_from(r, fl, start, end) + seq!['\n']
}

/// `small` appears in `big` as a run of consecutive characters.
pub open spec fn occurs_in(small: Seq<char>, big: Seq<char>) -> bool {
    exists|p: int|
        0 <= p && p + small.len() <= big.len() && #[trigger] big.subrange(p, p + small.len()) == small
}

/// The numbered, marked line `num` of a result's context.
pub open spec fn shown_line(r: ResultView, fl: Seq<Seq<char>>, num: int) -> Seq<char> {
    context_line(
        if r.line_start <= num < r.line_end {
            '>'
        } else {
            ' '
        },
        num as nat,
        fl[num - 1],
    )
}

proof fn lemma_context_from_shows(r: ResultView, fl: Seq<Seq<char>>, st: int, e: int, num: int) -> (p: int)
    requires
        0 <= st <= num <= e,
        1 <= num <= fl.len(),
    ensures
        0 <= p,
        p + shown_line(r, fl, num).len() <= context_from(r, fl, st, e).len(),
        context_from(r, fl, st, e).subrange(p, p + shown_line(r, fl, num).len()) == shown_line(
            r,
            fl,
            num,
        ),
    decreases num - st,
{
    let idx = sat_sub(st, 1);
    let head = if idx < fl.len() {
        context_line(
            if r.line_start <= st < r.line_end {
                '>'
            } else {
                ' '
            },
            st as nat,
            fl[idx],
        )
    } else {
        seq![]
    };
    let rest = context_from(r, fl, st + 1, e);
    assert(context_from(r, fl, st, e) == head + rest);
    let line = shown_line(r, fl, num);
    if st == num {
        assert(head == line);
        assert((head + rest).subrange(0, line.len() as int) =~= line);
        0
    } else {
        let q = lemma_context_from_shows(r, fl, st + 1, e, num);
        assert((head + rest).subrange(head.len() + q, head.len() + q + line.len()) =~= rest.subrange(
            q,
            q + line.len(),
        ));
        head.len() + q
    }
}

/// With context asked for and the file's text known, a result shows every line of the file
/// from `ctx` lines before its first line through `ctx - 1` lines after its end (as far as
/// the file goes), numbered, the lines of its own range marked with `'>'` and the others
/// with a space.
pub proof fn law_context_shows_its_lines(
    r: ResultView,
    label: Seq<char>,
    ctx: nat,
    src: Seq<char>,
    num: int,
)
    requires
        ctx > 0,
        1 <= num <= lines_of(src).len(),
        r.line_start - ctx <= num <= r.line_end + ctx - 1,
    ensures
        occurs_in(shown_line(r, lines_of(src), num), result_text(r, label, ctx, Some(src))),
{
    let fl = lines_of(src);
    let st = sat_sub(r.line_start as int, ctx as int);
    let last = r.line_end + ctx - 1;
    let e = if last < fl.len() {
        last
    } else {
        fl.len() as int
    };
    let p = lemma_context_from_shows(r, fl, st, e, num);
    let line = shown_line(r, fl, num);
    let head = r.file_path + seq![':'] + decimal(r.line_start as nat) + score_open() + label + seq![
        ')',
        '\n',
    ];
    let cf = context_from(r, fl, st, e);
    let t = result_text(r, label, ctx, Some(src));
    assert(t == head + (cf + seq!['\n']) + r.content + seq!['\n']);
    assert(t.subrange(head.len() + p, head.len() + p + line.len()) =~= cf.subrange(
        p,
        p + line.len(),
    ));
    assert(occurs_in(line, t));
}

pub open spec fn score_open() -> Seq<char> {
    seq![' ', '(', 's', 'c', 'o', 'r', 'e', ':', ' ']
}

pub open spec fn separator() -> Seq<char> {
    seq!['\n', '-', '-', '-', '\n', '\n']
}

/// One result: `path:line (score: label)`, the context when `ctx > 0` and the file's text
/// is known, then the chunk's content and `'\n'`.
pub open spec fn result_text(r: ResultView, label: Seq<char>, ctx: nat, source: Option<Seq<char>>) -> Seq<
    char,
> {
    r.file_path + seq![':'] + decimal(r.line_start as nat) + score_open() + label + seq![')', '\n']
        + (if ctx > 0 && source is Some {
        context_block(r, lines_of(source->0), ctx)
    } else {
        seq![]
    }) + r.content + seq!['\n']
}

/// The first `k` results, separated by `"\n---\n\n"`.
pub open spec fn formatted(
    rs: Seq<ResultView>,
    labels: Seq<Seq<char>>,
    ctx: nat,
    sources: Seq<Option<Seq<char>>>,
    k: int,
) -> Seq<char>
    decreases k,
{
    if k <= 0 {
        seq![]
    } else {
        formatted(rs, labels, ctx, sources, k - 1) + (if k - 1 > 0 {
            separator()
        } else {
            seq![]
        }) + result_text(rs[k - 1], labels[k - 1], ctx, sources[k - 1])
    }
}

pub open spec fn sources_view(v: Seq<Option<String>>) -> Seq<Option<Seq<char>>> {
    v.map_values(
        |o: Option<String>|
            match o {
                Some(s) => Some(s@),
                None => None,
            },
    )
}

pub open spec fn labels_view(v: Seq<String>) -> Seq<Seq<char>> {
    v.map_values(|s: String| s@)
}

/// Appends one numbered context line.
fn push_context_line(out: &mut Vec<char>, marker: char, num: usize, line: &Vec<char>)
    ensures
        final(out)@ == old(out)@ + context_line(marker, num as nat, line@),
{
    let ghost before = out@;
    out.push(marker);
    let mut digits: Vec<char> = Vec::new();
    push_decimal(&mut digits, num);
    assert(digits@ =~= decimal(num as nat));
    let mut pad: usize = 0;
    if digits.len() < 4 {
        pad = 4 - digits.len();
    }
    let mut q: usize = 0;
    while q < pad
        invariant
            q <= pad,
            out@ == before.push(marker) + spaces(q as nat),
        decreases pad - q,
    {
        out.push(' ');
        q = q + 1;
        assert(out@ =~= before.push(marker) + spaces(q as nat));
    }
    let ghost padded = out@;
    let mut q2: usize = 0;
    while q2 < digits.len()
        invariant
            q2 <= digits@.len(),
            out@ == padded + digits@.take(q2 as int),
        decreases digits@.len() - q2,
    {
        out.push(digits[q2]);
        q2 = q2 + 1;
        assert(out@ =~= padded + digits@.take(q2 as int));
    }
    out.push(':');
    out.push(' ');
    let ghost mid = out@;
    let mut q3: usize = 0;
    while q3 < line.len()
        invariant
            q3 <= line@.len(),
            out@ == mid + line@.take(q3 as int),
        decreases line@.len() - q3,
    {
        out.push(line[q3]);
        q3 = q3 + 1;
        assert(out@ =~= mid + line@.take(q3 as int));
    }
    out.push('\n');
    assert(digits@.take(digits@.len() as int) =~= digits@);
    assert(line@.take(line@.len() as int) =~= line@);
    assert(right_align(decimal(num as nat), 4) =~= spaces(pad as nat) + digits@);
    assert(out@ =~= before + context_line(marker, num as nat, line@));
}

/// Appends the context lines `start..=end` of result `r` to `out`.
fn push_context(out: &mut Vec<char>, r: &SearchResult, fl: &Vec<Vec<char>>, start: usize, end: usize)
    requires
        end <= fl@.len(),
    ensures
        final(out)@ == old(out)@ + context_from(r@, char_vecs_view(fl@), start as int, end as int),
{
    let ghost fv = char_vecs_view(fl@);
    if start > end {
        assert(old(out)@ + context_from(r@, fv, start as int, end as int) =~= old(out)@);
        return;
    }
    let mut num = start;
    loop
        invariant_except_break
            start <= num <= end,
            end <= fl@.len(),
            fv == char_vecs_view(fl@),
            out@ + context_from(r@, fv, num as int, end as int) == old(out)@ + context_from(
                r@,
                fv,
                start as int,
                end as int,
            ),
        ensures
            out@ == old(out)@ + context_from(r@, fv, start as int, end as int),
        decreases end - num,
    {
        let ghost before = out@;
        let idx = if num > 0 {
            num - 1
        } else {
            0
        };
        let ghost piece = if idx < fv.len() {
            context_line(
                if r@.line_start <= num < r@.line_end {
                    '>'
                } else {
                    ' '
                },
                num as nat,
                fv[idx as int],
            )
        } else {
            seq![]
        };
        if idx < fl.len() {
            let marker = if num >= r.line_start && num < r.line_end {
                '>'
            } else {
                ' '
            };
            assert(fl@[idx as int]@ == fv[idx as int]);
            push_context_line(out, marker, num, &fl[idx]);
        } else {
            assert(out@ =~= before + piece);
        }
        assert(context_from(r@, fv, num as int, end as int) == piece + context_from(
            r@,
            fv,
            num + 1,
            end as int,
        ));
        assert(out@ + context_from(r@, fv, num + 1, end as int) =~= before + context_from(
            r@,
            fv,
            num as int,
            end as int,
        ));
        if num == end {
            assert(context_from(r@, fv, num + 1, end as int) =~= Seq::<char>::empty());
            assert(out@ =~= out@ + context_from(r@, fv, num + 1, end as int));
            break;
        }
        num = num + 1;
    }
}


/// Appends the characters of `s` to `out`.
fn push_chars(out: &mut Vec<char>, s: &str)
    ensures
        final(out)@ == old(out)@ + s@,
{
    let cs = chars_of(s);
    let ghost before = out@;
    let mut i: usize = 0;
    while i < cs.len()
        invariant
            i <= cs@.len(),
            cs@ == s@,
            out@ == before + cs@.take(i as int),
        decreases cs@.len() - i,
    {
        out.push(cs[i]);
        i = i + 1;
        assert(out@ =~= before + cs@.take(i as int));
    }
    assert(cs@.take(i as int) =~= cs@);
}

/// Appends the text of one result; see `result_text`.
#[verifier::spinoff_prover]
fn push_result(out: &mut Vec<char>, r: &SearchResult, label: &String, context_lines: usize, source: &Option<String>)
    requires
        context_lines > 0 && source is Some ==> r.line_end + context_lines <= usize::MAX,
    ensures
        final(out)@ == old(out)@ + result_text(
            r@,
            label@,
            context_lines as nat,
            match source {
                Some(s) => Some(s@),
                None => None,
            },
        ),
{
    let ghost before = out@;
    push_chars(out, r.file_path.as_str());
    out.push(':');
    push_decimal(out, r.line_start);
    out.push(' ');
    out.push('(');
    out.push('s');
    out.push('c');
    out.push('o');
    out.push('r');
    out.push('e');
    out.push(':');
    out.push(' ');
    push_chars(out, label.as_str());
    out.push(')');
    out.push('\n');
    let ghost head = out@;
    assert(head =~= before + r@.file_path + seq![':'] + decimal(r@.line_start as nat) + score_open()
        + label@ + seq![')', '\n']);
    let ghost ctx_part: Seq<char> = seq![];
    if context_lines > 0 {
        match source {
            Some(src) => {
                let chars = chars_of(src.as_str());
                let fl = split_lines(chars.as_slice());
                let ghost fv = char_vecs_view(fl@);
                assert(fv == lines_of(src@));
                assert(fv.len() == fl@.len());
                let ctx_start = if r.line_start > context_lines {
                    r.line_start - context_lines
                } else {
                    0
                };
                let last = r.line_end + context_lines - 1;
                let ctx_end = if last < fl.len() {
                    last
                } else {
                    fl.len()
                };
                push_context(out, r, &fl, ctx_start, ctx_end);
                out.push('\n');
                proof {
                    ctx_part = context_block(r@, fv, context_lines as nat);
                }
                assert(out@ =~= head + ctx_part);
            },
            None => {},
        }
    }
    let ghost mid = out@;
    assert(mid == head + ctx_part);
    push_chars(out, r.content.as_str());
    out.push('\n');
    assert(out@ =~= before + result_text(
        r@,
        label@,
        context_lines as nat,
        match source {
            Some(s) => Some(s@),
            None => None,
        },
    ));
}

/// The results as shown to the user, separated by `"\n---\n\n"`; see `result_text`.
/// `score_labels[i]` is the score of `results[i]` as text, and `sources[i]` the text of
/// its file when it could be read.
pub fn format_results(
    results: &[SearchResult],
    context_lines: usize,
    score_labels: &[String],
    sources: &[Option<String>],
) -> (out: String)
    requires
        score_labels@.len() == results@.len(),
        sources@.len() == results@.len(),
        forall|i: int|
            0 <= i < results@.len() && context_lines > 0 && #[trigger] sources@[i] is Some
                ==> results@[i].line_end + context_lines <= usize::MAX,
    ensures
        out@ == formatted(
            results_view(results@),
            labels_view(score_labels@),
            context_lines as nat,
            sources_view(sources@),
            results@.len() as int,
        ),
{
    let ghost rs = results_view(results@);
    let ghost ls = labels_view(score_labels@);
    let ghost ss = sources_view(sources@);
    let mut out: Vec<char> = Vec::new();
    let mut i: usize = 0;
    while i < results.len()
        invariant
            0 <= i <= results@.len(),
            score_labels@.len() == results@.len(),
            sources@.len() == results@.len(),
            rs == results_view(results@),
            ls == labels_view(score_labels@),
            ss == sources_view(sources@),
            forall|i: int|
                0 <= i < results@.len() && context_lines > 0 && #[trigger] sources@[i] is Some
                    ==> results@[i].line_end + context_lines <= usize::MAX,
            out@ == formatted(rs, ls, context_lines as nat, ss, i as int),
        decreases results@.len() - i,
    {
        let ghost before = out@;
        if i > 0 {
            out.push('\n');
            out.push('-');
            out.push('-');
            out.push('-');
            out.push('\n');
            out.push('\n');
        }
        let ghost sep = out@;
        assert(rs[i as int] == results@[i as int]@);
        assert(ls[i as int] == score_labels@[i as int]@);
        assert(ss[i as int] == match sources@[i as int] {
            Some(s) => Some(s@),
            None => None,
        });
        push_result(&mut out, &results[i], &score_labels[i], context_lines, &sources[i]);
        assert(out@ =~= before + (if i > 0 {
            separator()
        } else {
            seq![]
        }) + result_text(rs[i as int], ls[i as int], context_lines as nat, ss[i as int]));
        i = i + 1;
    }
    string_from_chars(out.as_slice())
}

} // verus!
