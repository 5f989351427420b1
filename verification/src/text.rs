//! Text primitives shared by the chunker and the result formatter:
//! UTF-8 byte lengths, Unicode whitespace, `str::lines` and indentation.

use vstd::prelude::*;
use vstd::utf8::*;
use vstd::std_specs::iter::IteratorSpec;
use vstd::string::StringSliceAdditionalSpecFns;

verus! {

/// Number of bytes in the UTF-8 encoding of `s` (what `str::len` returns).
pub open spec fn blen(s: Seq<char>) -> nat {
    encode_utf8(s).len()
}

/// Number of bytes in the UTF-8 encoding of one `char`.
pub open spec fn char_width(c: char) -> nat {
    let u = c as u32;
    if u <= 0x7f {
        1
    } else if u <= 0x7ff {
        2
    } else if u <= 0xffff {
        3
    } else {
        4
    }
}

pub proof fn lemma_blen_first(s: Seq<char>)
    requires
        s.len() > 0,
    ensures
        blen(s) == char_width(s[0]) + blen(s.drop_first()),
{
    char_is_scalar(s[0]);
}

pub proof fn lemma_blen_concat(a: Seq<char>, b: Seq<char>)
    ensures
        encode_utf8(a + b) == encode_utf8(a) + encode_utf8(b),
        blen(a + b) == blen(a) + blen(b),
    decreases a.len(),
{
    if a.len() == 0 {
        assert(a + b =~= b);
        assert(encode_utf8(a) =~= Seq::<u8>::empty());
        assert(encode_utf8(a) + encode_utf8(b) =~= encode_utf8(b));
    } else {
        assert((a + b).drop_first() =~= a.drop_first() + b);
        assert((a + b)[0] == a[0]);
        lemma_blen_concat(a.drop_first(), b);
        assert(encode_utf8(a + b) =~= encode_utf8(a) + encode_utf8(b));
    }
}

/// A text has at least as many bytes as characters.
pub proof fn lemma_blen_ge_len(s: Seq<char>)
    ensures
        blen(s) >= s.len(),
    decreases s.len(),
{
    if s.len() > 0 {
        lemma_blen_first(s);
        lemma_blen_ge_len(s.drop_first());
    }
}

pub proof fn lemma_blen_single(c: char)
    ensures
        blen(seq![c]) == char_width(c),
{
    lemma_blen_first(seq![c]);
    assert(seq![c].drop_first() =~= Seq::<char>::empty());
}

/// `blen` of a prefix grows by one character's width at a time.
pub proof fn lemma_blen_take_step(s: Seq<char>, i: int)
    requires
        0 <= i < s.len(),
    ensures
        blen(s.take(i + 1)) == blen(s.take(i)) + char_width(s[i]),
{
    assert(s.take(i + 1) =~= s.take(i) + seq![s[i]]);
    lemma_blen_concat(s.take(i), seq![s[i]]);
    lemma_blen_single(s[i]);
}

pub proof fn lemma_blen_split(s: Seq<char>, i: int)
    requires
        0 <= i <= s.len(),
    ensures
        blen(s) == blen(s.take(i)) + blen(s.skip(i)),
{
    assert(s =~= s.take(i) + s.skip(i));
    lemma_blen_concat(s.take(i), s.skip(i));
}

pub fn char_utf8_width(c: char) -> (w: usize)
    ensures
        w == char_width(c),
{
    let u = c as u32;
    if u <= 0x7f {
        1
    } else if u <= 0x7ff {
        2
    } else if u <= 0xffff {
        3
    } else {
        4
    }
}

/// Byte length of the UTF-8 encoding of `s`.
pub fn utf8_len(s: &[char]) -> (n: usize)
    requires
        blen(s@) <= usize::MAX,
    ensures
        n == blen(s@),
{
    let mut n: usize = 0;
    let mut i: usize = 0;
    while i < s.len()
        invariant
            0 <= i <= s@.len(),
            n == blen(s@.take(i as int)),
            blen(s@) <= usize::MAX,
        decreases s@.len() - i,
    {
        proof {
            lemma_blen_take_step(s@, i as int);
            lemma_blen_split(s@, i + 1);
        }
        n = n + char_utf8_width(s[i]);
        i = i + 1;
    }
    assert(s@.take(i as int) =~= s@);
    n
}


/// The characters of `s`, in order.
pub fn chars_of(s: &str) -> (v: Vec<char>)
    ensures
        v@ == s@,
{
    broadcast use vstd::string::group_string_axioms;

    let n = s.unicode_len();
    let mut it = s.chars();
    let mut v: Vec<char> = Vec::new();
    let mut i: usize = 0;
    while i < n
        invariant
            n == s@.len(),
            0 <= i <= n,
            v@ == s@.take(i as int),
            IteratorSpec::remaining(&it) == s@.skip(i as int),
        decreases n - i,
    {
        let c = it.next();
        match c {
            Some(c) => {
                v.push(c);
            },
            None => {
                assert(false);
            },
        }
        i = i + 1;
        assert(v@ =~= s@.take(i as int));
        assert(IteratorSpec::remaining(&it) =~= s@.skip(i as int));
    }
    assert(v@ =~= s@);
    v
}


/// The string made of the characters of `v`, in order.
#[verifier::external_body]
pub(crate) fn string_from_chars(v: &[char]) -> (s: String)
    ensures
        s@ == v@,
{
    v.iter().collect()
}

/// Byte length of a string, as `str::len` gives it.
pub fn str_len(s: &String) -> (n: usize)
    requires
        blen(s@) <= usize::MAX,
    ensures
        n == blen(s@),
{
    let r = s.as_str();
    assert(r.spec_bytes() == encode_utf8(r@));
    r.len()
}

// ---------------------------------------------------------------------------
// Unicode whitespace
// ---------------------------------------------------------------------------

/// Whether `c` has the Unicode `White_Space` property, which is what `char::is_whitespace`
/// answers: the controls U+0009 to U+000D, the space, U+0085, the no-break space U+00A0,
/// U+1680, the spaces U+2000 to U+200A, the line and paragraph separators U+2028 and
/// U+2029, U+202F, U+205F and the ideographic space U+3000.
pub open spec fn is_white_space(c: char) -> bool {
    let u = c as u32;
    ||| 0x9 <= u <= 0xd
    ||| u == 0x20
    ||| u == 0x85
    ||| u == 0xa0
    ||| u == 0x1680
    ||| 0x2000 <= u <= 0x200a
    ||| u == 0x2028
    ||| u == 0x2029
    ||| u == 0x202f
    ||| u == 0x205f
    ||| u == 0x3000
}

/// Whether `c` is whitespace, as `char::is_whitespace` tells.
pub fn char_is_whitespace(c: char) -> (r: bool)
    ensures
        r == is_white_space(c),
{
    let u = c as u32;
    (0x9 <= u && u <= 0xd) || u == 0x20 || u == 0x85 || u == 0xa0 || u == 0x1680 || (0x2000 <= u
        && u <= 0x200a) || u == 0x2028 || u == 0x2029 || u == 0x202f || u == 0x205f || u == 0x3000
}

/// Length of the run of whitespace characters of `s` that starts at `i`.
pub open spec fn ws_run(s: Seq<char>, i: int) -> nat
    decreases s.len() - i,
{
    if 0 <= i < s.len() && is_white_space(s[i]) {
        1 + ws_run(s, i + 1)
    } else {
        0
    }
}

/// Length of the run of whitespace characters of `s` that ends just before `j`.
pub open spec fn ws_run_back(s: Seq<char>, j: int) -> nat
    decreases j,
{
    if 0 < j <= s.len() && is_white_space(s[j - 1]) {
        1 + ws_run_back(s, j - 1)
    } else {
        0
    }
}

/// Number of leading whitespace characters.
pub open spec fn leading_ws(s: Seq<char>) -> nat {
    ws_run(s, 0)
}

/// `str::trim_start`.
pub open spec fn trim_start(s: Seq<char>) -> Seq<char> {
    s.skip(leading_ws(s) as int)
}

/// `str::trim_end`.
pub open spec fn trim_end(s: Seq<char>) -> Seq<char> {
    s.take(s.len() - ws_run_back(s, s.len() as int))
}

/// The string holds only whitespace (`s.trim().is_empty()`).
pub open spec fn is_blank(s: Seq<char>) -> bool {
    forall|i: int| 0 <= i < s.len() ==> is_white_space(#[trigger] s[i])
}

pub proof fn lemma_ws_run_bound(s: Seq<char>, i: int)
    requires
        0 <= i <= s.len(),
    ensures
        i + ws_run(s, i) <= s.len(),
        forall|k: int| i <= k < i + ws_run(s, i) ==> is_white_space(#[trigger] s[k]),
        i + ws_run(s, i) < s.len() ==> !is_white_space(s[i + ws_run(s, i)]),
    decreases s.len() - i,
{
    if i < s.len() && is_white_space(s[i]) {
        lemma_ws_run_bound(s, i + 1);
    }
}

/// `is_blank` holds exactly when the leading whitespace covers the whole string.
pub proof fn lemma_blank_iff_leading(s: Seq<char>)
    ensures
        is_blank(s) <==> leading_ws(s) == s.len(),
{
    lemma_ws_run_bound(s, 0);
}

/// Number of leading whitespace characters of `s`.
pub fn count_leading_ws(s: &[char]) -> (k: usize)
    ensures
        k == leading_ws(s@),
{
    let mut i: usize = 0;
    while i < s.len() && char_is_whitespace(s[i])
        invariant
            0 <= i <= s@.len(),
            leading_ws(s@) == i + ws_run(s@, i as int),
        decreases s@.len() - i,
    {
        i = i + 1;
    }
    i
}

/// Number of trailing whitespace characters of `s`.
pub fn count_trailing_ws(s: &[char]) -> (k: usize)
    ensures
        k == ws_run_back(s@, s@.len() as int),
        k <= s@.len(),
{
    let mut k: usize = 0;
    while k < s.len() && char_is_whitespace(s[s.len() - 1 - k])
        invariant
            0 <= k <= s@.len(),
            ws_run_back(s@, s@.len() as int) == k + ws_run_back(s@, s@.len() - k),
        decreases s@.len() - k,
    {
        k = k + 1;
    }
    k
}

/// Whether every character of `s` is whitespace.
pub fn chars_are_blank(s: &[char]) -> (b: bool)
    ensures
        b == is_blank(s@),
{
    let k = count_leading_ws(s);
    proof {
        lemma_blank_iff_leading(s@);
    }
    k == s.len()
}

/// A string of `n` spaces.
pub open spec fn spaces(n: nat) -> Seq<char> {
    Seq::new(n, |i: int| ' ')
}

pub fn make_spaces(n: usize) -> (s: Vec<char>)
    ensures
        s@ == spaces(n as nat),
{
    let mut s: Vec<char> = Vec::new();
    let mut i: usize = 0;
    while i < n
        invariant
            i <= n,
            s@ == spaces(i as nat),
        decreases n - i,
    {
        s.push(' ');
        i = i + 1;
        assert(s@ =~= spaces(i as nat));
    }
    s
}

// ---------------------------------------------------------------------------
// Lines, as `str::lines` splits them
// ---------------------------------------------------------------------------

/// The character sequences held by a vector of character vectors.
pub open spec fn char_vecs_view(v: Seq<Vec<char>>) -> Seq<Seq<char>> {
    v.map_values(|x: Vec<char>| x@)
}

/// The character sequences held by a sequence of strings.
pub open spec fn strings_view(v: Seq<String>) -> Seq<Seq<char>> {
    v.map_values(|x: String| x@)
}

/// Index of the first `'\n'` of `s` at or after `i`, or `s.len()` when there is none.
pub open spec fn next_newline(s: Seq<char>, i: int) -> int
    decreases s.len() - i,
{
    if i >= s.len() {
        s.len() as int
    } else if i >= 0 && s[i] == '\n' {
        i
    } else {
        next_newline(s, i + 1)
    }
}

/// A line taken before a `'\n'`: a `'\r'` right before the `'\n'` belongs to the terminator.
pub open spec fn strip_cr(l: Seq<char>) -> Seq<char> {
    if l.len() > 0 && l.last() == '\r' {
        l.drop_last()
    } else {
        l
    }
}

pub proof fn lemma_next_newline_bounds(s: Seq<char>, i: int)
    requires
        0 <= i,
    ensures
        i <= s.len() ==> i <= next_newline(s, i) <= s.len(),
        i > s.len() ==> next_newline(s, i) == s.len(),
        next_newline(s, i) < s.len() ==> s[next_newline(s, i)] == '\n',
        forall|k: int| i <= k < next_newline(s, i) ==> s[k] != '\n',
    decreases s.len() - i,
{
    if i < s.len() && s[i] != '\n' {
        lemma_next_newline_bounds(s, i + 1);
    }
}

pub proof fn lemma_next_newline_skip(s: Seq<char>, i: int, j: int)
    requires
        0 <= i <= j <= s.len(),
        forall|k: int| i <= k < j ==> s[k] != '\n',
    ensures
        next_newline(s, i) == next_newline(s, j),
    decreases j - i,
{
    if i < j {
        lemma_next_newline_skip(s, i + 1, j);
    }
}

/// The lines of `s` from index `start` on.
pub open spec fn lines_from(s: Seq<char>, start: int) -> Seq<Seq<char>>
    decreases s.len() - start,
{
    if start < 0 || start >= s.len() {
        seq![]
    } else {
        let k = next_newline(s, start);
        if k < start || k >= s.len() {
            seq![s.subrange(start, s.len() as int)]
        } else {
            seq![strip_cr(s.subrange(start, k))] + lines_from(s, k + 1)
        }
    }
}

/// `str::lines`: the text split at `"\n"` and `"\r\n"`, terminators removed; a final
/// terminator does not start an empty line.
pub open spec fn lines_of(s: Seq<char>) -> Seq<Seq<char>> {
    lines_from(s, 0)
}

/// The lines of `s`, as `str::lines` gives them.
pub fn split_lines(s: &[char]) -> (out: Vec<Vec<char>>)
    ensures
        char_vecs_view(out@) == lines_of(s@),
{
    let n = s.len();
    let mut out: Vec<Vec<char>> = Vec::new();
    let mut cur: Vec<char> = Vec::new();
    let mut start: usize = 0;
    let mut i: usize = 0;
    while i < n
        invariant
            n == s@.len(),
            0 <= start <= i <= n,
            cur@ == s@.subrange(start as int, i as int),
            forall|k: int| start <= k < i ==> s@[k] != '\n',
            char_vecs_view(out@) + lines_from(s@, start as int) == lines_of(s@),
        decreases n - i,
    {
        if s[i] == '\n' {
            proof {
                lemma_next_newline_skip(s@, start as int, i as int);
                lemma_next_newline_bounds(s@, i as int);
                assert(next_newline(s@, start as int) == i);
            }
            let ghost line = cur@;
            let cl = cur.len();
            if cl > 0 && cur[cl - 1] == '\r' {
                cur.pop();
            }
            assert(cur@ == strip_cr(line));
            let ghost before = char_vecs_view(out@);
            out.push(cur);
            assert(char_vecs_view(out@) =~= before.push(strip_cr(line)));
            assert(lines_from(s@, start as int) =~= seq![strip_cr(line)] + lines_from(
                s@,
                i + 1,
            ));
            assert(char_vecs_view(out@) + lines_from(s@, i + 1) =~= before + lines_from(
                s@,
                start as int,
            ));
            cur = Vec::new();
            start = i + 1;
        } else {
            cur.push(s[i]);
        }
        i = i + 1;
        assert(cur@ =~= s@.subrange(start as int, i as int));
    }
    if start < n {
        proof {
            lemma_next_newline_skip(s@, start as int, n as int);
            lemma_next_newline_bounds(s@, n as int);
        }
        let ghost before = char_vecs_view(out@);
        let ghost line = cur@;
        out.push(cur);
        assert(char_vecs_view(out@) =~= before.push(line));
        assert(lines_from(s@, start as int) =~= seq![line]);
    } else {
        assert(lines_from(s@, start as int) =~= Seq::<Seq<char>>::empty());
    }
    assert(char_vecs_view(out@) =~= lines_of(s@));
    out
}


/// Every line of `s` has at most as many bytes as `s`.
pub proof fn lemma_blen_subrange(s: Seq<char>, a: int, b: int)
    requires
        0 <= a <= b <= s.len(),
    ensures
        blen(s.subrange(a, b)) <= blen(s),
{
    lemma_blen_split(s, b);
    lemma_blen_split(s.take(b), a);
    assert(s.take(b).skip(a) =~= s.subrange(a, b));
}

pub proof fn lemma_blen_strip_cr(l: Seq<char>)
    ensures
        blen(strip_cr(l)) <= blen(l),
        strip_cr(l).len() <= l.len(),
{
    if l.len() > 0 && l.last() == '\r' {
        lemma_blen_split(l, l.len() - 1);
        assert(l.take(l.len() - 1) =~= l.drop_last());
    }
}

/// Bytes of a sequence of lines, each counted with one terminator byte.
pub open spec fn total_len(ls: Seq<Seq<char>>) -> int
    decreases ls.len(),
{
    if ls.len() == 0 {
        0
    } else {
        total_len(ls.drop_last()) + blen(ls.last()) + 1
    }
}

pub proof fn lemma_total_len_concat(a: Seq<Seq<char>>, b: Seq<Seq<char>>)
    ensures
        total_len(a + b) == total_len(a) + total_len(b),
    decreases b.len(),
{
    if b.len() == 0 {
        assert(a + b =~= a);
    } else {
        assert((a + b).drop_last() =~= a + b.drop_last());
        assert((a + b).last() == b.last());
        lemma_total_len_concat(a, b.drop_last());
    }
}

pub proof fn lemma_total_len_nonneg(a: Seq<Seq<char>>)
    ensures
        total_len(a) >= a.len(),
    decreases a.len(),
{
    if a.len() > 0 {
        lemma_total_len_nonneg(a.drop_last());
    }
}

/// The total of a contiguous part of a sequence of lines is at most the whole total.
pub proof fn lemma_total_len_subrange(a: Seq<Seq<char>>, i: int, j: int)
    requires
        0 <= i <= j <= a.len(),
    ensures
        total_len(a.subrange(i, j)) <= total_len(a),
        total_len(a.subrange(i, j)) >= 0,
{
    assert(a =~= a.take(i) + a.subrange(i, j) + a.skip(j));
    lemma_total_len_concat(a.take(i) + a.subrange(i, j), a.skip(j));
    lemma_total_len_concat(a.take(i), a.subrange(i, j));
    lemma_total_len_nonneg(a.take(i));
    lemma_total_len_nonneg(a.skip(j));
    lemma_total_len_nonneg(a.subrange(i, j));
}

pub proof fn lemma_total_len_single(l: Seq<char>)
    ensures
        total_len(seq![l]) == blen(l) + 1,
{
    assert(seq![l].drop_last() =~= Seq::<Seq<char>>::empty());
    assert(total_len(Seq::<Seq<char>>::empty()) == 0);
}

/// The lines of a text, with their terminators, take at most one byte more than the text.
pub proof fn lemma_lines_from_size(s: Seq<char>, start: int)
    requires
        0 <= start,
    ensures
        start <= s.len() ==> total_len(lines_from(s, start)) <= blen(s.subrange(start, s.len() as int)) + 1,
        start <= s.len() ==> lines_from(s, start).len() <= s.len() - start,
        start > s.len() ==> lines_from(s, start).len() == 0,
    decreases s.len() - start,
{
    if start >= s.len() {
        assert(total_len(lines_from(s, start)) == 0);
    } else {
        let k = next_newline(s, start);
        lemma_next_newline_bounds(s, start);
        if k >= s.len() {
            lemma_total_len_single(s.subrange(start, s.len() as int));
        } else {
            let seg = s.subrange(start, k);
            lemma_lines_from_size(s, k + 1);
            lemma_total_len_concat(seq![strip_cr(seg)], lines_from(s, k + 1));
            lemma_total_len_single(strip_cr(seg));
            lemma_blen_strip_cr(seg);
            let whole = s.subrange(start, s.len() as int);
            assert(whole =~= seg + seq!['\n'] + s.subrange(k + 1, s.len() as int));
            lemma_blen_concat(seg + seq!['\n'], s.subrange(k + 1, s.len() as int));
            lemma_blen_concat(seg, seq!['\n']);
            lemma_blen_single('\n');
        }
    }
}

/// Each line of a text is at most as long as the text, in bytes and in characters.
pub proof fn lemma_lines_from_elements(s: Seq<char>, start: int)
    requires
        0 <= start,
    ensures
        forall|j: int|
            0 <= j < lines_from(s, start).len() ==> blen(#[trigger] lines_from(s, start)[j]) <= blen(s),
    decreases s.len() - start,
{
    if start < s.len() {
        let k = next_newline(s, start);
        lemma_next_newline_bounds(s, start);
        if k >= s.len() {
            lemma_blen_subrange(s, start, s.len() as int);
        } else {
            lemma_lines_from_elements(s, k + 1);
            lemma_blen_subrange(s, start, k);
            lemma_blen_strip_cr(s.subrange(start, k));
            assert forall|j: int| 0 <= j < lines_from(s, start).len() implies blen(
                #[trigger] lines_from(s, start)[j],
            ) <= blen(s) by {
                if j > 0 {
                    assert(lines_from(s, start)[j] == lines_from(s, k + 1)[j - 1]);
                }
            }
        }
    }
}


// ---------------------------------------------------------------------------
// Indentation
// ---------------------------------------------------------------------------

/// Width in bytes of the leading whitespace of `l`.
pub open spec fn indent_width(l: Seq<char>) -> int {
    blen(l) - blen(trim_start(l))
}

/// The indentation of the first line that is not blank, written as that many spaces;
/// empty when every line is blank.
pub open spec fn first_indent(ls: Seq<Seq<char>>) -> Seq<char>
    decreases ls.len(),
{
    if ls.len() == 0 {
        seq![]
    } else if trim_start(ls[0]).len() > 0 {
        spaces(indent_width(ls[0]) as nat)
    } else {
        first_indent(ls.drop_first())
    }
}

/// The indentation is that of the first line with something besides whitespace, one space
/// per byte of its leading whitespace; with no such line it is empty.
pub proof fn law_first_indent(ls: Seq<Seq<char>>)
    ensures
        (forall|j: int| 0 <= j < ls.len() ==> (#[trigger] trim_start(ls[j])).len() == 0)
            ==> first_indent(ls) == Seq::<char>::empty(),
        forall|j: int|
            0 <= j < ls.len() && (#[trigger] trim_start(ls[j])).len() > 0 && (forall|k: int|
                0 <= k < j ==> (#[trigger] trim_start(ls[k])).len() == 0) ==> first_indent(ls)
                == spaces(indent_width(ls[j]) as nat),
    decreases ls.len(),
{
    if ls.len() > 0 {
        let rest = ls.drop_first();
        law_first_indent(rest);
        assert forall|j: int| 1 <= j < ls.len() implies #[trigger] trim_start(ls[j]) == trim_start(
            rest[j - 1],
        ) by {}
        if trim_start(ls[0]).len() == 0 {
            assert forall|j: int|
                0 <= j < ls.len() && (#[trigger] trim_start(ls[j])).len() > 0 && (forall|k: int|
                    0 <= k < j ==> (#[trigger] trim_start(ls[k])).len() == 0) implies first_indent(
                ls,
            ) == spaces(indent_width(ls[j]) as nat) by {
                assert(j >= 1);
                assert(rest[j - 1] == ls[j]);
                assert forall|k: int| 0 <= k < j - 1 implies (#[trigger] trim_start(rest[k])).len()
                    == 0 by {
                    assert(rest[k] == ls[k + 1]);
                    assert(trim_start(ls[k + 1]).len() == 0);
                }
            }
            if forall|j: int| 0 <= j < ls.len() ==> (#[trigger] trim_start(ls[j])).len() == 0 {
                assert forall|j: int| 0 <= j < rest.len() implies (#[trigger] trim_start(rest[j])).len()
                    == 0 by {
                    assert(rest[j] == ls[j + 1]);
                    assert(trim_start(ls[j + 1]).len() == 0);
                }
            }
        } else {
            assert forall|j: int|
                0 <= j < ls.len() && (#[trigger] trim_start(ls[j])).len() > 0 && (forall|k: int|
                    0 <= k < j ==> (#[trigger] trim_start(ls[k])).len() == 0) implies first_indent(
                ls,
            ) == spaces(indent_width(ls[j]) as nat) by {
                if j > 0 {
                    assert(trim_start(ls[0]).len() == 0);
                }
            }
        }
    }
}

/// `n` spaces take `n` bytes.
pub proof fn lemma_blen_spaces(n: nat)
    ensures
        blen(spaces(n)) == n,
    decreases n,
{
    if n > 0 {
        let m = (n - 1) as nat;
        lemma_blen_spaces(m);
        assert(spaces(n) =~= spaces(m) + seq![' ']);
        lemma_blen_concat(spaces(m), seq![' ']);
        lemma_blen_single(' ');
    }
}

proof fn lemma_ws_run_back_le(s: Seq<char>, j: int)
    requires
        0 <= j <= s.len(),
    ensures
        ws_run_back(s, j) <= j,
    decreases j,
{
    if 0 < j && is_white_space(s[j - 1]) {
        lemma_ws_run_back_le(s, j - 1);
    }
}

proof fn lemma_ws_run_back_props(s: Seq<char>, j: int)
    requires
        0 <= j <= s.len(),
    ensures
        ws_run_back(s, j) <= j,
        forall|k: int| j - ws_run_back(s, j) <= k < j ==> is_white_space(#[trigger] s[k]),
        j - ws_run_back(s, j) > 0 ==> !is_white_space(s[j - ws_run_back(s, j) - 1]),
    decreases j,
{
    if 0 < j && is_white_space(s[j - 1]) {
        lemma_ws_run_back_props(s, j - 1);
    }
}

/// Trimming removes exactly the whitespace at an end: `trim_start` is what follows the
/// leading whitespace, beginning with a character that is not whitespace (or empty), and
/// `trim_end` is what precedes the trailing whitespace, ending with a character that is not
/// whitespace (or empty).
pub proof fn law_trim_removes_end_whitespace(s: Seq<char>)
    ensures
        trim_start(s).is_suffix_of(s),
        forall|k: int| 0 <= k < s.len() - trim_start(s).len() ==> is_white_space(#[trigger] s[k]),
        trim_start(s).len() > 0 ==> !is_white_space(trim_start(s)[0]),
        trim_end(s).is_prefix_of(s),
        forall|k: int| trim_end(s).len() <= k < s.len() ==> is_white_space(#[trigger] s[k]),
        trim_end(s).len() > 0 ==> !is_white_space(trim_end(s).last()),
{
    lemma_ws_run_bound(s, 0);
    lemma_ws_run_back_props(s, s.len() as int);
    let a = leading_ws(s) as int;
    assert(trim_start(s) =~= s.subrange(a, s.len() as int));
    assert(s.subrange(s.len() - trim_start(s).len(), s.len() as int) =~= trim_start(s));
    assert(trim_end(s) =~= s.subrange(0, trim_end(s).len() as int));
}

/// Trimming never adds bytes.
pub proof fn lemma_trim_bounds(s: Seq<char>)
    ensures
        blen(trim_end(s)) <= blen(s),
        blen(trim_start(s)) <= blen(s),
        trim_end(s).len() <= s.len(),
{
    lemma_ws_run_back_le(s, s.len() as int);
    lemma_blen_split(s, s.len() - ws_run_back(s, s.len() as int));
    lemma_ws_run_bound(s, 0);
    lemma_blen_split(s, leading_ws(s) as int);
}

/// The indentation of some lines takes no more bytes than their longest line.
pub proof fn lemma_first_indent_bound(ls: Seq<Seq<char>>, t: int)
    requires
        forall|j: int| 0 <= j < ls.len() ==> blen(#[trigger] ls[j]) <= t,
        t >= 0,
    ensures
        blen(first_indent(ls)) <= t,
    decreases ls.len(),
{
    if ls.len() == 0 {
        assert(blen(first_indent(ls)) == 0);
    } else if trim_start(ls[0]).len() > 0 {
        lemma_trim_bounds(ls[0]);
        lemma_blen_spaces(indent_width(ls[0]) as nat);
    } else {
        assert forall|j: int| 0 <= j < ls.drop_first().len() implies blen(
            #[trigger] ls.drop_first()[j],
        ) <= t by {
            assert(ls.drop_first()[j] == ls[j + 1]);
        }
        lemma_first_indent_bound(ls.drop_first(), t);
    }
}

/// Byte length of the first `k` characters of `s`.
pub fn utf8_len_prefix(s: &[char], k: usize) -> (n: usize)
    requires
        k <= s@.len(),
        blen(s@.take(k as int)) <= usize::MAX,
    ensures
        n == blen(s@.take(k as int)),
{
    let mut n: usize = 0;
    let mut i: usize = 0;
    while i < k
        invariant
            0 <= i <= k <= s@.len(),
            n == blen(s@.take(i as int)),
            blen(s@.take(k as int)) <= usize::MAX,
        decreases k - i,
    {
        proof {
            lemma_blen_take_step(s@, i as int);
            lemma_blen_split(s@.take(k as int), i + 1);
            assert(s@.take(k as int).take(i + 1) =~= s@.take(i + 1));
        }
        n = n + char_utf8_width(s[i]);
        i = i + 1;
    }
    n
}

/// The indentation of a line that is not blank, in bytes; `None` for a blank line.
fn line_indent(l: &[char]) -> (r: Option<usize>)
    requires
        blen(l@) <= usize::MAX,
    ensures
        r is Some <==> trim_start(l@).len() > 0,
        r matches Some(w) ==> w == indent_width(l@),
{
    let k = count_leading_ws(l);
    proof {
        lemma_ws_run_bound(l@, 0);
        lemma_blen_split(l@, k as int);
    }
    if k < l.len() {
        let w = utf8_len_prefix(l, k);
        Some(w)
    } else {
        None
    }
}

/// The indentation, as spaces, of the first non-blank line among `lines`.
pub fn first_indent_of_lines(lines: &Vec<Vec<char>>) -> (r: Vec<char>)
    requires
        forall|j: int| 0 <= j < lines@.len() ==> blen(#[trigger] lines@[j]@) <= usize::MAX,
    ensures
        r@ == first_indent(char_vecs_view(lines@)),
{
    let ghost ls = char_vecs_view(lines@);
    let mut i: usize = 0;
    assert(ls.skip(0) =~= ls);
    while i < lines.len()
        invariant
            ls == char_vecs_view(lines@),
            0 <= i <= lines@.len(),
            forall|j: int| 0 <= j < lines@.len() ==> blen(#[trigger] lines@[j]@) <= usize::MAX,
            first_indent(ls) == first_indent(ls.skip(i as int)),
        decreases lines@.len() - i,
    {
        assert(ls.skip(i as int)[0] == lines@[i as int]@);
        assert(ls.skip(i as int).drop_first() =~= ls.skip(i + 1));
        match line_indent(lines[i].as_slice()) {
            Some(w) => {
                return make_spaces(w);
            },
            None => {},
        }
        i = i + 1;
    }
    assert(ls.skip(i as int) =~= Seq::<Seq<char>>::empty());
    Vec::new()
}

} // verus!
