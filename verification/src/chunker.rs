//! Cutting Rust source into chunks along its syntax tree.
//!
//! Top-level items become chunks. Items inside `mod`, `trait` and `impl`
//! blocks become chunks wrapped in their container's header and closing
//! brace. Items too large for one chunk are split at blank lines, each
//! part repeating the item's signature.

use vstd::prelude::*;
use vstd::string::StringExecFns;
use vstd::slice::slice_subrange;
use crate::text::{
    lemma_blen_concat, lemma_blen_ge_len, lemma_blen_single, lemma_lines_from_size,
    blen, str_len, chars_of, string_from_chars, strings_view, char_vecs_view, split_lines,
    lines_of, first_indent, first_indent_of_lines, is_blank, chars_are_blank, total_len,
    lemma_total_len_concat, lemma_total_len_subrange, lemma_total_len_nonneg,
    lemma_lines_from_elements, trim_end, count_trailing_ws, char_width,
    char_utf8_width, spaces, lemma_blen_take_step, lemma_blen_split, lemma_blen_spaces,
    lemma_trim_bounds, lemma_first_indent_bound, lines_from, next_newline, strip_cr,
    lemma_next_newline_bounds,
};
use crate::syntax::{
    SyntaxNode, NodeView, nodes_view, children, node_children, lemma_children_from_range,
    lossy_utf8, utf8_lossy, parse_rust, rust_syntax_nodes, nodes_in_code,
};

verus! {

/// Largest chunk, in bytes, before an item is split into parts.
pub const MAX_CHUNK_CHARS: usize = 5000;

/// Items shorter than this many bytes are not worth a chunk.
pub const MIN_CHUNK_CHARS: usize = 50;

/// A piece of source code ready to be embedded.
#[derive(Debug)]
pub struct Chunk {
    pub file_path: String,
    pub line_start: usize,
    pub line_end: usize,
    pub content: String,
}

/// What a chunk holds, as plain values.
pub struct ChunkView {
    pub file_path: Seq<char>,
    pub line_start: usize,
    pub line_end: usize,
    pub content: Seq<char>,
}

impl View for Chunk {
    type V = ChunkView;

    open spec fn view(&self) -> ChunkView {
        ChunkView {
            file_path: self.file_path@,
            line_start: self.line_start,
            line_end: self.line_end,
            content: self.content@,
        }
    }
}

/// The views of a sequence of chunks.
pub open spec fn chunks_view(v: Seq<Chunk>) -> Seq<ChunkView> {
    v.map_values(|c: Chunk| c@)
}

/// How one enclosing container (`mod`, `trait`, `impl`) is drawn around a chunk.
pub struct WrapInfo {
    pub header: String,
    pub body_indent: String,
    pub closing_indent: String,
}

pub struct WrapView {
    pub header: Seq<char>,
    pub body_indent: Seq<char>,
    pub closing_indent: Seq<char>,
}

impl View for WrapInfo {
    type V = WrapView;

    open spec fn view(&self) -> WrapView {
        WrapView {
            header: self.header@,
            body_indent: self.body_indent@,
            closing_indent: self.closing_indent@,
        }
    }
}

pub open spec fn wraps_view(ws: Seq<WrapInfo>) -> Seq<WrapView> {
    ws.map_values(|w: WrapInfo| w@)
}

/// A copy of a wrapper.
pub fn copy_wrap(w: &WrapInfo) -> (r: WrapInfo)
    ensures
        r@ == w@,
{
    WrapInfo {
        header: w.header.clone(),
        body_indent: w.body_indent.clone(),
        closing_indent: w.closing_indent.clone(),
    }
}

/// `"...\n"`, the line that stands for elided code.
pub open spec fn dots() -> Seq<char> {
    seq!['.', '.', '.', '\n']
}

/// `"}\n"`.
pub open spec fn close_brace() -> Seq<char> {
    seq!['}', '\n']
}

/// The elision line at a wrapper's body indentation.
pub open spec fn elision(w: WrapView) -> Seq<char> {
    w.body_indent + dots()
}

/// The opening text of the first `i` wrappers: each header, followed by an elision line
/// except for the innermost wrapper of the first chunk of its container.
pub open spec fn wrap_prefix(ws: Seq<WrapView>, is_first: bool, i: int) -> Seq<char>
    decreases i,
{
    if i <= 0 {
        seq![]
    } else {
        wrap_prefix(ws, is_first, i - 1) + ws[i - 1].header + if i - 1 < ws.len() - 1
            || !is_first {
            elision(ws[i - 1])
        } else {
            seq![]
        }
    }
}

/// The closing text of wrappers `j - 1` down to `0`: an elision line except for the
/// innermost wrapper of the last chunk of its container, then the closing brace.
pub open spec fn wrap_suffix(ws: Seq<WrapView>, is_last: bool, j: int) -> Seq<char>
    decreases j,
{
    if j <= 0 {
        seq![]
    } else {
        (if j - 1 < ws.len() - 1 || !is_last {
            elision(ws[j - 1])
        } else {
            seq![]
        }) + ws[j - 1].closing_indent + close_brace() + wrap_suffix(ws, is_last, j - 1)
    }
}

/// `s` with a `'\n'` appended unless it already ends with one.
pub open spec fn ensure_newline(s: Seq<char>) -> Seq<char> {
    if s.len() > 0 && s.last() == '\n' {
        s
    } else {
        s.push('\n')
    }
}

/// A chunk's text inside its enclosing containers.
pub open spec fn wrapped(content: Seq<char>, ws: Seq<WrapView>, is_first: bool, is_last: bool) -> Seq<
    char,
> {
    if ws.len() == 0 {
        content
    } else {
        ensure_newline(
            wrap_prefix(ws, is_first, ws.len() as int) + ws.last().body_indent + content,
        ) + wrap_suffix(ws, is_last, ws.len() as int)
    }
}

proof fn lemma_ensure_newline_append(a: Seq<char>, b: Seq<char>)
    requires
        b.len() > 0,
    ensures
        ensure_newline(a + b) == a + ensure_newline(b),
{
    assert((a + b).last() == b.last());
    assert((a + b).push('\n') =~= a + b.push('\n'));
}

proof fn lemma_wrap_prefix_outer(o: WrapView, ws: Seq<WrapView>, is_first: bool, i: int)
    requires
        ws.len() >= 1,
        0 <= i <= ws.len(),
    ensures
        wrap_prefix(seq![o] + ws, is_first, i + 1) == o.header + elision(o) + wrap_prefix(
            ws,
            is_first,
            i,
        ),
    decreases i,
{
    let w = seq![o] + ws;
    if i == 0 {
        assert(w[0] == o);
        assert(wrap_prefix(w, is_first, 0) == Seq::<char>::empty());
        assert(wrap_prefix(w, is_first, 1) =~= o.header + elision(o));
        assert(o.header + elision(o) + Seq::<char>::empty() =~= o.header + elision(o));
    } else {
        lemma_wrap_prefix_outer(o, ws, is_first, i - 1);
        assert(w[i] == ws[i - 1]);
        assert(wrap_prefix(w, is_first, i + 1) =~= o.header + elision(o) + wrap_prefix(
            ws,
            is_first,
            i,
        ));
    }
}

proof fn lemma_wrap_suffix_outer(o: WrapView, ws: Seq<WrapView>, is_last: bool, j: int)
    requires
        ws.len() >= 1,
        0 <= j <= ws.len(),
    ensures
        wrap_suffix(seq![o] + ws, is_last, j + 1) == wrap_suffix(ws, is_last, j) + elision(o)
            + o.closing_indent + close_brace(),
    decreases j,
{
    let w = seq![o] + ws;
    if j == 0 {
        assert(w[0] == o);
        assert(wrap_suffix(w, is_last, 0) == Seq::<char>::empty());
        assert(wrap_suffix(ws, is_last, 0) == Seq::<char>::empty());
        assert(wrap_suffix(w, is_last, 1) =~= Seq::<char>::empty() + elision(o) + o.closing_indent
            + close_brace());
    } else {
        lemma_wrap_suffix_outer(o, ws, is_last, j - 1);
        assert(w[j] == ws[j - 1]);
        assert(wrap_suffix(w, is_last, j + 1) =~= wrap_suffix(ws, is_last, j) + elision(o)
            + o.closing_indent + close_brace());
    }
}

/// Inside one container, a chunk is the container's header, an elision line unless the
/// chunk is the container's first, the indented text (ending in a newline), an elision line
/// unless it is the last, and the container's closing line: its indentation and `"}\n"`.
pub proof fn law_wrapped_in_one(c: Seq<char>, w: WrapView, is_first: bool, is_last: bool)
    requires
        c.len() > 0,
    ensures
        wrapped(c, seq![w], is_first, is_last) == w.header + (if is_first {
            seq![]
        } else {
            elision(w)
        }) + ensure_newline(w.body_indent + c) + (if is_last {
            seq![]
        } else {
            elision(w)
        }) + w.closing_indent + close_brace(),
{
    let ws = seq![w];
    let e1 = if is_first {
        Seq::<char>::empty()
    } else {
        elision(w)
    };
    assert(ws[0] == w);
    assert(wrap_prefix(ws, is_first, 0) == Seq::<char>::empty());
    assert(wrap_suffix(ws, is_last, 0) == Seq::<char>::empty());
    assert(wrap_prefix(ws, is_first, 1) =~= w.header + e1);
    assert(wrap_suffix(ws, is_last, 1) =~= (if is_last {
        Seq::<char>::empty()
    } else {
        elision(w)
    }) + w.closing_indent + close_brace());
    lemma_ensure_newline_append(w.header + e1, w.body_indent + c);
    assert(w.header + e1 + w.body_indent + c =~= (w.header + e1) + (w.body_indent + c));
}

/// Wrapping in one more, outer container puts its header and an elision line before the
/// chunk as wrapped in the inner containers, and an elision line and its own closing line
/// after it: every container that is opened is closed, innermost first.
pub proof fn law_wrapped_in_outer(
    c: Seq<char>,
    o: WrapView,
    ws: Seq<WrapView>,
    is_first: bool,
    is_last: bool,
)
    requires
        c.len() > 0,
        ws.len() >= 1,
    ensures
        wrapped(c, seq![o] + ws, is_first, is_last) == o.header + elision(o) + wrapped(
            c,
            ws,
            is_first,
            is_last,
        ) + elision(o) + o.closing_indent + close_brace(),
{
    let w = seq![o] + ws;
    let n = ws.len() as int;
    lemma_wrap_prefix_outer(o, ws, is_first, n);
    lemma_wrap_suffix_outer(o, ws, is_last, n);
    assert(w.last() == ws.last());
    let inner = wrap_prefix(ws, is_first, n) + ws.last().body_indent + c;
    assert(wrap_prefix(w, is_first, n + 1) + w.last().body_indent + c =~= (o.header + elision(o))
        + inner);
    lemma_ensure_newline_append(o.header + elision(o), inner);
    assert(wrapped(c, w, is_first, is_last) =~= o.header + elision(o) + wrapped(
        c,
        ws,
        is_first,
        is_last,
    ) + elision(o) + o.closing_indent + close_brace());
}

fn last_char_is_newline(s: &String) -> (b: bool)
    ensures
        b == (s@.len() > 0 && s@.last() == '\n'),
{
    let n = s.as_str().unicode_len();
    if n == 0 {
        false
    } else {
        s.as_str().get_char(n - 1) == '\n'
    }
}

/// Draws the enclosing containers around `content`. The innermost container shows an
/// elision line before the content unless `is_first`, and after it unless `is_last`.
pub fn build_wrapped_chunk(content: &str, wrappers: &[WrapInfo], is_first: bool, is_last: bool) -> (res:
    String)
    ensures
        res@ == wrapped(content@, wraps_view(wrappers@), is_first, is_last),
{
    let ghost ws = wraps_view(wrappers@);
    if wrappers.len() == 0 {
        return content.to_string();
    }
    proof {
        reveal_strlit("...\n");
        reveal_strlit("}\n");
        reveal_strlit("\n");
    }
    let n = wrappers.len();
    let mut result = String::new();
    let mut i: usize = 0;
    while i < n
        invariant
            n == wrappers@.len(),
            ws == wraps_view(wrappers@),
            0 <= i <= n,
            result@ == wrap_prefix(ws, is_first, i as int),
            "...\n"@ == dots(),
        decreases n - i,
    {
        let w = &wrappers[i];
        result.append(w.header.as_str());
        if i < n - 1 || !is_first {
            result.append(w.body_indent.as_str());
            result.append("...\n");
        }
        i = i + 1;
        assert(result@ =~= wrap_prefix(ws, is_first, i as int));
    }
    result.append(wrappers[n - 1].body_indent.as_str());
    result.append(content);
    if !last_char_is_newline(&result) {
        result.append("\n");
    }
    assert(result@ =~= ensure_newline(
        wrap_prefix(ws, is_first, n as int) + ws.last().body_indent + content@,
    ));
    let ghost mid = result@;
    let mut j: usize = n;
    while j > 0
        invariant
            n == wrappers@.len(),
            ws == wraps_view(wrappers@),
            0 <= j <= n,
            result@ + wrap_suffix(ws, is_last, j as int) == mid + wrap_suffix(ws, is_last, n as int),
            "...\n"@ == dots(),
            "}\n"@ == close_brace(),
        decreases j,
    {
        let ghost before = result@;
        let w = &wrappers[j - 1];
        if j - 1 < n - 1 || !is_last {
            result.append(w.body_indent.as_str());
            result.append("...\n");
        }
        result.append(w.closing_indent.as_str());
        result.append("}\n");
        assert(result@ + wrap_suffix(ws, is_last, j - 1) =~= before + wrap_suffix(ws, is_last, j as int));
        j = j - 1;
    }
    assert(wrap_suffix(ws, is_last, 0) =~= Seq::<char>::empty());
    assert(result@ =~= mid + wrap_suffix(ws, is_last, n as int));
    result
}


// ---------------------------------------------------------------------------
// Indentation of a text and of a list of lines
// ---------------------------------------------------------------------------

/// The characters of each string.
pub fn char_lines_of_strings(lines: &[String]) -> (r: Vec<Vec<char>>)
    ensures
        char_vecs_view(r@) == strings_view(lines@),
{
    let mut r: Vec<Vec<char>> = Vec::new();
    let mut i: usize = 0;
    while i < lines.len()
        invariant
            0 <= i <= lines@.len(),
            r@.len() == i,
            char_vecs_view(r@) == strings_view(lines@).take(i as int),
        decreases lines@.len() - i,
    {
        let cs = chars_of(lines[i].as_str());
        assert(cs@ == strings_view(lines@)[i as int]);
        let ghost before = r@;
        r.push(cs);
        assert(r@ == before.push(cs));
        assert forall|k: int| 0 <= k < i + 1 implies #[trigger] char_vecs_view(r@)[k] == strings_view(
            lines@,
        )[k] by {
            assert(char_vecs_view(r@)[k] == r@[k]@);
            assert(strings_view(lines@)[k] == lines@[k]@);
            if k < i {
                assert(r@[k] == before[k]);
                assert(char_vecs_view(before)[k] == before[k]@);
                assert(char_vecs_view(before)[k] == strings_view(lines@).take(i as int)[k]);
            }
        }
        i = i + 1;
        assert(char_vecs_view(r@) =~= strings_view(lines@).take(i as int));
    }
    assert(strings_view(lines@).take(i as int) =~= strings_view(lines@));
    r
}

/// The indentation of the first non-blank line of `text`, as spaces: the same as
/// `detect_indent_from_lines` on the lines of `text`.
pub fn detect_indent(text: &str) -> (r: String)
    requires
        blen(text@) <= usize::MAX,
    ensures
        r@ == first_indent(lines_of(text@)),
{
    let chars = chars_of(text);
    let lines = split_lines(chars.as_slice());
    proof {
        lemma_lines_from_elements(text@, 0);
        assert forall|j: int| 0 <= j < lines@.len() implies blen(#[trigger] lines@[j]@) <= usize::MAX by {
            assert(lines@[j]@ == char_vecs_view(lines@)[j]);
        }
    }
    let ind = first_indent_of_lines(&lines);
    string_from_chars(ind.as_slice())
}

/// The indentation of the first non-blank line among `lines`, as spaces.
pub fn detect_indent_from_lines(lines: &[String]) -> (r: String)
    requires
        forall|j: int| 0 <= j < lines@.len() ==> blen(#[trigger] lines@[j]@) <= usize::MAX,
    ensures
        r@ == first_indent(strings_view(lines@)),
{
    let cl = char_lines_of_strings(lines);
    assert(char_vecs_view(cl@).len() == strings_view(lines@).len());
    assert forall|j: int| 0 <= j < cl@.len() implies blen(#[trigger] cl@[j]@) <= usize::MAX by {
        assert(cl@[j]@ == char_vecs_view(cl@)[j]);
        assert(strings_view(lines@)[j] == lines@[j]@);
    }
    let ind = first_indent_of_lines(&cl);
    string_from_chars(ind.as_slice())
}

// ---------------------------------------------------------------------------
// Splitting a long body into parts at blank lines
// ---------------------------------------------------------------------------

/// Scanning `cur` from the back, the index just past the first blank line found whose
/// preceding lines fit in `max`.
pub open spec fn blank_cut(cur: Seq<Seq<char>>, max: int, k: int) -> Option<int>
    decreases k,
{
    if k <= 0 || k > cur.len() {
        None
    } else if is_blank(cur[k - 1]) && total_len(cur.take(k - 1)) <= max {
        Some(k)
    } else {
        blank_cut(cur, max, k - 1)
    }
}

/// Position of the first blank line of `ls` at or after `i`.
pub open spec fn first_blank_from(ls: Seq<Seq<char>>, i: int) -> Option<int>
    decreases ls.len() - i,
{
    if i < 0 || i >= ls.len() {
        None
    } else if is_blank(ls[i]) {
        Some(i)
    } else {
        first_blank_from(ls, i + 1)
    }
}

/// Where to cut the lines gathered so far (`cur`) when the next line does not fit:
/// after the last blank line whose preceding lines fit in `max`; failing that, `cur`
/// extended up to and including the next blank line of `rem` if all of that fits;
/// failing that, all of `cur`.
pub open spec fn blank_boundary(cur: Seq<Seq<char>>, rem: Seq<Seq<char>>, max: int) -> int {
    let best = match blank_cut(cur, max, cur.len() as int) {
        Some(k) => k,
        None => cur.len() as int,
    };
    if best == cur.len() && rem.len() > 0 {
        match first_blank_from(rem, 0) {
            Some(nb) => if total_len(cur + rem.take(nb + 1)) <= max {
                cur.len() + nb + 1
            } else {
                best
            },
            None => best,
        }
    } else {
        best
    }
}

proof fn lemma_first_blank_range(ls: Seq<Seq<char>>, i: int)
    requires
        0 <= i,
    ensures
        first_blank_from(ls, i) matches Some(b) ==> i <= b < ls.len(),
    decreases ls.len() - i,
{
    if i < ls.len() {
        lemma_first_blank_range(ls, i + 1);
    }
}

/// Line `j` of `cur` is blank and the lines before it fit in `max` bytes: a place where
/// the gathered lines may be cut.
pub open spec fn fitting_blank(cur: Seq<Seq<char>>, max: int, j: int) -> bool {
    is_blank(cur[j]) && total_len(cur.take(j)) <= max
}

proof fn lemma_blank_cut_last(cur: Seq<Seq<char>>, max: int, k: int)
    requires
        0 <= k <= cur.len(),
    ensures
        blank_cut(cur, max, k) matches Some(c) ==> 1 <= c <= k && fitting_blank(cur, max, c - 1)
            && forall|j: int| c <= j < k ==> !#[trigger] fitting_blank(cur, max, j),
        blank_cut(cur, max, k) is None ==> forall|j: int|
            0 <= j < k ==> !#[trigger] fitting_blank(cur, max, j),
    decreases k,
{
    if k > 0 {
        lemma_blank_cut_last(cur, max, k - 1);
    }
}

proof fn lemma_first_blank_first(ls: Seq<Seq<char>>, i: int)
    requires
        0 <= i,
    ensures
        first_blank_from(ls, i) matches Some(b) ==> i <= b < ls.len() && is_blank(ls[b])
            && forall|j: int| i <= j < b ==> !is_blank(#[trigger] ls[j]),
        first_blank_from(ls, i) is None ==> forall|j: int| i <= j < ls.len() ==> !is_blank(#[trigger] ls[j]),
    decreases ls.len() - i,
{
    if i < ls.len() {
        lemma_first_blank_first(ls, i + 1);
    }
}

/// Where gathered lines are cut: just after the last blank line whose preceding lines fit.
/// Failing any such line (or when the last one ends the gathered lines), the cut may move on
/// into the remaining lines, up to and including their first blank line, when all of that
/// fits; otherwise all gathered lines are kept.
pub proof fn law_blank_boundary_is_last_fitting_blank(
    cur: Seq<Seq<char>>,
    rem: Seq<Seq<char>>,
    max: int,
)
    ensures
        0 < blank_boundary(cur, rem, max) < cur.len() ==> fitting_blank(
            cur,
            max,
            blank_boundary(cur, rem, max) - 1,
        ) && forall|j: int|
            blank_boundary(cur, rem, max) <= j < cur.len() ==> !#[trigger] fitting_blank(cur, max, j),
        forall|j: int|
            0 <= j < cur.len() - 1 && #[trigger] fitting_blank(cur, max, j) && (forall|i: int|
                j < i < cur.len() ==> !#[trigger] fitting_blank(cur, max, i)) ==> blank_boundary(
                cur,
                rem,
                max,
            ) == j + 1,
        (forall|j: int| 0 <= j < cur.len() - 1 ==> !#[trigger] fitting_blank(cur, max, j))
            ==> blank_boundary(cur, rem, max) >= cur.len(),
        blank_boundary(cur, rem, max) > cur.len() ==> ({
            let nb = blank_boundary(cur, rem, max) - cur.len() - 1;
            &&& 0 <= nb < rem.len()
            &&& is_blank(rem[nb])
            &&& forall|i: int| 0 <= i < nb ==> !is_blank(#[trigger] rem[i])
            &&& total_len(cur + rem.take(nb + 1)) <= max
        }),
        0 <= blank_boundary(cur, rem, max),
{
    lemma_blank_cut_last(cur, max, cur.len() as int);
    lemma_first_blank_first(rem, 0);
    let r = blank_boundary(cur, rem, max);
    assert forall|j: int|
        0 <= j < cur.len() - 1 && #[trigger] fitting_blank(cur, max, j) && (forall|i: int|
            j < i < cur.len() ==> !#[trigger] fitting_blank(cur, max, i)) implies r == j + 1 by {
        match blank_cut(cur, max, cur.len() as int) {
            Some(c) => {
                if c - 1 < j {
                    assert(fitting_blank(cur, max, j));
                }
                if c - 1 > j {
                    assert(fitting_blank(cur, max, c - 1));
                }
            },
            None => {
                assert(fitting_blank(cur, max, j));
            },
        }
    }
}

/// Whether a string holds only whitespace.
fn string_is_blank(s: &String) -> (b: bool)
    ensures
        b == is_blank(s@),
{
    let cs = chars_of(s.as_str());
    chars_are_blank(cs.as_slice())
}

/// Bytes of `lines[a..b]`, each line counted with its terminator.
fn total_len_of(lines: &[String], a: usize, b: usize) -> (n: usize)
    requires
        a <= b <= lines@.len(),
        total_len(strings_view(lines@).subrange(a as int, b as int)) <= usize::MAX,
    ensures
        n == total_len(strings_view(lines@).subrange(a as int, b as int)),
{
    let ghost v = strings_view(lines@);
    let mut n: usize = 0;
    let mut i: usize = a;
    assert(v.subrange(a as int, a as int) =~= Seq::<Seq<char>>::empty());
    while i < b
        invariant
            v == strings_view(lines@),
            a <= i <= b <= lines@.len(),
            n == total_len(v.subrange(a as int, i as int)),
            total_len(v.subrange(a as int, b as int)) <= usize::MAX,
        decreases b - i,
    {
        proof {
            assert(v.subrange(a as int, i + 1).drop_last() =~= v.subrange(a as int, i as int));
            assert(v.subrange(a as int, i + 1).last() == lines@[i as int]@);
            lemma_total_len_subrange(v.subrange(a as int, b as int), 0, i + 1 - a);
            assert(v.subrange(a as int, b as int).subrange(0, i + 1 - a) =~= v.subrange(
                a as int,
                i + 1,
            ));
            lemma_total_len_nonneg(v.subrange(a as int, i as int));
        }
        n = n + str_len(&lines[i]) + 1;
        i = i + 1;
    }
    n
}

/// Scanning `current` from the back: the index just past the first blank line whose
/// preceding lines fit in `max_chars`.
fn scan_blank_cut(current: &[String], max_chars: usize) -> (r: Option<usize>)
    requires
        total_len(strings_view(current@)) <= usize::MAX,
    ensures
        r matches Some(k) ==> blank_cut(strings_view(current@), max_chars as int, current@.len() as int)
            == Some(k as int),
        r is None ==> blank_cut(strings_view(current@), max_chars as int, current@.len() as int)
            is None,
{
    let ghost cur = strings_view(current@);
    let n = current.len();
    let mut idx = n;
    while idx > 0
        invariant
            n == current@.len(),
            cur == strings_view(current@),
            0 <= idx <= n,
            total_len(cur) <= usize::MAX,
            blank_cut(cur, max_chars as int, n as int) == blank_cut(cur, max_chars as int, idx as int),
        decreases idx,
    {
        let k = idx - 1;
        assert(current@[k as int]@ == cur[k as int]);
        if string_is_blank(&current[k]) {
            proof {
                lemma_total_len_subrange(cur, 0, k as int);
                assert(cur.subrange(0, k as int) =~= cur.take(k as int));
            }
            let candidate_len = total_len_of(current, 0, k);
            if candidate_len <= max_chars {
                return Some(k + 1);
            }
        }
        idx = idx - 1;
    }
    None
}

/// Position of the first blank line of `lines`.
fn scan_first_blank(lines: &[String]) -> (r: Option<usize>)
    ensures
        r matches Some(b) ==> first_blank_from(strings_view(lines@), 0) == Some(b as int),
        r is None ==> first_blank_from(strings_view(lines@), 0) is None,
{
    let ghost ls = strings_view(lines@);
    let mut j: usize = 0;
    while j < lines.len()
        invariant
            ls == strings_view(lines@),
            0 <= j <= lines@.len(),
            first_blank_from(ls, 0) == first_blank_from(ls, j as int),
        decreases lines@.len() - j,
    {
        assert(lines@[j as int]@ == ls[j as int]);
        if string_is_blank(&lines[j]) {
            return Some(j);
        }
        j = j + 1;
    }
    None
}

/// Where to cut the lines gathered so far (`current`) when the next line does not fit in
/// `max_chars` bytes; see `blank_boundary`.
pub fn find_blank_line_boundary(current: &[String], remaining: &[String], max_chars: usize) -> (r:
    usize)
    requires
        total_len(strings_view(current@) + strings_view(remaining@)) <= usize::MAX,
    ensures
        r == blank_boundary(strings_view(current@), strings_view(remaining@), max_chars as int),
{
    let ghost cur = strings_view(current@);
    let ghost rem = strings_view(remaining@);
    proof {
        lemma_total_len_concat(cur, rem);
        lemma_total_len_nonneg(cur);
        lemma_total_len_nonneg(rem);
    }
    let n = current.len();
    let best = match scan_blank_cut(current, max_chars) {
        Some(k) => k,
        None => n,
    };
    if best == n && remaining.len() > 0 {
        match scan_first_blank(remaining) {
            Some(nb) => {
                proof {
                    lemma_first_blank_range(rem, 0);
                }
                let extend_to = nb + 1;
                proof {
                    assert(cur + rem.take(extend_to as int) =~= (cur + rem).subrange(
                        0,
                        n + extend_to,
                    ));
                    lemma_total_len_subrange(cur + rem, 0, n + extend_to);
                    lemma_total_len_concat(cur, rem.take(extend_to as int));
                    lemma_total_len_nonneg(rem.take(extend_to as int));
                    assert(rem.take(extend_to as int) =~= rem.subrange(0, extend_to as int));
                    assert(cur.subrange(0, n as int) =~= cur);
                }
                let combined_len = total_len_of(current, 0, n) + total_len_of(remaining, 0, extend_to);
                if combined_len <= max_chars {
                    n + extend_to
                } else {
                    best
                }
            },
            None => best,
        }
    } else {
        best
    }
}


/// Parts of `ls` from line `i` on, the lines `ls[start..i]` being gathered already:
/// lines are gathered while they fit in `max` bytes; when the next one does not, the
/// gathered lines are cut at `blank_boundary` (or taken whole) and gathering goes on.
pub open spec fn split_from(ls: Seq<Seq<char>>, max: int, i: int, start: int) -> Seq<
    Seq<Seq<char>>,
>
    decreases ls.len() - i, i - start,
{
    if start < 0 || start > i || i > ls.len() {
        seq![]
    } else if i == ls.len() {
        if start < i {
            seq![ls.subrange(start, i)]
        } else {
            seq![]
        }
    } else {
        let cur = ls.subrange(start, i);
        if total_len(cur) + blen(ls[i]) + 1 > max && start < i {
            let sa = blank_boundary(cur, ls.skip(i), max);
            if 0 < sa < cur.len() {
                seq![cur.take(sa)] + split_from(ls, max, i, start + sa)
            } else {
                seq![cur] + split_from(ls, max, i, i)
            }
        } else {
            split_from(ls, max, i + 1, start)
        }
    }
}

/// `ls` split into consecutive parts of at most `max` bytes each, cut at blank lines
/// where possible. With `max == 0` all lines form one part.
pub open spec fn split_parts(ls: Seq<Seq<char>>, max: int) -> Seq<Seq<Seq<char>>> {
    if ls.len() == 0 {
        seq![]
    } else if max == 0 {
        seq![ls]
    } else {
        split_from(ls, max, 0, 0)
    }
}

/// The line sequences held by a vector of parts.
pub open spec fn parts_view(ps: Seq<Vec<String>>) -> Seq<Seq<Seq<char>>> {
    ps.map_values(|p: Vec<String>| strings_view(p@))
}

/// Copies of `lines[a..b]`.
fn clone_range(lines: &[String], a: usize, b: usize) -> (r: Vec<String>)
    requires
        a <= b <= lines@.len(),
    ensures
        strings_view(r@) == strings_view(lines@).subrange(a as int, b as int),
{
    let mut r: Vec<String> = Vec::new();
    let mut i: usize = a;
    while i < b
        invariant
            a <= i <= b <= lines@.len(),
            r@.len() == i - a,
            forall|k: int| 0 <= k < r@.len() ==> #[trigger] r@[k]@ == lines@[a + k]@,
        decreases b - i,
    {
        r.push(lines[i].clone());
        i = i + 1;
    }
    assert(strings_view(r@) =~= strings_view(lines@).subrange(a as int, b as int));
    r
}

/// Splits `lines` into consecutive parts of at most `max_chars` bytes each (a line counted
/// with its terminator), preferring to cut at blank lines; see `split_parts`.
pub fn split_lines_into_parts(lines: &[String], max_chars: usize) -> (parts: Vec<Vec<String>>)
    requires
        total_len(strings_view(lines@)) <= usize::MAX,
    ensures
        parts_view(parts@) == split_parts(strings_view(lines@), max_chars as int),
{
    let ghost ls = strings_view(lines@);
    let n = lines.len();
    let mut parts: Vec<Vec<String>> = Vec::new();
    if max_chars == 0 || n == 0 {
        if n == 0 {
            assert(parts_view(parts@) =~= Seq::<Seq<Seq<char>>>::empty());
            return parts;
        } else {
            let all = clone_range(lines, 0, n);
            parts.push(all);
            assert(ls.subrange(0, n as int) =~= ls);
            assert(parts_view(parts@) =~= seq![ls]);
            return parts;
        }
    }
    let mut start: usize = 0;
    let mut current_len: usize = 0;
    let mut i: usize = 0;
    assert(parts_view(parts@) =~= Seq::<Seq<Seq<char>>>::empty());
    assert(ls.subrange(0, 0) =~= Seq::<Seq<char>>::empty());
    while i < n
        invariant
            n == lines@.len(),
            ls == strings_view(lines@),
            max_chars > 0,
            0 <= start <= i <= n,
            total_len(ls) <= usize::MAX,
            current_len == total_len(ls.subrange(start as int, i as int)),
            parts_view(parts@) + split_from(ls, max_chars as int, i as int, start as int)
                == split_parts(ls, max_chars as int),
        decreases n - i, i - start,
    {
        proof {
            assert(ls.subrange(start as int, i + 1).drop_last() =~= ls.subrange(
                start as int,
                i as int,
            ));
            lemma_total_len_subrange(ls, start as int, i + 1);
        }
        let line_len = str_len(&lines[i]) + 1;
        if current_len + line_len > max_chars && start < i {
            let ghost cur = ls.subrange(start as int, i as int);
            let current = slice_subrange(lines, start, i);
            let remaining = slice_subrange(lines, i, n);
            proof {
                assert(strings_view(current@) =~= cur);
                assert(strings_view(remaining@) =~= ls.skip(i as int));
                assert(cur + ls.skip(i as int) =~= ls.subrange(start as int, n as int));
                lemma_total_len_subrange(ls, start as int, n as int);
            }
            let split_at = find_blank_line_boundary(current, remaining, max_chars);
            let ghost before = parts_view(parts@);
            if split_at > 0 && split_at < i - start {
                let p = clone_range(lines, start, start + split_at);
                assert(ls.subrange(start as int, start + split_at) =~= cur.take(split_at as int));
                assert(strings_view(p@) == cur.take(split_at as int));
                let ghost old_parts = parts@;
                parts.push(p);
                proof {
                    assert(parts@ == old_parts.push(p));
                    assert(parts_view(parts@) =~= before.push(cur.take(split_at as int)));
                    assert(split_from(ls, max_chars as int, i as int, start as int) == seq![
                        cur.take(split_at as int),
                    ] + split_from(ls, max_chars as int, i as int, start + split_at));
                    assert(parts_view(parts@) + split_from(
                        ls,
                        max_chars as int,
                        i as int,
                        start + split_at,
                    ) =~= before + split_from(ls, max_chars as int, i as int, start as int));
                    lemma_total_len_subrange(ls, start + split_at, i as int);
                }
                start = start + split_at;
                current_len = total_len_of(lines, start, i);
            } else {
                let p = clone_range(lines, start, i);
                parts.push(p);
                proof {
                    assert(parts_view(parts@) =~= before.push(cur));
                    assert(split_from(ls, max_chars as int, i as int, start as int) == seq![cur]
                        + split_from(ls, max_chars as int, i as int, i as int));
                    assert(parts_view(parts@) + split_from(
                        ls,
                        max_chars as int,
                        i as int,
                        i as int,
                    ) =~= before + split_from(ls, max_chars as int, i as int, start as int));
                    assert(ls.subrange(i as int, i as int) =~= Seq::<Seq<char>>::empty());
                }
                start = i;
                current_len = 0;
            }
            continue;
        }
        current_len = current_len + line_len;
        i = i + 1;
    }
    if start < n {
        let ghost before = parts_view(parts@);
        let p = clone_range(lines, start, n);
        parts.push(p);
        assert(parts_view(parts@) =~= before.push(ls.subrange(start as int, n as int)));
    }
    assert(parts_view(parts@) =~= split_parts(ls, max_chars as int));
    parts
}


proof fn lemma_flatten_cons(x: Seq<Seq<char>>, r: Seq<Seq<Seq<char>>>)
    ensures
        (seq![x] + r).flatten() == x + r.flatten(),
{
    assert((seq![x] + r).drop_first() =~= r);
    assert((seq![x] + r).first() == x);
}

proof fn lemma_split_from_flatten(ls: Seq<Seq<char>>, max: int, i: int, start: int)
    requires
        0 <= start <= i <= ls.len(),
    ensures
        split_from(ls, max, i, start).flatten() == ls.subrange(start, ls.len() as int),
    decreases ls.len() - i, i - start,
{
    if i == ls.len() {
        if start < i {
            lemma_flatten_cons(ls.subrange(start, i), seq![]);
            assert(ls.subrange(start, i) + Seq::<Seq<Seq<char>>>::empty().flatten() =~= ls.subrange(
                start,
                i,
            ));
        } else {
            assert(ls.subrange(start, ls.len() as int) =~= Seq::<Seq<char>>::empty());
        }
    } else {
        let cur = ls.subrange(start, i);
        if total_len(cur) + blen(ls[i]) + 1 > max && start < i {
            let sa = blank_boundary(cur, ls.skip(i), max);
            if 0 < sa < cur.len() {
                lemma_split_from_flatten(ls, max, i, start + sa);
                lemma_flatten_cons(cur.take(sa), split_from(ls, max, i, start + sa));
                assert(cur.take(sa) + ls.subrange(start + sa, ls.len() as int) =~= ls.subrange(
                    start,
                    ls.len() as int,
                ));
            } else {
                lemma_split_from_flatten(ls, max, i, i);
                lemma_flatten_cons(cur, split_from(ls, max, i, i));
                assert(cur + ls.subrange(i, ls.len() as int) =~= ls.subrange(
                    start,
                    ls.len() as int,
                ));
            }
        } else {
            lemma_split_from_flatten(ls, max, i + 1, start);
        }
    }
}

/// Splitting keeps every line, in order: the parts joined back together are the input.
/// No part is empty, and there are parts exactly when there are lines.
pub proof fn law_split_parts_concat(ls: Seq<Seq<char>>, max: int)
    requires
        max >= 0,
    ensures
        split_parts(ls, max).flatten() == ls,
        forall|k: int| 0 <= k < split_parts(ls, max).len() ==> (#[trigger] split_parts(ls, max)[k]).len() > 0,
        split_parts(ls, max).len() == 0 <==> ls.len() == 0,
{
    if max > 0 {
        law_split_parts_fit(ls, max);
        assert forall|k: int| 0 <= k < split_parts(ls, max).len() implies (#[trigger] split_parts(
            ls,
            max,
        )[k]).len() > 0 by {
            assert(part_fits(split_parts(ls, max)[k], max));
        }
    }
    if ls.len() == 0 {
    } else if max == 0 {
        lemma_flatten_cons(ls, seq![]);
        assert(ls + Seq::<Seq<Seq<char>>>::empty().flatten() =~= ls);
    } else {
        lemma_split_from_flatten(ls, max, 0, 0);
        assert(ls.subrange(0, ls.len() as int) =~= ls);
    }
}

/// A part is acceptable when it is not empty, and fits in `max` bytes unless it is a
/// single line.
pub open spec fn part_fits(p: Seq<Seq<char>>, max: int) -> bool {
    p.len() > 0 && (total_len(p) <= max || p.len() == 1)
}

proof fn lemma_split_from_fits(ls: Seq<Seq<char>>, max: int, i: int, start: int)
    requires
        0 <= start <= i <= ls.len(),
        max > 0,
        total_len(ls.subrange(start, i)) <= max || i - start <= 1,
    ensures
        forall|k: int|
            0 <= k < split_from(ls, max, i, start).len() ==> part_fits(
                #[trigger] split_from(ls, max, i, start)[k],
                max,
            ),
    decreases ls.len() - i, i - start,
{
    let cur = ls.subrange(start, i);
    if i == ls.len() {
        if start < i {
            assert(split_from(ls, max, i, start) == seq![cur]);
            assert(part_fits(cur, max));
        }
    } else {
        if total_len(cur) + blen(ls[i]) + 1 > max && start < i {
            let sa = blank_boundary(cur, ls.skip(i), max);
            if 0 < sa < cur.len() {
                lemma_total_len_subrange(cur, 0, sa);
                lemma_total_len_subrange(cur, sa, cur.len() as int);
                assert(cur.subrange(0, sa) =~= cur.take(sa));
                assert(cur.subrange(sa, cur.len() as int) =~= ls.subrange(start + sa, i));
                lemma_split_from_fits(ls, max, i, start + sa);
                let rest = split_from(ls, max, i, start + sa);
                assert(split_from(ls, max, i, start) == seq![cur.take(sa)] + rest);
                assert(part_fits(cur.take(sa), max));
                assert forall|k: int|
                    0 <= k < split_from(ls, max, i, start).len() implies part_fits(
                    #[trigger] split_from(ls, max, i, start)[k],
                    max,
                ) by {
                    if k > 0 {
                        assert(split_from(ls, max, i, start)[k] == rest[k - 1]);
                    }
                }
            } else {
                assert(ls.subrange(i, i) =~= Seq::<Seq<char>>::empty());
                lemma_split_from_fits(ls, max, i, i);
                let rest = split_from(ls, max, i, i);
                assert(split_from(ls, max, i, start) == seq![cur] + rest);
                assert(part_fits(cur, max));
                assert forall|k: int|
                    0 <= k < split_from(ls, max, i, start).len() implies part_fits(
                    #[trigger] split_from(ls, max, i, start)[k],
                    max,
                ) by {
                    if k > 0 {
                        assert(split_from(ls, max, i, start)[k] == rest[k - 1]);
                    }
                }
            }
        } else {
            let next = ls.subrange(start, i + 1);
            assert(next.drop_last() =~= cur);
            assert(next.last() == ls[i]);
            assert(total_len(next) == total_len(cur) + blen(ls[i]) + 1);
            lemma_split_from_fits(ls, max, i + 1, start);
            assert(split_from(ls, max, i, start) == split_from(ls, max, i + 1, start));
        }
    }
}

/// No part is empty, and every part fits in `max` bytes except a part made of one line
/// that alone exceeds it.
pub proof fn law_split_parts_fit(ls: Seq<Seq<char>>, max: int)
    requires
        max > 0,
    ensures
        forall|k: int|
            0 <= k < split_parts(ls, max).len() ==> part_fits(#[trigger] split_parts(ls, max)[k], max),
{
    if ls.len() > 0 {
        assert(ls.subrange(0, 0) =~= Seq::<Seq<char>>::empty());
        lemma_split_from_fits(ls, max, 0, 0);
    }
}


/// A part `p` followed by `next` was closed for a reason: it ends with a blank line, or
/// the first line of `next` would not have fitted in it.
pub open spec fn closed_for_cause(p: Seq<Seq<char>>, next: Seq<Seq<char>>, max: int) -> bool {
    is_blank(p.last()) || total_len(p) + blen(next[0]) + 1 > max
}

proof fn lemma_blank_cut_blank(cur: Seq<Seq<char>>, max: int, k: int)
    requires
        0 <= k <= cur.len(),
    ensures
        blank_cut(cur, max, k) matches Some(c) ==> 1 <= c <= k && is_blank(cur[c - 1]),
    decreases k,
{
    if k > 0 {
        lemma_blank_cut_blank(cur, max, k - 1);
    }
}

proof fn lemma_split_from_first(ls: Seq<Seq<char>>, max: int, i: int, start: int)
    requires
        0 <= start <= i <= ls.len(),
        start < ls.len(),
    ensures
        split_from(ls, max, i, start).len() > 0,
        split_from(ls, max, i, start)[0].len() > 0,
        split_from(ls, max, i, start)[0][0] == ls[start],
    decreases ls.len() - i, i - start,
{
    if i < ls.len() {
        let cur = ls.subrange(start, i);
        if total_len(cur) + blen(ls[i]) + 1 > max && start < i {
        } else {
            lemma_split_from_first(ls, max, i + 1, start);
        }
    }
}

proof fn lemma_split_from_closes(ls: Seq<Seq<char>>, max: int, i: int, start: int)
    requires
        0 <= start <= i <= ls.len(),
    ensures
        forall|k: int|
            0 <= k < split_from(ls, max, i, start).len() - 1 ==> closed_for_cause(
                #[trigger] split_from(ls, max, i, start)[k],
                split_from(ls, max, i, start)[k + 1],
                max,
            ),
    decreases ls.len() - i, i - start,
{
    let parts = split_from(ls, max, i, start);
    if i < ls.len() {
        let cur = ls.subrange(start, i);
        if total_len(cur) + blen(ls[i]) + 1 > max && start < i {
            let sa = blank_boundary(cur, ls.skip(i), max);
            if 0 < sa < cur.len() {
                lemma_blank_cut_blank(cur, max, cur.len() as int);
                lemma_first_blank_range(ls.skip(i), 0);
                assert(blank_cut(cur, max, cur.len() as int) == Some(sa));
                lemma_split_from_closes(ls, max, i, start + sa);
                let rest = split_from(ls, max, i, start + sa);
                assert(parts == seq![cur.take(sa)] + rest);
                assert forall|k: int| 0 <= k < parts.len() - 1 implies closed_for_cause(
                    #[trigger] parts[k],
                    parts[k + 1],
                    max,
                ) by {
                    if k > 0 {
                        assert(parts[k] == rest[k - 1]);
                        assert(parts[k + 1] == rest[k]);
                    } else {
                        assert(cur.take(sa).last() == cur[sa - 1]);
                    }
                }
            } else {
                lemma_split_from_closes(ls, max, i, i);
                lemma_split_from_first(ls, max, i, i);
                let rest = split_from(ls, max, i, i);
                assert(parts == seq![cur] + rest);
                assert forall|k: int| 0 <= k < parts.len() - 1 implies closed_for_cause(
                    #[trigger] parts[k],
                    parts[k + 1],
                    max,
                ) by {
                    if k > 0 {
                        assert(parts[k] == rest[k - 1]);
                        assert(parts[k + 1] == rest[k]);
                    } else {
                        assert(parts[1] == rest[0]);
                    }
                }
            }
        } else {
            lemma_split_from_closes(ls, max, i + 1, start);
            assert(parts == split_from(ls, max, i + 1, start));
        }
    }
}

/// Splitting closes a part early only for a cause: each part but the last ends with a
/// blank line, or the next part's first line would not have fitted in it.
pub proof fn law_split_parts_close_for_cause(ls: Seq<Seq<char>>, max: int)
    requires
        max > 0,
    ensures
        forall|k: int|
            0 <= k < split_parts(ls, max).len() - 1 ==> closed_for_cause(
                #[trigger] split_parts(ls, max)[k],
                split_parts(ls, max)[k + 1],
                max,
            ),
{
    lemma_split_from_closes(ls, max, 0, 0);
}

// ---------------------------------------------------------------------------
// Splitting an item that is too large for one chunk
// ---------------------------------------------------------------------------

/// Index of the first line at or after `i` that holds a `'{'`.
pub open spec fn first_brace_line(ls: Seq<Seq<char>>, i: int) -> Option<int>
    decreases ls.len() - i,
{
    if i < 0 || i >= ls.len() {
        None
    } else if ls[i].contains('{') {
        Some(i)
    } else {
        first_brace_line(ls, i + 1)
    }
}

/// Number of lines that make an item's signature: up to and including the first line
/// with a `'{'`, or just the first line.
pub open spec fn signature_end(ls: Seq<Seq<char>>) -> int {
    match first_brace_line(ls, 0) {
        Some(k) => k + 1,
        None => 1,
    }
}

proof fn lemma_first_brace_is_first(ls: Seq<Seq<char>>, i: int)
    requires
        0 <= i,
    ensures
        first_brace_line(ls, i) matches Some(k) ==> i <= k < ls.len() && ls[k].contains('{')
            && forall|j: int| i <= j < k ==> !(#[trigger] ls[j]).contains('{'),
        first_brace_line(ls, i) is None ==> forall|j: int|
            i <= j < ls.len() ==> !(#[trigger] ls[j]).contains('{'),
    decreases ls.len() - i,
{
    if i < ls.len() {
        lemma_first_brace_is_first(ls, i + 1);
    }
}

/// The signature runs through the first line that holds a `'{'`: that line holds one and
/// no line before it does. With no `'{'` in any line, the signature is the first line.
pub proof fn law_signature_ends_at_first_brace(ls: Seq<Seq<char>>)
    ensures
        1 <= signature_end(ls),
        (exists|j: int| 0 <= j < ls.len() && (#[trigger] ls[j]).contains('{')) ==> ({
            let k = signature_end(ls) - 1;
            &&& k < ls.len()
            &&& ls[k].contains('{')
            &&& forall|j: int| 0 <= j < k ==> !(#[trigger] ls[j]).contains('{')
        }),
        (forall|j: int| 0 <= j < ls.len() ==> !(#[trigger] ls[j]).contains('{')) ==> signature_end(ls)
            == 1,
{
    lemma_first_brace_is_first(ls, 0);
}

/// The lines between the signature and the last line.
pub open spec fn body_of(ls: Seq<Seq<char>>, se: int) -> Seq<Seq<char>> {
    if ls.len() > se + 1 {
        ls.subrange(se, ls.len() - 1)
    } else {
        seq![]
    }
}

/// Each line followed by `'\n'`, joined.
pub open spec fn joined(ls: Seq<Seq<char>>) -> Seq<char>
    decreases ls.len(),
{
    if ls.len() == 0 {
        seq![]
    } else {
        joined(ls.drop_last()) + ls.last().push('\n')
    }
}

/// `usize::saturating_sub`.
pub open spec fn sat_sub(a: int, b: int) -> int {
    if a > b {
        a - b
    } else {
        0
    }
}

/// Bytes left for body lines in one part, once the wrappers and the signature are drawn.
pub open spec fn body_budget(ws: Seq<WrapView>, sig_text: Seq<char>) -> int {
    sat_sub(
        MAX_CHUNK_CHARS as int,
        sat_sub(blen(wrapped(seq!['X'], ws, true, true)) as int, 1) + blen(sig_text) + 8,
    )
}

/// Number of lines in the parts before part `i`.
pub open spec fn lines_before(parts: Seq<Seq<Seq<char>>>, i: int) -> int
    decreases i,
{
    if i <= 0 {
        0
    } else {
        lines_before(parts, i - 1) + parts[i - 1].len()
    }
}

/// The text of part `i`: the signature, an elision line unless first, the part's lines,
/// an elision line unless last.
pub open spec fn part_text(
    sig_text: Seq<char>,
    dots_line: Seq<char>,
    parts: Seq<Seq<Seq<char>>>,
    i: int,
) -> Seq<char> {
    sig_text + (if i > 0 {
        dots_line
    } else {
        seq![]
    }) + joined(parts[i]) + (if i < parts.len() - 1 {
        dots_line
    } else {
        seq![]
    })
}

/// Chunk `i` of an item split into `parts`; the first part starts on the item's first line,
/// the last ends on its last line, the others span their own lines.
pub open spec fn part_chunk(
    ws: Seq<WrapView>,
    sig_text: Seq<char>,
    dots_line: Seq<char>,
    parts: Seq<Seq<Seq<char>>>,
    se: int,
    line_start: usize,
    line_end: usize,
    i: int,
) -> ChunkView {
    let first_line = line_start + se + lines_before(parts, i);
    ChunkView {
        file_path: seq![],
        line_start: if i == 0 {
            line_start
        } else {
            first_line as usize
        },
        line_end: if i == parts.len() - 1 {
            line_end
        } else {
            (first_line + parts[i].len()) as usize
        },
        content: wrapped(part_text(sig_text, dots_line, parts, i), ws, true, true),
    }
}

/// The chunks of an item too large for one chunk: its body split into parts that each
/// repeat the signature; a single chunk holding the whole item when the body does not split.
pub open spec fn large_chunks(
    content: Seq<char>,
    ws: Seq<WrapView>,
    line_start: usize,
    line_end: usize,
) -> Seq<ChunkView> {
    let lines = lines_of(content);
    let se = signature_end(lines);
    let body = body_of(lines, se);
    let sig_text = joined(lines.take(se));
    let parts = split_parts(body, body_budget(ws, sig_text));
    if parts.len() <= 1 {
        seq![
            ChunkView {
                file_path: seq![],
                line_start,
                line_end,
                content: wrapped(content, ws, true, true),
            },
        ]
    } else {
        Seq::new(
            parts.len(),
            |i: int|
                part_chunk(
                    ws,
                    sig_text,
                    first_indent(body) + dots(),
                    parts,
                    se,
                    line_start,
                    line_end,
                    i,
                ),
        )
    }
}

/// The chunks of a large item tile its lines: the first starts on the item's first line,
/// the last ends on its last line, and each one ends on the line where the next begins.
pub proof fn law_large_chunks_contiguous(
    content: Seq<char>,
    ws: Seq<WrapView>,
    line_start: usize,
    line_end: usize,
)
    ensures
        large_chunks(content, ws, line_start, line_end).len() >= 1,
        large_chunks(content, ws, line_start, line_end)[0].line_start == line_start,
        large_chunks(content, ws, line_start, line_end).last().line_end == line_end,
        forall|i: int|
            0 <= i < large_chunks(content, ws, line_start, line_end).len() - 1 ==> (#[trigger] large_chunks(
                content,
                ws,
                line_start,
                line_end,
            )[i]).line_end == large_chunks(content, ws, line_start, line_end)[i + 1].line_start,
{
    let lines = lines_of(content);
    let se = signature_end(lines);
    let body = body_of(lines, se);
    let sig_text = joined(lines.take(se));
    let parts = split_parts(body, body_budget(ws, sig_text));
    let cs = large_chunks(content, ws, line_start, line_end);
    if parts.len() > 1 {
        assert forall|i: int| 0 <= i < cs.len() - 1 implies (#[trigger] cs[i]).line_end
            == cs[i + 1].line_start by {
            assert(lines_before(parts, i + 1) == lines_before(parts, i) + parts[i].len());
        }
    }
}

proof fn lemma_first_brace_range(ls: Seq<Seq<char>>, i: int)
    requires
        0 <= i,
    ensures
        first_brace_line(ls, i) matches Some(k) ==> i <= k < ls.len(),
    decreases ls.len() - i,
{
    if i < ls.len() {
        lemma_first_brace_range(ls, i + 1);
    }
}

/// Along nonempty parts, the lines before part `b` outnumber those before part `a` by at
/// least `b - a`.
proof fn lemma_lines_before_grows(parts: Seq<Seq<Seq<char>>>, a: int, b: int)
    requires
        0 <= a <= b <= parts.len(),
        forall|k: int| 0 <= k < parts.len() ==> (#[trigger] parts[k]).len() > 0,
    ensures
        lines_before(parts, a) + (b - a) <= lines_before(parts, b),
    decreases b,
{
    if b > a {
        lemma_lines_before_grows(parts, a, b - 1);
        assert(parts[b - 1].len() > 0);
    }
}

/// Part `i` is the run of joined lines between the lines of the parts before it and those
/// of the parts up to and including it.
proof fn lemma_part_in_flatten(parts: Seq<Seq<Seq<char>>>, i: int)
    requires
        0 <= i < parts.len(),
    ensures
        lines_before(parts, i + 1) == lines_before(parts, i) + parts[i].len(),
        lines_before(parts, i + 1) <= parts.flatten().len(),
        parts[i] == parts.flatten().subrange(lines_before(parts, i), lines_before(parts, i + 1)),
{
    lemma_lines_before_flatten(parts, i);
    lemma_lines_before_flatten(parts, i + 1);
    assert(parts.take(i + 1) =~= parts.take(i) + seq![parts[i]]);
    lemma_flatten_concat(parts.take(i), seq![parts[i]]);
    lemma_flatten_cons(parts[i], seq![]);
    assert(seq![parts[i]] =~= seq![parts[i]] + Seq::<Seq<Seq<char>>>::empty());
    assert(parts[i] + Seq::<Seq<Seq<char>>>::empty().flatten() =~= parts[i]);
    assert(parts =~= parts.take(i + 1) + parts.skip(i + 1));
    lemma_flatten_concat(parts.take(i + 1), parts.skip(i + 1));
    let f = parts.flatten();
    assert(f.subrange(lines_before(parts, i), lines_before(parts, i + 1)) =~= parts[i]);
}

/// A chunk of a split item holds the source lines of its own line range. With `L` the
/// item's lines and `s` the number of signature lines, chunk `i` is the signature, an
/// elision line unless it is the first, the lines `L[a..b]`, and an elision line unless it
/// is the last, all wrapped: `a` is `s` for the first chunk and otherwise the chunk's first
/// line counted from the item's first line; `b` is the last line of the item (its closing
/// line, which no part holds) for the last chunk and otherwise the chunk's end counted the
/// same way. So each chunk's line range is the range of the lines it shows.
pub proof fn law_large_chunks_hold_their_lines(
    content: Seq<char>,
    ws: Seq<WrapView>,
    line_start: usize,
    line_end: usize,
)
    requires
        content.len() > 0,
        line_start + lines_of(content).len() <= usize::MAX,
    ensures
        ({
            let l = lines_of(content);
            let s = signature_end(l);
            let cs = large_chunks(content, ws, line_start, line_end);
            let n = cs.len() as int;
            let dl = first_indent(l.subrange(s, l.len() - 1)) + dots();
            n >= 2 ==> forall|i: int|
                0 <= i < n ==> {
                    let a = if i == 0 {
                        s
                    } else {
                        (#[trigger] cs[i]).line_start - line_start
                    };
                    let b = if i == n - 1 {
                        l.len() - 1
                    } else {
                        cs[i].line_end - line_start
                    };
                    &&& s <= a <= b <= l.len() - 1
                    &&& cs[i].content == wrapped(
                        joined(l.take(s)) + (if i > 0 {
                            dl
                        } else {
                            seq![]
                        }) + joined(l.subrange(a, b)) + (if i < n - 1 {
                            dl
                        } else {
                            seq![]
                        }),
                        ws,
                        true,
                        true,
                    )
                }
        }),
{
    let l = lines_of(content);
    let se = signature_end(l);
    let body = body_of(l, se);
    let sig_text = joined(l.take(se));
    let max = body_budget(ws, sig_text);
    let parts = split_parts(body, max);
    let cs = large_chunks(content, ws, line_start, line_end);
    if parts.len() > 1 {
        let n = parts.len() as int;
        law_split_parts_concat(body, max);
        lemma_first_brace_range(l, 0);
        lemma_lines_before_flatten(parts, n);
        assert(parts.take(n) =~= parts);
        assert(parts[0].len() > 0);
        assert(body.len() > 0);
        assert(body == l.subrange(se, l.len() - 1));
        let dl = first_indent(body) + dots();
        assert forall|i: int| 0 <= i < n implies {
            let a = if i == 0 {
                se
            } else {
                (#[trigger] cs[i]).line_start - line_start
            };
            let b = if i == n - 1 {
                l.len() - 1
            } else {
                cs[i].line_end - line_start
            };
            &&& se <= a <= b <= l.len() - 1
            &&& cs[i].content == wrapped(
                sig_text + (if i > 0 {
                    dl
                } else {
                    seq![]
                }) + joined(l.subrange(a, b)) + (if i < n - 1 {
                    dl
                } else {
                    seq![]
                }),
                ws,
                true,
                true,
            )
        } by {
            lemma_part_in_flatten(parts, i);
            lemma_lines_before_grows(parts, 0, i);
            lemma_lines_before_grows(parts, i + 1, n);
            assert(cs[i] == part_chunk(ws, sig_text, dl, parts, se, line_start, line_end, i));
            let lo = lines_before(parts, i);
            let hi = lines_before(parts, i + 1);
            assert(body.subrange(lo, hi) =~= l.subrange(se + lo, se + hi));
            let a = if i == 0 {
                se
            } else {
                cs[i].line_start - line_start
            };
            let b = if i == n - 1 {
                l.len() - 1
            } else {
                cs[i].line_end - line_start
            };
            assert(a == se + lo);
            assert(b == se + hi);
        }
    }
}

/// When the caller numbers an item's lines from `line_start` to `line_end`, every chunk of
/// the item lies within those lines, starts no later than it ends, and the chunks start
/// on strictly increasing lines.
pub proof fn law_large_chunks_within_item(
    content: Seq<char>,
    ws: Seq<WrapView>,
    line_start: usize,
    line_end: usize,
)
    requires
        content.len() > 0,
        line_end == line_start + lines_of(content).len() - 1,
    ensures
        forall|i: int|
            0 <= i < large_chunks(content, ws, line_start, line_end).len() ==> line_start
                <= (#[trigger] large_chunks(content, ws, line_start, line_end)[i]).line_start
                <= large_chunks(content, ws, line_start, line_end)[i].line_end <= line_end,
        forall|i: int, j: int|
            0 <= i < j < large_chunks(content, ws, line_start, line_end).len() ==> (
            #[trigger] large_chunks(content, ws, line_start, line_end)[i]).line_start < (
            #[trigger] large_chunks(content, ws, line_start, line_end)[j]).line_start,
{
    lemma_lines_from_size(content, 0);
    lemma_lines_from_elements(content, 0);
    assert(content.subrange(0, content.len() as int) =~= content);
    assert(lines_of(content).len() >= 1);
    let lines = lines_of(content);
    let se = signature_end(lines);
    let body = body_of(lines, se);
    let sig_text = joined(lines.take(se));
    let max = body_budget(ws, sig_text);
    let parts = split_parts(body, max);
    let cs = large_chunks(content, ws, line_start, line_end);
    if parts.len() > 1 {
        let n = parts.len() as int;
        assert(max > 0);
        law_split_parts_fit(body, max);
        law_split_parts_concat(body, max);
        assert forall|k: int| 0 <= k < n implies (#[trigger] parts[k]).len() > 0 by {
            assert(part_fits(parts[k], max));
        }
        lemma_first_brace_range(lines, 0);
        assert(se >= 1);
        lemma_lines_before_flatten(parts, n);
        assert(parts.take(n) =~= parts);
        assert(body.len() > 0);
        assert(body.len() == lines.len() - 1 - se);
        assert(lines_before(parts, n) == lines.len() - 1 - se);
        assert forall|i: int| 0 <= i < n implies line_start <= (#[trigger] cs[i]).line_start
            <= cs[i].line_end <= line_end by {
            lemma_lines_before_grows(parts, i, n);
            lemma_lines_before_grows(parts, i + 1, n);
            lemma_lines_before_grows(parts, 0, i);
            assert(lines_before(parts, i + 1) == lines_before(parts, i) + parts[i].len());
        }
        assert forall|i: int, j: int| 0 <= i < j < n implies (#[trigger] cs[i]).line_start < (
        #[trigger] cs[j]).line_start by {
            lemma_lines_before_grows(parts, i, j);
            lemma_lines_before_grows(parts, j, n);
            lemma_lines_before_grows(parts, 0, i);
        }
    }
}

proof fn lemma_joined_cons(x: Seq<char>, rest: Seq<Seq<char>>)
    ensures
        joined(seq![x] + rest) == x.push('\n') + joined(rest),
    decreases rest.len(),
{
    if rest.len() == 0 {
        assert(seq![x] + rest =~= seq![x]);
        assert(seq![x].drop_last() =~= Seq::<Seq<char>>::empty());
        assert(joined(Seq::<Seq<char>>::empty()) == Seq::<char>::empty());
        assert(seq![x].last() == x);
        assert(joined(seq![x]) =~= x.push('\n'));
        assert(x.push('\n') + joined(rest) =~= x.push('\n'));
    } else {
        lemma_joined_cons(x, rest.drop_last());
        assert((seq![x] + rest).drop_last() =~= seq![x] + rest.drop_last());
        assert((seq![x] + rest).last() == rest.last());
        assert(joined(seq![x] + rest) =~= x.push('\n') + joined(rest));
    }
}

proof fn lemma_lines_from_rejoin(s: Seq<char>, start: int)
    requires
        0 <= start <= s.len(),
        forall|i: int| 0 <= i < s.len() ==> s[i] != '\r',
    ensures
        joined(lines_from(s, start)) == if start < s.len() {
            ensure_newline(s.subrange(start, s.len() as int))
        } else {
            Seq::<char>::empty()
        },
        forall|j: int, i: int|
            0 <= j < lines_from(s, start).len() && 0 <= i < lines_from(s, start)[j].len()
                ==> #[trigger] lines_from(s, start)[j][i] != '\n',
    decreases s.len() - start,
{
    if start < s.len() {
        let k = next_newline(s, start);
        lemma_next_newline_bounds(s, start);
        let sub = s.subrange(start, s.len() as int);
        if k >= s.len() {
            assert(lines_from(s, start) == seq![sub]);
            lemma_joined_cons(sub, seq![]);
            assert(seq![sub] + Seq::<Seq<char>>::empty() =~= seq![sub]);
            assert(joined(seq![sub]) =~= sub.push('\n'));
            assert(sub.last() == s[s.len() - 1]);
        } else {
            let x = s.subrange(start, k);
            assert(x.len() > 0 ==> x.last() == s[k - 1]);
            assert(strip_cr(x) == x);
            let rest = lines_from(s, k + 1);
            assert(lines_from(s, start) == seq![x] + rest);
            lemma_lines_from_rejoin(s, k + 1);
            lemma_joined_cons(x, rest);
            if k + 1 < s.len() {
                let tail = s.subrange(k + 1, s.len() as int);
                lemma_ensure_newline_append(x.push('\n'), tail);
                assert(x.push('\n') + tail =~= sub);
            } else {
                assert(x.push('\n') + Seq::<char>::empty() =~= sub);
            }
            assert forall|j: int, i: int|
                0 <= j < lines_from(s, start).len() && 0 <= i < lines_from(s, start)[j].len()
                    implies #[trigger] lines_from(s, start)[j][i] != '\n' by {
                if j > 0 {
                    assert(lines_from(s, start)[j] == rest[j - 1]);
                }
            }
        }
    }
}

/// Without carriage returns, the lines of a text hold no `'\n'`, and joining them back,
/// each followed by `'\n'`, gives the text again (with a final `'\n'` added if it lacked
/// one): no character is lost, added or moved.
pub proof fn law_lines_rejoin(s: Seq<char>)
    requires
        forall|i: int| 0 <= i < s.len() ==> s[i] != '\r',
    ensures
        joined(lines_of(s)) == if s.len() == 0 {
            Seq::<char>::empty()
        } else {
            ensure_newline(s)
        },
        forall|j: int, i: int|
            0 <= j < lines_of(s).len() && 0 <= i < lines_of(s)[j].len() ==> #[trigger] lines_of(s)[j][i]
                != '\n',
{
    lemma_lines_from_rejoin(s, 0);
    assert(s.subrange(0, s.len() as int) =~= s);
}

pub proof fn lemma_joined_len(ls: Seq<Seq<char>>)
    ensures
        blen(joined(ls)) == total_len(ls),
    decreases ls.len(),
{
    if ls.len() > 0 {
        lemma_joined_len(ls.drop_last());
        assert(ls.last().push('\n') =~= ls.last() + seq!['\n']);
        lemma_blen_concat(ls.last(), seq!['\n']);
        lemma_blen_single('\n');
        lemma_blen_concat(joined(ls.drop_last()), ls.last().push('\n'));
    }
}

/// The lines as strings.
fn strings_of_char_lines(lines: &Vec<Vec<char>>) -> (r: Vec<String>)
    ensures
        strings_view(r@) == char_vecs_view(lines@),
{
    let mut r: Vec<String> = Vec::new();
    let mut i: usize = 0;
    while i < lines.len()
        invariant
            0 <= i <= lines@.len(),
            r@.len() == i,
            forall|k: int| 0 <= k < i ==> #[trigger] r@[k]@ == lines@[k]@,
        decreases lines@.len() - i,
    {
        r.push(string_from_chars(lines[i].as_slice()));
        i = i + 1;
    }
    assert(strings_view(r@) =~= char_vecs_view(lines@));
    r
}

fn chars_contain(s: &[char], c: char) -> (b: bool)
    ensures
        b == s@.contains(c),
{
    let mut i: usize = 0;
    while i < s.len()
        invariant
            0 <= i <= s@.len(),
            forall|k: int| 0 <= k < i ==> s@[k] != c,
        decreases s@.len() - i,
    {
        if s[i] == c {
            return true;
        }
        i = i + 1;
    }
    false
}

/// Index of the first line holding a `'{'`.
fn find_brace_line(lines: &[String]) -> (r: Option<usize>)
    ensures
        r matches Some(k) ==> first_brace_line(strings_view(lines@), 0) == Some(k as int) && k
            < lines@.len(),
        r is None ==> first_brace_line(strings_view(lines@), 0) is None,
{
    let ghost lv = strings_view(lines@);
    let mut k: usize = 0;
    while k < lines.len()
        invariant
            lv == strings_view(lines@),
            0 <= k <= lines@.len(),
            first_brace_line(lv, 0) == first_brace_line(lv, k as int),
        decreases lines@.len() - k,
    {
        let cs = chars_of(lines[k].as_str());
        assert(cs@ == lv[k as int]);
        if chars_contain(cs.as_slice(), '{') {
            return Some(k);
        }
        k = k + 1;
    }
    None
}

/// Splits an item that is too large for one chunk; see `large_chunks`. The chunks carry
/// an empty file path.
pub fn split_large_content(content: &str, wrappers: &[WrapInfo], line_start: usize, line_end: usize) -> (res:
    Vec<Chunk>)
    requires
        content@.len() > 0,
        line_start + lines_of(content@).len() <= usize::MAX,
        blen(wrapped(seq!['X'], wraps_view(wrappers@), true, true)) + blen(content@) + 9
            <= usize::MAX,
    ensures
        chunks_view(res@) == large_chunks(content@, wraps_view(wrappers@), line_start, line_end),
{
    let ghost ws = wraps_view(wrappers@);
    proof {
        reveal_strlit("X");
        reveal_strlit("\n");
        reveal_strlit("...\n");
        lemma_lines_from_size(content@, 0);
        lemma_lines_from_elements(content@, 0);
        assert(content@.subrange(0, content@.len() as int) =~= content@);
        lemma_blen_ge_len(content@);
        assert("X"@ =~= seq!['X']);
        assert(lines_of(content@).len() >= 1);
    }
    let chars = chars_of(content);
    let char_lines = split_lines(chars.as_slice());
    let lines = strings_of_char_lines(&char_lines);
    let ghost lv = lines_of(content@);
    assert(strings_view(lines@) == lv);
    let n = lines.len();
    // the signature ends at the first line holding '{'
    let sig_end_idx = match find_brace_line(lines.as_slice()) {
        Some(k) => k + 1,
        None => 1,
    };
    assert(sig_end_idx == signature_end(lv));
    let sig_lines = slice_subrange(lines.as_slice(), 0, sig_end_idx);
    let body_lines: &[String] = if n > sig_end_idx + 1 {
        slice_subrange(lines.as_slice(), sig_end_idx, n - 1)
    } else {
        slice_subrange(lines.as_slice(), 0, 0)
    };
    let ghost body = body_of(lv, sig_end_idx as int);
    assert(strings_view(body_lines@) =~= body);
    assert(strings_view(sig_lines@) =~= lv.take(sig_end_idx as int));
    // the signature text
    let mut sig_text = String::new();
    let mut j: usize = 0;
    while j < sig_end_idx
        invariant
            sig_end_idx <= n,
            n == lines@.len(),
            lv == strings_view(lines@),
            0 <= j <= sig_end_idx,
            sig_text@ == joined(lv.take(j as int)),
            "\n"@ == seq!['\n'],
        decreases sig_end_idx - j,
    {
        sig_text.append(lines[j].as_str());
        sig_text.append("\n");
        assert(lv.take(j + 1).drop_last() =~= lv.take(j as int));
        assert(sig_text@ =~= joined(lv.take(j + 1)));
        j = j + 1;
    }
    proof {
        lemma_joined_len(lv.take(sig_end_idx as int));
        lemma_total_len_subrange(lv, 0, sig_end_idx as int);
        assert(lv.subrange(0, sig_end_idx as int) =~= lv.take(sig_end_idx as int));
        lemma_total_len_subrange(lv, sig_end_idx as int, if n > sig_end_idx + 1 {
            n - 1
        } else {
            sig_end_idx as int
        });
        if n > sig_end_idx + 1 {
        } else {
            assert(body =~= lv.subrange(sig_end_idx as int, sig_end_idx as int));
        }
    }
    let dummy = build_wrapped_chunk("X", wrappers, true, true);
    let dummy_len = str_len(&dummy);
    let wrapper_overhead = if dummy_len > 1 {
        dummy_len - 1
    } else {
        0
    };
    let sig_len = str_len(&sig_text);
    let reserved = wrapper_overhead + sig_len + 8;
    let budget = if MAX_CHUNK_CHARS > reserved {
        MAX_CHUNK_CHARS - reserved
    } else {
        0
    };
    assert(budget == body_budget(ws, sig_text@));
    let parts = split_lines_into_parts(body_lines, budget);
    let ghost pv = parts_view(parts@);
    assert(pv == split_parts(body, budget as int));
    if parts.len() <= 1 {
        let wrapped = build_wrapped_chunk(content, wrappers, true, true);
        let mut v: Vec<Chunk> = Vec::new();
        v.push(Chunk { file_path: String::new(), line_start, line_end, content: wrapped });
        assert(chunks_view(v@) =~= large_chunks(content@, ws, line_start, line_end));
        return v;
    }
    proof {
        assert forall|q: int| 0 <= q < body_lines@.len() implies blen(#[trigger] body_lines@[q]@)
            <= usize::MAX by {
            assert(body_lines@[q]@ == body[q]);
        }
    }
    let body_indent = detect_indent_from_lines(body_lines);
    let mut dots_text = body_indent;
    dots_text.append("...\n");
    let ghost dots_line = dots_text@;
    assert(dots_line == first_indent(body) + dots());
    proof {
        law_split_parts_concat(body, budget as int);
    }
    let mut chunks: Vec<Chunk> = Vec::new();
    let mut body_line_offset: usize = 0;
    let np = parts.len();
    let mut i: usize = 0;
    while i < np
        invariant
            np == parts@.len(),
            np > 1,
            pv == parts_view(parts@),
            pv.flatten() == body,
            0 <= i <= np,
            body_line_offset == lines_before(pv, i as int),
            body_line_offset <= body.len(),
            sig_end_idx + body.len() <= n,
            line_start + n <= usize::MAX,
            dots_text@ == dots_line,
            "\n"@ == seq!['\n'],
            chunks@.len() == i,
            forall|q: int|
                0 <= q < i ==> #[trigger] chunks@[q]@ == part_chunk(
                    ws,
                    sig_text@,
                    dots_line,
                    pv,
                    sig_end_idx as int,
                    line_start,
                    line_end,
                    q,
                ),
            ws == wraps_view(wrappers@),
        decreases np - i,
    {
        let part = &parts[i];
        assert(part@.len() == pv[i as int].len());
        let mut part_content = sig_text.clone();
        if i > 0 {
            part_content.append(dots_text.as_str());
        }
        let ghost head = part_content@;
        let mut j: usize = 0;
        while j < part.len()
            invariant
                0 <= j <= part@.len(),
                part_content@ == head + joined(strings_view(part@).take(j as int)),
                "\n"@ == seq!['\n'],
            decreases part@.len() - j,
        {
            part_content.append(part[j].as_str());
            part_content.append("\n");
            assert(strings_view(part@).take(j + 1).drop_last() =~= strings_view(part@).take(
                j as int,
            ));
            assert(strings_view(part@).take(j + 1).last() == part@[j as int]@);
            j = j + 1;
        }
        assert(strings_view(part@).take(j as int) =~= pv[i as int]);
        if i < np - 1 {
            part_content.append(dots_text.as_str());
        }
        assert(part_content@ =~= part_text(sig_text@, dots_line, pv, i as int));
        let wrapped = build_wrapped_chunk(part_content.as_str(), wrappers, true, true);
        proof {
            lemma_lines_before_flatten(pv, i + 1);
        }
        let part_start_line = sig_end_idx + body_line_offset;
        let part_line_start = if i == 0 {
            line_start
        } else {
            line_start + part_start_line
        };
        let part_line_end = if i == np - 1 {
            line_end
        } else {
            line_start + part_start_line + part.len()
        };
        chunks.push(
            Chunk {
                file_path: String::new(),
                line_start: part_line_start,
                line_end: part_line_end,
                content: wrapped,
            },
        );
        body_line_offset = body_line_offset + part.len();
        i = i + 1;
    }
    assert(chunks_view(chunks@) =~= large_chunks(content@, ws, line_start, line_end));
    chunks
}

/// The lines before part `i` are the first lines of the joined parts.
proof fn lemma_lines_before_flatten(parts: Seq<Seq<Seq<char>>>, i: int)
    requires
        0 <= i <= parts.len(),
    ensures
        lines_before(parts, i) == parts.take(i).flatten().len(),
        lines_before(parts, i) <= parts.flatten().len(),
    decreases i,
{
    if i > 0 {
        lemma_lines_before_flatten(parts, i - 1);
        assert(parts.take(i).drop_last() =~= parts.take(i - 1));
        parts.take(i).lemma_flatten_and_flatten_alt_are_equivalent();
        parts.take(i - 1).lemma_flatten_and_flatten_alt_are_equivalent();
    }
    assert(parts =~= parts.take(i) + parts.skip(i));
    lemma_flatten_concat(parts.take(i), parts.skip(i));
}

proof fn lemma_flatten_concat(a: Seq<Seq<Seq<char>>>, b: Seq<Seq<Seq<char>>>)
    ensures
        (a + b).flatten() == a.flatten() + b.flatten(),
    decreases a.len(),
{
    if a.len() == 0 {
        assert(a + b =~= b);
        assert(a.flatten() + b.flatten() =~= b.flatten());
    } else {
        assert((a + b).drop_first() =~= a.drop_first() + b);
        lemma_flatten_concat(a.drop_first(), b);
        assert((a + b).flatten() =~= a.flatten() + b.flatten());
    }
}


// ---------------------------------------------------------------------------
// Walking the syntax tree
// ---------------------------------------------------------------------------

/// Kinds of node that make chunks of their own.
pub open spec fn item_kinds() -> Seq<Seq<char>> {
    seq![
        "function_item"@,
        "async_function_item"@,
        "struct_item"@,
        "enum_item"@,
        "impl_item"@,
        "trait_item"@,
        "mod_item"@,
        "type_item"@,
        "const_item"@,
        "static_item"@,
        "extern_crate_declaration"@,
        "macro_definition"@,
    ]
}

/// Kinds of node whose items are chunked one by one inside the container's wrapper.
pub open spec fn container_kinds() -> Seq<Seq<char>> {
    seq!["mod_item"@, "trait_item"@, "impl_item"@]
}

/// The kind of the node that holds a container's body.
pub open spec fn declaration_list_kind() -> Seq<char> {
    "declaration_list"@
}

pub open spec fn is_item(k: Seq<char>) -> bool {
    item_kinds().contains(k)
}

pub open spec fn is_container(k: Seq<char>) -> bool {
    container_kinds().contains(k)
}

/// The node kinds the chunker looks for, as strings.
pub struct Kinds {
    pub items: Vec<String>,
    pub containers: Vec<String>,
    pub declaration_list: String,
}

impl Kinds {
    pub open spec fn wf(&self) -> bool {
        &&& strings_view(self.items@) == item_kinds()
        &&& strings_view(self.containers@) == container_kinds()
        &&& self.declaration_list@ == declaration_list_kind()
    }

    pub fn new() -> (k: Kinds)
        ensures
            k.wf(),
    {
        let mut items: Vec<String> = Vec::new();
        items.push("function_item".to_string());
        items.push("async_function_item".to_string());
        items.push("struct_item".to_string());
        items.push("enum_item".to_string());
        items.push("impl_item".to_string());
        items.push("trait_item".to_string());
        items.push("mod_item".to_string());
        items.push("type_item".to_string());
        items.push("const_item".to_string());
        items.push("static_item".to_string());
        items.push("extern_crate_declaration".to_string());
        items.push("macro_definition".to_string());
        let mut containers: Vec<String> = Vec::new();
        containers.push("mod_item".to_string());
        containers.push("trait_item".to_string());
        containers.push("impl_item".to_string());
        let k = Kinds { items, containers, declaration_list: "declaration_list".to_string() };
        assert(strings_view(k.items@) =~= item_kinds());
        assert(strings_view(k.containers@) =~= container_kinds());
        k
    }
}

/// Whether `kind` is one of `list`.
fn kind_in(kind: &String, list: &Vec<String>) -> (b: bool)
    ensures
        b == strings_view(list@).contains(kind@),
{
    let mut j: usize = 0;
    while j < list.len()
        invariant
            0 <= j <= list@.len(),
            forall|q: int| 0 <= q < j ==> strings_view(list@)[q] != kind@,
        decreases list@.len() - j,
    {
        if list[j] == *kind {
            assert(strings_view(list@)[j as int] == kind@);
            return true;
        }
        j = j + 1;
    }
    false
}

/// The first of the nodes `cs[k..]` of kind `kind`.
pub open spec fn first_of_kind(nodes: Seq<NodeView>, cs: Seq<int>, kind: Seq<char>, k: int) -> Option<
    int,
>
    decreases cs.len() - k,
{
    if k < 0 || k >= cs.len() {
        None
    } else if nodes[cs[k]].kind == kind {
        Some(cs[k])
    } else {
        first_of_kind(nodes, cs, kind, k + 1)
    }
}

/// The children of a container's `declaration_list` child; empty when it has none.
pub open spec fn declaration_children(nodes: Seq<NodeView>, i: int) -> Seq<int> {
    match first_of_kind(nodes, children(nodes, i), declaration_list_kind(), 0) {
        Some(d) => children(nodes, d),
        None => seq![],
    }
}

/// The nodes of `cs[k..]` whose kind is an item kind.
pub open spec fn items_in(nodes: Seq<NodeView>, cs: Seq<int>, k: int) -> Seq<int>
    decreases cs.len() - k,
{
    if k < 0 || k >= cs.len() {
        seq![]
    } else if is_item(nodes[cs[k]].kind) {
        seq![cs[k]] + items_in(nodes, cs, k + 1)
    } else {
        items_in(nodes, cs, k + 1)
    }
}

/// The items inside a container.
pub open spec fn item_children(nodes: Seq<NodeView>, i: int) -> Seq<int> {
    items_in(nodes, declaration_children(nodes, i), 0)
}

proof fn lemma_items_in_range(nodes: Seq<NodeView>, cs: Seq<int>, k: int, lo: int)
    requires
        forall|j: int| 0 <= j < cs.len() ==> lo < #[trigger] cs[j] < nodes.len(),
    ensures
        forall|j: int|
            0 <= j < items_in(nodes, cs, k).len() ==> lo < #[trigger] items_in(nodes, cs, k)[j]
                < nodes.len(),
    decreases cs.len() - k,
{
    if 0 <= k < cs.len() {
        lemma_items_in_range(nodes, cs, k + 1, lo);
        let rest = items_in(nodes, cs, k + 1);
        if is_item(nodes[cs[k]].kind) {
            assert forall|j: int| 0 <= j < items_in(nodes, cs, k).len() implies lo
                < #[trigger] items_in(nodes, cs, k)[j] < nodes.len() by {
                if j > 0 {
                    assert(items_in(nodes, cs, k)[j] == rest[j - 1]);
                }
            }
        }
    }
}

proof fn lemma_first_of_kind_range(nodes: Seq<NodeView>, cs: Seq<int>, kind: Seq<char>, k: int)
    ensures
        first_of_kind(nodes, cs, kind, k) matches Some(d) ==> exists|j: int|
            0 <= j < cs.len() && cs[j] == d,
    decreases cs.len() - k,
{
    if 0 <= k < cs.len() {
        lemma_first_of_kind_range(nodes, cs, kind, k + 1);
    }
}

/// Every item of a container comes after it in the preorder list.
pub proof fn lemma_item_children_range(nodes: Seq<NodeView>, i: int)
    requires
        0 <= i < nodes.len(),
    ensures
        forall|j: int|
            0 <= j < item_children(nodes, i).len() ==> i < #[trigger] item_children(nodes, i)[j]
                < nodes.len(),
{
    lemma_children_from_range(nodes, i, i + 1);
    let cs = children(nodes, i);
    lemma_first_of_kind_range(nodes, cs, declaration_list_kind(), 0);
    match first_of_kind(nodes, cs, declaration_list_kind(), 0) {
        Some(d) => {
            let j = choose|j: int| 0 <= j < cs.len() && cs[j] == d;
            assert(cs[j] == d);
            lemma_children_from_range(nodes, d, d + 1);
            lemma_items_in_range(nodes, children(nodes, d), 0, i);
        },
        None => {
            lemma_items_in_range(nodes, seq![], 0, i);
        },
    }
}

/// Converts positions to the integers that the specifications speak of.
pub open spec fn positions(v: Seq<usize>) -> Seq<int> {
    v.map_values(|x: usize| x as int)
}

/// The first node of `cs` that is a `declaration_list`.
fn find_declaration_list(nodes: &Vec<SyntaxNode>, kinds: &Kinds, cs: &Vec<usize>) -> (r: Option<
    usize,
>)
    requires
        kinds.wf(),
        forall|j: int| 0 <= j < cs@.len() ==> #[trigger] cs@[j] < nodes@.len(),
    ensures
        r matches Some(d) ==> first_of_kind(
            nodes_view(nodes@),
            positions(cs@),
            declaration_list_kind(),
            0,
        ) == Some(d as int) && d < nodes@.len(),
        r is None ==> first_of_kind(nodes_view(nodes@), positions(cs@), declaration_list_kind(), 0)
            is None,
{
    let ghost nv = nodes_view(nodes@);
    let mut k: usize = 0;
    while k < cs.len()
        invariant
            nv == nodes_view(nodes@),
            kinds.wf(),
            forall|j: int| 0 <= j < cs@.len() ==> #[trigger] cs@[j] < nodes@.len(),
            0 <= k <= cs@.len(),
            first_of_kind(nv, positions(cs@), declaration_list_kind(), 0) == first_of_kind(
                nv,
                positions(cs@),
                declaration_list_kind(),
                k as int,
            ),
        decreases cs@.len() - k,
    {
        let c = cs[k];
        assert(nv[c as int] == nodes@[c as int]@);
        assert(positions(cs@)[k as int] == c as int);
        if nodes[c].kind == kinds.declaration_list {
            return Some(c);
        }
        k = k + 1;
    }
    None
}

/// The positions of the items inside container `i`.
fn container_items(nodes: &Vec<SyntaxNode>, kinds: &Kinds, i: usize) -> (r: Vec<usize>)
    requires
        i < nodes@.len(),
        kinds.wf(),
    ensures
        positions(r@) == item_children(nodes_view(nodes@), i as int),
        forall|j: int| 0 <= j < r@.len() ==> i < #[trigger] r@[j] < nodes@.len(),
{
    let ghost nv = nodes_view(nodes@);
    let cs = node_children(nodes, i);
    let d = find_declaration_list(nodes, kinds, &cs);
    let decl: Vec<usize> = match d {
        Some(dd) => node_children(nodes, dd),
        None => Vec::new(),
    };
    proof {
        if d is None {
            assert(positions(decl@) =~= Seq::<int>::empty());
        }
    }
    assert(positions(decl@) == declaration_children(nv, i as int));
    let mut r: Vec<usize> = Vec::new();
    let mut q: usize = 0;
    proof {
        lemma_item_children_range(nv, i as int);
    }
    while q < decl.len()
        invariant
            nv == nodes_view(nodes@),
            kinds.wf(),
            positions(decl@) == declaration_children(nv, i as int),
            forall|j: int| 0 <= j < decl@.len() ==> #[trigger] decl@[j] < nodes@.len(),
            0 <= q <= decl@.len(),
            positions(r@) + items_in(nv, positions(decl@), q as int) == item_children(
                nv,
                i as int,
            ),
            forall|j: int| 0 <= j < item_children(nv, i as int).len() ==> i < #[trigger] item_children(nv, i as int)[j] < nodes@.len(),
        decreases decl@.len() - q,
    {
        let c = decl[q];
        assert(nv[c as int] == nodes@[c as int]@);
        assert(positions(decl@)[q as int] == c as int);
        let ghost before = r@;
        if kind_in(&nodes[c].kind, &kinds.items) {
            r.push(c);
            assert(positions(r@) =~= positions(before).push(c as int));
            assert(positions(r@) + items_in(nv, positions(decl@), q + 1) =~= positions(before)
                + items_in(nv, positions(decl@), q as int));
        }
        q = q + 1;
    }
    assert(items_in(nv, positions(decl@), q as int) =~= Seq::<int>::empty());
    assert(positions(r@) =~= item_children(nv, i as int));
    assert forall|j: int| 0 <= j < r@.len() implies i < #[trigger] r@[j] < nodes@.len() by {
        assert(positions(r@)[j] == r@[j] as int);
    }
    r
}


/// Walking `s` from index `i`, the index at which exactly `b` more bytes have been passed;
/// `None` when `b` bytes on from `i` do not end on a character boundary.
pub open spec fn chars_for_bytes(s: Seq<char>, i: int, b: int) -> Option<int>
    decreases s.len() - i,
{
    if b == 0 {
        Some(i)
    } else if b < 0 || i < 0 || i >= s.len() {
        None
    } else {
        chars_for_bytes(s, i + 1, b - char_width(s[i]))
    }
}

/// The number of characters of `s` that take exactly `b` bytes.
fn chars_at_byte(s: &[char], b: usize) -> (r: Option<usize>)
    ensures
        r matches Some(k) ==> chars_for_bytes(s@, 0, b as int) == Some(k as int) && k <= s@.len(),
        r is None ==> chars_for_bytes(s@, 0, b as int) is None,
{
    let mut i: usize = 0;
    let mut rem: usize = b;
    while rem > 0
        invariant
            0 <= i <= s@.len(),
            chars_for_bytes(s@, 0, b as int) == chars_for_bytes(s@, i as int, rem as int),
        decreases rem,
    {
        if i >= s.len() {
            return None;
        }
        let w = char_utf8_width(s[i]);
        if w > rem {
            assert(chars_for_bytes(s@, i + 1, rem - w) is None);
            return None;
        }
        rem = rem - w;
        i = i + 1;
    }
    Some(i)
}

/// The text of a node: its bytes of `code`, decoded as `String::from_utf8_lossy` does.
pub open spec fn node_text(code: Seq<u8>, n: NodeView) -> Seq<char> {
    lossy_utf8(code.subrange(n.start_byte as int, n.end_byte as int))
}

/// Whether a node's byte range lies within `code`.
pub open spec fn in_code(code: Seq<u8>, n: NodeView) -> bool {
    n.start_byte <= n.end_byte <= code.len()
}

/// The header of container `i` whose text is `text`: the text up to the container's first
/// item (all of it when the first item starts where the container does, or when there is
/// none), trailing whitespace removed, then `'\n'`. `None` where the first item starts
/// before the container or the cut would not fall between two characters of the text.
pub open spec fn header_of(nodes: Seq<NodeView>, i: int, text: Seq<char>) -> Option<Seq<char>> {
    let n = nodes[i];
    let items = item_children(nodes, i);
    if items.len() > 0 && nodes[items[0]].start_byte < n.start_byte {
        None
    } else {
        let he = if items.len() > 0 {
            nodes[items[0]].start_byte - n.start_byte
        } else {
            0
        };
        if he == 0 {
            Some(trim_end(text).push('\n'))
        } else {
            match chars_for_bytes(text, 0, he) {
                Some(k) => Some(trim_end(text.take(k)).push('\n')),
                None => None,
            }
        }
    }
}

proof fn lemma_chars_for_bytes_blen(s: Seq<char>, i: int, b: int)
    requires
        0 <= i <= s.len(),
    ensures
        chars_for_bytes(s, i, b) matches Some(k) ==> i <= k <= s.len() && blen(s.subrange(i, k))
            == b,
    decreases s.len() - i,
{
    if b == 0 {
        assert(s.subrange(i, i) =~= Seq::<char>::empty());
    } else if b > 0 && i < s.len() {
        lemma_chars_for_bytes_blen(s, i + 1, b - char_width(s[i]));
        if let Some(k) = chars_for_bytes(s, i, b) {
            assert(s.subrange(i, k) =~= seq![s[i]] + s.subrange(i + 1, k));
            lemma_blen_concat(seq![s[i]], s.subrange(i + 1, k));
            lemma_blen_single(s[i]);
        }
    }
}

/// A container's header is its text before its first item (all of it when it has no
/// items), with trailing whitespace removed and a newline added; the first item's byte
/// offset in the container must fall on a character boundary of that text.
pub proof fn law_header_is_text_before_first_item(nodes: Seq<NodeView>, i: int, text: Seq<char>)
    requires
        0 <= i < nodes.len(),
    ensures
        ({
            let items = item_children(nodes, i);
            let he = if items.len() > 0 {
                nodes[items[0]].start_byte - nodes[i].start_byte
            } else {
                0
            };
            header_of(nodes, i, text) matches Some(h) ==> if he == 0 {
                h == trim_end(text).push('\n')
            } else {
                exists|k: int|
                    0 <= k <= text.len() && #[trigger] blen(text.take(k)) == he && h == trim_end(
                        text.take(k),
                    ).push('\n')
            }
        }),
{
    let items = item_children(nodes, i);
    let he = if items.len() > 0 {
        nodes[items[0]].start_byte - nodes[i].start_byte
    } else {
        0
    };
    lemma_chars_for_bytes_blen(text, 0, he);
    if let Some(k) = chars_for_bytes(text, 0, he) {
        assert(text.subrange(0, k) =~= text.take(k));
    }
}

pub open spec fn container_header(nodes: Seq<NodeView>, code: Seq<u8>, i: int) -> Option<Seq<char>> {
    header_of(nodes, i, node_text(code, nodes[i]))
}

/// The wrapper drawn around the items of container `i`: its header, and its indentation
/// (one level deeper inside the body).
pub open spec fn container_wrap(nodes: Seq<NodeView>, code: Seq<u8>, i: int) -> Option<WrapView> {
    let n = nodes[i];
    if !in_code(code, n) {
        None
    } else {
        let text = node_text(code, n);
        match container_header(nodes, code, i) {
            Some(h) => Some(
                WrapView {
                    header: h,
                    body_indent: first_indent(lines_of(text)) + spaces(4),
                    closing_indent: first_indent(lines_of(text)),
                },
            ),
            None => None,
        }
    }
}

fn trim_end_with_newline(s: &[char], k: usize) -> (r: String)
    requires
        k <= s@.len(),
    ensures
        r@ == trim_end(s@.take(k as int)).push('\n'),
{
    let mut v: Vec<char> = Vec::new();
    let mut i: usize = 0;
    while i < k
        invariant
            0 <= i <= k <= s@.len(),
            v@ == s@.take(i as int),
        decreases k - i,
    {
        v.push(s[i]);
        i = i + 1;
        assert(v@ =~= s@.take(i as int));
    }
    let t = count_trailing_ws(v.as_slice());
    let keep = k - t;
    v.truncate(keep);
    v.push('\n');
    assert(v@ =~= trim_end(s@.take(k as int)).push('\n'));
    string_from_chars(v.as_slice())
}

/// The header of container `i`, whose text is `text`; see `header_of`.
fn extract_container_header(nodes: &Vec<SyntaxNode>, i: usize, items: &Vec<usize>, text: &String) -> (r:
    Option<String>)
    requires
        i < nodes@.len(),
        positions(items@) == item_children(nodes_view(nodes@), i as int),
        forall|j: int| 0 <= j < items@.len() ==> #[trigger] items@[j] < nodes@.len(),
    ensures
        r matches Some(h) ==> header_of(nodes_view(nodes@), i as int, text@) == Some(h@),
        r is None ==> header_of(nodes_view(nodes@), i as int, text@) is None,
{
    let ghost nv = nodes_view(nodes@);
    assert(nv[i as int] == nodes@[i as int]@);
    let chars = chars_of(text.as_str());
    let node_start = nodes[i].start_byte;
    let header_end = if items.len() > 0 {
        let first = items[0];
        assert(positions(items@)[0] == first as int);
        assert(nv[first as int] == nodes@[first as int]@);
        let cs = nodes[first].start_byte;
        if cs < node_start {
            return None;
        }
        cs - node_start
    } else {
        0
    };
    if header_end == 0 {
        assert(chars@.take(chars@.len() as int) =~= chars@);
        Some(trim_end_with_newline(chars.as_slice(), chars.len()))
    } else {
        match chars_at_byte(chars.as_slice(), header_end) {
            Some(k) => Some(trim_end_with_newline(chars.as_slice(), k)),
            None => None,
        }
    }
}


/// The wrapper of container `i`, whose items are `items`; see `container_wrap`.
fn container_wrapper(nodes: &Vec<SyntaxNode>, code: &[u8], i: usize, items: &Vec<usize>) -> (r:
    Option<WrapInfo>)
    requires
        i < nodes@.len(),
        positions(items@) == item_children(nodes_view(nodes@), i as int),
        forall|j: int| 0 <= j < items@.len() ==> #[trigger] items@[j] < nodes@.len(),
    ensures
        r matches Some(w) ==> container_wrap(nodes_view(nodes@), code@, i as int) == Some(w@),
        r is None ==> container_wrap(nodes_view(nodes@), code@, i as int) is None,
{
    let ghost nv = nodes_view(nodes@);
    assert(nv[i as int] == nodes@[i as int]@);
    let node = &nodes[i];
    if !(node.start_byte <= node.end_byte && node.end_byte <= code.len()) {
        return None;
    }
    let text = utf8_lossy(slice_subrange(code, node.start_byte, node.end_byte));
    let header = match extract_container_header(nodes, i, items, &text) {
        Some(h) => h,
        None => {
            return None;
        },
    };
    proof {
        reveal_strlit("    ");
    }
    let mut body_indent = detect_indent(text.as_str());
    body_indent.append("    ");
    assert(spaces(4) =~= "    "@);
    let closing_indent = detect_indent(text.as_str());
    Some(WrapInfo { header, body_indent, closing_indent })
}

pub open spec fn opt_concat(a: Option<Seq<ChunkView>>, b: Option<Seq<ChunkView>>) -> Option<
    Seq<ChunkView>,
> {
    match a {
        Some(x) => match b {
            Some(y) => Some(x + y),
            None => None,
        },
        None => None,
    }
}

/// The chunks with their file path set to `fp`.
pub open spec fn with_path(cs: Seq<ChunkView>, fp: Seq<char>) -> Seq<ChunkView> {
    cs.map_values(
        |c: ChunkView|
            ChunkView {
                file_path: fp,
                line_start: c.line_start,
                line_end: c.line_end,
                content: c.content,
            },
    )
}

/// Whether the sizes met while splitting a large item stay within `usize`.
pub open spec fn large_fits(text: Seq<char>, ws: Seq<WrapView>, line_start: int) -> bool {
    &&& text.len() > 0
    &&& line_start + lines_of(text).len() <= usize::MAX
    &&& blen(wrapped(seq!['X'], ws, true, true)) + blen(text) + 9 <= usize::MAX
}

/// The chunks of item `i`: none when it is shorter than `MIN_CHUNK_CHARS` bytes, one
/// wrapped chunk when it fits in `MAX_CHUNK_CHARS` bytes, and otherwise its split parts.
/// Lines are numbered from 1. `None` where the item cannot be chunked (see `process`).
pub open spec fn item_chunks(
    nodes: Seq<NodeView>,
    code: Seq<u8>,
    fp: Seq<char>,
    i: int,
    ws: Seq<WrapView>,
    is_first: bool,
    is_last: bool,
) -> Option<Seq<ChunkView>> {
    let n = nodes[i];
    if !in_code(code, n) {
        None
    } else {
        let text = node_text(code, n);
        if blen(text) < MIN_CHUNK_CHARS {
            Some(seq![])
        } else if n.start_row >= usize::MAX || n.end_row >= usize::MAX {
            None
        } else if blen(text) <= MAX_CHUNK_CHARS {
            Some(
                seq![
                    ChunkView {
                        file_path: fp,
                        line_start: (n.start_row + 1) as usize,
                        line_end: (n.end_row + 1) as usize,
                        content: wrapped(text, ws, is_first, is_last),
                    },
                ],
            )
        } else if large_fits(text, ws, n.start_row + 1) {
            Some(
                with_path(
                    large_chunks(text, ws, (n.start_row + 1) as usize, (n.end_row + 1) as usize),
                    fp,
                ),
            )
        } else {
            None
        }
    }
}

/// The chunks of node `i` inside the wrappers `ws`. A container contributes the chunks of
/// its items, each inside one more wrapper; an item contributes `item_chunks`; other nodes
/// contribute nothing. `None` when the node cannot be chunked: a byte range outside the
/// code, a container header that does not fall between characters, a row number at the
/// end of `usize`, or sizes beyond `usize` in a split.
pub open spec fn process(
    nodes: Seq<NodeView>,
    code: Seq<u8>,
    fp: Seq<char>,
    i: int,
    ws: Seq<WrapView>,
    is_first: bool,
    is_last: bool,
) -> Option<Seq<ChunkView>>
    decreases nodes.len() - i, 1int, 0int,
{
    if i < 0 || i >= nodes.len() {
        Some(seq![])
    } else if is_container(nodes[i].kind) {
        match container_wrap(nodes, code, i) {
            Some(w) => items_chunks(nodes, code, fp, i, item_children(nodes, i), 0, ws.push(w)),
            None => None,
        }
    } else if !is_item(nodes[i].kind) {
        Some(seq![])
    } else {
        item_chunks(nodes, code, fp, i, ws, is_first, is_last)
    }
}

/// The chunks of the items `items[k..]` of container `parent`; the first item of the
/// container is drawn as first and the last as last.
pub open spec fn items_chunks(
    nodes: Seq<NodeView>,
    code: Seq<u8>,
    fp: Seq<char>,
    parent: int,
    items: Seq<int>,
    k: int,
    ws: Seq<WrapView>,
) -> Option<Seq<ChunkView>>
    decreases nodes.len() - parent, 0int, items.len() - k,
{
    if k < 0 || k >= items.len() {
        Some(seq![])
    } else {
        let c = items[k];
        opt_concat(
            if parent < c < nodes.len() {
                process(nodes, code, fp, c, ws, k == 0, k == items.len() - 1)
            } else {
                Some(seq![])
            },
            items_chunks(nodes, code, fp, parent, items, k + 1, ws),
        )
    }
}

pub open spec fn opt_prepend(acc: Seq<ChunkView>, o: Option<Seq<ChunkView>>) -> Option<
    Seq<ChunkView>,
> {
    match o {
        Some(t) => Some(acc + t),
        None => None,
    }
}

fn copy_wraps(ws: &Vec<WrapInfo>) -> (r: Vec<WrapInfo>)
    ensures
        wraps_view(r@) == wraps_view(ws@),
{
    let mut r: Vec<WrapInfo> = Vec::new();
    let mut i: usize = 0;
    while i < ws.len()
        invariant
            0 <= i <= ws@.len(),
            r@.len() == i,
            forall|k: int| 0 <= k < i ==> #[trigger] r@[k]@ == ws@[k]@,
        decreases ws@.len() - i,
    {
        r.push(copy_wrap(&ws[i]));
        i = i + 1;
    }
    assert(wraps_view(r@) =~= wraps_view(ws@));
    r
}

/// Byte length of `s`, or `None` when it does not fit in `usize`.
fn checked_utf8_len(s: &String) -> (r: Option<usize>)
    ensures
        r matches Some(n) ==> n == blen(s@),
        r is None ==> blen(s@) > usize::MAX,
{
    let cs = chars_of(s.as_str());
    let mut n: usize = 0;
    let mut i: usize = 0;
    while i < cs.len()
        invariant
            0 <= i <= cs@.len(),
            cs@ == s@,
            n == blen(cs@.take(i as int)),
        decreases cs@.len() - i,
    {
        proof {
            lemma_blen_take_step(cs@, i as int);
        }
        let w = char_utf8_width(cs[i]);
        if n > usize::MAX - w {
            proof {
                lemma_blen_split(cs@, i + 1);
            }
            return None;
        }
        n = n + w;
        i = i + 1;
    }
    assert(cs@.take(i as int) =~= cs@);
    Some(n)
}

/// Chunks of item `i`; see `item_chunks`.
fn item_node_chunks(
    nodes: &Vec<SyntaxNode>,
    code: &[u8],
    file_path: &String,
    i: usize,
    wrappers: &Vec<WrapInfo>,
    is_first: bool,
    is_last: bool,
    chunks: &mut Vec<Chunk>,
) -> (ok: bool)
    requires
        i < nodes@.len(),
    ensures
        ok == item_chunks(nodes_view(nodes@), code@, file_path@, i as int, wraps_view(wrappers@), is_first, is_last) is Some,
        ok ==> chunks_view(final(chunks)@) == chunks_view(old(chunks)@) + item_chunks(
            nodes_view(nodes@),
            code@,
            file_path@,
            i as int,
            wraps_view(wrappers@),
            is_first,
            is_last,
        )->0,
{
    let ghost nv = nodes_view(nodes@);
    let ghost ws = wraps_view(wrappers@);
    assert(nv[i as int] == nodes@[i as int]@);
    let node = &nodes[i];
    if !(node.start_byte <= node.end_byte && node.end_byte <= code.len()) {
        return false;
    }
    let text = utf8_lossy(slice_subrange(code, node.start_byte, node.end_byte));
    let text_len = str_len(&text);
    if text_len < MIN_CHUNK_CHARS {
        assert(chunks_view(chunks@) =~= chunks_view(chunks@) + Seq::<ChunkView>::empty());
        return true;
    }
    if node.start_row >= usize::MAX || node.end_row >= usize::MAX {
        return false;
    }
    let line_start = node.start_row + 1;
    let line_end = node.end_row + 1;
    if text_len <= MAX_CHUNK_CHARS {
        let wrapped = build_wrapped_chunk(text.as_str(), wrappers.as_slice(), is_first, is_last);
        let ghost before = chunks_view(chunks@);
        chunks.push(Chunk { file_path: file_path.clone(), line_start, line_end, content: wrapped });
        assert(chunks_view(chunks@) =~= before + item_chunks(nv, code@, file_path@, i as int, ws, is_first, is_last)->0);
        return true;
    }
    // the sizes of the split must stay within usize
    let tchars = chars_of(text.as_str());
    let tlines = split_lines(tchars.as_slice());
    assert(char_vecs_view(tlines@).len() == tlines@.len());
    proof {
        lemma_blen_ge_len(text@);
    }
    let dummy = build_wrapped_chunk("X", wrappers.as_slice(), true, true);
    proof {
        reveal_strlit("X");
        assert("X"@ =~= seq!['X']);
    }
    let dummy_len = match checked_utf8_len(&dummy) {
        Some(d) => d,
        None => {
            return false;
        },
    };
    if tlines.len() > usize::MAX - line_start || dummy_len > usize::MAX - 9 - text_len {
        return false;
    }
    let parts = split_large_content(text.as_str(), wrappers.as_slice(), line_start, line_end);
    let ghost before = chunks_view(chunks@);
    let ghost big = large_chunks(text@, ws, line_start, line_end);
    let mut q: usize = 0;
    while q < parts.len()
        invariant
            0 <= q <= parts@.len(),
            chunks_view(parts@) == big,
            chunks_view(chunks@) == before + with_path(big, file_path@).take(q as int),
        decreases parts@.len() - q,
    {
        let p = &parts[q];
        let ghost prev = chunks_view(chunks@);
        assert(chunks_view(parts@)[q as int] == p@);
        chunks.push(
            Chunk {
                file_path: file_path.clone(),
                line_start: p.line_start,
                line_end: p.line_end,
                content: p.content.clone(),
            },
        );
        assert(chunks_view(chunks@) =~= prev.push(with_path(big, file_path@)[q as int]));
        assert(with_path(big, file_path@).take(q + 1) =~= with_path(big, file_path@).take(
            q as int,
        ).push(with_path(big, file_path@)[q as int]));
        q = q + 1;
    }
    assert(with_path(big, file_path@).take(q as int) =~= with_path(big, file_path@));
    true
}


/// Appends the chunks of node `i`, inside `wrappers`, to `chunks`; see `process`. Returns
/// `false`, leaving `chunks` in an unspecified state, when the node cannot be chunked.
fn process_node(
    nodes: &Vec<SyntaxNode>,
    code: &[u8],
    file_path: &String,
    kinds: &Kinds,
    i: usize,
    wrappers: &Vec<WrapInfo>,
    is_first: bool,
    is_last: bool,
    chunks: &mut Vec<Chunk>,
) -> (ok: bool)
    requires
        i < nodes@.len(),
        kinds.wf(),
    ensures
        ok == process(nodes_view(nodes@), code@, file_path@, i as int, wraps_view(wrappers@), is_first, is_last) is Some,
        ok ==> chunks_view(final(chunks)@) == chunks_view(old(chunks)@) + process(
            nodes_view(nodes@),
            code@,
            file_path@,
            i as int,
            wraps_view(wrappers@),
            is_first,
            is_last,
        )->0,
    decreases nodes@.len() - i, 1int, 0int,
{
    let ghost nv = nodes_view(nodes@);
    assert(nv[i as int] == nodes@[i as int]@);
    if kind_in(&nodes[i].kind, &kinds.containers) {
        let items = container_items(nodes, kinds, i);
        let w = match container_wrapper(nodes, code, i, &items) {
            Some(w) => w,
            None => {
                return false;
            },
        };
        let mut new_wrappers = copy_wraps(wrappers);
        let ghost ws0 = wraps_view(new_wrappers@);
        new_wrappers.push(w);
        assert(wraps_view(new_wrappers@) =~= wraps_view(wrappers@).push(w@));
        return process_items(nodes, code, file_path, kinds, i, &items, &new_wrappers, chunks);
    }
    if !kind_in(&nodes[i].kind, &kinds.items) {
        assert(chunks_view(chunks@) =~= chunks_view(chunks@) + Seq::<ChunkView>::empty());
        return true;
    }
    item_node_chunks(nodes, code, file_path, i, wrappers, is_first, is_last, chunks)
}

/// Appends the chunks of the items of container `parent`; see `items_chunks`.
fn process_items(
    nodes: &Vec<SyntaxNode>,
    code: &[u8],
    file_path: &String,
    kinds: &Kinds,
    parent: usize,
    items: &Vec<usize>,
    wrappers: &Vec<WrapInfo>,
    chunks: &mut Vec<Chunk>,
) -> (ok: bool)
    requires
        parent < nodes@.len(),
        kinds.wf(),
        forall|j: int| 0 <= j < items@.len() ==> parent < #[trigger] items@[j] < nodes@.len(),
    ensures
        ok == items_chunks(nodes_view(nodes@), code@, file_path@, parent as int, positions(items@), 0, wraps_view(wrappers@)) is Some,
        ok ==> chunks_view(final(chunks)@) == chunks_view(old(chunks)@) + items_chunks(
            nodes_view(nodes@),
            code@,
            file_path@,
            parent as int,
            positions(items@),
            0,
            wraps_view(wrappers@),
        )->0,
    decreases nodes@.len() - parent, 0int, items@.len(),
{
    let ghost nv = nodes_view(nodes@);
    let ghost ws = wraps_view(wrappers@);
    let ghost its = positions(items@);
    let ghost start = chunks_view(chunks@);
    let ghost mut acc: Seq<ChunkView> = seq![];
    let count = items.len();
    let mut k: usize = 0;
    assert(start + acc =~= start);
    while k < count
        invariant
            count == items@.len(),
            0 <= k <= count,
            nv == nodes_view(nodes@),
            ws == wraps_view(wrappers@),
            its == positions(items@),
            parent < nodes@.len(),
            kinds.wf(),
            forall|j: int| 0 <= j < items@.len() ==> parent < #[trigger] items@[j] < nodes@.len(),
            chunks_view(chunks@) == start + acc,
            opt_prepend(acc, items_chunks(nv, code@, file_path@, parent as int, its, k as int, ws))
                == items_chunks(nv, code@, file_path@, parent as int, its, 0, ws),
        decreases count - k,
    {
        let c = items[k];
        assert(its[k as int] == c as int);
        let ghost head = process(nv, code@, file_path@, c as int, ws, k == 0, k == count - 1);
        let ghost tail = items_chunks(nv, code@, file_path@, parent as int, its, k + 1, ws);
        assert(items_chunks(nv, code@, file_path@, parent as int, its, k as int, ws) == opt_concat(
            head,
            tail,
        ));
        let ok = process_node(nodes, code, file_path, kinds, c, wrappers, k == 0, k == count - 1, chunks);
        if !ok {
            return false;
        }
        proof {
            let h = head->0;
            match tail {
                Some(t) => {
                    assert(acc + (h + t) =~= (acc + h) + t);
                },
                None => {},
            }
            acc = acc + h;
        }
        assert(chunks_view(chunks@) =~= start + acc);
        k = k + 1;
    }
    assert(items_chunks(nv, code@, file_path@, parent as int, its, k as int, ws) == Some(
        Seq::<ChunkView>::empty(),
    ));
    assert(acc + Seq::<ChunkView>::empty() =~= acc);
    true
}

/// The chunks of the top-level items among the root's children `cs[k..]`; each is drawn
/// as both first and last, outside any wrapper.
pub open spec fn top_chunks(nodes: Seq<NodeView>, code: Seq<u8>, fp: Seq<char>, cs: Seq<int>, k: int) -> Option<
    Seq<ChunkView>,
>
    decreases cs.len() - k,
{
    if k < 0 || k >= cs.len() {
        Some(seq![])
    } else {
        let c = cs[k];
        opt_concat(
            if 0 <= c < nodes.len() && is_item(nodes[c].kind) {
                process(nodes, code, fp, c, seq![], true, true)
            } else {
                Some(seq![])
            },
            top_chunks(nodes, code, fp, cs, k + 1),
        )
    }
}

/// The chunks of a source file whose syntax tree has the preorder nodes `nodes` (the first
/// one the root); `None` when the file cannot be chunked (see `process`).
pub open spec fn file_chunks(nodes: Seq<NodeView>, code: Seq<u8>, fp: Seq<char>) -> Option<Seq<ChunkView>> {
    if nodes.len() == 0 {
        Some(seq![])
    } else {
        top_chunks(nodes, code, fp, children(nodes, 0), 0)
    }
}

/// The chunks of `code`, whose syntax tree has the preorder nodes `nodes`, every chunk
/// labelled with `file_path`; `None` when the tree does not fit the code (see `process`).
pub fn chunk_tree(file_path: &str, code: &[u8], nodes: &Vec<SyntaxNode>) -> (r: Option<Vec<Chunk>>)
    ensures
        r matches Some(v) ==> file_chunks(nodes_view(nodes@), code@, file_path@) == Some(
            chunks_view(v@),
        ),
        r is None ==> file_chunks(nodes_view(nodes@), code@, file_path@) is None,
{
    let ghost nv = nodes_view(nodes@);
    let mut chunks: Vec<Chunk> = Vec::new();
    if nodes.len() == 0 {
        assert(chunks_view(chunks@) =~= Seq::<ChunkView>::empty());
        return Some(chunks);
    }
    let fp = file_path.to_string();
    let kinds = Kinds::new();
    let no_wrappers: Vec<WrapInfo> = Vec::new();
    assert(wraps_view(no_wrappers@) =~= Seq::<WrapView>::empty());
    let cs = node_children(nodes, 0);
    let ghost its = positions(cs@);
    let ghost mut acc: Seq<ChunkView> = seq![];
    let mut k: usize = 0;
    assert(chunks_view(chunks@) =~= acc);
    while k < cs.len()
        invariant
            0 <= k <= cs@.len(),
            nv == nodes_view(nodes@),
            its == positions(cs@),
            its == children(nv, 0),
            forall|j: int| 0 <= j < cs@.len() ==> 0 < #[trigger] cs@[j] < nodes@.len(),
            kinds.wf(),
            fp@ == file_path@,
            wraps_view(no_wrappers@) == Seq::<WrapView>::empty(),
            chunks_view(chunks@) == acc,
            opt_prepend(acc, top_chunks(nv, code@, fp@, its, k as int)) == top_chunks(
                nv,
                code@,
                fp@,
                its,
                0,
            ),
        decreases cs@.len() - k,
    {
        let c = cs[k];
        assert(its[k as int] == c as int);
        assert(nv[c as int] == nodes@[c as int]@);
        let ghost tail = top_chunks(nv, code@, fp@, its, k + 1);
        if kind_in(&nodes[c].kind, &kinds.items) {
            let ghost head = process(nv, code@, fp@, c as int, seq![], true, true);
            let ok = process_node(nodes, code, &fp, &kinds, c, &no_wrappers, true, true, &mut chunks);
            if !ok {
                return None;
            }
            proof {
                let h = head->0;
                match tail {
                    Some(t) => {
                        assert(acc + (h + t) =~= (acc + h) + t);
                    },
                    None => {},
                }
                acc = acc + h;
            }
        } else {
            proof {
                match tail {
                    Some(t) => {
                        assert(Seq::<ChunkView>::empty() + t =~= t);
                    },
                    None => {},
                }
            }
        }
        k = k + 1;
    }
    assert(acc + Seq::<ChunkView>::empty() =~= acc);
    Some(chunks)
}

/// The message of a parse that gave no tree.
pub open spec fn no_tree_message() -> Seq<char> {
    "Failed to parse code"@
}

/// The message for a tree whose nodes do not fit the code.
pub open spec fn misfit_message() -> Seq<char> {
    "Syntax tree does not fit the source code"@
}

/// The chunks of `code`, labelled with `file_path`, given what the parser returned for it:
/// its error unchanged, `Err(no_tree_message())` for no tree, and for a tree the chunks of
/// `chunk_tree`, or `Err(misfit_message())` where the tree does not fit the code.
pub fn chunks_from_parse(
    file_path: &str,
    code: &[u8],
    parsed: Result<Option<Vec<SyntaxNode>>, String>,
) -> (r: Result<Vec<Chunk>, String>)
    ensures
        parsed matches Err(e) ==> r matches Err(f) && f@ == e@,
        parsed matches Ok(None) ==> r matches Err(f) && f@ == no_tree_message(),
        parsed matches Ok(Some(nodes)) ==> match file_chunks(nodes_view(nodes@), code@, file_path@) {
            Some(cs) => r matches Ok(v) && chunks_view(v@) == cs,
            None => r matches Err(f) && f@ == misfit_message(),
        },
{
    proof {
        reveal_strlit("Failed to parse code");
        reveal_strlit("Syntax tree does not fit the source code");
    }
    match parsed {
        Err(e) => Err(e),
        Ok(None) => Err("Failed to parse code".to_string()),
        Ok(Some(nodes)) => match chunk_tree(file_path, code, &nodes) {
            Some(v) => Ok(v),
            None => Err("Syntax tree does not fit the source code".to_string()),
        },
    }
}

/// Cuts a Rust source file into chunks, each labelled with `file_path`: the chunks of
/// `file_chunks` for the tree that the parser gives, or `Err(misfit_message())` when that
/// tree does not fit the code. It succeeds whenever every container header ends on a
/// character boundary (where slicing the header would otherwise panic) and the sizes
/// involved fit in a `usize`.
pub fn chunk_file(file_path: &str, code: &[u8]) -> (r: Result<Vec<Chunk>, String>)
    ensures
        file_chunks(rust_syntax_nodes(code@), code@, file_path@) matches Some(cs) ==> (r matches Ok(
            v) && chunks_view(v@) == cs),
        file_chunks(rust_syntax_nodes(code@), code@, file_path@) is None ==> (r matches Err(e)
            && e@ == misfit_message()),
        forall|t: nat|
            headers_fit(rust_syntax_nodes(code@), code@) && #[trigger] sizes_fit(
                rust_syntax_nodes(code@),
                code@,
                t,
            ) ==> r is Ok,
{
    let parsed = parse_rust(code);
    proof {
        let nodes = rust_syntax_nodes(code@);
        assert forall|t: nat|
            headers_fit(nodes, code@) && #[trigger] sizes_fit(nodes, code@, t) implies file_chunks(
            nodes,
            code@,
            file_path@,
        ) is Some by {
            law_file_chunks_succeed(nodes, code@, file_path@, t);
        }
    }
    chunks_from_parse(file_path, code, parsed)
}

/// Every chunk in `cs` carries the file path `fp`, starts on a line numbered 1 or later,
/// and holds some text.
pub open spec fn labelled(cs: Seq<ChunkView>, fp: Seq<char>) -> bool {
    forall|k: int|
        0 <= k < cs.len() ==> (#[trigger] cs[k]).file_path == fp && cs[k].line_start >= 1
            && cs[k].content.len() > 0
}

/// A chunk's text inside its wrappers is never empty when the text is not.
proof fn lemma_wrapped_nonempty(c: Seq<char>, ws: Seq<WrapView>, is_first: bool, is_last: bool)
    requires
        c.len() > 0,
    ensures
        wrapped(c, ws, is_first, is_last).len() > 0,
{
    if ws.len() > 0 {
        let inner = wrap_prefix(ws, is_first, ws.len() as int) + ws.last().body_indent + c;
        assert(ensure_newline(inner).len() > 0);
    }
}

/// The chunks of a large item start on line `line_start` or later and hold some text.
proof fn lemma_large_chunks_labelled(
    content: Seq<char>,
    ws: Seq<WrapView>,
    line_start: usize,
    line_end: usize,
)
    requires
        content.len() > 0,
        line_start >= 1,
        line_start + lines_of(content).len() <= usize::MAX,
    ensures
        forall|i: int|
            0 <= i < large_chunks(content, ws, line_start, line_end).len() ==> (#[trigger] large_chunks(
                content,
                ws,
                line_start,
                line_end,
            )[i]).line_start >= 1 && large_chunks(content, ws, line_start, line_end)[i].content.len()
                > 0,
{
    let lines = lines_of(content);
    let se = signature_end(lines);
    let body = body_of(lines, se);
    let sig_text = joined(lines.take(se));
    let max = body_budget(ws, sig_text);
    let parts = split_parts(body, max);
    let cs = large_chunks(content, ws, line_start, line_end);
    if parts.len() <= 1 {
        lemma_wrapped_nonempty(content, ws, true, true);
    } else {
        let n = parts.len() as int;
        law_split_parts_concat(body, max);
        lemma_first_brace_range(lines, 0);
        lemma_lines_before_flatten(parts, n);
        assert(parts.take(n) =~= parts);
        assert(parts[0].len() > 0);
        assert(body.len() > 0);
        assert(body.len() == lines.len() - 1 - se);
        let dl = first_indent(body) + dots();
        assert forall|i: int| 0 <= i < n implies (#[trigger] cs[i]).line_start >= 1
            && cs[i].content.len() > 0 by {
            lemma_lines_before_grows(parts, i, n);
            assert(cs[i] == part_chunk(ws, sig_text, dl, parts, se, line_start, line_end, i));
            assert(line_start + se + lines_before(parts, i) <= usize::MAX);
            let pt = part_text(sig_text, dl, parts, i);
            assert(parts[i].len() > 0);
            assert(joined(parts[i]).len() > 0);
            assert(pt.len() > 0);
            lemma_wrapped_nonempty(pt, ws, true, true);
            assert(cs[i].content.len() > 0);
            lemma_lines_before_grows(parts, 0, i);
            assert(cs[i].line_start >= 1);
        }
    }
}

proof fn lemma_labelled_concat(a: Seq<ChunkView>, b: Seq<ChunkView>, fp: Seq<char>)
    requires
        labelled(a, fp),
        labelled(b, fp),
    ensures
        labelled(a + b, fp),
{
    assert forall|k: int| 0 <= k < (a + b).len() implies (#[trigger] (a + b)[k]).file_path == fp
        && (a + b)[k].line_start >= 1 && (a + b)[k].content.len() > 0 by {
        if k < a.len() {
            assert((a + b)[k] == a[k]);
        } else {
            assert((a + b)[k] == b[k - a.len()]);
        }
    }
}

proof fn lemma_process_labelled(
    nodes: Seq<NodeView>,
    code: Seq<u8>,
    fp: Seq<char>,
    i: int,
    ws: Seq<WrapView>,
    is_first: bool,
    is_last: bool,
)
    ensures
        process(nodes, code, fp, i, ws, is_first, is_last) matches Some(cs) ==> labelled(cs, fp),
    decreases nodes.len() - i, 1int, 0int,
{
    if i < 0 || i >= nodes.len() {
    } else if is_container(nodes[i].kind) {
        match container_wrap(nodes, code, i) {
            Some(w) => {
                lemma_items_labelled(nodes, code, fp, i, item_children(nodes, i), 0, ws.push(w));
            },
            None => {},
        }
    } else if !is_item(nodes[i].kind) {
    } else {
        let n = nodes[i];
        if in_code(code, n) {
            let text = node_text(code, n);
            if text.len() > 0 {
                lemma_wrapped_nonempty(text, ws, is_first, is_last);
                if large_fits(text, ws, n.start_row + 1) {
                    lemma_large_chunks_labelled(
                        text,
                        ws,
                        (n.start_row + 1) as usize,
                        (n.end_row + 1) as usize,
                    );
                }
            }
        }
        match item_chunks(nodes, code, fp, i, ws, is_first, is_last) {
            Some(cs) => {
                assert(labelled(cs, fp));
            },
            None => {},
        }
    }
}

proof fn lemma_items_labelled(
    nodes: Seq<NodeView>,
    code: Seq<u8>,
    fp: Seq<char>,
    parent: int,
    items: Seq<int>,
    k: int,
    ws: Seq<WrapView>,
)
    ensures
        items_chunks(nodes, code, fp, parent, items, k, ws) matches Some(cs) ==> labelled(cs, fp),
    decreases nodes.len() - parent, 0int, items.len() - k,
{
    if 0 <= k < items.len() {
        let c = items[k];
        if parent < c < nodes.len() {
            lemma_process_labelled(nodes, code, fp, c, ws, k == 0, k == items.len() - 1);
        }
        lemma_items_labelled(nodes, code, fp, parent, items, k + 1, ws);
        match (if parent < c < nodes.len() {
            process(nodes, code, fp, c, ws, k == 0, k == items.len() - 1)
        } else {
            Some(seq![])
        }) {
            Some(h) => match items_chunks(nodes, code, fp, parent, items, k + 1, ws) {
                Some(t) => {
                    lemma_labelled_concat(h, t, fp);
                },
                None => {},
            },
            None => {},
        }
    }
}

proof fn lemma_top_labelled(nodes: Seq<NodeView>, code: Seq<u8>, fp: Seq<char>, cs: Seq<int>, k: int)
    ensures
        top_chunks(nodes, code, fp, cs, k) matches Some(v) ==> labelled(v, fp),
    decreases cs.len() - k,
{
    if 0 <= k < cs.len() {
        let c = cs[k];
        lemma_process_labelled(nodes, code, fp, c, seq![], true, true);
        lemma_top_labelled(nodes, code, fp, cs, k + 1);
        match (if 0 <= c < nodes.len() && is_item(nodes[c].kind) {
            process(nodes, code, fp, c, seq![], true, true)
        } else {
            Some(seq![])
        }) {
            Some(h) => match top_chunks(nodes, code, fp, cs, k + 1) {
                Some(t) => {
                    lemma_labelled_concat(h, t, fp);
                },
                None => {},
            },
            None => {},
        }
    }
}

/// Every chunk of a file carries the path the file was chunked under, starts on a line
/// numbered 1 or later, and holds some text.
pub proof fn law_chunks_labelled(nodes: Seq<NodeView>, code: Seq<u8>, fp: Seq<char>)
    ensures
        file_chunks(nodes, code, fp) matches Some(cs) ==> labelled(cs, fp),
{
    if nodes.len() > 0 {
        lemma_top_labelled(nodes, code, fp, children(nodes, 0), 0);
    }
}


// ---------------------------------------------------------------------------
// When a parsed file can be chunked
// ---------------------------------------------------------------------------

/// Every container's header ends on a character boundary of its text: its first item
/// starts inside it, at a byte offset that falls between two characters.
pub open spec fn headers_fit(nodes: Seq<NodeView>, code: Seq<u8>) -> bool {
    forall|i: int|
        0 <= i < nodes.len() && is_container(#[trigger] nodes[i].kind) ==> container_header(
            nodes,
            code,
            i,
        ) is Some
}

/// Every node's text takes at most `t` bytes, and the sizes that chunking computes (at most
/// one wrapper per node, around at most `t` bytes of text) fit in a `usize`.
pub open spec fn sizes_fit(nodes: Seq<NodeView>, code: Seq<u8>, t: nat) -> bool {
    &&& forall|i: int| 0 <= i < nodes.len() ==> blen(node_text(code, #[trigger] nodes[i])) <= t
    &&& (nodes.len() + 2) * (4 * t + 20) + 2 * t + code.len() + 20 <= usize::MAX
}

/// A wrapper drawn from a container whose text takes at most `t` bytes.
pub open spec fn wrap_within(w: WrapView, t: int) -> bool {
    blen(w.header) <= t + 1 && blen(w.body_indent) <= t + 4 && blen(w.closing_indent) <= t
}

pub open spec fn wraps_within(ws: Seq<WrapView>, t: int) -> bool {
    forall|j: int| 0 <= j < ws.len() ==> wrap_within(#[trigger] ws[j], t)
}

proof fn lemma_push_newline_blen(s: Seq<char>)
    ensures
        blen(s.push('\n')) == blen(s) + 1,
        blen(ensure_newline(s)) <= blen(s) + 1,
{
    assert(s.push('\n') =~= s + seq!['\n']);
    lemma_blen_concat(s, seq!['\n']);
    lemma_blen_single('\n');
}

proof fn lemma_chars_for_bytes_range(s: Seq<char>, i: int, b: int)
    requires
        0 <= i <= s.len(),
    ensures
        chars_for_bytes(s, i, b) matches Some(k) ==> i <= k <= s.len(),
    decreases s.len() - i,
{
    if b != 0 && b > 0 && i < s.len() {
        lemma_chars_for_bytes_range(s, i + 1, b - char_width(s[i]));
    }
}

/// A container's wrapper takes no more bytes than its text allows.
proof fn lemma_container_wrap_within(nodes: Seq<NodeView>, code: Seq<u8>, i: int, t: int)
    requires
        0 <= i < nodes.len(),
        blen(node_text(code, nodes[i])) <= t,
        container_wrap(nodes, code, i) is Some,
    ensures
        wrap_within(container_wrap(nodes, code, i)->0, t),
{
    let text = node_text(code, nodes[i]);
    let w = container_wrap(nodes, code, i)->0;
    let items = item_children(nodes, i);
    let he = if items.len() > 0 {
        nodes[items[0]].start_byte - nodes[i].start_byte
    } else {
        0
    };
    if he == 0 {
        lemma_trim_bounds(text);
        lemma_push_newline_blen(trim_end(text));
    } else {
        lemma_chars_for_bytes_range(text, 0, he);
        let k = chars_for_bytes(text, 0, he)->0;
        lemma_blen_split(text, k);
        lemma_trim_bounds(text.take(k));
        lemma_push_newline_blen(trim_end(text.take(k)));
    }
    lemma_lines_from_elements(text, 0);
    lemma_first_indent_bound(lines_of(text), t);
    lemma_blen_spaces(4);
    lemma_blen_concat(first_indent(lines_of(text)), spaces(4));
}

#[verifier::spinoff_prover]
proof fn lemma_wrap_prefix_blen(ws: Seq<WrapView>, is_first: bool, i: int, t: int)
    requires
        0 <= i <= ws.len(),
        wraps_within(ws, t),
        t >= 0,
    ensures
        blen(wrap_prefix(ws, is_first, i)) <= i * (2 * t + 9),
    decreases i,
{
    if i > 0 {
        lemma_wrap_prefix_blen(ws, is_first, i - 1, t);
        let w = ws[i - 1];
        assert(wrap_within(w, t));
        let e = if i - 1 < ws.len() - 1 || !is_first {
            elision(w)
        } else {
            seq![]
        };
        lemma_blen_concat(w.body_indent, dots());
        assert(blen(dots()) == 4) by {
            reveal_with_fuel(vstd::utf8::encode_utf8, 5);
        }
        assert(blen(e) <= t + 8);
        lemma_blen_concat(wrap_prefix(ws, is_first, i - 1), w.header);
        lemma_blen_concat(wrap_prefix(ws, is_first, i - 1) + w.header, e);
        assert((i - 1) * (2 * t + 9) + (2 * t + 9) == i * (2 * t + 9)) by (nonlinear_arith);
    }
}

#[verifier::spinoff_prover]
proof fn lemma_wrap_suffix_blen(ws: Seq<WrapView>, is_last: bool, j: int, t: int)
    requires
        0 <= j <= ws.len(),
        wraps_within(ws, t),
        t >= 0,
    ensures
        blen(wrap_suffix(ws, is_last, j)) <= j * (2 * t + 10),
    decreases j,
{
    if j > 0 {
        lemma_wrap_suffix_blen(ws, is_last, j - 1, t);
        let w = ws[j - 1];
        assert(wrap_within(w, t));
        let e = if j - 1 < ws.len() - 1 || !is_last {
            elision(w)
        } else {
            seq![]
        };
        lemma_blen_concat(w.body_indent, dots());
        assert(blen(dots()) == 4) by {
            reveal_with_fuel(vstd::utf8::encode_utf8, 5);
        }
        assert(blen(close_brace()) == 2) by {
            reveal_with_fuel(vstd::utf8::encode_utf8, 3);
        }
        lemma_blen_concat(e, w.closing_indent);
        lemma_blen_concat(e + w.closing_indent, close_brace());
        lemma_blen_concat(e + w.closing_indent + close_brace(), wrap_suffix(ws, is_last, j - 1));
        assert((j - 1) * (2 * t + 10) + (2 * t + 10) == j * (2 * t + 10)) by (nonlinear_arith);
    }
}

/// Wrapping one character in `ws` takes at most `(ws.len() + 1) * (4 * t + 20)` bytes.
proof fn lemma_wrapped_x_blen(ws: Seq<WrapView>, t: int)
    requires
        wraps_within(ws, t),
        t >= 0,
    ensures
        blen(wrapped(seq!['X'], ws, true, true)) <= (ws.len() + 1) * (4 * t + 20),
{
    let n = ws.len() as int;
    lemma_blen_single('X');
    if n > 0 {
        lemma_wrap_prefix_blen(ws, true, n, t);
        lemma_wrap_suffix_blen(ws, true, n, t);
        let p = wrap_prefix(ws, true, n);
        assert(wrap_within(ws.last(), t));
        lemma_blen_concat(p, ws.last().body_indent);
        lemma_blen_concat(p + ws.last().body_indent, seq!['X']);
        lemma_push_newline_blen(p + ws.last().body_indent + seq!['X']);
        lemma_blen_concat(
            ensure_newline(p + ws.last().body_indent + seq!['X']),
            wrap_suffix(ws, true, n),
        );
        assert(n * (2 * t + 9) + n * (2 * t + 10) + t + 6 <= (n + 1) * (4 * t + 20))
            by (nonlinear_arith)
            requires
                n >= 1,
                t >= 0,
        ;
        let inner = p + ws.last().body_indent + seq!['X'];
        assert(wrapped(seq!['X'], ws, true, true) == ensure_newline(inner) + wrap_suffix(ws, true, n));
        assert(blen(inner) <= n * (2 * t + 9) + t + 5);
        assert(blen(ensure_newline(inner)) <= n * (2 * t + 9) + t + 6);
    } else {
        assert(wrapped(seq!['X'], ws, true, true) == seq!['X']);
    }
}

proof fn lemma_process_succeeds(
    nodes: Seq<NodeView>,
    code: Seq<u8>,
    fp: Seq<char>,
    i: int,
    ws: Seq<WrapView>,
    is_first: bool,
    is_last: bool,
    t: nat,
)
    requires
        nodes_in_code(nodes, code),
        headers_fit(nodes, code),
        sizes_fit(nodes, code, t),
        0 <= i ==> ws.len() <= i,
        wraps_within(ws, t as int),
    ensures
        process(nodes, code, fp, i, ws, is_first, is_last) is Some,
    decreases nodes.len() - i, 1int, 0int,
{
    if 0 <= i < nodes.len() {
        let n = nodes[i];
        assert(nodes_in_code(nodes, code));
        assert(n.start_byte <= n.end_byte <= code.len());
        let text = node_text(code, n);
        assert(blen(node_text(code, nodes[i])) <= t);
        if is_container(n.kind) {
            assert(container_header(nodes, code, i) is Some);
            lemma_container_wrap_within(nodes, code, i, t as int);
            let w = container_wrap(nodes, code, i)->0;
            lemma_items_succeed(nodes, code, fp, i, item_children(nodes, i), 0, ws.push(w), t);
        } else if is_item(n.kind) {
            if blen(text) > MAX_CHUNK_CHARS {
                assert(text.len() > 0);
                lemma_lines_from_size(text, 0);
                assert(text.subrange(0, text.len() as int) =~= text);
                lemma_blen_ge_len(text);
                lemma_wrapped_x_blen(ws, t as int);
                let m = nodes.len() as int;
                let k = ws.len() as int;
                assert((k + 1) * (4 * t + 20) <= (m + 2) * (4 * t + 20)) by (nonlinear_arith)
                    requires
                        k < m,
                        t >= 0,
                ;
                assert(large_fits(text, ws, n.start_row + 1));
            }
        }
    }
}

proof fn lemma_items_succeed(
    nodes: Seq<NodeView>,
    code: Seq<u8>,
    fp: Seq<char>,
    parent: int,
    items: Seq<int>,
    k: int,
    ws: Seq<WrapView>,
    t: nat,
)
    requires
        nodes_in_code(nodes, code),
        headers_fit(nodes, code),
        sizes_fit(nodes, code, t),
        0 <= parent,
        ws.len() <= parent + 1,
        wraps_within(ws, t as int),
    ensures
        items_chunks(nodes, code, fp, parent, items, k, ws) is Some,
    decreases nodes.len() - parent, 0int, items.len() - k,
{
    if 0 <= k < items.len() {
        let c = items[k];
        if parent < c < nodes.len() {
            lemma_process_succeeds(nodes, code, fp, c, ws, k == 0, k == items.len() - 1, t);
        }
        lemma_items_succeed(nodes, code, fp, parent, items, k + 1, ws, t);
    }
}

proof fn lemma_top_succeeds(
    nodes: Seq<NodeView>,
    code: Seq<u8>,
    fp: Seq<char>,
    cs: Seq<int>,
    k: int,
    t: nat,
)
    requires
        nodes_in_code(nodes, code),
        headers_fit(nodes, code),
        sizes_fit(nodes, code, t),
    ensures
        top_chunks(nodes, code, fp, cs, k) is Some,
    decreases cs.len() - k,
{
    if 0 <= k < cs.len() {
        lemma_process_succeeds(nodes, code, fp, cs[k], seq![], true, true, t);
        lemma_top_succeeds(nodes, code, fp, cs, k + 1, t);
    }
}

/// A file is chunked whenever its nodes lie within it, every container header ends on a
/// character boundary, and the sizes involved fit in a `usize`.
pub proof fn law_file_chunks_succeed(nodes: Seq<NodeView>, code: Seq<u8>, fp: Seq<char>, t: nat)
    requires
        nodes_in_code(nodes, code),
        headers_fit(nodes, code),
        sizes_fit(nodes, code, t),
    ensures
        file_chunks(nodes, code, fp) is Some,
{
    if nodes.len() > 0 {
        lemma_top_succeeds(nodes, code, fp, children(nodes, 0), 0, t);
    }
}

} // verus!
