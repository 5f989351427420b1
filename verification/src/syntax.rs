//! The syntax tree of a Rust source file, as plain values.
//!
//! The parser hands back the tree's nodes in preorder, each with its depth below
//! the root; the children of a node are the nodes one level deeper that follow it
//! up to the end of its subtree.

use vstd::prelude::*;
use crate::text::blen;

verus! {

/// One node of a syntax tree.
#[derive(Debug)]
pub struct SyntaxNode {
    /// The grammar's name for the node, such as `function_item`.
    pub kind: String,
    pub start_byte: usize,
    pub end_byte: usize,
    /// Zero-based row of the node's first byte.
    pub start_row: usize,
    /// Zero-based row of the node's last position.
    pub end_row: usize,
    /// Distance from the root, which has depth 0.
    pub depth: usize,
}

pub struct NodeView {
    pub kind: Seq<char>,
    pub start_byte: usize,
    pub end_byte: usize,
    pub start_row: usize,
    pub end_row: usize,
    pub depth: usize,
}

impl View for SyntaxNode {
    type V = NodeView;

    open spec fn view(&self) -> NodeView {
        NodeView {
            kind: self.kind@,
            start_byte: self.start_byte,
            end_byte: self.end_byte,
            start_row: self.start_row,
            end_row: self.end_row,
            depth: self.depth,
        }
    }
}

pub open spec fn nodes_view(v: Seq<SyntaxNode>) -> Seq<NodeView> {
    v.map_values(|n: SyntaxNode| n@)
}

/// Every node's bytes lie within `code`, its first row is not after its last, and a row
/// never exceeds the byte offset where it is reached (each row begins after a `'\n'`).
pub open spec fn nodes_in_code(nodes: Seq<NodeView>, code: Seq<u8>) -> bool {
    forall|i: int|
        0 <= i < nodes.len() ==> (#[trigger] nodes[i]).start_byte <= nodes[i].end_byte <= code.len()
            && nodes[i].start_row <= nodes[i].end_row && nodes[i].start_row <= nodes[i].start_byte
            && nodes[i].end_row <= nodes[i].end_byte
}

/// The nodes, in preorder, of the syntax tree that the Rust grammar gives `code`.
pub uninterp spec fn rust_syntax_nodes(code: Seq<u8>) -> Seq<NodeView>;

/// Parses `code` with `tree_sitter` and the `tree_sitter_rust` grammar and hands back the
/// tree's nodes in preorder, named `rust_syntax_nodes(code)`. The grammar loads
/// (`Parser::set_language` accepts its ABI version, which lies in the range that
/// `tree_sitter` supports, and the grammar is parseable), and `Parser::parse` gives a tree
/// whenever a native grammar is set, so the result is always `Ok(Some(..))`; the other
/// variants only carry the library's answers through should they ever differ. A node's
/// end is its start plus its size (`Node::end_byte`, `Node::end_position`), the lexer reads
/// no byte past the input, and rows advance only at a `'\n'`, so the nodes lie within
/// `code` as `nodes_in_code` says.
#[verifier::external_body]
pub(crate) fn parse_rust(code: &[u8]) -> (res: Result<Option<Vec<SyntaxNode>>, String>)
    ensures
        res is Ok,
        res matches Ok(o) ==> o is Some,
        res matches Ok(Some(v)) ==> nodes_view(v@) == rust_syntax_nodes(code@),
        res matches Ok(Some(v)) ==> nodes_in_code(nodes_view(v@), code@),
{
    let mut parser = tree_sitter::Parser::new();
    parser.set_language(&tree_sitter_rust::LANGUAGE.into()).map_err(|e| format!("Failed to load Rust grammar: {e}"))?;
    let Some(tree) = parser.parse(code, None) else { return Ok(None) };
    let mut cursor = tree.walk();
    Ok(Some((0..tree.root_node().descendant_count()).map(|i| {
        cursor.goto_descendant(i);
        let n = cursor.node();
        SyntaxNode { kind: n.kind().to_string(), start_byte: n.start_byte(), end_byte: n.end_byte(),
            start_row: n.start_position().row, end_row: n.end_position().row, depth: cursor.depth() as usize }
    }).collect()))
}

/// The text that `String::from_utf8_lossy` makes of `bytes`.
pub uninterp spec fn lossy_utf8(bytes: Seq<u8>) -> Seq<char>;

/// Calls `String::from_utf8_lossy`. Each character of the result stands for at least
/// one byte of the input, and a `String` never holds more than `isize::MAX` bytes.
#[verifier::external_body]
pub(crate) fn utf8_lossy(bytes: &[u8]) -> (s: String)
    ensures
        s@ == lossy_utf8(bytes@),
        s@.len() <= bytes@.len(),
        blen(s@) <= isize::MAX,
{
    String::from_utf8_lossy(bytes).to_string()
}

// ---------------------------------------------------------------------------
// Children in the preorder list
// ---------------------------------------------------------------------------

/// The children of node `i` found at or after position `k`: the nodes one level below
/// `i` before the end of `i`'s subtree.
pub open spec fn children_from(nodes: Seq<NodeView>, i: int, k: int) -> Seq<int>
    decreases nodes.len() - k,
{
    if i < 0 || k <= i || k >= nodes.len() || nodes[k].depth <= nodes[i].depth {
        seq![]
    } else if nodes[k].depth == nodes[i].depth + 1 {
        seq![k] + children_from(nodes, i, k + 1)
    } else {
        children_from(nodes, i, k + 1)
    }
}

/// The children of node `i`, in order.
pub open spec fn children(nodes: Seq<NodeView>, i: int) -> Seq<int> {
    children_from(nodes, i, i + 1)
}

pub proof fn lemma_children_from_range(nodes: Seq<NodeView>, i: int, k: int)
    ensures
        forall|j: int|
            0 <= j < children_from(nodes, i, k).len() ==> k <= #[trigger] children_from(nodes, i, k)[j]
                < nodes.len() && i < children_from(nodes, i, k)[j],
    decreases nodes.len() - k,
{
    if i < 0 || k <= i || k >= nodes.len() || nodes[k].depth <= nodes[i].depth {
    } else {
        lemma_children_from_range(nodes, i, k + 1);
        let rest = children_from(nodes, i, k + 1);
        if nodes[k].depth == nodes[i].depth + 1 {
            assert forall|j: int| 0 <= j < children_from(nodes, i, k).len() implies k
                <= #[trigger] children_from(nodes, i, k)[j] < nodes.len() && i < children_from(
                nodes,
                i,
                k,
            )[j] by {
                if j > 0 {
                    assert(children_from(nodes, i, k)[j] == rest[j - 1]);
                }
            }
        }
    }
}

/// The nodes after `i` up to `c` all lie deeper than `i`: `c` is inside `i`'s subtree.
pub open spec fn within_subtree(nodes: Seq<NodeView>, i: int, c: int) -> bool {
    forall|m: int| i < m <= c ==> (#[trigger] nodes[m]).depth > nodes[i].depth
}

proof fn lemma_children_from_level(nodes: Seq<NodeView>, i: int, k: int)
    requires
        0 <= i < k,
        within_subtree(nodes, i, k - 1),
    ensures
        forall|a: int|
            0 <= a < children_from(nodes, i, k).len() ==> {
                let c = #[trigger] children_from(nodes, i, k)[a];
                &&& k <= c < nodes.len()
                &&& nodes[c].depth == nodes[i].depth + 1
                &&& within_subtree(nodes, i, c)
            },
        forall|c: int|
            k <= c < nodes.len() && nodes[c].depth == nodes[i].depth + 1 && #[trigger] within_subtree(
                nodes,
                i,
                c,
            ) ==> children_from(nodes, i, k).contains(c),
        forall|a: int, b: int|
            0 <= a < b < children_from(nodes, i, k).len() ==> #[trigger] children_from(nodes, i, k)[a]
                < #[trigger] children_from(nodes, i, k)[b],
    decreases nodes.len() - k,
{
    let cf = children_from(nodes, i, k);
    if k >= nodes.len() || nodes[k].depth <= nodes[i].depth {
        assert forall|c: int|
            k <= c < nodes.len() && nodes[c].depth == nodes[i].depth + 1 && #[trigger] within_subtree(
                nodes,
                i,
                c,
            ) implies cf.contains(c) by {
            assert(nodes[k].depth > nodes[i].depth);
        }
    } else {
        assert(within_subtree(nodes, i, k));
        lemma_children_from_level(nodes, i, k + 1);
        let rest = children_from(nodes, i, k + 1);
        let head: Seq<int> = if nodes[k].depth == nodes[i].depth + 1 {
            seq![k]
        } else {
            seq![]
        };
        assert(cf == head + rest);
        assert forall|a: int| 0 <= a < cf.len() implies {
            let c = #[trigger] cf[a];
            &&& k <= c < nodes.len()
            &&& nodes[c].depth == nodes[i].depth + 1
            &&& within_subtree(nodes, i, c)
        } by {
            if a >= head.len() {
                assert(cf[a] == rest[a - head.len()]);
            }
        }
        assert forall|c: int|
            k <= c < nodes.len() && nodes[c].depth == nodes[i].depth + 1 && #[trigger] within_subtree(
                nodes,
                i,
                c,
            ) implies cf.contains(c) by {
            if c == k {
                assert(cf[0] == k);
            } else {
                assert(within_subtree(nodes, i, c));
                assert(rest.contains(c));
                let a = choose|a: int| 0 <= a < rest.len() && rest[a] == c;
                assert(cf[a + head.len()] == c);
            }
        }
        assert forall|a: int, b: int| 0 <= a < b < cf.len() implies #[trigger] cf[a] < #[trigger] cf[b] by {
            if a >= head.len() {
                assert(cf[a] == rest[a - head.len()]);
                assert(cf[b] == rest[b - head.len()]);
            } else {
                assert(cf[b] == rest[b - head.len()]);
                assert(k + 1 <= rest[b - head.len()]);
            }
        }
    }
}

/// The children of node `i` are exactly the nodes one level below it inside its subtree,
/// in order: each lies after `i`, one level deeper, with only deeper nodes between; and
/// every such node is a child.
pub proof fn law_children_are_next_level(nodes: Seq<NodeView>, i: int)
    requires
        0 <= i < nodes.len(),
    ensures
        forall|a: int|
            0 <= a < children(nodes, i).len() ==> {
                let c = #[trigger] children(nodes, i)[a];
                &&& i < c < nodes.len()
                &&& nodes[c].depth == nodes[i].depth + 1
                &&& within_subtree(nodes, i, c)
            },
        forall|c: int|
            i < c < nodes.len() && nodes[c].depth == nodes[i].depth + 1 && #[trigger] within_subtree(
                nodes,
                i,
                c,
            ) ==> children(nodes, i).contains(c),
        forall|a: int, b: int|
            0 <= a < b < children(nodes, i).len() ==> #[trigger] children(nodes, i)[a]
                < #[trigger] children(nodes, i)[b],
{
    lemma_children_from_level(nodes, i, i + 1);
}

/// The positions of the children of node `i`.
pub fn node_children(nodes: &Vec<SyntaxNode>, i: usize) -> (r: Vec<usize>)
    requires
        i < nodes@.len(),
    ensures
        r@.map_values(|x: usize| x as int) == children(nodes_view(nodes@), i as int),
        forall|j: int| 0 <= j < r@.len() ==> i < #[trigger] r@[j] < nodes@.len(),
{
    let ghost nv = nodes_view(nodes@);
    let mut r: Vec<usize> = Vec::new();
    let n = nodes.len();
    let mut k = i + 1;
    let d = nodes[i].depth;
    proof {
        lemma_children_from_range(nv, i as int, i + 1);
    }
    while k < nodes.len() && nodes[k].depth > d
        invariant
            nv == nodes_view(nodes@),
            i < k <= nodes@.len(),
            d == nodes@[i as int].depth,
            r@.map_values(|x: usize| x as int) + children_from(nv, i as int, k as int) == children(
                nv,
                i as int,
            ),
            forall|j: int| 0 <= j < r@.len() ==> i < #[trigger] r@[j] < k,
        decreases nodes@.len() - k,
    {
        let ghost before = r@;
        assert(nv[k as int] == nodes@[k as int]@);
        assert(nv[i as int] == nodes@[i as int]@);
        if nodes[k].depth - 1 == d {
            r.push(k);
            assert(r@.map_values(|x: usize| x as int) =~= before.map_values(|x: usize| x as int).push(
                k as int,
            ));
            assert(children_from(nv, i as int, k as int) == seq![k as int] + children_from(
                nv,
                i as int,
                k + 1,
            ));
            assert(r@.map_values(|x: usize| x as int) + children_from(nv, i as int, k + 1) =~= before.map_values(
                |x: usize| x as int,
            ) + children_from(nv, i as int, k as int));
        }
        k = k + 1;
    }
    proof {
        if k < nodes@.len() {
            assert(nv[k as int] == nodes@[k as int]@);
            assert(nv[i as int] == nodes@[i as int]@);
        }
        assert(children_from(nv, i as int, k as int) =~= Seq::<int>::empty());
        assert(r@.map_values(|x: usize| x as int) + Seq::<int>::empty() =~= r@.map_values(
            |x: usize| x as int,
        ));
    }
    r
}

} // verus!
