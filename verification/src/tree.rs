//! A parsed source as a plain tree: the text, and nodes that name their kind
//! and the bytes of the text that they cover.
//!
//! Such a tree may come from a parser that goes on behind an error. There a
//! node can be marked as an error, for text that fits nowhere, or as
//! missing, for a token that the grammar asks for and the text does not
//! hold.

use vstd::prelude::*;
use vstd::string::StringExecFns;
use crate::parser::Span;

verus! {

/// A node of the tree.
#[derive(Debug)]
pub struct Node {
    /// The name of the grammar rule or token that the node stands for.
    pub kind: String,
    /// The first byte of the text that the node covers.
    pub start: usize,
    /// The byte behind the last that the node covers.
    pub end: usize,
    /// Whether the node stands for text that fits nowhere in the grammar.
    pub is_error: bool,
    /// Whether the node stands for a token that the text does not hold.
    pub is_missing: bool,
    /// The parts of the node, in source order.
    pub children: Vec<Node>,
}

/// A source text and the tree that was parsed from it.
#[derive(Debug)]
pub struct ParsedSource {
    /// The text.
    pub text: String,
    /// The root of the tree.
    pub root: Node,
    /// Whether rendered reports are to hold colour codes.
    pub color: bool,
}

impl Node {
    /// The bytes that the node covers; where its end lies in front of its
    /// start, the empty range at its start.
    pub open spec fn span(self) -> Span {
        Span {
            start: self.start,
            end: if self.end < self.start {
                self.start
            } else {
                self.end
            },
        }
    }

    /// The bytes that the node covers.
    pub fn byte_range(&self) -> (r: Span)
        ensures
            r == self.span(),
            r.start <= r.end,
    {
        Span {
            start: self.start,
            end: if self.end < self.start {
                self.start
            } else {
                self.end
            },
        }
    }

    /// A node of kind `kind` over the bytes from `start` to `end`, with the
    /// parts `children`.
    pub fn new(kind: &str, start: usize, end: usize, children: Vec<Node>) -> (r: Node)
        ensures
            r.kind@ == kind@,
            r.start == start,
            r.end == end,
            !r.is_error,
            !r.is_missing,
            r.children == children,
    {
        Node {
            kind: String::from_str(kind),
            start,
            end,
            is_error: false,
            is_missing: false,
            children,
        }
    }

    /// An error node over the bytes from `start` to `end`, with the parts
    /// `children`.
    pub fn error(start: usize, end: usize, children: Vec<Node>) -> (r: Node)
        ensures
            r.kind@ == "ERROR"@,
            r.start == start,
            r.end == end,
            r.is_error,
            !r.is_missing,
            r.children == children,
    {
        Node {
            kind: String::from_str("ERROR"),
            start,
            end,
            is_error: true,
            is_missing: false,
            children,
        }
    }

    /// A node for a token of kind `kind` that is missing at byte `at`.
    pub fn missing(kind: &str, at: usize) -> (r: Node)
        ensures
            r.kind@ == kind@,
            r.start == at,
            r.end == at,
            !r.is_error,
            r.is_missing,
            r.children@.len() == 0,
    {
        Node {
            kind: String::from_str(kind),
            start: at,
            end: at,
            is_error: false,
            is_missing: true,
            children: Vec::new(),
        }
    }
}

/// The nodes of the tree under `n`, each once, a node in front of its parts
/// and the parts in source order.
pub open spec fn preorder(n: Node) -> Seq<Node>
    decreases n, 1int,
{
    seq![n] + preorder_all(n.children@)
}

/// The nodes of the trees under `ns`, tree by tree.
pub open spec fn preorder_all(ns: Seq<Node>) -> Seq<Node>
    decreases ns, 0int,
{
    if ns.len() == 0 {
        Seq::empty()
    } else {
        preorder_all(ns.drop_last()) + preorder(ns.last())
    }
}

/// The number of nodes of the tree under `n`.
pub open spec fn size(n: Node) -> nat
    decreases n, 1int,
{
    1 + size_all(n.children@)
}

/// The number of nodes of the trees under `ns`.
pub open spec fn size_all(ns: Seq<Node>) -> nat
    decreases ns, 0int,
{
    if ns.len() == 0 {
        0
    } else {
        size_all(ns.drop_last()) + size(ns.last())
    }
}

/// The walk takes as many nodes as the tree has, the root first.
pub proof fn lemma_preorder_len(n: Node)
    ensures
        preorder(n).len() == size(n),
        preorder(n)[0] == n,
    decreases n, 1int,
{
    lemma_preorder_all_len(n.children@);
}

/// What [`lemma_preorder_len`] says, for trees one behind the other.
pub proof fn lemma_preorder_all_len(ns: Seq<Node>)
    ensures
        preorder_all(ns).len() == size_all(ns),
    decreases ns, 0int,
{
    if ns.len() > 0 {
        lemma_preorder_all_len(ns.drop_last());
        lemma_preorder_len(ns.last());
    }
}

/// The nodes that the references `v` point to.
pub open spec fn targets(v: Seq<&Node>) -> Seq<Node> {
    v.map_values(|n: &Node| *n)
}

/// The nodes of the tree under `root`, each once, a node in front of its
/// parts.
pub fn nodes(root: &Node) -> (r: Vec<&Node>)
    ensures
        targets(r@) == preorder(*root),
        r@.len() == preorder(*root).len(),
        forall|k: int| 0 <= k < r@.len() ==> *(#[trigger] r@[k]) == preorder(*root)[k],
{
    let mut found: Vec<&Node> = Vec::new();
    assert(targets(found@) =~= Seq::<Node>::empty());
    visit(root, &mut found);
    assert(targets(found@) =~= preorder(*root));
    found
}

/// Adds the nodes of the tree under `node` to `found`.
fn visit<'a>(node: &'a Node, found: &mut Vec<&'a Node>)
    ensures
        targets(final(found)@) == targets(old(found)@) + preorder(*node),
    decreases *node,
{
    let ghost before = targets(found@);
    found.push(node);
    assert(targets(found@) =~= before + seq![*node]);
    let mut k: usize = 0;
    assert(node.children@.take(0) =~= Seq::<Node>::empty());
    while k < node.children.len()
        invariant
            k <= node.children.len(),
            targets(found@) == before + seq![*node] + preorder_all(node.children@.take(k as int)),
        decreases node.children.len() - k,
    {
        visit(&node.children[k], found);
        proof {
            let parts = node.children@;
            assert(parts.take(k + 1).drop_last() =~= parts.take(k as int));
            assert(parts.take(k + 1).last() == parts[k as int]);
            assert(targets(found@) =~= before + seq![*node] + preorder_all(parts.take(k + 1)));
        }
        k = k + 1;
    }
    assert(node.children@.take(k as int) =~= node.children@);
    assert(targets(found@) =~= before + preorder(*node));
}

} // verus!
