//! The Huffman tree node, its mathematical model, and the error taxonomy.

use vstd::prelude::*;

verus! {

/// The errors the library raises; every one is terminal for the operation
/// that raised it.
#[derive(Debug, Clone, Copy, PartialEq, Eq)]
pub enum HuffmanError {
    /// No symbols were supplied.
    EmptyInputError,
    /// The declared code lengths cannot belong to a valid prefix code.
    InvalidLengthError,
    /// The bit sequence ran out while the walk still stood at an internal node.
    DecodeError,
}

/// A strict binary tree: a leaf owns a weight and a symbol, an internal node
/// owns a weight and exactly two children.  Symbols are drawn from a totally
/// ordered alphabet modelled as `u64`.
#[derive(Debug)]
pub enum HuffmanNode {
    /// Weight, then the left and right child, in removal order of the merge
    /// that formed this node (first removed on the left).
    InternalNode(u64, Box<HuffmanNode>, Box<HuffmanNode>),
    /// Weight, then the symbol.
    LeafNode(u64, u64),
}

/// The weight a node carries.
pub open spec fn weight_of(n: HuffmanNode) -> u64 {
    match n {
        HuffmanNode::InternalNode(w, _, _) => w,
        HuffmanNode::LeafNode(w, _) => w,
    }
}

/// Structural invariant: every internal node's weight is the exact sum of its
/// children's weights (so no merge ever overflowed).
pub open spec fn wf_tree(n: HuffmanNode) -> bool
    decreases n,
{
    match n {
        HuffmanNode::LeafNode(_, _) => true,
        HuffmanNode::InternalNode(w, l, r) => {
            &&& w == weight_of(*l) + weight_of(*r)
            &&& wf_tree(*l)
            &&& wf_tree(*r)
        },
    }
}

/// The symbols at the leaves, in left-to-right order.
pub open spec fn sym_seq(n: HuffmanNode) -> Seq<u64>
    decreases n,
{
    match n {
        HuffmanNode::LeafNode(_, s) => seq![s],
        HuffmanNode::InternalNode(_, l, r) => sym_seq(*l) + sym_seq(*r),
    }
}

/// The (weight, symbol) pairs at the leaves, in left-to-right order.
pub open spec fn leaf_pairs(n: HuffmanNode) -> Seq<(u64, u64)>
    decreases n,
{
    match n {
        HuffmanNode::LeafNode(w, s) => seq![(w, s)],
        HuffmanNode::InternalNode(_, l, r) => leaf_pairs(*l) + leaf_pairs(*r),
    }
}

/// Sum of the weights in a sequence of (weight, symbol) pairs.
pub open spec fn pairs_weight(s: Seq<(u64, u64)>) -> int
    decreases s.len(),
{
    if s.len() == 0 {
        0
    } else {
        pairs_weight(s.drop_last()) + s.last().0
    }
}

proof fn lemma_pairs_weight_concat(a: Seq<(u64, u64)>, b: Seq<(u64, u64)>)
    ensures
        pairs_weight(a + b) == pairs_weight(a) + pairs_weight(b),
    decreases b.len(),
{
    if b.len() == 0 {
        assert(a + b =~= a);
    } else {
        assert((a + b).drop_last() =~= a + b.drop_last());
        assert((a + b).last() == b.last());
        lemma_pairs_weight_concat(a, b.drop_last());
    }
}

/// In a well-formed tree every node's weight is exactly the sum of the leaf
/// weights beneath it: merging never redistributes or loses weight, and a
/// tree over positive leaves carries positive weights throughout.
pub proof fn lemma_wf_tree_weight(n: HuffmanNode)
    requires
        wf_tree(n),
    ensures
        weight_of(n) == pairs_weight(leaf_pairs(n)),
    decreases n,
{
    match n {
        HuffmanNode::LeafNode(_, _) => {
            assert(leaf_pairs(n).drop_last() =~= Seq::<(u64, u64)>::empty());
            assert(pairs_weight(Seq::<(u64, u64)>::empty()) == 0);
        },
        HuffmanNode::InternalNode(_, l, r) => {
            lemma_wf_tree_weight(*l);
            lemma_wf_tree_weight(*r);
            lemma_pairs_weight_concat(leaf_pairs(*l), leaf_pairs(*r));
        },
    }
}

/// No symbol occurs at two distinct leaves.
pub open spec fn distinct_symbols(n: HuffmanNode) -> bool {
    sym_seq(n).no_duplicates()
}

/// The path from the root to the leaf holding `s`: `false` for a step to the
/// left child, `true` for a step to the right.  Meaningful when `s` occurs in
/// the tree.
pub open spec fn code_of(n: HuffmanNode, s: u64) -> Seq<bool>
    decreases n,
{
    match n {
        HuffmanNode::LeafNode(_, _) => Seq::empty(),
        HuffmanNode::InternalNode(_, l, r) => {
            if sym_seq(*l).contains(s) {
                seq![false] + code_of(*l, s)
            } else {
                seq![true] + code_of(*r, s)
            }
        },
    }
}

/// What decoding returns: walk from the root, consuming one bit per internal
/// node, until a leaf's symbol is reached; `None` when the bits run out at an
/// internal node.  Bits left over after the leaf are ignored.
pub open spec fn decode_spec(bits: Seq<bool>, n: HuffmanNode) -> Option<u64>
    decreases n,
{
    match n {
        HuffmanNode::LeafNode(_, s) => Some(s),
        HuffmanNode::InternalNode(_, l, r) => {
            if bits.len() == 0 {
                None
            } else if bits[0] {
                decode_spec(bits.skip(1), *r)
            } else {
                decode_spec(bits.skip(1), *l)
            }
        },
    }
}

impl HuffmanNode {
    /// The weight this node carries.
    pub fn weight(&self) -> (w: u64)
        ensures
            w == weight_of(*self),
    {
        match self {
            HuffmanNode::InternalNode(w, _, _) => *w,
            HuffmanNode::LeafNode(w, _) => *w,
        }
    }

    /// A structurally equal copy of the tree.
    pub fn duplicate(&self) -> (r: HuffmanNode)
        ensures
            r == *self,
        decreases *self,
    {
        match self {
            HuffmanNode::LeafNode(w, s) => HuffmanNode::LeafNode(*w, *s),
            HuffmanNode::InternalNode(w, l, r) => HuffmanNode::InternalNode(
                *w,
                Box::new(l.duplicate()),
                Box::new(r.duplicate()),
            ),
        }
    }
}

} // verus!
