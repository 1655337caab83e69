//! The code extractor: a destructive depth-first walk of a tree that records
//! each symbol's root-to-leaf path as its code.

use vstd::prelude::*;
use crate::bits::Bits;
use crate::bits::bits_of;
use crate::node::HuffmanNode;
use crate::node::code_of;
use crate::node::distinct_symbols;
use crate::node::sym_seq;

verus! {

/// Every tree holds at least one symbol.
pub proof fn lemma_sym_seq_len(n: HuffmanNode)
    ensures
        sym_seq(n).len() >= 1,
    decreases n,
{
    match n {
        HuffmanNode::LeafNode(_, _) => {},
        HuffmanNode::InternalNode(_, l, r) => {
            lemma_sym_seq_len(*l);
            lemma_sym_seq_len(*r);
        },
    }
}

/// Distinctness of a concatenation passes to its parts, which are then
/// disjoint.
pub proof fn lemma_no_dup_parts(l: Seq<u64>, r: Seq<u64>)
    requires
        (l + r).no_duplicates(),
    ensures
        l.no_duplicates(),
        r.no_duplicates(),
        forall|x: u64| l.contains(x) ==> !r.contains(x),
{
    assert forall|i: int, j: int| 0 <= i < l.len() && 0 <= j < l.len() && i != j implies l[i]
        != l[j] by {
        assert((l + r)[i] == l[i]);
        assert((l + r)[j] == l[j]);
    };
    assert forall|i: int, j: int| 0 <= i < r.len() && 0 <= j < r.len() && i != j implies r[i]
        != r[j] by {
        assert((l + r)[l.len() + i] == r[i]);
        assert((l + r)[l.len() + j] == r[j]);
    };
    assert forall|x: u64| l.contains(x) implies !r.contains(x) by {
        let i = choose|i: int| 0 <= i < l.len() && l[i] == x;
        if r.contains(x) {
            let j = choose|j: int| 0 <= j < r.len() && r[j] == x;
            assert((l + r)[i] == x);
            assert((l + r)[l.len() + j] == x);
        }
    };
}

/// The prefix-free property: in a tree with distinct symbols, the code of
/// one symbol is never a prefix of the code of a different symbol.
pub proof fn lemma_prefix_free(n: HuffmanNode, a: u64, b: u64)
    requires
        distinct_symbols(n),
        sym_seq(n).contains(a),
        sym_seq(n).contains(b),
        a != b,
    ensures
        !code_of(n, a).is_prefix_of(code_of(n, b)),
    decreases n,
{
    broadcast use vstd::seq_lib::lemma_seq_concat_contains_all_elements;

    match n {
        HuffmanNode::LeafNode(_, s) => {
            assert(sym_seq(n) == seq![s]);
            assert(a == sym_seq(n)[choose|i: int| 0 <= i < sym_seq(n).len() && sym_seq(n)[i] == a]);
            assert(b == sym_seq(n)[choose|i: int| 0 <= i < sym_seq(n).len() && sym_seq(n)[i] == b]);
        },
        HuffmanNode::InternalNode(_, l, r) => {
            assert(sym_seq(n) == sym_seq(*l) + sym_seq(*r));
            lemma_no_dup_parts(sym_seq(*l), sym_seq(*r));
            let ca = code_of(n, a);
            let cb = code_of(n, b);
            if sym_seq(*l).contains(a) && sym_seq(*l).contains(b) {
                lemma_prefix_free(*l, a, b);
                if ca.is_prefix_of(cb) {
                    assert(code_of(*l, a).len() <= code_of(*l, b).len());
                    assert forall|i: int| 0 <= i < code_of(*l, a).len() implies code_of(*l, a)[i]
                        == code_of(*l, b)[i] by {
                        assert(ca[i + 1] == cb.subrange(0, ca.len() as int)[i + 1]);
                    };
                    assert(code_of(*l, a) =~= code_of(*l, b).subrange(
                        0,
                        code_of(*l, a).len() as int,
                    ));
                }
            } else if !sym_seq(*l).contains(a) && !sym_seq(*l).contains(b) {
                lemma_prefix_free(*r, a, b);
                if ca.is_prefix_of(cb) {
                    assert(code_of(*r, a).len() <= code_of(*r, b).len());
                    assert forall|i: int| 0 <= i < code_of(*r, a).len() implies code_of(*r, a)[i]
                        == code_of(*r, b)[i] by {
                        assert(ca[i + 1] == cb.subrange(0, ca.len() as int)[i + 1]);
                    };
                    assert(code_of(*r, a) =~= code_of(*r, b).subrange(
                        0,
                        code_of(*r, a).len() as int,
                    ));
                }
            } else {
                // The two symbols sit in different subtrees, so the very
                // first bit of their codes differs.
                if ca.is_prefix_of(cb) {
                    assert(ca[0] == cb.subrange(0, ca.len() as int)[0]);
                }
            }
        },
    }
}

/// Walks a tree and records, for every symbol, the path that leads to its
/// leaf: `false` for left, `true` for right; the symbols come out in
/// left-to-right leaf order.
pub fn get_encoding_map(ht_root: HuffmanNode) -> (r: Vec<(u64, Bits)>)
    requires
        distinct_symbols(ht_root),
        sym_seq(ht_root).len() <= usize::MAX / 8,
    ensures
        r@.len() == sym_seq(ht_root).len(),
        forall|k: int|
            0 <= k < r@.len() ==> (#[trigger] r@[k]).0 == sym_seq(ht_root)[k] && bits_of(r@[k].1)
                == code_of(ht_root, r@[k].0),
{
    let ghost root = ht_root;
    let mut encoding: Vec<(u64, Bits)> = Vec::new();
    let start = Bits::new();
    _get_encoding_map_acc(ht_root, &start, &mut encoding);
    proof {
        assert forall|k: int| 0 <= k < encoding@.len() implies (#[trigger] encoding@[k]).0
            == sym_seq(root)[k] && bits_of(encoding@[k].1) == code_of(root, encoding@[k].0) by {
            assert(encoding@[0 + k].0 == sym_seq(root)[k]);
            assert(bits_of(encoding@[0 + k].1) == bits_of(start) + code_of(root, sym_seq(root)[k]));
            assert(bits_of(start) + code_of(root, sym_seq(root)[k]) =~= code_of(
                root,
                sym_seq(root)[k],
            ));
        };
    }
    encoding
}

/// The recursive walk: appends one entry per leaf of `ht_node`, each code
/// being `path` extended by the steps below `ht_node`.
pub fn _get_encoding_map_acc(ht_node: HuffmanNode, path: &Bits, encoding: &mut Vec<(u64, Bits)>)
    requires
        distinct_symbols(ht_node),
        bits_of(*path).len() + sym_seq(ht_node).len() <= usize::MAX / 8,
    ensures
        final(encoding)@.len() == old(encoding)@.len() + sym_seq(ht_node).len(),
        forall|k: int|
            0 <= k < old(encoding)@.len() ==> #[trigger] final(encoding)@[k] == old(encoding)@[k],
        forall|k: int|
            0 <= k < sym_seq(ht_node).len() ==> (#[trigger] final(encoding)@[old(encoding)@.len()
                + k]).0 == sym_seq(ht_node)[k] && bits_of(
                final(encoding)@[old(encoding)@.len() + k].1,
            ) == bits_of(*path) + code_of(ht_node, sym_seq(ht_node)[k]),
    decreases ht_node,
{
    let ghost node0 = ht_node;
    let ghost n0 = encoding@.len() as int;
    match ht_node {
        HuffmanNode::LeafNode(_, item) => {
            encoding.push((item, path.dup()));
            proof {
                assert(bits_of(*path) + code_of(node0, item) =~= bits_of(*path));
            }
        },
        HuffmanNode::InternalNode(w, left, right) => {
            proof {
                assert(sym_seq(node0) == sym_seq(*left) + sym_seq(*right));
                lemma_no_dup_parts(sym_seq(*left), sym_seq(*right));
                lemma_sym_seq_len(*left);
                lemma_sym_seq_len(*right);
            }
            let ghost gl = *left;
            let ghost gr = *right;
            let mut left_path = path.dup();
            left_path.push_bit(false);
            let mut right_path = path.dup();
            right_path.push_bit(true);
            let ghost lp = left_path;
            let ghost rp = right_path;
            _get_encoding_map_acc(*left, &left_path, encoding);
            let ghost n1 = encoding@.len() as int;
            _get_encoding_map_acc(*right, &right_path, encoding);
            proof {
                let ls = sym_seq(gl);
                let rs = sym_seq(gr);
                assert forall|k: int| 0 <= k < sym_seq(node0).len() implies (
                #[trigger] encoding@[n0 + k]).0 == sym_seq(node0)[k] && bits_of(
                    encoding@[n0 + k].1,
                ) == bits_of(*path) + code_of(node0, sym_seq(node0)[k]) by {
                    if k < ls.len() {
                        let s = ls[k];
                        assert(sym_seq(node0)[k] == s);
                        assert(ls.contains(s));
                        assert(code_of(node0, s) == seq![false] + code_of(gl, s));
                        assert(bits_of(encoding@[n0 + k].1) == bits_of(lp) + code_of(gl, s));
                        assert(bits_of(lp) + code_of(gl, s) =~= bits_of(*path) + (seq![false]
                            + code_of(gl, s)));
                    } else {
                        let j = k - ls.len();
                        let s = rs[j];
                        assert(sym_seq(node0)[k] == s);
                        assert(rs.contains(s));
                        assert(!ls.contains(s));
                        assert(code_of(node0, s) == seq![true] + code_of(gr, s));
                        assert(n1 == n0 + ls.len());
                        assert(bits_of(encoding@[n1 + j].1) == bits_of(rp) + code_of(gr, s));
                        assert(bits_of(rp) + code_of(gr, s) =~= bits_of(*path) + (seq![true]
                            + code_of(gr, s)));
                    }
                };
            }
        },
    }
}

} // verus!
