//! The tree builder: greedy merging of the two lightest nodes until one
//! root remains.

use vstd::prelude::*;
use crate::node::HuffmanError;
use crate::node::HuffmanNode;
use crate::node::distinct_symbols;
use crate::node::leaf_pairs;
use crate::node::sym_seq;
use crate::node::weight_of;
use crate::node::wf_tree;
use vstd::multiset::Multiset;
use vstd::seq_lib::lemma_multiset_commutative;
use vstd::seq_lib::lemma_no_dup_in_concat;

verus! {

/// Sum of the weights of a pool of nodes, as an unbounded integer.
pub open spec fn pool_weight(s: Seq<HuffmanNode>) -> int
    decreases s.len(),
{
    if s.len() == 0 {
        0
    } else {
        pool_weight(s.drop_last()) + weight_of(s.last())
    }
}

/// All (weight, symbol) leaf pairs held by a pool of nodes.
pub open spec fn pool_pairs(s: Seq<HuffmanNode>) -> Multiset<(u64, u64)>
    decreases s.len(),
{
    if s.len() == 0 {
        Multiset::empty()
    } else {
        pool_pairs(s.drop_last()).add(leaf_pairs(s.last()).to_multiset())
    }
}

/// Removing one node takes away exactly its own leaf pairs.
proof fn lemma_pool_pairs_remove(s: Seq<HuffmanNode>, i: int)
    requires
        0 <= i < s.len(),
    ensures
        pool_pairs(s) == pool_pairs(s.remove(i)).add(leaf_pairs(s[i]).to_multiset()),
    decreases s.len(),
{
    broadcast use vstd::multiset::group_multiset_axioms;

    if i == s.len() - 1 {
        assert(s.remove(i) =~= s.drop_last());
    } else {
        assert(s.remove(i).drop_last() =~= s.drop_last().remove(i));
        assert(s.remove(i).last() == s.last());
        assert(s.drop_last()[i] == s[i]);
        lemma_pool_pairs_remove(s.drop_last(), i);
        assert(pool_pairs(s) =~= pool_pairs(s.remove(i)).add(leaf_pairs(s[i]).to_multiset()));
    }
}

/// Some node of the pool holds the symbol `x` at one of its leaves.
pub open spec fn pool_has_sym(s: Seq<HuffmanNode>, x: u64) -> bool {
    exists|k: int| 0 <= k < s.len() && sym_seq(s[k]).contains(x)
}

/// Every node of the pool is well formed with distinct symbols, and no
/// symbol occurs in two distinct nodes.
pub open spec fn pool_ok(s: Seq<HuffmanNode>) -> bool {
    &&& forall|k: int| 0 <= k < s.len() ==> wf_tree(#[trigger] s[k]) && distinct_symbols(s[k])
    &&& forall|k1: int, k2: int, x: u64|
        0 <= k1 < s.len() && 0 <= k2 < s.len() && k1 != k2
            && #[trigger] sym_seq(s[k1]).contains(x) ==> !(#[trigger] sym_seq(s[k2]).contains(x))
}

proof fn lemma_remove_maps(s: Seq<HuffmanNode>, i: int)
    requires
        0 <= i < s.len(),
    ensures
        s.remove(i).len() == s.len() - 1,
        forall|j: int| 0 <= j < i ==> #[trigger] s.remove(i)[j] == s[j],
        forall|j: int| i <= j < s.len() - 1 ==> #[trigger] s.remove(i)[j] == s[j + 1],
{
}

/// Removing one node neither adds nor loses any other node's symbols.
proof fn lemma_pool_has_sym_remove(s: Seq<HuffmanNode>, i: int)
    requires
        0 <= i < s.len(),
    ensures
        forall|x: u64|
            pool_has_sym(s, x) <==> (sym_seq(s[i]).contains(x) || pool_has_sym(s.remove(i), x)),
{
    lemma_remove_maps(s, i);
    let t = s.remove(i);
    assert forall|x: u64| pool_has_sym(s, x) implies (sym_seq(s[i]).contains(x) || pool_has_sym(
        t,
        x,
    )) by {
        let k = choose|k: int| 0 <= k < s.len() && #[trigger] sym_seq(s[k]).contains(x);
        if k != i {
            let j = if k < i {
                k
            } else {
                k - 1
            };
            assert(t[j] == s[k]);
            assert(sym_seq(t[j]).contains(x));
        }
    };
    assert forall|x: u64| (sym_seq(s[i]).contains(x) || pool_has_sym(t, x)) implies pool_has_sym(
        s,
        x,
    ) by {
        if sym_seq(s[i]).contains(x) {
            assert(sym_seq(s[i]).contains(x));
        } else {
            let j = choose|j: int| 0 <= j < t.len() && #[trigger] sym_seq(t[j]).contains(x);
            let k = if j < i {
                j
            } else {
                j + 1
            };
            assert(sym_seq(s[k]).contains(x));
        }
    };
}

/// A pool stays well formed when a node is removed.
proof fn lemma_pool_ok_remove(s: Seq<HuffmanNode>, i: int)
    requires
        pool_ok(s),
        0 <= i < s.len(),
    ensures
        pool_ok(s.remove(i)),
        forall|j: int, x: u64|
            0 <= j < s.len() - 1 && #[trigger] sym_seq(s.remove(i)[j]).contains(x)
                ==> !sym_seq(s[i]).contains(x),
{
    lemma_remove_maps(s, i);
    let t = s.remove(i);
    assert forall|j: int, x: u64|
        0 <= j < s.len() - 1 && #[trigger] sym_seq(t[j]).contains(x) implies !sym_seq(
        s[i],
    ).contains(x) by {
        let m = if j < i {
            j
        } else {
            j + 1
        };
        assert(t[j] == s[m]);
    };
    assert forall|k1: int, k2: int, x: u64|
        0 <= k1 < t.len() && 0 <= k2 < t.len() && k1 != k2 && #[trigger] sym_seq(t[k1]).contains(
            x,
        ) implies !(#[trigger] sym_seq(t[k2]).contains(x)) by {
        let m1 = if k1 < i {
            k1
        } else {
            k1 + 1
        };
        let m2 = if k2 < i {
            k2
        } else {
            k2 + 1
        };
        assert(t[k1] == s[m1]);
        assert(t[k2] == s[m2]);
    };
}

/// Appending a node to a pool adds exactly that node's symbols.
proof fn lemma_pool_has_sym_push(s: Seq<HuffmanNode>, n: HuffmanNode)
    ensures
        forall|x: u64|
            pool_has_sym(s.push(n), x) <==> (pool_has_sym(s, x) || sym_seq(n).contains(x)),
{
    let t = s.push(n);
    assert forall|x: u64| pool_has_sym(t, x) implies (pool_has_sym(s, x) || sym_seq(n).contains(
        x,
    )) by {
        let k = choose|k: int| 0 <= k < t.len() && #[trigger] sym_seq(t[k]).contains(x);
        if k < s.len() {
            assert(sym_seq(s[k]).contains(x));
        }
    };
    assert forall|x: u64| (pool_has_sym(s, x) || sym_seq(n).contains(x)) implies pool_has_sym(
        t,
        x,
    ) by {
        if sym_seq(n).contains(x) {
            assert(sym_seq(t[s.len() as int]).contains(x));
        } else {
            let k = choose|k: int| 0 <= k < s.len() && #[trigger] sym_seq(s[k]).contains(x);
            assert(sym_seq(t[k]).contains(x));
        }
    };
}

proof fn lemma_pool_weight_nonneg(s: Seq<HuffmanNode>)
    ensures
        pool_weight(s) >= 0,
    decreases s.len(),
{
    if s.len() > 0 {
        lemma_pool_weight_nonneg(s.drop_last());
    }
}

proof fn lemma_pool_weight_remove(s: Seq<HuffmanNode>, i: int)
    requires
        0 <= i < s.len(),
    ensures
        pool_weight(s.remove(i)) == pool_weight(s) - weight_of(s[i]),
    decreases s.len(),
{
    if i == s.len() - 1 {
        assert(s.remove(i) =~= s.drop_last());
    } else {
        assert(s.remove(i).drop_last() =~= s.drop_last().remove(i));
        assert(s.remove(i).last() == s.last());
        lemma_pool_weight_remove(s.drop_last(), i);
    }
}

/// The index of the leftmost node of least weight.
fn index_of_min(pool: &Vec<HuffmanNode>) -> (i: usize)
    requires
        pool@.len() > 0,
    ensures
        0 <= i < pool@.len(),
        forall|k: int| 0 <= k < pool@.len() ==> weight_of(pool@[i as int]) <= weight_of(
            #[trigger] pool@[k],
        ),
        forall|k: int| 0 <= k < i ==> weight_of(#[trigger] pool@[k]) > weight_of(pool@[i as int]),
{
    let mut best: usize = 0;
    let mut k: usize = 1;
    while k < pool.len()
        invariant
            0 <= best < k <= pool@.len(),
            forall|j: int| 0 <= j < k ==> weight_of(pool@[best as int]) <= weight_of(
                #[trigger] pool@[j],
            ),
            forall|j: int| 0 <= j < best ==> weight_of(#[trigger] pool@[j]) > weight_of(
                pool@[best as int],
            ),
        decreases pool@.len() - k,
    {
        if pool[k].weight() < pool[best].weight() {
            best = k;
        }
        k = k + 1;
    }
    best
}

/// Builds one Huffman tree from a non-empty pool of leaves: repeatedly
/// removes the two lightest nodes (ties broken towards the leftmost, the
/// first removed becoming the left child), merges them into an internal node
/// carrying the sum of their weights, and puts the merge at the back of the
/// pool; the lone survivor is the root.  A single leaf is returned as it is,
/// with no merge.  Fails with `EmptyInputError` on an empty pool.
pub fn huffman_treeify(leaves: Vec<HuffmanNode>) -> (r: Result<HuffmanNode, HuffmanError>)
    requires
        forall|i: int| 0 <= i < leaves@.len() ==> leaves@[i] is LeafNode,
        pool_ok(leaves@),
        pool_weight(leaves@) <= u64::MAX,
    ensures
        match r {
            Ok(root) => {
                &&& leaves@.len() >= 1
                &&& wf_tree(root)
                &&& distinct_symbols(root)
                &&& forall|x: u64| sym_seq(root).contains(x) <==> pool_has_sym(leaves@, x)
                &&& leaf_pairs(root).to_multiset() == pool_pairs(leaves@)
                &&& weight_of(root) == pool_weight(leaves@)
                &&& leaves@.len() == 1 ==> root == leaves@[0]
            },
            Err(e) => e == HuffmanError::EmptyInputError && leaves@.len() == 0,
        },
{
    let ghost orig = leaves@;
    let mut pool = leaves;
    if pool.len() == 0 {
        return Err(HuffmanError::EmptyInputError);
    }
    while pool.len() > 1
        invariant
            pool@.len() >= 1,
            pool_ok(pool@),
            pool_weight(pool@) == pool_weight(orig),
            pool_pairs(pool@) == pool_pairs(orig),
            pool_weight(orig) <= u64::MAX,
            forall|x: u64| pool_has_sym(pool@, x) <==> pool_has_sym(orig, x),
            orig.len() == 1 ==> pool@ == orig,
        decreases pool@.len(),
    {
        let ghost p0 = pool@;
        let i1 = index_of_min(&pool);
        let left = pool.remove(i1);
        let ghost p1 = pool@;
        proof {
            lemma_pool_weight_remove(p0, i1 as int);
            lemma_pool_has_sym_remove(p0, i1 as int);
            lemma_pool_ok_remove(p0, i1 as int);
            lemma_pool_pairs_remove(p0, i1 as int);
        }
        let i2 = index_of_min(&pool);
        let right = pool.remove(i2);
        let ghost p2 = pool@;
        proof {
            lemma_pool_weight_remove(p1, i2 as int);
            lemma_pool_has_sym_remove(p1, i2 as int);
            lemma_pool_ok_remove(p1, i2 as int);
            lemma_pool_pairs_remove(p1, i2 as int);
            lemma_pool_weight_nonneg(p2);
            assert(weight_of(left) + weight_of(right) <= pool_weight(orig));
        }
        let w = left.weight() + right.weight();
        let merged = HuffmanNode::InternalNode(w, Box::new(left), Box::new(right));
        proof {
            lemma_remove_maps(p1, i2 as int);
            assert(sym_seq(merged) =~= sym_seq(left) + sym_seq(right));
            // The symbols of `left` and `right` are disjoint: `right` still
            // stood in `p1` after `left` was removed.
            assert(p1[i2 as int] == right);
            assert forall|i: int, j: int|
                0 <= i < sym_seq(left).len() && 0 <= j < sym_seq(right).len() implies sym_seq(
                left,
            )[i] != sym_seq(right)[j] by {
                let x = sym_seq(left)[i];
                assert(sym_seq(left).contains(x));
                if sym_seq(right)[j] == x {
                    assert(sym_seq(p1[i2 as int]).contains(x));
                }
            };
            lemma_no_dup_in_concat(sym_seq(left), sym_seq(right));
            assert(distinct_symbols(merged));
            // No node still in `p2` shares a symbol with `merged`.
            assert forall|k: int, x: u64|
                0 <= k < p2.len() && #[trigger] sym_seq(p2[k]).contains(x) implies !sym_seq(
                merged,
            ).contains(x) by {
                assert(!sym_seq(p1[i2 as int]).contains(x));
                let m = if k < i2 as int {
                    k
                } else {
                    k + 1
                };
                assert(p2[k] == p1[m]);
                assert(!sym_seq(p0[i1 as int]).contains(x));
            };
        }
        pool.push(merged);
        proof {
            lemma_pool_has_sym_push(p2, merged);
            assert(pool@.drop_last() =~= p2);
            assert(pool@.last() == merged);
            broadcast use vstd::multiset::group_multiset_axioms;

            lemma_multiset_commutative(leaf_pairs(left), leaf_pairs(right));
            assert(leaf_pairs(merged) =~= leaf_pairs(left) + leaf_pairs(right));
            assert(pool_pairs(pool@) == pool_pairs(p2).add(leaf_pairs(merged).to_multiset()));
            assert(pool_pairs(pool@) =~= pool_pairs(orig));
            assert forall|x: u64| pool_has_sym(pool@, x) <==> pool_has_sym(orig, x) by {
                broadcast use vstd::seq_lib::lemma_seq_concat_contains_all_elements;

                assert(pool@ == p2.push(merged));
                assert(pool_has_sym(pool@, x) <==> (pool_has_sym(p2, x) || sym_seq(
                    merged,
                ).contains(x)));
                assert(sym_seq(merged).contains(x) <==> (sym_seq(left) + sym_seq(right)).contains(
                    x,
                ));
                assert(pool_has_sym(p1, x) <==> (sym_seq(right).contains(x) || pool_has_sym(
                    p2,
                    x,
                )));
                assert(pool_has_sym(p0, x) <==> (sym_seq(left).contains(x) || pool_has_sym(
                    p1,
                    x,
                )));
                assert(pool_has_sym(p0, x) <==> pool_has_sym(orig, x));
            }
            assert forall|k1: int, k2: int, x: u64|
                0 <= k1 < pool@.len() && 0 <= k2 < pool@.len() && k1 != k2 && #[trigger] sym_seq(
                    pool@[k1],
                ).contains(x) implies !(#[trigger] sym_seq(pool@[k2]).contains(x)) by {
                if k1 < p2.len() && k2 < p2.len() {
                    assert(pool@[k1] == p2[k1]);
                    assert(pool@[k2] == p2[k2]);
                } else if k1 < p2.len() {
                    assert(pool@[k1] == p2[k1]);
                    assert(pool@[k2] == merged);
                } else {
                    assert(pool@[k1] == merged);
                    assert(pool@[k2] == p2[k2]);
                }
            };
            assert(pool_ok(pool@));
        }
    }
    let ghost pfinal = pool@;
    let root = pool.remove(0);
    proof {
        assert(pfinal.len() == 1);
        assert(root == pfinal[0]);
        assert(pfinal.drop_last() =~= Seq::<HuffmanNode>::empty());
        assert(pfinal.last() == root);
        assert(pool_weight(pfinal) == pool_weight(pfinal.drop_last()) + weight_of(pfinal.last()));
        assert(pool_weight(Seq::<HuffmanNode>::empty()) == 0);
        assert(pool_weight(pfinal) == weight_of(root));
        broadcast use vstd::multiset::group_multiset_axioms;

        assert(pool_pairs(Seq::<HuffmanNode>::empty()) == Multiset::<(u64, u64)>::empty());
        assert(pool_pairs(pfinal) == pool_pairs(pfinal.drop_last()).add(
            leaf_pairs(pfinal.last()).to_multiset(),
        ));
        assert(leaf_pairs(root).to_multiset() =~= pool_pairs(pfinal));
        assert forall|x: u64| sym_seq(root).contains(x) <==> pool_has_sym(pfinal, x) by {
            if pool_has_sym(pfinal, x) {
                let k = choose|k: int|
                    0 <= k < pfinal.len() && #[trigger] sym_seq(pfinal[k]).contains(x);
                assert(k == 0);
            }
            if sym_seq(root).contains(x) {
                assert(sym_seq(pfinal[0]).contains(x));
            }
        };
    }
    Ok(root)
}

} // verus!
