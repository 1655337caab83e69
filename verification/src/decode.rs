//! Single-symbol decoding by tree walk.

use vstd::prelude::*;
use crate::bits::Bits;
use crate::bits::bits_of;
use crate::node::HuffmanError;
use crate::node::HuffmanNode;
use crate::node::code_of;
use crate::node::decode_spec;
use crate::node::distinct_symbols;
use crate::node::sym_seq;
use crate::encode::lemma_no_dup_parts;

verus! {

/// The round trip: decoding a symbol's extracted code against the tree it
/// came from yields that symbol back.
pub proof fn lemma_round_trip(n: HuffmanNode, s: u64)
    requires
        distinct_symbols(n),
        sym_seq(n).contains(s),
    ensures
        decode_spec(code_of(n, s), n) == Some(s),
    decreases n,
{
    match n {
        HuffmanNode::LeafNode(_, t) => {
            assert(sym_seq(n) == seq![t]);
            assert(s == sym_seq(n)[choose|i: int| 0 <= i < sym_seq(n).len() && sym_seq(n)[i] == s]);
        },
        HuffmanNode::InternalNode(_, l, r) => {
            broadcast use vstd::seq_lib::lemma_seq_concat_contains_all_elements;

            assert(sym_seq(n) == sym_seq(*l) + sym_seq(*r));
            lemma_no_dup_parts(sym_seq(*l), sym_seq(*r));
            if sym_seq(*l).contains(s) {
                assert(code_of(n, s) == seq![false] + code_of(*l, s));
                assert(code_of(n, s).skip(1) =~= code_of(*l, s));
                lemma_round_trip(*l, s);
            } else {
                assert(code_of(n, s) == seq![true] + code_of(*r, s));
                assert(code_of(n, s).skip(1) =~= code_of(*r, s));
                lemma_round_trip(*r, s);
            }
        },
    }
}

/// Decodes exactly one symbol: consume bits from the front, going left on
/// `false` and right on `true`, until a leaf is reached; bits left over after
/// the leaf are ignored.  Fails with `DecodeError` when the bits run out
/// while the walk still stands at an internal node.
pub fn decode(coding: &Bits, ht_node: HuffmanNode) -> (r: Result<u64, HuffmanError>)
    ensures
        match decode_spec(bits_of(*coding), ht_node) {
            Some(s) => r == Ok::<u64, HuffmanError>(s),
            None => r == Err::<u64, HuffmanError>(HuffmanError::DecodeError),
        },
{
    proof {
        assert(bits_of(*coding).skip(0) =~= bits_of(*coding));
    }
    decode_from(coding, 0, ht_node)
}

/// The walk itself, from position `i` of the bit sequence.
fn decode_from(coding: &Bits, i: usize, node: HuffmanNode) -> (r: Result<u64, HuffmanError>)
    requires
        i <= bits_of(*coding).len(),
    ensures
        match decode_spec(bits_of(*coding).skip(i as int), node) {
            Some(s) => r == Ok::<u64, HuffmanError>(s),
            None => r == Err::<u64, HuffmanError>(HuffmanError::DecodeError),
        },
    decreases node,
{
    match node {
        HuffmanNode::LeafNode(_, s) => Ok(s),
        HuffmanNode::InternalNode(_, l, r) => {
            if i >= coding.len() {
                Err(HuffmanError::DecodeError)
            } else {
                let bit = coding.bit_at(i);
                proof {
                    assert(bits_of(*coding).skip(i as int)[0] == bits_of(*coding)[i as int]);
                    assert(bits_of(*coding).skip(i as int).skip(1) =~= bits_of(*coding).skip(
                        i as int + 1));
                }
                if bit {
                    decode_from(coding, i + 1, *r)
                } else {
                    decode_from(coding, i + 1, *l)
                }
            }
        },
    }
}

} // verus!
