//! The canonicalizer: renumbering an arbitrary prefix-code mapping into the
//! canonical mapping that is determined by the code lengths alone.
//!
//! Per length, canonical codes are assigned in strictly increasing numeric
//! order to symbols sorted by their natural order; the first code of each
//! length follows the standard recurrence
//! `first_code(len) = (first_code(len - 1) + count(len - 1)) * 2`.

use vstd::prelude::*;
use vstd::arithmetic::power2::lemma2_to64;
use vstd::arithmetic::power2::lemma2_to64_rest;
use vstd::arithmetic::power2::lemma_pow2_pos;
use vstd::arithmetic::power2::lemma_pow2_strictly_increases;
use vstd::arithmetic::power2::pow2;
use vstd::pervasive::VecAdditionalExecFns;
use vstd::set_lib::lemma_len_subset;
use crate::bits::Bits;
use crate::bits::bits_of;
use crate::node::HuffmanError;

verus! {

/// The symbol-to-code-length assignment a code mapping induces; later
/// entries win, though with unique keys there is nothing to win over.
pub open spec fn len_map(s: Seq<(u64, Bits)>) -> Map<u64, nat>
    decreases s.len(),
{
    if s.len() == 0 {
        Map::empty()
    } else {
        len_map(s.drop_last()).insert(s.last().0, bits_of(s.last().1).len())
    }
}

/// No symbol appears in two entries.
pub open spec fn keys_unique(s: Seq<(u64, Bits)>) -> bool {
    forall|i: int, j: int| 0 <= i < j < s.len() ==> (#[trigger] s[i]).0 != (#[trigger] s[j]).0
}

/// The symbols assigned the given code length.
pub open spec fn len_class(lm: Map<u64, nat>, len: nat) -> Set<u64> {
    lm.dom().filter(|t: u64| lm[t] == len)
}

/// The symbols assigned the given code length whose symbol is below `sym`.
pub open spec fn below_class(lm: Map<u64, nat>, len: nat, sym: u64) -> Set<u64> {
    lm.dom().filter(|t: u64| lm[t] == len && t < sym)
}

proof fn lemma_len_class_finite(lm: Map<u64, nat>, len: nat)
    requires
        lm.dom().finite(),
    ensures
        len_class(lm, len).finite(),
        len_class(lm, len).len() <= lm.dom().len(),
{
    let f = |t: u64| lm[t] == len;
    lm.dom().lemma_len_filter(f);
    assert(len_class(lm, len) =~= lm.dom().filter(f));
}

proof fn lemma_below_class_finite(lm: Map<u64, nat>, len: nat, sym: u64)
    requires
        lm.dom().finite(),
    ensures
        below_class(lm, len, sym).finite(),
        below_class(lm, len, sym).len() <= lm.dom().len(),
{
    let f = |t: u64| lm[t] == len && t < sym;
    lm.dom().lemma_len_filter(f);
    assert(below_class(lm, len, sym) =~= lm.dom().filter(f));
}

/// How many symbols are assigned the given code length.
pub open spec fn count_len(lm: Map<u64, nat>, len: nat) -> nat {
    len_class(lm, len).len()
}

/// The first canonical code value of each length, by the standard
/// recurrence.
pub open spec fn first_code(lm: Map<u64, nat>, len: nat) -> nat
    decreases len,
{
    if len == 0 {
        0
    } else {
        (first_code(lm, (len - 1) as nat) + count_len(lm, (len - 1) as nat)) * 2
    }
}

/// One past the last code value used at the given length.
pub open spec fn code_space(lm: Map<u64, nat>, len: nat) -> nat {
    first_code(lm, len) + count_len(lm, len)
}

/// The Kraft inequality, phrased level by level: at no length does the
/// canonical layout overrun the available code space.
pub open spec fn kraft_ok(lm: Map<u64, nat>) -> bool {
    forall|len: nat| #[trigger] code_space(lm, len) <= pow2(len)
}

/// What the canonicalizer demands of a multi-symbol length assignment: no
/// zero lengths, and the Kraft inequality.
pub open spec fn valid_lengths(lm: Map<u64, nat>) -> bool {
    &&& forall|t: u64| #[trigger] lm.dom().contains(t) ==> lm[t] >= 1
    &&& kraft_ok(lm)
}

/// How many symbols of the same length precede `s` in symbol order.
pub open spec fn rank(lm: Map<u64, nat>, s: u64) -> nat {
    below_class(lm, lm[s], s).len()
}

/// The numeric canonical code of a symbol.
pub open spec fn canonical_value(lm: Map<u64, nat>, s: u64) -> nat {
    first_code(lm, lm[s]) + rank(lm, s)
}

/// A value written as exactly `width` bits, most significant bit first.
pub open spec fn bits_of_num(v: nat, width: nat) -> Seq<bool>
    decreases width,
{
    if width == 0 {
        Seq::empty()
    } else {
        bits_of_num(v / 2, (width - 1) as nat).push(v % 2 == 1)
    }
}

pub proof fn lemma_bits_of_num_len(v: nat, width: nat)
    ensures
        bits_of_num(v, width).len() == width,
    decreases width,
{
    if width > 0 {
        lemma_bits_of_num_len(v / 2, (width - 1) as nat);
    }
}

/// Canonical determinism: the canonical code of every symbol depends only on
/// the symbol-to-length assignment of the input mapping, never on the bit
/// values its codes happen to hold.
pub proof fn lemma_canonical_determinism(a: Seq<(u64, Bits)>, b: Seq<(u64, Bits)>, s: u64)
    requires
        len_map(a) == len_map(b),
    ensures
        canonical_value(len_map(a), s) == canonical_value(len_map(b), s),
        bits_of_num(canonical_value(len_map(a), s), len_map(a)[s]) == bits_of_num(
            canonical_value(len_map(b), s),
            len_map(b)[s],
        ),
{
}

/// Monotonic numeric layout: of two symbols with codes of the same length,
/// the one earlier in symbol order gets the numerically smaller canonical
/// code.
pub proof fn lemma_monotonic_layout(lm: Map<u64, nat>, s: u64, t: u64)
    requires
        lm.dom().finite(),
        lm.dom().contains(s),
        lm.dom().contains(t),
        lm[s] == lm[t],
        s < t,
    ensures
        canonical_value(lm, s) < canonical_value(lm, t),
{
    broadcast use vstd::set::group_set_axioms;

    let rs = below_class(lm, lm[s], s);
    let rt = below_class(lm, lm[t], t);
    lemma_below_class_finite(lm, lm[t], t);
    assert(rs.subset_of(rt.remove(s)));
    assert(rt.remove(s).subset_of(rt));
    lemma_len_subset(rs, rt.remove(s));
    assert(rt.contains(s));
    assert(rt.len() == rt.remove(s).len() + 1);
}

/// How many of the (symbol, length) pairs carry the given length.
pub open spec fn count_pairs_len(s: Seq<(u64, usize)>, len: nat) -> nat
    decreases s.len(),
{
    if s.len() == 0 {
        0
    } else {
        count_pairs_len(s.drop_last(), len) + if s.last().1 as nat == len {
            1nat
        } else {
            0nat
        }
    }
}

/// How many pairs carry the given length with a symbol below `sym`.
pub open spec fn count_pairs_below(s: Seq<(u64, usize)>, len: nat, sym: u64) -> nat
    decreases s.len(),
{
    if s.len() == 0 {
        0
    } else {
        count_pairs_below(s.drop_last(), len, sym) + if s.last().1 as nat == len && s.last().0
            < sym {
            1nat
        } else {
            0nat
        }
    }
}

/// The pairs carry exactly the assignment `lm`: every pair is in it, every
/// symbol of it has a pair, and no symbol has two.
pub open spec fn pairs_match(s: Seq<(u64, usize)>, lm: Map<u64, nat>) -> bool {
    &&& forall|i: int|
        0 <= i < s.len() ==> lm.dom().contains((#[trigger] s[i]).0) && lm[s[i].0] == s[i].1 as nat
    &&& forall|t: u64|
        #[trigger] lm.dom().contains(t) ==> exists|i: int|
            0 <= i < s.len() && (#[trigger] s[i]).0 == t
    &&& forall|i: int, j: int| 0 <= i < j < s.len() ==> (#[trigger] s[i]).0 != (#[trigger] s[j]).0
}

/// Counting over the pairs agrees with counting over the assignment.
proof fn lemma_count_len_bridge(s: Seq<(u64, usize)>, lm: Map<u64, nat>, len: nat)
    requires
        pairs_match(s, lm),
        lm.dom().finite(),
    ensures
        count_pairs_len(s, len) == count_len(lm, len),
    decreases s.len(),
{
    broadcast use vstd::set::group_set_axioms;

    if s.len() == 0 {
        assert(lm.dom() =~= Set::<u64>::empty());
        assert(len_class(lm, len) =~= Set::<u64>::empty());
    } else {
        let d = s.drop_last();
        let k = s.last().0;
        let lm2 = lm.remove(k);
        assert(s.last() == s[s.len() - 1]);
        assert forall|i: int| 0 <= i < d.len() implies lm2.dom().contains((#[trigger] d[i]).0)
            && lm2[d[i].0] == d[i].1 as nat by {
            assert(d[i] == s[i]);
            assert(s[i].0 != k);
        };
        assert forall|t: u64| #[trigger] lm2.dom().contains(t) implies exists|i: int|
            0 <= i < d.len() && (#[trigger] d[i]).0 == t by {
            assert(lm.dom().contains(t));
            let i = choose|i: int| 0 <= i < s.len() && (#[trigger] s[i]).0 == t;
            assert(t != k);
            assert(i != s.len() - 1);
            assert(d[i] == s[i]);
            assert(0 <= i < d.len() && d[i].0 == t);
        };
        assert forall|i: int, j: int| 0 <= i < j < d.len() implies (#[trigger] d[i]).0 != (
        #[trigger] d[j]).0 by {
            assert(d[i] == s[i] && d[j] == s[j]);
        };
        lemma_count_len_bridge(d, lm2, len);
        let f = len_class(lm, len);
        let f2 = len_class(lm2, len);
        assert(f2 =~= f.remove(k));
        lemma_len_class_finite(lm, len);
        assert(f.len() == f.remove(k).len() + if f.contains(k) {
            1int
        } else {
            0
        });
        assert(lm[k] == s.last().1 as nat);
    }
}

/// The same, for counting below a symbol.
proof fn lemma_count_below_bridge(s: Seq<(u64, usize)>, lm: Map<u64, nat>, len: nat, sym: u64)
    requires
        pairs_match(s, lm),
        lm.dom().finite(),
    ensures
        count_pairs_below(s, len, sym) == below_class(lm, len, sym).len(),
    decreases s.len(),
{
    broadcast use vstd::set::group_set_axioms;

    if s.len() == 0 {
        assert(lm.dom() =~= Set::<u64>::empty());
        assert(below_class(lm, len, sym) =~= Set::<u64>::empty());
    } else {
        let d = s.drop_last();
        let k = s.last().0;
        let lm2 = lm.remove(k);
        assert(s.last() == s[s.len() - 1]);
        assert forall|i: int| 0 <= i < d.len() implies lm2.dom().contains((#[trigger] d[i]).0)
            && lm2[d[i].0] == d[i].1 as nat by {
            assert(d[i] == s[i]);
            assert(s[i].0 != k);
        };
        assert forall|t: u64| #[trigger] lm2.dom().contains(t) implies exists|i: int|
            0 <= i < d.len() && (#[trigger] d[i]).0 == t by {
            assert(lm.dom().contains(t));
            let i = choose|i: int| 0 <= i < s.len() && (#[trigger] s[i]).0 == t;
            assert(t != k);
            assert(i != s.len() - 1);
            assert(d[i] == s[i]);
            assert(0 <= i < d.len() && d[i].0 == t);
        };
        assert forall|i: int, j: int| 0 <= i < j < d.len() implies (#[trigger] d[i]).0 != (
        #[trigger] d[j]).0 by {
            assert(d[i] == s[i] && d[j] == s[j]);
        };
        lemma_count_below_bridge(d, lm2, len, sym);
        let f = below_class(lm, len, sym);
        let f2 = below_class(lm2, len, sym);
        assert(f2 =~= f.remove(k));
        lemma_below_class_finite(lm, len, sym);
        assert(f.len() == f.remove(k).len() + if f.contains(k) {
            1int
        } else {
            0
        });
        assert(lm[k] == s.last().1 as nat);
    }
}

/// When every symbol in the pairs is below `sym`, the below-count is the
/// whole count.
proof fn lemma_below_all(s: Seq<(u64, usize)>, len: nat, sym: u64)
    requires
        forall|i: int| 0 <= i < s.len() ==> (#[trigger] s[i]).0 < sym,
    ensures
        count_pairs_below(s, len, sym) == count_pairs_len(s, len),
    decreases s.len(),
{
    if s.len() > 0 {
        assert(s.last() == s[s.len() - 1]);
        assert(forall|i: int| 0 <= i < s.len() - 1 ==> (#[trigger] s.drop_last()[i]) == s[i]);
        lemma_below_all(s.drop_last(), len, sym);
    }
}

/// In pairs sorted strictly by symbol, the pairs of a given length below
/// entry `i`'s symbol are exactly those of that length in the prefix.
proof fn lemma_prefix_count(s: Seq<(u64, usize)>, i: int)
    requires
        forall|p: int, q: int| 0 <= p < q < s.len() ==> (#[trigger] s[p]).0 < (#[trigger] s[q]).0,
        0 <= i < s.len(),
    ensures
        count_pairs_below(s, s[i].1 as nat, s[i].0) == count_pairs_len(s.take(i), s[i].1 as nat),
    decreases s.len(),
{
    let len = s[i].1 as nat;
    let sym = s[i].0;
    assert(s.last() == s[s.len() - 1]);
    if i == s.len() - 1 {
        assert(s.take(i) =~= s.drop_last());
        assert(count_pairs_below(s, len, sym) == count_pairs_below(s.drop_last(), len, sym));
        assert forall|p: int| 0 <= p < s.drop_last().len() implies (
        #[trigger] s.drop_last()[p]).0 < sym by {
            assert(s.drop_last()[p] == s[p]);
        };
        lemma_below_all(s.drop_last(), len, sym);
    } else {
        let d = s.drop_last();
        assert(s.last().0 > sym);
        assert(count_pairs_below(s, len, sym) == count_pairs_below(d, len, sym));
        assert(forall|p: int| 0 <= p < d.len() ==> (#[trigger] d[p]) == s[p]);
        lemma_prefix_count(d, i);
        assert(d.take(i) =~= s.take(i));
    }
}

/// A prefix never counts more pairs than the whole.
proof fn lemma_count_take_le(s: Seq<(u64, usize)>, i: int, len: nat)
    requires
        0 <= i <= s.len(),
    ensures
        count_pairs_len(s.take(i), len) <= count_pairs_len(s, len),
    decreases s.len() - i,
{
    if i == s.len() {
        assert(s.take(i) =~= s);
    } else {
        assert(s.take(i + 1).drop_last() =~= s.take(i));
        assert(s.take(i + 1).last() == s[i]);
        lemma_count_take_le(s, i + 1, len);
    }
}

/// Beyond the greatest assigned length nothing is counted.
proof fn lemma_count_len_zero_beyond(lm: Map<u64, nat>, maxl: nat, len: nat)
    requires
        forall|t: u64| #[trigger] lm.dom().contains(t) ==> lm[t] <= maxl,
        len > maxl,
    ensures
        count_len(lm, len) == 0,
{
    broadcast use vstd::set::group_set_axioms;

    assert(len_class(lm, len) =~= Set::<u64>::empty());
}

/// The Kraft inequality, once it holds up to the greatest assigned length,
/// holds at every length.
proof fn lemma_kraft_beyond(lm: Map<u64, nat>, maxl: nat, len: nat)
    requires
        forall|t: u64| #[trigger] lm.dom().contains(t) ==> lm[t] <= maxl,
        code_space(lm, maxl) <= pow2(maxl),
        len >= maxl,
    ensures
        code_space(lm, len) <= pow2(len),
    decreases len - maxl,
{
    if len > maxl {
        lemma_kraft_beyond(lm, maxl, (len - 1) as nat);
        lemma_count_len_zero_beyond(lm, maxl, len);
        vstd::arithmetic::power2::lemma_pow2_unfold(len);
    }
}

/// Under the Kraft inequality every canonical code value fits its width.
pub proof fn lemma_canonical_fits(lm: Map<u64, nat>, s: u64)
    requires
        lm.dom().finite(),
        lm.dom().contains(s),
        kraft_ok(lm),
    ensures
        canonical_value(lm, s) < pow2(lm[s]),
{
    broadcast use vstd::set::group_set_axioms;

    let rs = below_class(lm, lm[s], s);
    let cs = len_class(lm, lm[s]);
    lemma_len_class_finite(lm, lm[s]);
    assert(rs.subset_of(cs.remove(s)));
    lemma_len_subset(rs, cs.remove(s));
    assert(cs.contains(s));
    assert(cs.len() == cs.remove(s).len() + 1);
    assert(rank(lm, s) < count_len(lm, lm[s]));
    assert(code_space(lm, lm[s]) <= pow2(lm[s]));
}

/// What the induced assignment holds, when keys are unique: one entry per
/// symbol, mapping it to its code's length.
pub proof fn lemma_len_map_props(s: Seq<(u64, Bits)>)
    requires
        keys_unique(s),
    ensures
        len_map(s).dom().finite(),
        len_map(s).dom().len() == s.len(),
        forall|i: int|
            0 <= i < s.len() ==> len_map(s).dom().contains((#[trigger] s[i]).0) && len_map(
                s,
            )[s[i].0] == bits_of(s[i].1).len(),
        forall|t: u64|
            #[trigger] len_map(s).dom().contains(t) ==> exists|i: int|
                0 <= i < s.len() && (#[trigger] s[i]).0 == t,
    decreases s.len(),
{
    broadcast use vstd::set::group_set_axioms;

    if s.len() > 0 {
        let d = s.drop_last();
        assert(s.last() == s[s.len() - 1]);
        assert(forall|i: int| 0 <= i < d.len() ==> #[trigger] d[i] == s[i]);
        lemma_len_map_props(d);
        let k = s.last().0;
        if len_map(d).dom().contains(k) {
            let i = choose|i: int| 0 <= i < d.len() && (#[trigger] d[i]).0 == k;
            assert(s[i].0 == s[s.len() - 1].0);
            assert(false);
        }
        assert(len_map(s).dom() =~= len_map(d).dom().insert(k));
        assert forall|i: int| 0 <= i < s.len() implies len_map(s).dom().contains(
            (#[trigger] s[i]).0,
        ) && len_map(s)[s[i].0] == bits_of(s[i].1).len() by {
            if i < s.len() - 1 {
                assert(d[i] == s[i]);
                assert(s[i].0 != k);
            }
        };
        assert forall|t: u64| #[trigger] len_map(s).dom().contains(t) implies exists|i: int|
            0 <= i < s.len() && (#[trigger] s[i]).0 == t by {
            if t == k {
                assert(s[s.len() - 1].0 == t);
            } else {
                assert(len_map(d).dom().contains(t));
                let i = choose|i: int| 0 <= i < d.len() && (#[trigger] d[i]).0 == t;
                assert(s[i].0 == t);
            }
        };
    }
}

/// Every entry of `s` is one of the entries of `pairs`.
spec fn from_pairs(s: Seq<(u64, usize)>, pairs: Seq<(u64, usize)>) -> bool {
    forall|j: int| 0 <= j < s.len() ==> pairs.contains(#[trigger] s[j])
}

/// Every entry of `pairs` sits in `o` or in `w`.
spec fn covers(pairs: Seq<(u64, usize)>, o: Seq<(u64, usize)>, w: Seq<(u64, usize)>) -> bool {
    forall|i: int|
        0 <= i < pairs.len() ==> o.contains(#[trigger] pairs[i]) || w.contains(pairs[i])
}

/// No symbol appears twice.
spec fn keys_distinct(s: Seq<(u64, usize)>) -> bool {
    forall|i: int, j: int| 0 <= i < j < s.len() ==> (#[trigger] s[i]).0 != (#[trigger] s[j]).0
}

/// Symbols strictly ascending.
spec fn strictly_sorted(s: Seq<(u64, usize)>) -> bool {
    forall|i: int, j: int| 0 <= i < j < s.len() ==> (#[trigger] s[i]).0 < (#[trigger] s[j]).0
}

/// Every symbol of `o` is below every symbol of `w`.
spec fn all_below(o: Seq<(u64, usize)>, w: Seq<(u64, usize)>) -> bool {
    forall|i: int, j: int|
        0 <= i < o.len() && 0 <= j < w.len() ==> (#[trigger] o[i]).0 < (#[trigger] w[j]).0
}

/// One selection step: moving the least-symbol entry of `w0` to the back of
/// `o0` keeps every invariant of the selection sort.
proof fn lemma_sort_step(
    pairs: Seq<(u64, usize)>,
    o0: Seq<(u64, usize)>,
    w0: Seq<(u64, usize)>,
    m: int,
)
    requires
        0 <= m < w0.len(),
        forall|j: int| 0 <= j < w0.len() ==> w0[m].0 <= (#[trigger] w0[j]).0,
        from_pairs(o0, pairs),
        from_pairs(w0, pairs),
        covers(pairs, o0, w0),
        keys_distinct(w0),
        strictly_sorted(o0),
        all_below(o0, w0),
    ensures
        from_pairs(o0.push(w0[m]), pairs),
        from_pairs(w0.remove(m), pairs),
        covers(pairs, o0.push(w0[m]), w0.remove(m)),
        keys_distinct(w0.remove(m)),
        strictly_sorted(o0.push(w0[m])),
        all_below(o0.push(w0[m]), w0.remove(m)),
{
    let p = w0[m];
    let o1 = o0.push(p);
    let w1 = w0.remove(m);
    let last = o0.len() as int;
    assert(forall|j: int| 0 <= j < m ==> #[trigger] w1[j] == w0[j]);
    assert(forall|j: int| m <= j < w0.len() - 1 ==> #[trigger] w1[j] == w0[j + 1]);
    assert forall|j: int| 0 <= j < o1.len() implies pairs.contains(#[trigger] o1[j]) by {
        if j < last {
            assert(o1[j] == o0[j]);
        } else {
            assert(o1[j] == w0[m]);
        }
    };
    assert forall|j: int| 0 <= j < w1.len() implies pairs.contains(#[trigger] w1[j]) by {
        let jm = if j < m {
            j
        } else {
            j + 1
        };
        assert(w1[j] == w0[jm]);
    };
    assert forall|i: int| 0 <= i < pairs.len() implies o1.contains(#[trigger] pairs[i])
        || w1.contains(pairs[i]) by {
        if o0.contains(pairs[i]) {
            let j = choose|j: int| 0 <= j < o0.len() && o0[j] == pairs[i];
            assert(o1[j] == pairs[i]);
        } else {
            assert(w0.contains(pairs[i]));
            let j = choose|j: int| 0 <= j < w0.len() && w0[j] == pairs[i];
            if j == m {
                assert(o1[last] == pairs[i]);
            } else {
                let jn = if j < m {
                    j
                } else {
                    j - 1
                };
                assert(w1[jn] == w0[j]);
                assert(w1[jn] == pairs[i]);
            }
        }
    };
    assert forall|i: int, j: int| 0 <= i < j < w1.len() implies (#[trigger] w1[i]).0 != (
    #[trigger] w1[j]).0 by {
        let im = if i < m {
            i
        } else {
            i + 1
        };
        let jm = if j < m {
            j
        } else {
            j + 1
        };
        assert(w1[i] == w0[im] && w1[j] == w0[jm]);
    };
    assert forall|i: int, j: int| 0 <= i < j < o1.len() implies (#[trigger] o1[i]).0 < (
    #[trigger] o1[j]).0 by {
        if j == last {
            assert(o1[i] == o0[i]);
            assert(o0[i].0 < w0[m].0);
        } else {
            assert(o1[i] == o0[i] && o1[j] == o0[j]);
        }
    };
    assert forall|i: int, j: int| 0 <= i < o1.len() && 0 <= j < w1.len() implies (
    #[trigger] o1[i]).0 < (#[trigger] w1[j]).0 by {
        let jm = if j < m {
            j
        } else {
            j + 1
        };
        assert(w1[j] == w0[jm]);
        if i == last {
            assert(w0[m].0 <= w0[jm].0);
            assert(w0[m].0 != w0[jm].0);
        } else {
            assert(o1[i] == o0[i]);
        }
    };
}

/// Sorts pairs strictly ascending by symbol, by repeatedly moving the least
/// remaining symbol over; the input's symbols must be pairwise distinct.
fn sort_pairs(pairs: &Vec<(u64, usize)>) -> (out: Vec<(u64, usize)>)
    requires
        keys_distinct(pairs@),
    ensures
        out@.len() == pairs@.len(),
        strictly_sorted(out@),
        from_pairs(out@, pairs@),
        forall|i: int| 0 <= i < pairs@.len() ==> out@.contains(#[trigger] pairs@[i]),
{
    let mut work: Vec<(u64, usize)> = Vec::new();
    let mut t: usize = 0;
    while t < pairs.len()
        invariant
            t <= pairs@.len(),
            work@ == pairs@.take(t as int),
        decreases pairs@.len() - t,
    {
        work.push(pairs[t]);
        proof {
            assert(work@ =~= pairs@.take(t as int + 1));
        }
        t = t + 1;
    }
    let mut out: Vec<(u64, usize)> = Vec::new();
    proof {
        assert(pairs@.take(pairs@.len() as int) =~= pairs@);
        assert(work@ == pairs@);
        assert forall|j: int| 0 <= j < work@.len() implies pairs@.contains(
            #[trigger] work@[j],
        ) by {
            assert(pairs@[j] == work@[j]);
        };
        assert forall|i: int| 0 <= i < pairs@.len() implies out@.contains(#[trigger] pairs@[i])
            || work@.contains(pairs@[i]) by {
            assert(work@[i] == pairs@[i]);
        };
    }
    while work.len() > 0
        invariant
            out@.len() + work@.len() == pairs@.len(),
            keys_distinct(pairs@),
            from_pairs(out@, pairs@),
            from_pairs(work@, pairs@),
            covers(pairs@, out@, work@),
            keys_distinct(work@),
            strictly_sorted(out@),
            all_below(out@, work@),
        decreases work@.len(),
    {
        let mut m: usize = 0;
        let mut q: usize = 1;
        while q < work.len()
            invariant
                work@.len() >= 1,
                0 <= m < q <= work@.len(),
                forall|j: int| 0 <= j < q ==> work@[m as int].0 <= (#[trigger] work@[j]).0,
            decreases work@.len() - q,
        {
            if work[q].0 < work[m].0 {
                m = q;
            }
            q = q + 1;
        }
        proof {
            lemma_sort_step(pairs@, out@, work@, m as int);
        }
        let p = work.remove(m);
        out.push(p);
    }
    proof {
        assert forall|i: int| 0 <= i < pairs@.len() implies out@.contains(
            #[trigger] pairs@[i],
        ) by {
            if work@.contains(pairs@[i]) {
                let j = choose|j: int| 0 <= j < work@.len() && work@[j] == pairs@[i];
            }
        };
    }
    out
}


/// Writes a value as exactly `width` bits, most significant first; only the
/// low `width` bits of the value are represented.
fn num_to_bits(v: u128, width: usize) -> (b: Bits)
    requires
        width <= 64,
    ensures
        bits_of(b) == bits_of_num(v as nat, width as nat),
    decreases width,
{
    if width == 0 {
        Bits::new()
    } else {
        let mut b = num_to_bits(v / 2, width - 1);
        proof {
            lemma_bits_of_num_len((v / 2) as nat, (width - 1) as nat);
        }
        b.push_bit(v % 2 == 1);
        b
    }
}

/// Concrete bounds on small powers of two.
proof fn lemma_pow2_le64(e: nat)
    requires
        e <= 64,
    ensures
        pow2(e) <= 0x10000000000000000,
        e < 64 ==> pow2(e) <= 0x8000000000000000,
        pow2(e) >= 1,
{
    lemma2_to64();
    lemma2_to64_rest();
    lemma_pow2_pos(e);
    if e < 63 {
        lemma_pow2_strictly_increases(e, 63);
    }
    if e < 64 {
        lemma_pow2_strictly_increases(e, 64);
    }
}

/// Renumbers a prefix-code mapping into canonical form.  The bit values of
/// the input codes are ignored; only their lengths matter.  Per length,
/// canonical codes are handed out in increasing numeric value to symbols in
/// their natural order, starting from the standard recurrence's first code;
/// every output code is written with exactly its input's length.  A mapping
/// of a single symbol keeps its declared length, all bits zero; only the
/// degenerate zero-length code, which cannot be transmitted, is widened to
/// the one-bit code `0`.  Fails with
/// `EmptyInputError` on an empty mapping, and with `InvalidLengthError`
/// exactly when several symbols are mapped and either some code length is
/// zero or the lengths break the Kraft inequality.
pub fn canonicalize(ht_map: &Vec<(u64, Bits)>) -> (r: Result<Vec<(u64, Bits)>, HuffmanError>)
    requires
        keys_unique(ht_map@),
        forall|i: int| 0 <= i < ht_map@.len() ==> bits_of((#[trigger] ht_map@[i]).1).len() <= 64,
    ensures
        ({
            let lm = len_map(ht_map@);
            match r {
                Err(e) => {
                    &&& (e == HuffmanError::EmptyInputError || e
                        == HuffmanError::InvalidLengthError)
                    &&& (e == HuffmanError::EmptyInputError <==> ht_map@.len() == 0)
                    &&& (e == HuffmanError::InvalidLengthError <==> ht_map@.len() >= 2
                        && !valid_lengths(lm))
                },
                Ok(out) => {
                    &&& ht_map@.len() >= 1
                    &&& (ht_map@.len() == 1 ==> out@.len() == 1 && out@[0].0 == ht_map@[0].0
                        && (bits_of(ht_map@[0].1).len() == 0 ==> bits_of(out@[0].1) == seq![false])
                        && (bits_of(ht_map@[0].1).len() >= 1 ==> bits_of(out@[0].1)
                            == bits_of_num(0, bits_of(ht_map@[0].1).len()) && bits_of(
                            out@[0].1,
                        ).len() == bits_of(ht_map@[0].1).len()))
                    &&& (ht_map@.len() >= 2 ==> {
                        &&& valid_lengths(lm)
                        &&& out@.len() == ht_map@.len()
                        &&& (forall|i: int, j: int|
                            0 <= i < j < out@.len() ==> (#[trigger] out@[i]).0 < (
                            #[trigger] out@[j]).0)
                        &&& (forall|i: int|
                            0 <= i < out@.len() ==> lm.dom().contains((#[trigger] out@[i]).0))
                        &&& (forall|t: u64|
                            #[trigger] lm.dom().contains(t) ==> exists|i: int|
                                0 <= i < out@.len() && (#[trigger] out@[i]).0 == t)
                        &&& (forall|i: int|
                            0 <= i < out@.len() ==> bits_of((#[trigger] out@[i]).1).len()
                                == lm[out@[i].0])
                        &&& (forall|i: int|
                            0 <= i < out@.len() ==> bits_of((#[trigger] out@[i]).1)
                                == bits_of_num(
                                canonical_value(lm, out@[i].0),
                                lm[out@[i].0],
                            ))
                    })
                },
            }
        }),
{
    let ghost lm = len_map(ht_map@);
    let n = ht_map.len();
    if n == 0 {
        return Err(HuffmanError::EmptyInputError);
    }
    proof {
        lemma_len_map_props(ht_map@);
    }
    if n == 1 {
        let sym = ht_map[0].0;
        let l = ht_map[0].1.len();
        let code = if l == 0 {
            let mut c = Bits::new();
            c.push_bit(false);
            proof {
                assert(bits_of(c) =~= seq![false]);
            }
            c
        } else {
            num_to_bits(0, l)
        };
        proof {
            lemma_bits_of_num_len(0, bits_of(ht_map@[0].1).len());
        }
        let mut out: Vec<(u64, Bits)> = Vec::new();
        out.push((sym, code));
        return Ok(out);
    }
    // One (symbol, length) pair per entry, in input order.
    let mut pairs: Vec<(u64, usize)> = Vec::new();
    let mut i: usize = 0;
    while i < n
        invariant
            i <= n,
            n == ht_map@.len(),
            pairs@.len() == i,
            forall|k: int|
                0 <= k < i ==> #[trigger] pairs@[k] == (
                    ht_map@[k].0,
                    bits_of(ht_map@[k].1).len() as usize,
                ),
        decreases n - i,
    {
        let sym = ht_map[i].0;
        let l = ht_map[i].1.len();
        pairs.push((sym, l));
        i = i + 1;
    }
    // A zero length among several symbols cannot belong to a prefix code.
    let mut i: usize = 0;
    while i < n
        invariant
            i <= n,
            n == ht_map@.len(),
            n == pairs@.len(),
            forall|k: int|
                0 <= k < n ==> #[trigger] pairs@[k] == (
                    ht_map@[k].0,
                    bits_of(ht_map@[k].1).len() as usize,
                ),
            forall|k: int| 0 <= k < i ==> (#[trigger] pairs@[k]).1 >= 1,
            forall|k: int| 0 <= k < n ==> bits_of((#[trigger] ht_map@[k]).1).len() <= 64,
            keys_unique(ht_map@),
            lm == len_map(ht_map@),
            n >= 2,
        decreases n - i,
    {
        if pairs[i].1 == 0 {
            proof {
                lemma_len_map_props(ht_map@);
                assert(lm.dom().contains(ht_map@[i as int].0) && lm[ht_map@[i as int].0]
                    == bits_of(ht_map@[i as int].1).len());
                assert(!valid_lengths(lm));
            }
            return Err(HuffmanError::InvalidLengthError);
        }
        i = i + 1;
    }
    // The greatest length present, bounded by the machine word.
    let mut max_len: usize = 1;
    let mut i: usize = 0;
    while i < n
        invariant
            i <= n,
            n == pairs@.len(),
            1 <= max_len <= 64,
            forall|k: int| 0 <= k < n ==> 1 <= (#[trigger] pairs@[k]).1 <= 64,
            forall|k: int| 0 <= k < i ==> (#[trigger] pairs@[k]).1 <= max_len,
        decreases n - i,
    {
        if pairs[i].1 > max_len {
            max_len = pairs[i].1;
        }
        i = i + 1;
    }
    proof {
        assert forall|t: u64| #[trigger] lm.dom().contains(t) implies 1 <= lm[t]
            <= max_len as nat by {
            let k = choose|k: int| 0 <= k < ht_map@.len() && (#[trigger] ht_map@[k]).0 == t;
            assert(pairs@[k].1 <= max_len);
            assert(lm[t] == bits_of(ht_map@[k].1).len());
        };
    }
    let sorted = sort_pairs(&pairs);
    let ghost sp = sorted@;
    proof {
        // The sorted pairs carry exactly the assignment `lm`.
        assert forall|j: int| 0 <= j < sp.len() implies lm.dom().contains((#[trigger] sp[j]).0)
            && lm[sp[j].0] == sp[j].1 as nat && 1 <= sp[j].1 <= 64 && sp[j].1
            <= max_len by {
            assert(pairs@.contains(sp[j]));
            let k = choose|k: int| 0 <= k < pairs@.len() && pairs@[k] == sp[j];
            assert(pairs@[k] == (ht_map@[k].0, bits_of(ht_map@[k].1).len() as usize));
        };
        assert forall|t: u64| #[trigger] lm.dom().contains(t) implies exists|j: int|
            0 <= j < sp.len() && (#[trigger] sp[j]).0 == t by {
            let k = choose|k: int| 0 <= k < ht_map@.len() && (#[trigger] ht_map@[k]).0 == t;
            assert(sp.contains(pairs@[k]));
            let j = choose|j: int| 0 <= j < sp.len() && sp[j] == pairs@[k];
            assert(sp[j].0 == t);
        };
        assert(pairs_match(sp, lm));
    }
    // Count the symbols of each length.
    let mut counts: Vec<usize> = Vec::new();
    let mut l: usize = 0;
    while l < max_len + 1
        invariant
            l <= max_len + 1,
            max_len <= 64,
            counts@.len() == l,
            forall|k: int| 0 <= k < l ==> (#[trigger] counts@[k]) == 0,
        decreases max_len + 1 - l,
    {
        counts.push(0);
        l = l + 1;
    }
    proof {
        assert forall|L: int| 0 <= L <= max_len implies (#[trigger] counts@[L])
            == count_pairs_len(sp.take(0), L as nat) by {
            assert(sp.take(0) =~= Seq::<(u64, usize)>::empty());
        };
    }
    let mut i: usize = 0;
    while i < n
        invariant
            i <= n,
            n == sp.len(),
            sp == sorted@,
            max_len <= 64,
            counts@.len() == max_len + 1,
            forall|j: int| 0 <= j < sp.len() ==> 1 <= (#[trigger] sp[j]).1 <= max_len,
            forall|L: int|
                0 <= L <= max_len ==> (#[trigger] counts@[L]) == count_pairs_len(
                    sp.take(i as int),
                    L as nat,
                ),
            forall|L: int| 0 <= L <= max_len ==> (#[trigger] counts@[L]) <= i,
        decreases n - i,
    {
        let l = sorted[i].1;
        let c = counts[l];
        counts.set(l, c + 1);
        proof {
            assert(sp.take(i as int + 1).drop_last() =~= sp.take(i as int));
            assert(sp.take(i as int + 1).last() == sp[i as int]);
            assert forall|L: int| 0 <= L <= max_len implies (#[trigger] counts@[L])
                == count_pairs_len(sp.take(i as int + 1), L as nat) by {};
        }
        i = i + 1;
    }
    proof {
        assert(sp.take(n as int) =~= sp);
        assert forall|L: int| 0 <= L <= max_len implies (#[trigger] counts@[L]) == count_len(
            lm,
            L as nat,
        ) by {
            lemma_count_len_bridge(sp, lm, L as nat);
        };
    }
    // The Kraft inequality, checked level by level.
    let mut sv: u128 = 0;
    let mut pw: u128 = 1;
    proof {
        lemma2_to64();
        broadcast use vstd::set::group_set_axioms;

        assert(len_class(lm, 0) =~= Set::<u64>::empty());
        assert(code_space(lm, 0nat) == 0);
    }
    let mut l: usize = 1;
    while l < max_len + 1
        invariant
            1 <= l <= max_len + 1,
            1 <= max_len <= 64,
            counts@.len() == max_len + 1,
            forall|L: int|
                0 <= L <= max_len ==> (#[trigger] counts@[L]) == count_len(lm, L as nat),
            sv == code_space(lm, (l - 1) as nat),
            pw == pow2((l - 1) as nat),
            sv <= pw,
            forall|M: nat| M <= l - 1 ==> #[trigger] code_space(lm, M) <= pow2(M),
            lm == len_map(ht_map@),
            n == ht_map@.len(),
            n >= 2,
        decreases max_len + 1 - l,
    {
        proof {
            vstd::arithmetic::power2::lemma_pow2_unfold(l as nat);
            lemma_pow2_le64((l - 1) as nat);
        }
        let c = counts[l];
        sv = 2 * sv + (c as u128);
        pw = 2 * pw;
        proof {
            assert(sv == code_space(lm, l as nat));
            assert(pw == pow2(l as nat));
        }
        if sv > pw {
            proof {
                assert(code_space(lm, l as nat) > pow2(l as nat));
                assert(!kraft_ok(lm));
            }
            return Err(HuffmanError::InvalidLengthError);
        }
        l = l + 1;
    }
    proof {
        assert forall|M: nat| #[trigger] code_space(lm, M) <= pow2(M) by {
            if M > max_len as nat {
                lemma_kraft_beyond(lm, max_len as nat, M);
            }
        };
        assert(kraft_ok(lm));
        assert(valid_lengths(lm));
    }
    // The first code of each length, by the recurrence.
    let mut next_code: Vec<u128> = Vec::new();
    next_code.push(0);
    let mut code: u128 = 0;
    let mut l: usize = 1;
    while l < max_len + 1
        invariant
            1 <= l <= max_len + 1,
            1 <= max_len <= 64,
            counts@.len() == max_len + 1,
            forall|L: int|
                0 <= L <= max_len ==> (#[trigger] counts@[L]) == count_len(lm, L as nat),
            next_code@.len() == l,
            code == first_code(lm, (l - 1) as nat),
            forall|L: int|
                1 <= L < l ==> (#[trigger] next_code@[L]) == first_code(lm, L as nat),
            kraft_ok(lm),
        decreases max_len + 1 - l,
    {
        proof {
            lemma_pow2_le64((l - 1) as nat);
            lemma_pow2_le64(l as nat);
            vstd::arithmetic::power2::lemma_pow2_unfold(l as nat);
            assert(code_space(lm, (l - 1) as nat) <= pow2((l - 1) as nat));
        }
        let c = counts[l - 1];
        code = (code + (c as u128)) * 2;
        next_code.push(code);
        proof {
            assert(code == first_code(lm, l as nat));
        }
        l = l + 1;
    }
    // Hand out codes in symbol order.
    let mut out: Vec<(u64, Bits)> = Vec::new();
    let mut i: usize = 0;
    proof {
        assert forall|L: int| 1 <= L <= max_len implies (#[trigger] next_code@[L]) == first_code(
            lm,
            L as nat,
        ) + count_pairs_len(sp.take(0), L as nat) by {
            assert(sp.take(0) =~= Seq::<(u64, usize)>::empty());
        };
    }
    while i < n
        invariant
            i <= n,
            n == sp.len(),
            sp == sorted@,
            1 <= max_len <= 64,
            n == ht_map@.len(),
            lm == len_map(ht_map@),
            lm.dom().finite(),
            pairs_match(sp, lm),
            strictly_sorted(sp),
            kraft_ok(lm),
            forall|j: int| 0 <= j < sp.len() ==> 1 <= (#[trigger] sp[j]).1 <= max_len,
            next_code@.len() == max_len + 1,
            forall|L: int|
                1 <= L <= max_len ==> (#[trigger] next_code@[L]) == first_code(lm, L as nat)
                    + count_pairs_len(sp.take(i as int), L as nat),
            out@.len() == i,
            forall|j: int|
                0 <= j < i ==> (#[trigger] out@[j]).0 == sp[j].0 && bits_of(out@[j].1)
                    == bits_of_num(canonical_value(lm, sp[j].0), lm[sp[j].0]),
        decreases n - i,
    {
        let sym = sorted[i].0;
        let l = sorted[i].1;
        let v = next_code[l];
        proof {
            lemma_count_take_le(sp, i as int, l as nat);
            lemma_prefix_count(sp, i as int);
            lemma_count_below_bridge(sp, lm, l as nat, sym);
            assert(lm[sym] == l as nat);
            assert(rank(lm, sym) == count_pairs_len(sp.take(i as int), l as nat));
            assert(v as nat == canonical_value(lm, sym));
            lemma_pow2_le64(l as nat);
            assert(code_space(lm, l as nat) <= pow2(l as nat));
            lemma_count_len_bridge(sp, lm, l as nat);
            assert(v as nat <= code_space(lm, l as nat));
            assert(v <= 0x10000000000000000u128);
        }
        let b = num_to_bits(v, l);
        out.push((sym, b));
        let c2 = next_code[l];
        next_code.set(l, c2 + 1);
        proof {
            assert(sp.take(i as int + 1).drop_last() =~= sp.take(i as int));
            assert(sp.take(i as int + 1).last() == sp[i as int]);
            assert forall|L: int| 1 <= L <= max_len implies (#[trigger] next_code@[L])
                == first_code(lm, L as nat) + count_pairs_len(
                sp.take(i as int + 1),
                L as nat,
            ) by {};
        }
        i = i + 1;
    }
    proof {
        assert forall|t: u64| #[trigger] lm.dom().contains(t) implies exists|idx: int|
            0 <= idx < out@.len() && (#[trigger] out@[idx]).0 == t by {
            let j = choose|j: int| 0 <= j < sp.len() && (#[trigger] sp[j]).0 == t;
            assert(out@[j].0 == t);
        };
        assert forall|j: int| 0 <= j < out@.len() implies bits_of((#[trigger] out@[j]).1).len()
            == lm[out@[j].0] by {
            lemma_bits_of_num_len(canonical_value(lm, sp[j].0), lm[sp[j].0]);
        };
    }
    Ok(out)
}

} // verus!
