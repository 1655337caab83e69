use huffman::Bits;
use huffman::HuffmanError;
use huffman::HuffmanNode;
use huffman::canonicalize;
use huffman::decode;
use huffman::get_encoding_map;
use huffman::huffman_treeify;

const A: u64 = 65;
const B: u64 = 66;
const C: u64 = 67;
const D: u64 = 68;
const E: u64 = 69;
const F: u64 = 70;
const G: u64 = 71;
const H: u64 = 72;

fn bits_from(pattern: &[u8]) -> Bits {
    let mut v: Vec<bool> = Vec::new();
    for &p in pattern {
        v.push(p == 1);
    }
    Bits::from_bools(&v)
}

fn bools_from(pattern: &[u8]) -> Vec<bool> {
    let mut v: Vec<bool> = Vec::new();
    for &p in pattern {
        v.push(p == 1);
    }
    v
}

fn sample_leaves() -> Vec<HuffmanNode> {
    vec![
        HuffmanNode::LeafNode(1, A),
        HuffmanNode::LeafNode(1, B),
        HuffmanNode::LeafNode(2, C),
        HuffmanNode::LeafNode(2, D),
        HuffmanNode::LeafNode(2, E),
        HuffmanNode::LeafNode(5, F),
        HuffmanNode::LeafNode(1, G),
        HuffmanNode::LeafNode(1, H),
    ]
}

fn length_of(map: &Vec<(u64, Bits)>, sym: u64) -> usize {
    for (s, b) in map.iter() {
        if *s == sym {
            return b.to_bools().len();
        }
    }
    panic!("symbol missing from code map");
}

#[test]
fn test_bits_round_trip() {
    let v = bools_from(&[1, 0, 1, 1, 0]);
    let b = Bits::from_bools(&v);
    assert_eq!(b.to_bools(), v);
    assert_eq!(b.len(), 5);
    assert_eq!(Bits::new().to_bools(), Vec::<bool>::new());
}

#[test]
fn test_weight() {
    assert_eq!(HuffmanNode::LeafNode(7, A).weight(), 7);
    let internal = HuffmanNode::InternalNode(
        9,
        Box::new(HuffmanNode::LeafNode(4, A)),
        Box::new(HuffmanNode::LeafNode(5, B)),
    );
    assert_eq!(internal.weight(), 9);
}

#[test]
fn test_treeify_empty() {
    match huffman_treeify(Vec::new()) {
        Err(e) => assert_eq!(e, HuffmanError::EmptyInputError),
        Ok(_) => panic!("an empty pool must be rejected"),
    }
}

#[test]
fn test_treeify_single_leaf() {
    match huffman_treeify(vec![HuffmanNode::LeafNode(5, A)]) {
        Ok(HuffmanNode::LeafNode(w, s)) => {
            assert_eq!(w, 5);
            assert_eq!(s, A);
        }
        _ => panic!("a single leaf must come back as it is"),
    }
}

#[test]
fn test_treeify_merge_order() {
    let root = huffman_treeify(vec![
        HuffmanNode::LeafNode(1, 10),
        HuffmanNode::LeafNode(1, 20),
    ])
    .unwrap();
    match root {
        HuffmanNode::InternalNode(w, l, r) => {
            assert_eq!(w, 2);
            assert!(matches!(*l, HuffmanNode::LeafNode(1, 10)));
            assert!(matches!(*r, HuffmanNode::LeafNode(1, 20)));
        }
        _ => panic!("two leaves must be merged into one internal node"),
    }
}

#[test]
fn test_extract_single_leaf() {
    let root = huffman_treeify(vec![HuffmanNode::LeafNode(5, A)]).unwrap();
    let map = get_encoding_map(root);
    assert_eq!(map.len(), 1);
    assert_eq!(map[0].0, A);
    assert_eq!(map[0].1.to_bools(), Vec::<bool>::new());
}

#[test]
fn test_scenario_lengths() {
    let root = huffman_treeify(sample_leaves()).unwrap();
    let map = get_encoding_map(root);
    assert_eq!(map.len(), 8);
    // F, the heaviest symbol, gets the shortest code, of two bits.
    assert_eq!(length_of(&map, F), 2);
    for (_, b) in map.iter() {
        assert!(b.to_bools().len() >= 2);
    }
    // The longest code has four bits and at least two symbols share it.
    let max = map.iter().map(|(_, b)| b.to_bools().len()).max().unwrap();
    assert_eq!(max, 4);
    let at_max = map
        .iter()
        .filter(|(_, b)| b.to_bools().len() == max)
        .count();
    assert!(at_max >= 2);
    // The weighted total length is the optimal 42.
    let weights = [(A, 1), (B, 1), (C, 2), (D, 2), (E, 2), (F, 5), (G, 1), (H, 1)];
    let mut cost = 0usize;
    for (sym, w) in weights {
        cost += w * length_of(&map, sym);
    }
    assert_eq!(cost, 42);
}

#[test]
fn test_prefix_free_extracted() {
    let root = huffman_treeify(sample_leaves()).unwrap();
    let map = get_encoding_map(root);
    for (sa, ba) in map.iter() {
        for (sb, bb) in map.iter() {
            if sa != sb {
                let va = ba.to_bools();
                let vb = bb.to_bools();
                assert!(va.len() > vb.len() || va[..] != vb[..va.len()]);
            }
        }
    }
}

#[test]
fn test_round_trip() {
    let root = huffman_treeify(sample_leaves()).unwrap();
    let map = get_encoding_map(root.duplicate());
    for (sym, code) in map.iter() {
        assert_eq!(decode(code, root.duplicate()), Ok(*sym));
    }
}

#[test]
fn test_decode_exhausted() {
    let root = huffman_treeify(vec![
        HuffmanNode::LeafNode(1, A),
        HuffmanNode::LeafNode(2, B),
    ])
    .unwrap();
    assert_eq!(
        decode(&Bits::new(), root),
        Err(HuffmanError::DecodeError)
    );
}

#[test]
fn test_decode_ignores_trailing_bits() {
    let root = huffman_treeify(vec![
        HuffmanNode::LeafNode(1, A),
        HuffmanNode::LeafNode(2, B),
    ])
    .unwrap();
    // A was removed first, so it sits on the left: its code is `0`.
    assert_eq!(decode(&bits_from(&[0]), root.duplicate()), Ok(A));
    assert_eq!(decode(&bits_from(&[1]), root.duplicate()), Ok(B));
    assert_eq!(decode(&bits_from(&[0, 1, 1]), root), Ok(A));
}

fn sample_code_map() -> Vec<(u64, Bits)> {
    vec![
        (A, bits_from(&[0, 1, 0])),
        (B, bits_from(&[0, 1, 1])),
        (C, bits_from(&[1, 0, 0])),
        (D, bits_from(&[1, 0, 1])),
        (E, bits_from(&[1, 1, 0])),
        (F, bits_from(&[0, 0])),
        (G, bits_from(&[1, 1, 1, 0])),
        (H, bits_from(&[1, 1, 1, 1])),
    ]
}

#[test]
fn test_canonical_table() {
    let out = canonicalize(&sample_code_map()).unwrap();
    assert_eq!(out.len(), 8);
    let expected: Vec<(u64, Vec<bool>)> = vec![
        (A, bools_from(&[0, 1, 0])),
        (B, bools_from(&[0, 1, 1])),
        (C, bools_from(&[1, 0, 0])),
        (D, bools_from(&[1, 0, 1])),
        (E, bools_from(&[1, 1, 0])),
        (F, bools_from(&[0, 0])),
        (G, bools_from(&[1, 1, 1, 0])),
        (H, bools_from(&[1, 1, 1, 1])),
    ];
    // The output is sorted by symbol.
    for (k, (sym, code)) in expected.iter().enumerate() {
        assert_eq!(out[k].0, *sym);
        assert_eq!(out[k].1.to_bools(), *code);
    }
}

#[test]
fn test_canonical_length_preservation() {
    let input = sample_code_map();
    let out = canonicalize(&input).unwrap();
    for (sym, code) in input.iter() {
        assert_eq!(length_of(&out, *sym), code.to_bools().len());
    }
}

#[test]
fn test_canonical_determinism() {
    // Same symbols and lengths, entirely different bit values.
    let other: Vec<(u64, Bits)> = vec![
        (A, bits_from(&[1, 1, 1])),
        (B, bits_from(&[0, 0, 0])),
        (C, bits_from(&[0, 0, 1])),
        (D, bits_from(&[0, 1, 0])),
        (E, bits_from(&[0, 1, 1])),
        (F, bits_from(&[1, 0])),
        (G, bits_from(&[0, 0, 0, 0])),
        (H, bits_from(&[0, 0, 0, 1])),
    ];
    let first = canonicalize(&sample_code_map()).unwrap();
    let second = canonicalize(&other).unwrap();
    assert_eq!(first.len(), second.len());
    for (p, q) in first.iter().zip(second.iter()) {
        assert_eq!(p.0, q.0);
        assert_eq!(p.1.to_bools(), q.1.to_bools());
    }
}

#[test]
fn test_canonical_monotonic_layout() {
    let out = canonicalize(&sample_code_map()).unwrap();
    // Of two symbols with codes of one length, the earlier symbol's code is
    // numerically smaller; the output is symbol-sorted, so compare in order.
    for (sa, ba) in out.iter() {
        for (sb, bb) in out.iter() {
            let va = ba.to_bools();
            let vb = bb.to_bools();
            if sa < sb && va.len() == vb.len() {
                assert!(va < vb);
            }
        }
    }
}

#[test]
fn test_canonical_empty() {
    match canonicalize(&Vec::new()) {
        Err(e) => assert_eq!(e, HuffmanError::EmptyInputError),
        Ok(_) => panic!("an empty mapping must be rejected"),
    }
}

#[test]
fn test_canonical_single_symbol_zero_length() {
    // A zero-length code cannot be transmitted: it becomes the one-bit `0`.
    let out = canonicalize(&vec![(A, Bits::new())]).unwrap();
    assert_eq!(out.len(), 1);
    assert_eq!(out[0].0, A);
    assert_eq!(out[0].1.to_bools(), vec![false]);
}

#[test]
fn test_canonical_single_symbol_keeps_length() {
    // A lone symbol with a declared length keeps it: value zero in that width.
    let out = canonicalize(&vec![(A, bits_from(&[1, 0, 1]))]).unwrap();
    assert_eq!(out.len(), 1);
    assert_eq!(out[0].0, A);
    assert_eq!(out[0].1.to_bools(), vec![false, false, false]);
}

#[test]
fn test_canonical_zero_length_rejected() {
    let input = vec![(A, Bits::new()), (B, bits_from(&[1]))];
    match canonicalize(&input) {
        Err(e) => assert_eq!(e, HuffmanError::InvalidLengthError),
        Ok(_) => panic!("a zero-length code among several symbols must be rejected"),
    }
}

#[test]
fn test_canonical_kraft_violation_rejected() {
    let input = vec![
        (A, bits_from(&[0])),
        (B, bits_from(&[1])),
        (C, bits_from(&[1])),
    ];
    match canonicalize(&input) {
        Err(e) => assert_eq!(e, HuffmanError::InvalidLengthError),
        Ok(_) => panic!("three one-bit codes must be rejected"),
    }
}

#[test]
fn test_canonical_of_extracted_code() {
    // The whole pipeline: weights to tree to code to canonical code.
    let root = huffman_treeify(sample_leaves()).unwrap();
    let map = get_encoding_map(root);
    let out = canonicalize(&map).unwrap();
    assert_eq!(out.len(), map.len());
    for (sym, code) in map.iter() {
        assert_eq!(length_of(&out, *sym), code.to_bools().len());
    }
    // Canonical codes of one length are consecutive integers, so the output,
    // being symbol-sorted within a length, is still prefix-free.
    for (sa, ba) in out.iter() {
        for (sb, bb) in out.iter() {
            if sa != sb {
                let va = ba.to_bools();
                let vb = bb.to_bools();
                assert!(va.len() > vb.len() || va[..] != vb[..va.len()]);
            }
        }
    }
}
