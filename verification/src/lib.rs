//! Canonical Huffman coding: building an optimal-length prefix code from
//! weighted symbols, extracting per-symbol codes from the tree, renumbering
//! an arbitrary prefix code into its canonical form, and decoding a single
//! symbol by walking the tree.

pub mod bits;
pub mod canonical;
pub mod decode;
pub mod encode;
pub mod node;
pub mod tree;

pub use bits::Bits;
pub use bits::bits_of;
pub use canonical::canonicalize;
pub use decode::decode;
pub use encode::get_encoding_map;
pub use node::HuffmanError;
pub use node::HuffmanNode;
pub use tree::huffman_treeify;
