//! A Huffman compression codec with machine-checked contracts.
//!
//! A text is compressed in four steps: its symbols are counted, a prefix-code
//! tree is built from the counts, the text is encoded with the code table of
//! the tree, and the bits are packed into bytes behind a header byte. The tree
//! and the packed bytes together are the container of the text; unpacking the
//! bytes and decoding the bits with the tree gives the text back. The tree
//! is a cheapest one: no tree with one leaf for each symbol of the text spends
//! fewer bits on it.

pub mod builder;
pub mod codes;
pub mod container;
pub mod decoder;
pub mod encoder;
pub mod error;
pub mod frequency;
pub mod laws;
pub mod optimality;
pub mod packing;
pub mod text;
pub mod tree;

pub use builder::build_tree;
pub use codes::generate_huffman_codes;
pub use container::{compress, decompress, ForWrite};
pub use decoder::decode_huffman;
pub use encoder::encode_data;
pub use error::HuffmanError;
pub use frequency::count_frequencies;
pub use packing::{bytes_to_binary_string, pack_bits};
pub use tree::Node;
