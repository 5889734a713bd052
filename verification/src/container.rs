use crate::builder::{
    build_tree, huffman_tree, leaf_for, lemma_huffman_tree, lemma_one_leaf_per_symbol,
};
use crate::codes::{
    code_of, code_table, generate_huffman_codes, is_bit_string, lemma_code_entries, lemma_code_of,
    lemma_code_table_prefix_free,
};
use crate::decoder::{decode_huffman, decoded_text, lemma_decode_encoded};
use crate::encoder::{
    covers, encode_data, encoded_bits, lemma_encoded_bits_some, lemma_encoded_empty_codes,
    lemma_encoded_is_bit_string,
};
use crate::error::HuffmanError;
use crate::frequency::{
    count_frequencies, frequency_table, has_entry, lemma_frequency_table_properties,
    lemma_frequency_table_total, total_frequency,
};
use crate::packing::{
    bytes_to_binary_string, lemma_packed_len, lemma_unpack_packed, packed, unpacked,
    valid_payload,
};
use crate::tree::Node;
use vstd::prelude::*;

verus! {

/// What is kept of a compressed text: the tree, and the packed bits. The
/// container of the empty text has no tree.
#[derive(Debug, Clone, PartialEq, Eq)]
pub struct ForWrite {
    pub tree: Option<Node>,
    pub codes: Vec<u8>,
}

/// The prefix-code tree of a text that is not empty.
pub open spec fn tree_of(text: Seq<char>) -> Node {
    huffman_tree(frequency_table(text))
}

/// The bit string of a text under its own tree; the empty text has the empty
/// bit string.
pub open spec fn bits_of(text: Seq<char>) -> Seq<char> {
    if text.len() == 0 {
        Seq::empty()
    } else {
        encoded_bits(text, code_table(tree_of(text)))->0
    }
}

/// The text that a tree and a payload stand for, if they stand for one.
/// Without a tree they can only stand for the empty text.
pub open spec fn restored_text(tree: Option<Node>, payload: Seq<u8>) -> Option<Seq<char>> {
    if !valid_payload(payload) {
        None
    } else {
        match tree {
            None => if unpacked(payload).len() == 0 {
                Some(Seq::empty())
            } else {
                None
            },
            Some(root) => decoded_text(root, unpacked(payload)),
        }
    }
}

impl ForWrite {
    /// The text that the container stands for, if it stands for one.
    pub open spec fn restored(&self) -> Option<Seq<char>> {
        restored_text(self.tree, self.codes@)
    }

    /// The container of a tree and the payload that was packed under it.
    pub fn new(tree: Node, codes: Vec<u8>) -> (container: ForWrite)
        ensures
            container.tree == Some(tree),
            container.codes == codes,
    {
        ForWrite { tree: Some(tree), codes }
    }

    /// The container of the empty text: no tree, and a payload of no bits.
    pub fn empty() -> (container: ForWrite)
        ensures
            container.tree is None,
            container.codes@ == packed(Seq::empty()),
            container.restored() == Some(Seq::<char>::empty()),
    {
        let mut codes: Vec<u8> = Vec::new();
        codes.push(0);
        proof {
            lemma_packed_len(Seq::empty());
            assert(codes@ =~= packed(Seq::empty()));
        }
        ForWrite { tree: None, codes }
    }
}

/// The code table of the tree of a text has a code for every symbol of the
/// text.
pub proof fn lemma_tree_covers_text(text: Seq<char>)
    requires
        0 < text.len() <= u64::MAX,
    ensures
        covers(code_table(tree_of(text)), text),
{
    let table = frequency_table(text);
    let tree = huffman_tree(table);
    let codes = code_table(tree);
    let leaves = tree.leaves();
    lemma_frequency_table_properties(text);
    lemma_frequency_table_total(text);
    lemma_huffman_tree(table);
    lemma_code_entries(tree, Seq::empty());
    assert forall|k: int| 0 <= k < text.len() implies code_of(codes, #[trigger] text[k])
        is Some by {
        let c = text[k];
        assert(has_entry(table, c));
        let i = choose|i: int| 0 <= i < table.len() && (#[trigger] table[i]).0 == c;
        assert(table.contains(table[i]));
        vstd::seq_lib::to_multiset_contains(table, table[i]);
        vstd::seq_lib::to_multiset_contains(leaves, table[i]);
        let j = choose|j: int| 0 <= j < leaves.len() && leaves[j] == table[i];
        assert(codes[j].0 == c);
        lemma_code_of(codes, c);
    }
}

/// The code table of the tree of a text: one code for each distinct symbol of
/// the text and for no other symbol, every code made of `'0'` and `'1'`, and
/// no code the beginning of another.
pub proof fn lemma_code_table_of_text(text: Seq<char>)
    requires
        0 < text.len() <= u64::MAX,
    ensures
        code_table(tree_of(text)).len() == frequency_table(text).len(),
        forall|i: int, j: int|
            0 <= i < j < code_table(tree_of(text)).len() ==> (#[trigger] code_table(
                tree_of(text),
            )[i]).0 != (#[trigger] code_table(tree_of(text))[j]).0,
        forall|i: int|
            0 <= i < code_table(tree_of(text)).len() ==> text.contains(
                (#[trigger] code_table(tree_of(text))[i]).0,
            ) && is_bit_string(code_table(tree_of(text))[i].1),
        forall|i: int, j: int|
            0 <= i < code_table(tree_of(text)).len() && 0 <= j < code_table(tree_of(text)).len()
                && i != j ==> !(#[trigger] code_table(tree_of(text))[i]).1.is_prefix_of(
                (#[trigger] code_table(tree_of(text))[j]).1,
            ),
        covers(code_table(tree_of(text)), text),
{
    let table = frequency_table(text);
    let tree = tree_of(text);
    let leaves = tree.leaves();
    let codes = code_table(tree);
    lemma_frequency_table_properties(text);
    lemma_frequency_table_total(text);
    lemma_one_leaf_per_symbol(table);
    lemma_code_entries(tree, Seq::empty());
    lemma_code_table_prefix_free(tree);
    lemma_tree_covers_text(text);
    assert forall|i: int| 0 <= i < codes.len() implies text.contains((#[trigger] codes[i]).0) by {
        assert(leaves[i].0 == codes[i].0);
        assert(has_entry(leaves, codes[i].0));
        assert(has_entry(table, codes[i].0));
        let a = choose|a: int| 0 <= a < table.len() && (#[trigger] table[a]).0 == codes[i].0;
        assert(text.contains(table[a].0));
    }
    assert forall|i: int, j: int| 0 <= i < j < codes.len() implies (#[trigger] codes[i]).0 != (
    #[trigger] codes[j]).0 by {
        assert(leaves[i].0 != leaves[j].0);
    }
}

/// A text of a single symbol, however long: its tree is one leaf that holds
/// the symbol and the length of the text, and its bit string is empty.
pub proof fn lemma_single_symbol(text: Seq<char>)
    requires
        0 < text.len() <= u64::MAX,
        frequency_table(text).len() == 1,
    ensures
        tree_of(text) == (Node::Leaf { character: text[0], frequency: text.len() as u64 }),
        forall|k: int| 0 <= k < text.len() ==> #[trigger] text[k] == text[0],
        bits_of(text) == Seq::<char>::empty(),
        covers(code_table(tree_of(text)), text),
{
    let table = frequency_table(text);
    let tree = tree_of(text);
    lemma_frequency_table_properties(text);
    lemma_frequency_table_total(text);
    lemma_huffman_tree(table);
    assert(tree == leaf_for(table[0]));
    assert forall|k: int| 0 <= k < text.len() implies #[trigger] text[k] == table[0].0 by {
        assert(has_entry(table, text[k]));
    }
    assert(table.drop_last() =~= Seq::empty());
    assert(total_frequency(table.drop_last()) == 0);
    assert(table[0].1 == text.len());
    let codes = code_table(tree);
    assert(codes =~= seq![(table[0].0, Seq::<char>::empty())]);
    assert forall|k: int| 0 <= k < text.len() implies code_of(codes, #[trigger] text[k]) == Some(
        Seq::<char>::empty(),
    ) by {
        assert(text[k] == codes.first().0);
    }
    lemma_encoded_empty_codes(text, codes);
}

/// Every text that is not empty comes back: its symbols all have a code
/// under its tree, the bits of its codes survive packing and unpacking, and
/// they decode under the tree to the text itself.
pub proof fn lemma_round_trip(text: Seq<char>)
    requires
        0 < text.len() <= u64::MAX,
    ensures
        encoded_bits(text, code_table(tree_of(text))) == Some(bits_of(text)),
        is_bit_string(bits_of(text)),
        valid_payload(packed(bits_of(text))),
        unpacked(packed(bits_of(text))) == bits_of(text),
        decoded_text(tree_of(text), unpacked(packed(bits_of(text)))) == Some(text),
        restored_text(Some(tree_of(text)), packed(bits_of(text))) == Some(text),
{
    let table = frequency_table(text);
    let tree = tree_of(text);
    let codes = code_table(tree);
    lemma_frequency_table_properties(text);
    lemma_frequency_table_total(text);
    lemma_huffman_tree(table);
    lemma_tree_covers_text(text);
    lemma_encoded_bits_some(text, codes);
    lemma_code_entries(tree, Seq::empty());
    lemma_encoded_is_bit_string(text, codes);
    lemma_unpack_packed(bits_of(text));
    if table.len() == 1 {
        lemma_single_symbol(text);
        assert(Seq::new(text.len(), |i: int| text[0]) =~= text);
    } else {
        lemma_decode_encoded(tree, text);
    }
}

/// Compresses a text: counts its symbols, builds the tree, encodes the text
/// with the code table of the tree and packs the bits. The empty text gives
/// the container without a tree. What comes out depends on the text alone,
/// and `decompress` gives the text back.
pub fn compress(text: &str) -> (container: ForWrite)
    ensures
        container.tree == (if text@.len() == 0 {
            None
        } else {
            Some(tree_of(text@))
        }),
        container.codes@ == packed(bits_of(text@)),
        container.restored() == Some(text@),
{
    let table = count_frequencies(text);
    if table.len() == 0 {
        return ForWrite::empty();
    }
    proof {
        lemma_round_trip(text@);
        lemma_tree_covers_text(text@);
    }
    let tree = match build_tree(table) {
        Ok(tree) => tree,
        // Not reached: the table of a text that is not empty has an entry.
        Err(_) => {
            return ForWrite::empty();
        },
    };
    let mut codes: Vec<(char, String)> = Vec::new();
    generate_huffman_codes(&tree, String::new(), &mut codes);
    proof {
        assert(codes.deep_view() =~= code_table(tree));
    }
    match encode_data(text, &codes) {
        Ok(encoded) => ForWrite::new(tree, encoded.1),
        // Not reached: the code table of the tree covers the text.
        Err(_) => ForWrite::empty(),
    }
}

/// Gives back the text of a container: unpacks the payload and decodes the
/// bits with the tree. A container without a tree stands for the empty text,
/// and only with a payload of no bits, which is one without a data byte.
pub fn decompress(container: &ForWrite) -> (result: Result<String, HuffmanError>)
    ensures
        result is Ok <==> container.restored() is Some,
        result matches Ok(text) ==> container.restored() == Some(text@),
        result matches Err(e) ==> e == HuffmanError::CorruptPayload,
{
    let bits = match bytes_to_binary_string(container.codes.as_slice()) {
        Ok(bits) => bits,
        Err(e) => {
            return Err(e);
        },
    };
    match &container.tree {
        None => {
            if bits.as_str().is_empty() {
                Ok(bits)
            } else {
                Err(HuffmanError::CorruptPayload)
            }
        },
        Some(tree) => decode_huffman(bits.as_str(), tree),
    }
}

} // verus!
