use crate::builder::build_tree;
use crate::codes::{generate_huffman_codes, is_bit_string};
use crate::container::{compress, decompress, ForWrite};
use crate::encoder::encode_data;
use crate::error::HuffmanError;
use crate::frequency::count_frequencies;
use crate::packing::{bytes_to_binary_string, lemma_unpack_packed, pack_bits};
use crate::tree::Node;
use vstd::prelude::*;

verus! {

/// Counting the symbols of the same text twice gives the same table.
pub proof fn lemma_same_text_same_table(
    text: &str,
    first: Vec<(char, u64)>,
    second: Vec<(char, u64)>,
)
    requires
        call_ensures(count_frequencies, (text,), first),
        call_ensures(count_frequencies, (text,), second),
    ensures
        first@ == second@,
{
}

/// Building the tree of the same table twice gives the same tree, or the same
/// error.
pub proof fn lemma_same_table_same_tree(
    table: Vec<(char, u64)>,
    first: Result<Node, HuffmanError>,
    second: Result<Node, HuffmanError>,
)
    requires
        call_ensures(build_tree, (table,), first),
        call_ensures(build_tree, (table,), second),
    ensures
        first == second,
{
}

/// Writing the code table of the same tree twice, behind the same entries,
/// gives the same table.
pub proof fn lemma_same_tree_same_codes(
    node: &Node,
    code: String,
    first: &mut Vec<(char, String)>,
    second: &mut Vec<(char, String)>,
)
    requires
        old(first).deep_view() == old(second).deep_view(),
        call_ensures(generate_huffman_codes, (node, code, first), ()),
        call_ensures(generate_huffman_codes, (node, code, second), ()),
    ensures
        final(first).deep_view() == final(second).deep_view(),
{
}

/// Encoding the same text twice with the same code table gives the same bit
/// string and the same packed bytes, or the same error.
pub proof fn lemma_same_text_same_payload(
    text: &str,
    codes: &Vec<(char, String)>,
    first: Result<(String, Vec<u8>), HuffmanError>,
    second: Result<(String, Vec<u8>), HuffmanError>,
)
    requires
        call_ensures(encode_data, (text, codes), first),
        call_ensures(encode_data, (text, codes), second),
    ensures
        first is Ok <==> second is Ok,
        first is Ok ==> first->Ok_0.0@ == second->Ok_0.0@ && first->Ok_0.1@ == second->Ok_0.1@,
        first is Err ==> first == second,
{
}

/// Compressing the same text twice gives the same tree and the same packed
/// bytes.
pub proof fn lemma_same_text_same_container(text: &str, first: ForWrite, second: ForWrite)
    requires
        call_ensures(compress, (text,), first),
        call_ensures(compress, (text,), second),
    ensures
        first.tree == second.tree,
        first.codes@ == second.codes@,
{
}

/// Decompressing what `compress` made of a text gives the text back.
pub proof fn lemma_decompress_inverts_compress(
    text: &str,
    container: ForWrite,
    result: Result<String, HuffmanError>,
)
    requires
        call_ensures(compress, (text,), container),
        call_ensures(decompress, (&container,), result),
    ensures
        result is Ok,
        result->Ok_0@ == text@,
{
}

/// Unpacking what `pack_bits` made of a bit string gives the bit string back.
/// Where its length is a multiple of eight, every data byte of the payload
/// gives eight bits, the last one too.
pub proof fn lemma_unpack_inverts_pack(
    bits: &str,
    payload: Vec<u8>,
    bytes: &[u8],
    result: Result<String, HuffmanError>,
)
    requires
        is_bit_string(bits@),
        call_ensures(pack_bits, (bits,), payload),
        bytes@ == payload@,
        call_ensures(bytes_to_binary_string, (bytes,), result),
    ensures
        result is Ok,
        result->Ok_0@ == bits@,
        bits@.len() % 8 == 0 ==> result->Ok_0@.len() == 8 * (payload@.len() - 1),
{
    lemma_unpack_packed(bits@);
}

} // verus!
