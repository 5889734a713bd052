use crate::codes::{code_entries, code_of, code_table, lemma_code_entries, lemma_code_of};
use crate::encoder::{covers, encoded_bits, lemma_encoded_bits_some};
use crate::error::HuffmanError;
use crate::frequency::distinct_entries;
use crate::tree::Node;
use vstd::prelude::*;
use vstd::std_specs::iter::IteratorSpec;

verus! {

broadcast use vstd::string::group_string_axioms;

/// The text `rest` with the symbol `c` in front of it.
pub open spec fn prepend(c: char, rest: Option<Seq<char>>) -> Option<Seq<char>> {
    match rest {
        Some(text) => Some(seq![c] + text),
        None => None,
    }
}

/// The text `rest` with the text `front` in front of it.
pub open spec fn join(front: Seq<char>, rest: Option<Seq<char>>) -> Option<Seq<char>> {
    match rest {
        Some(text) => Some(front + text),
        None => None,
    }
}

/// A symbol in front of the rest is the same as the symbol at the end of what
/// stands before the rest.
pub proof fn lemma_join_prepend(front: Seq<char>, c: char, rest: Option<Seq<char>>)
    ensures
        join(front, prepend(c, rest)) == join(front.push(c), rest),
{
    if rest is Some {
        assert(front + (seq![c] + rest->0) =~= front.push(c) + rest->0);
    }
}

/// The text that `bits` spell when they are read from the vertex `at` of the
/// tree `root`: `'0'` goes to the left child and `'1'` to the right one, a
/// leaf gives its symbol, and reading goes on from the root. `partial` says
/// that `at` lies below the root, in the middle of a code. There is no text
/// if the bits end in the middle of a code or hold another character.
pub open spec fn read_from(root: Node, at: Node, partial: bool, bits: Seq<char>) -> Option<
    Seq<char>,
>
    decreases bits.len(),
{
    if bits.len() == 0 {
        if partial {
            None
        } else {
            Some(Seq::empty())
        }
    } else {
        match at {
            Node::Leaf { .. } => None,
            Node::Internal { left, right, .. } => {
                if bits[0] != '0' && bits[0] != '1' {
                    None
                } else {
                    let next = if bits[0] == '0' {
                        *left
                    } else {
                        *right
                    };
                    match next {
                        Node::Leaf { character, .. } => prepend(
                            character,
                            read_from(root, root, false, bits.drop_first()),
                        ),
                        Node::Internal { .. } => read_from(root, next, true, bits.drop_first()),
                    }
                }
            },
        }
    }
}

/// The text that a bit string stands for under a tree. Under a tree that is
/// a single leaf the only bit string is the empty one, and it stands for the
/// symbol of the leaf, as many times as the frequency of the leaf says.
pub open spec fn decoded_text(tree: Node, bits: Seq<char>) -> Option<Seq<char>> {
    match tree {
        Node::Leaf { character, frequency } => {
            if bits.len() == 0 {
                Some(Seq::new(frequency as nat, |i: int| character))
            } else {
                None
            }
        },
        Node::Internal { .. } => read_from(tree, tree, false, bits),
    }
}

/// Reading the code of a symbol gives the symbol, and reading goes on at the
/// root with the bits behind the code. `at` is a vertex that `prefix` leads
/// to, and the code is read from `at` on.
pub proof fn lemma_read_code(
    root: Node,
    at: Node,
    partial: bool,
    prefix: Seq<char>,
    i: int,
    rest: Seq<char>,
)
    requires
        at is Internal,
        0 <= i < code_entries(at, prefix).len(),
    ensures
        read_from(
            root,
            at,
            partial,
            code_entries(at, prefix)[i].1.skip(prefix.len() as int) + rest,
        ) == prepend(code_entries(at, prefix)[i].0, read_from(root, root, false, rest)),
    decreases at,
{
    match at {
        Node::Leaf { .. } => {},
        Node::Internal { left, right, .. } => {
            let low = code_entries(*left, prefix.push('0'));
            let high = code_entries(*right, prefix.push('1'));
            lemma_code_entries(*left, prefix.push('0'));
            lemma_code_entries(*right, prefix.push('1'));
            let entry = code_entries(at, prefix)[i];
            let n = prefix.len() as int;
            let bits = entry.1.skip(n) + rest;
            if i < low.len() {
                assert(entry == low[i]);
                assert(prefix.push('0').is_prefix_of(entry.1));
                assert(entry.1[n] == prefix.push('0')[n]);
                assert(bits[0] == '0');
                assert(bits.drop_first() =~= entry.1.skip(n + 1) + rest);
                match *left {
                    Node::Leaf { .. } => {
                        assert(entry.1.skip(n + 1) + rest =~= rest);
                    },
                    Node::Internal { .. } => {
                        lemma_read_code(root, *left, true, prefix.push('0'), i, rest);
                    },
                }
            } else {
                assert(entry == high[i - low.len()]);
                assert(prefix.push('1').is_prefix_of(entry.1));
                assert(entry.1[n] == prefix.push('1')[n]);
                assert(bits[0] == '1');
                assert(bits.drop_first() =~= entry.1.skip(n + 1) + rest);
                match *right {
                    Node::Leaf { .. } => {
                        assert(entry.1.skip(n + 1) + rest =~= rest);
                    },
                    Node::Internal { .. } => {
                        lemma_read_code(root, *right, true, prefix.push('1'), i - low.len(), rest);
                    },
                }
            }
        },
    }
}

/// Under a tree with more than one leaf, the bit string of a text that the
/// code table of the tree covers stands for that text.
pub proof fn lemma_decode_encoded(tree: Node, text: Seq<char>)
    requires
        tree is Internal,
        covers(code_table(tree), text),
    ensures
        encoded_bits(text, code_table(tree)) is Some,
        decoded_text(tree, encoded_bits(text, code_table(tree))->0) == Some(text),
    decreases text.len(),
{
    let table = code_table(tree);
    lemma_encoded_bits_some(text, table);
    if text.len() > 0 {
        let c = text.first();
        let tail = text.drop_first();
        assert forall|k: int| 0 <= k < tail.len() implies code_of(table, #[trigger] tail[k])
            is Some by {
            assert(tail[k] == text[k + 1]);
        }
        lemma_decode_encoded(tree, tail);
        assert(code_of(table, text[0]) is Some);
        lemma_code_of(table, c);
        let code = code_of(table, c)->0;
        let rest = encoded_bits(tail, table)->0;
        let i = choose|i: int|
            0 <= i < table.len() && (#[trigger] table[i]).0 == c && table[i].1 == code;
        lemma_read_code(tree, tree, false, Seq::empty(), i, rest);
        assert(code.skip(0) =~= code);
        assert(seq![c] + tail =~= text);
    }
}

/// The first code of a bit string that can be read: it is the code of an
/// entry of the table, it gives the symbol of that entry, and the bits behind
/// it can be read from the root. `at` is a vertex that `prefix` leads to; the
/// entry is one of those below `at`, and the code is what is left of its way
/// from `at` on.
pub proof fn lemma_read_first_code(
    root: Node,
    at: Node,
    partial: bool,
    prefix: Seq<char>,
    bits: Seq<char>,
) -> (i: int)
    requires
        at is Internal,
        bits.len() > 0,
        read_from(root, at, partial, bits) is Some,
    ensures
        0 <= i < code_entries(at, prefix).len(),
        code_entries(at, prefix)[i].1.len() > prefix.len(),
        code_entries(at, prefix)[i].1.skip(prefix.len() as int).is_prefix_of(bits),
        read_from(root, at, partial, bits) == prepend(
            code_entries(at, prefix)[i].0,
            read_from(
                root,
                root,
                false,
                bits.skip(code_entries(at, prefix)[i].1.len() - prefix.len()),
            ),
        ),
    decreases at,
{
    match at {
        Node::Leaf { .. } => 0,
        Node::Internal { left, right, .. } => {
            let low = code_entries(*left, prefix.push('0'));
            let high = code_entries(*right, prefix.push('1'));
            lemma_code_entries(*left, prefix.push('0'));
            lemma_code_entries(*right, prefix.push('1'));
            let n = prefix.len() as int;
            let tail = bits.drop_first();
            assert(bits.skip(1) =~= tail);
            if bits[0] == '0' {
                match *left {
                    Node::Leaf { .. } => {
                        let entry = code_entries(at, prefix)[0];
                        assert(entry == low[0]);
                        assert(entry.1.skip(n) =~= seq!['0']);
                        assert(entry.1.skip(n) =~= bits.subrange(0, 1));
                        0
                    },
                    Node::Internal { .. } => {
                        let i = lemma_read_first_code(root, *left, true, prefix.push('0'), tail);
                        let entry = code_entries(at, prefix)[i];
                        assert(entry == low[i]);
                        assert(prefix.push('0').is_prefix_of(entry.1));
                        assert(entry.1[n] == prefix.push('0')[n]);
                        let shorter = entry.1.skip(n + 1);
                        assert(shorter =~= tail.subrange(0, shorter.len() as int));
                        let code = entry.1.skip(n);
                        assert forall|k: int| 0 <= k < code.len() implies code[k] == bits[k] by {
                            if k > 0 {
                                assert(code[k] == shorter[k - 1]);
                                assert(shorter[k - 1] == tail.subrange(0, shorter.len() as int)[k
                                    - 1]);
                                assert(tail[k - 1] == bits[k]);
                            }
                        }
                        assert(code =~= bits.subrange(0, shorter.len() as int + 1));
                        assert(bits.skip(entry.1.len() - n) =~= tail.skip(shorter.len() as int));
                        i
                    },
                }
            } else {
                assert(bits[0] == '1');
                match *right {
                    Node::Leaf { .. } => {
                        let i = low.len() as int;
                        let entry = code_entries(at, prefix)[i];
                        assert(entry == high[0]);
                        assert(entry.1.skip(n) =~= seq!['1']);
                        assert(entry.1.skip(n) =~= bits.subrange(0, 1));
                        i
                    },
                    Node::Internal { .. } => {
                        let j = lemma_read_first_code(root, *right, true, prefix.push('1'), tail);
                        let i = low.len() + j;
                        let entry = code_entries(at, prefix)[i];
                        assert(entry == high[j]);
                        assert(prefix.push('1').is_prefix_of(entry.1));
                        assert(entry.1[n] == prefix.push('1')[n]);
                        let shorter = entry.1.skip(n + 1);
                        assert(shorter =~= tail.subrange(0, shorter.len() as int));
                        let code = entry.1.skip(n);
                        assert forall|k: int| 0 <= k < code.len() implies code[k] == bits[k] by {
                            if k > 0 {
                                assert(code[k] == shorter[k - 1]);
                                assert(shorter[k - 1] == tail.subrange(0, shorter.len() as int)[k
                                    - 1]);
                                assert(tail[k - 1] == bits[k]);
                            }
                        }
                        assert(code =~= bits.subrange(0, shorter.len() as int + 1));
                        assert(bits.skip(entry.1.len() - n) =~= tail.skip(shorter.len() as int));
                        i
                    },
                }
            }
        },
    }
}

/// Under a tree with more than one leaf and no symbol in two leaves, a bit
/// string that stands for a text is the bit string of that text.
pub proof fn lemma_decoded_is_encoded(tree: Node, bits: Seq<char>)
    requires
        tree is Internal,
        distinct_entries(tree.leaves()),
        decoded_text(tree, bits) is Some,
    ensures
        encoded_bits(decoded_text(tree, bits)->0, code_table(tree)) == Some(bits),
    decreases bits.len(),
{
    let table = code_table(tree);
    let text = decoded_text(tree, bits)->0;
    if bits.len() == 0 {
        assert(bits =~= Seq::<char>::empty());
    } else {
        let i = lemma_read_first_code(tree, tree, false, Seq::empty(), bits);
        let entry = table[i];
        assert(entry.1.skip(0) =~= entry.1);
        let rest = bits.skip(entry.1.len() as int);
        lemma_decoded_is_encoded(tree, rest);
        let tail = decoded_text(tree, rest)->0;
        assert(text == seq![entry.0] + tail);
        assert(text.first() == entry.0);
        assert(text.drop_first() =~= tail);
        lemma_code_entries(tree, Seq::empty());
        lemma_code_of(table, entry.0);
        let j = choose|j: int|
            0 <= j < table.len() && (#[trigger] table[j]).0 == entry.0 && table[j].1 == code_of(
                table,
                entry.0,
            )->0;
        assert(tree.leaves()[i].0 == tree.leaves()[j].0);
        assert(i == j);
        assert(entry.1 + rest =~= bits);
    }
}

/// Under a tree with more than one leaf and no symbol in two leaves, decoding
/// is the inverse of encoding: a bit string stands for a text exactly if it
/// is the bit string of that text.
pub proof fn lemma_decoding_inverts_encoding(tree: Node, bits: Seq<char>, text: Seq<char>)
    requires
        tree is Internal,
        distinct_entries(tree.leaves()),
    ensures
        decoded_text(tree, bits) == Some(text) <==> encoded_bits(text, code_table(tree)) == Some(
            bits,
        ),
{
    if decoded_text(tree, bits) == Some(text) {
        lemma_decoded_is_encoded(tree, bits);
    }
    if encoded_bits(text, code_table(tree)) == Some(bits) {
        lemma_encoded_bits_some(text, code_table(tree));
        lemma_decode_encoded(tree, text);
    }
}

/// Decodes a bit string with a tree: from the root, `'0'` goes to the left
/// child and `'1'` to the right one; at a leaf its symbol is written and
/// reading starts again at the root. Bits that end in the middle of a code,
/// and characters other than `'0'` and `'1'`, are an error. Under a tree that
/// is a single leaf the codes are empty, so the bit string must be empty, and
/// the symbol is written as often as the frequency of the leaf says.
pub fn decode_huffman(encoded_data: &str, huffman_tree: &Node) -> (result: Result<
    String,
    HuffmanError,
>)
    ensures
        result is Ok <==> decoded_text(*huffman_tree, encoded_data@) is Some,
        result matches Ok(text) ==> decoded_text(*huffman_tree, encoded_data@) == Some(text@),
        result matches Err(e) ==> e == HuffmanError::CorruptPayload,
{
    let mut decoded = String::new();
    match huffman_tree {
        Node::Leaf { character, frequency } => {
            if !encoded_data.is_empty() {
                return Err(HuffmanError::CorruptPayload);
            }
            let mut written: u64 = 0;
            while written < *frequency
                invariant
                    written <= *frequency,
                    decoded@ == Seq::new(written as nat, |i: int| *character),
                decreases *frequency - written,
            {
                decoded.push(*character);
                written = written + 1;
                assert(decoded@ =~= Seq::new(written as nat, |i: int| *character));
            }
            Ok(decoded)
        },
        Node::Internal { .. } => {
            let mut current: &Node = huffman_tree;
            let mut partial: bool = false;
            let mut rest = encoded_data.chars();
            let ghost mut seen: Seq<char> = Seq::empty();
            proof {
                assert(Seq::<char>::empty() + encoded_data@ =~= encoded_data@);
                assert(encoded_data@.skip(0) =~= encoded_data@);
            }
            loop
                invariant
                    encoded_data@ == seen + rest.remaining(),
                    rest.obeys_prophetic_iter_laws(),
                    rest.decrease() is Some,
                    *huffman_tree is Internal,
                    *current is Internal,
                    decoded_text(*huffman_tree, encoded_data@) == join(
                        decoded@,
                        read_from(
                            *huffman_tree,
                            *current,
                            partial,
                            encoded_data@.skip(seen.len() as int),
                        ),
                    ),
                ensures
                    decoded_text(*huffman_tree, encoded_data@) == (if partial {
                        None
                    } else {
                        Some(decoded@)
                    }),
                decreases rest.decrease()->0,
            {
                let ghost bits = encoded_data@.skip(seen.len() as int);
                proof {
                    assert(rest.remaining() =~= bits);
                }
                match rest.next() {
                    None => {
                        assert(decoded@ + Seq::<char>::empty() =~= decoded@);
                        break ;
                    },
                    Some(bit) => {
                        proof {
                            assert(seen.push(bit) + rest.remaining() =~= encoded_data@);
                            assert(bits[0] == bit);
                            assert(bits.drop_first() =~= encoded_data@.skip(seen.len() as int + 1));
                        }
                        match current {
                            // Not reached: reading never rests on a leaf.
                            Node::Leaf { .. } => {
                                return Err(HuffmanError::CorruptPayload);
                            },
                            Node::Internal { left, right, .. } => {
                                let next: &Node = if bit == '0' {
                                    &**left
                                } else if bit == '1' {
                                    &**right
                                } else {
                                    return Err(HuffmanError::CorruptPayload);
                                };
                                match next {
                                    Node::Leaf { character, .. } => {
                                        proof {
                                            lemma_join_prepend(
                                                decoded@,
                                                *character,
                                                read_from(
                                                    *huffman_tree,
                                                    *huffman_tree,
                                                    false,
                                                    bits.drop_first(),
                                                ),
                                            );
                                        }
                                        decoded.push(*character);
                                        current = huffman_tree;
                                        partial = false;
                                    },
                                    Node::Internal { .. } => {
                                        current = next;
                                        partial = true;
                                    },
                                }
                            },
                        }
                        proof {
                            seen = seen.push(bit);
                        }
                    },
                }
            }
            if partial {
                Err(HuffmanError::CorruptPayload)
            } else {
                Ok(decoded)
            }
        },
    }
}

} // verus!
