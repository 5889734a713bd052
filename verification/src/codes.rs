use crate::tree::Node;
use vstd::prelude::*;

verus! {

/// The code table of the tree below `node`, for a vertex that is reached by
/// `prefix`: one entry for each leaf, from left to right, with the bits of the
/// way to it, `'0'` for a step to the left and `'1'` for a step to the right.
pub open spec fn code_entries(node: Node, prefix: Seq<char>) -> Seq<(char, Seq<char>)>
    decreases node,
{
    match node {
        Node::Leaf { character, .. } => seq![(character, prefix)],
        Node::Internal { left, right, .. } => code_entries(*left, prefix.push('0')) + code_entries(
            *right,
            prefix.push('1'),
        ),
    }
}

/// The code table of a whole tree. A tree that is a single leaf gives its
/// symbol the empty code.
pub open spec fn code_table(tree: Node) -> Seq<(char, Seq<char>)> {
    code_entries(tree, Seq::empty())
}

/// The code that `table` gives to `c`: that of the first entry for `c`.
pub open spec fn code_of(table: Seq<(char, Seq<char>)>, c: char) -> Option<Seq<char>>
    decreases table.len(),
{
    if table.len() == 0 {
        None
    } else if table.first().0 == c {
        Some(table.first().1)
    } else {
        code_of(table.drop_first(), c)
    }
}

/// Every character of `bits` is `'0'` or `'1'`.
pub open spec fn is_bit_string(bits: Seq<char>) -> bool {
    forall|i: int| 0 <= i < bits.len() ==> #[trigger] bits[i] == '0' || bits[i] == '1'
}

/// The code table has one entry for each leaf, in the order of the leaves, and
/// each code starts with the prefix that it was made with.
pub proof fn lemma_code_entries(node: Node, prefix: Seq<char>)
    ensures
        code_entries(node, prefix).len() == node.leaves().len(),
        forall|i: int|
            0 <= i < node.leaves().len() ==> (#[trigger] code_entries(node, prefix)[i]).0
                == node.leaves()[i].0,
        forall|i: int|
            0 <= i < code_entries(node, prefix).len() ==> prefix.is_prefix_of(
                (#[trigger] code_entries(node, prefix)[i]).1,
            ),
        node is Internal ==> forall|i: int|
            0 <= i < code_entries(node, prefix).len() ==> (#[trigger] code_entries(
                node,
                prefix,
            )[i]).1.len() > prefix.len(),
        is_bit_string(prefix) ==> forall|i: int|
            0 <= i < code_entries(node, prefix).len() ==> is_bit_string(
                (#[trigger] code_entries(node, prefix)[i]).1,
            ),
    decreases node,
{
    match node {
        Node::Leaf { .. } => {},
        Node::Internal { left, right, .. } => {
            let low = code_entries(*left, prefix.push('0'));
            let high = code_entries(*right, prefix.push('1'));
            lemma_code_entries(*left, prefix.push('0'));
            lemma_code_entries(*right, prefix.push('1'));
            assert forall|i: int| 0 <= i < code_entries(node, prefix).len() implies {
                &&& prefix.is_prefix_of((#[trigger] code_entries(node, prefix)[i]).1)
                &&& code_entries(node, prefix)[i].1.len() > prefix.len()
                &&& is_bit_string(prefix) ==> is_bit_string(code_entries(node, prefix)[i].1)
            } by {
                if i < low.len() {
                    assert(code_entries(node, prefix)[i] == low[i]);
                    assert(prefix.push('0').is_prefix_of(low[i].1));
                    assert(prefix =~= low[i].1.subrange(0, prefix.len() as int)) by {
                        assert(prefix.push('0') =~= low[i].1.subrange(0, prefix.len() as int + 1));
                    }
                } else {
                    assert(code_entries(node, prefix)[i] == high[i - low.len()]);
                    assert(prefix.push('1').is_prefix_of(high[i - low.len()].1));
                    assert(prefix =~= high[i - low.len()].1.subrange(0, prefix.len() as int)) by {
                        assert(prefix.push('1') =~= high[i - low.len()].1.subrange(
                            0,
                            prefix.len() as int + 1,
                        ));
                    }
                }
            }
        },
    }
}

/// No code of a code table is the beginning of another code of the table.
pub proof fn lemma_codes_prefix_free(node: Node, prefix: Seq<char>)
    ensures
        forall|i: int, j: int|
            0 <= i < code_entries(node, prefix).len() && 0 <= j < code_entries(node, prefix).len()
                && i != j ==> !(#[trigger] code_entries(node, prefix)[i]).1.is_prefix_of(
                (#[trigger] code_entries(node, prefix)[j]).1,
            ),
    decreases node,
{
    match node {
        Node::Leaf { .. } => {},
        Node::Internal { left, right, .. } => {
            let all = code_entries(node, prefix);
            let low = code_entries(*left, prefix.push('0'));
            let high = code_entries(*right, prefix.push('1'));
            lemma_codes_prefix_free(*left, prefix.push('0'));
            lemma_codes_prefix_free(*right, prefix.push('1'));
            lemma_code_entries(*left, prefix.push('0'));
            lemma_code_entries(*right, prefix.push('1'));
            let n = prefix.len() as int;
            assert forall|i: int| 0 <= i < low.len() implies (#[trigger] low[i]).1.len() > n
                && low[i].1[n] == '0' by {
                assert(prefix.push('0').is_prefix_of(low[i].1));
                assert(prefix.push('0')[n] == '0');
            }
            assert forall|i: int| 0 <= i < high.len() implies (#[trigger] high[i]).1.len() > n
                && high[i].1[n] == '1' by {
                assert(prefix.push('1').is_prefix_of(high[i].1));
                assert(prefix.push('1')[n] == '1');
            }
            assert forall|i: int, j: int|
                0 <= i < all.len() && 0 <= j < all.len() && i != j implies !(#[trigger] all[i]).1.is_prefix_of(
                (#[trigger] all[j]).1,
            ) by {
                if i < low.len() && j < low.len() {
                    assert(all[i] == low[i] && all[j] == low[j]);
                } else if i >= low.len() && j >= low.len() {
                    assert(all[i] == high[i - low.len()] && all[j] == high[j - low.len()]);
                } else if i < low.len() {
                    assert(all[i] == low[i] && all[j] == high[j - low.len()]);
                    if all[i].1.is_prefix_of(all[j].1) {
                        assert(all[i].1[n] == all[j].1.subrange(0, all[i].1.len() as int)[n]);
                    }
                } else {
                    assert(all[i] == high[i - low.len()] && all[j] == low[j]);
                    if all[i].1.is_prefix_of(all[j].1) {
                        assert(all[i].1[n] == all[j].1.subrange(0, all[i].1.len() as int)[n]);
                    }
                }
            }
        },
    }
}

/// In the code table of a tree no code is the beginning of another, and every
/// code is made of `'0'` and `'1'`.
pub proof fn lemma_code_table_prefix_free(tree: Node)
    ensures
        forall|i: int, j: int|
            0 <= i < code_table(tree).len() && 0 <= j < code_table(tree).len() && i != j ==> !(
            #[trigger] code_table(tree)[i]).1.is_prefix_of((#[trigger] code_table(tree)[j]).1),
        forall|i: int|
            0 <= i < code_table(tree).len() ==> is_bit_string((#[trigger] code_table(tree)[i]).1),
{
    lemma_codes_prefix_free(tree, Seq::empty());
    lemma_code_entries(tree, Seq::empty());
}

/// A table has a code for a symbol exactly if it has an entry for it, and the
/// code is that of the first such entry.
pub proof fn lemma_code_of(table: Seq<(char, Seq<char>)>, c: char)
    ensures
        code_of(table, c) is Some <==> exists|i: int|
            0 <= i < table.len() && (#[trigger] table[i]).0 == c,
        code_of(table, c) matches Some(code) ==> exists|i: int|
            0 <= i < table.len() && (#[trigger] table[i]).0 == c && table[i].1 == code && forall|
                j: int,
            |
                0 <= j < i ==> (#[trigger] table[j]).0 != c,
    decreases table.len(),
{
    if table.len() == 0 {
    } else if table.first().0 == c {
        assert(table[0].0 == c);
    } else {
        let tail = table.drop_first();
        lemma_code_of(tail, c);
        if code_of(tail, c) is Some {
            let i = choose|i: int|
                0 <= i < tail.len() && (#[trigger] tail[i]).0 == c && tail[i].1 == code_of(
                    tail,
                    c,
                )->0 && forall|j: int| 0 <= j < i ==> (#[trigger] tail[j]).0 != c;
            assert(table[i + 1] == tail[i]);
            assert forall|j: int| 0 <= j < i + 1 implies (#[trigger] table[j]).0 != c by {
                if j > 0 {
                    assert(table[j] == tail[j - 1]);
                }
            }
        }
        if exists|i: int| 0 <= i < table.len() && (#[trigger] table[i]).0 == c {
            let i = choose|i: int| 0 <= i < table.len() && (#[trigger] table[i]).0 == c;
            assert(tail[i - 1] == table[i]);
        }
    }
}

/// Writes the code table of the tree below `node` behind what `codes` holds:
/// one entry for each leaf, from left to right. `code` is the way from the
/// root to `node`; for a whole tree it is empty.
pub fn generate_huffman_codes(node: &Node, code: String, codes: &mut Vec<(char, String)>)
    ensures
        final(codes).deep_view() == old(codes).deep_view() + code_entries(*node, code@),
        final(codes)@.len() == old(codes)@.len() + node.leaves().len(),
        forall|i: int, j: int|
            old(codes)@.len() <= i < final(codes)@.len() && old(codes)@.len() <= j
                && j < final(codes)@.len() && i != j ==> !(#[trigger] final(codes).deep_view()[i]).1
                .is_prefix_of((#[trigger] final(codes).deep_view()[j]).1),
    decreases node,
{
    proof {
        lemma_codes_prefix_free(*node, code@);
        lemma_code_entries(*node, code@);
    }
    match node {
        Node::Leaf { character, .. } => {
            codes.push((*character, code));
            assert(codes.deep_view() =~= old(codes).deep_view() + seq![(*character, code@)]);
        },
        Node::Internal { left, right, .. } => {
            let ghost before = codes.deep_view();
            let mut left_code = code.clone();
            left_code.push('0');
            generate_huffman_codes(left, left_code, codes);
            let mut right_code = code;
            right_code.push('1');
            generate_huffman_codes(right, right_code, codes);
            assert(codes.deep_view() =~= before + (code_entries(**left, code@.push('0'))
                + code_entries(**right, code@.push('1'))));
        },
    }
}

} // verus!
