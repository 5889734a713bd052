use crate::codes::{code_of, is_bit_string, lemma_code_of};
use crate::error::HuffmanError;
use crate::packing::{pack_bits, packed, valid_payload};
use vstd::prelude::*;
use vstd::std_specs::iter::IteratorSpec;
use vstd::string::StringExecFns;

verus! {

broadcast use vstd::string::group_string_axioms;

/// The table has a code for every symbol of the text.
pub open spec fn covers(table: Seq<(char, Seq<char>)>, text: Seq<char>) -> bool {
    forall|k: int| 0 <= k < text.len() ==> code_of(table, #[trigger] text[k]) is Some
}

/// The bit string of a text: the codes of its symbols, one behind the other,
/// in the order of the text. There is none if a symbol has no code.
pub open spec fn encoded_bits(text: Seq<char>, table: Seq<(char, Seq<char>)>) -> Option<
    Seq<char>,
>
    decreases text.len(),
{
    if text.len() == 0 {
        Some(Seq::empty())
    } else {
        match (code_of(table, text.first()), encoded_bits(text.drop_first(), table)) {
            (Some(code), Some(rest)) => Some(code + rest),
            _ => None,
        }
    }
}

/// A text has a bit string exactly if the table covers it.
pub proof fn lemma_encoded_bits_some(text: Seq<char>, table: Seq<(char, Seq<char>)>)
    ensures
        encoded_bits(text, table) is Some <==> covers(table, text),
    decreases text.len(),
{
    if text.len() > 0 {
        let tail = text.drop_first();
        lemma_encoded_bits_some(tail, table);
        if covers(table, text) {
            assert(code_of(table, text[0]) is Some);
            assert forall|k: int| 0 <= k < tail.len() implies code_of(
                table,
                #[trigger] tail[k],
            ) is Some by {
                assert(tail[k] == text[k + 1]);
            }
        }
        if encoded_bits(text, table) is Some {
            assert forall|k: int| 0 <= k < text.len() implies code_of(
                table,
                #[trigger] text[k],
            ) is Some by {
                if k > 0 {
                    assert(text[k] == tail[k - 1]);
                }
            }
        }
    }
}

/// The bit string of a text with one more symbol at its end: the bit string
/// of the text, then the code of the symbol.
pub proof fn lemma_encoded_bits_push(text: Seq<char>, c: char, table: Seq<(char, Seq<char>)>)
    ensures
        encoded_bits(text.push(c), table) == match (encoded_bits(text, table), code_of(table, c)) {
            (Some(bits), Some(code)) => Some(bits + code),
            _ => None,
        },
    decreases text.len(),
{
    let longer = text.push(c);
    if text.len() == 0 {
        assert(longer.drop_first() =~= Seq::empty());
        assert(encoded_bits(longer.drop_first(), table) == Some(Seq::<char>::empty()));
        if code_of(table, c) is Some {
            let code = code_of(table, c)->0;
            assert(code + Seq::<char>::empty() =~= Seq::<char>::empty() + code);
        }
    } else {
        let tail = text.drop_first();
        lemma_encoded_bits_push(tail, c, table);
        assert(longer.drop_first() =~= tail.push(c));
        assert(longer.first() == text.first());
        match (code_of(table, text.first()), encoded_bits(tail, table), code_of(table, c)) {
            (Some(head), Some(middle), Some(code)) => {
                assert(head + (middle + code) =~= (head + middle) + code);
            },
            _ => {},
        }
    }
}

/// Codes made of `'0'` and `'1'` give a bit string made of `'0'` and `'1'`.
pub proof fn lemma_encoded_is_bit_string(text: Seq<char>, table: Seq<(char, Seq<char>)>)
    requires
        forall|i: int| 0 <= i < table.len() ==> is_bit_string((#[trigger] table[i]).1),
        encoded_bits(text, table) is Some,
    ensures
        is_bit_string(encoded_bits(text, table)->0),
    decreases text.len(),
{
    if text.len() > 0 {
        lemma_code_of(table, text.first());
        lemma_encoded_is_bit_string(text.drop_first(), table);
    }
}

/// Where every symbol of the text has the empty code, the bit string of the
/// text is empty.
pub proof fn lemma_encoded_empty_codes(text: Seq<char>, table: Seq<(char, Seq<char>)>)
    requires
        forall|k: int|
            0 <= k < text.len() ==> code_of(table, #[trigger] text[k]) == Some(
                Seq::<char>::empty(),
            ),
    ensures
        encoded_bits(text, table) == Some(Seq::<char>::empty()),
    decreases text.len(),
{
    if text.len() > 0 {
        let tail = text.drop_first();
        assert forall|k: int| 0 <= k < tail.len() implies code_of(table, #[trigger] tail[k])
            == Some(Seq::<char>::empty()) by {
            assert(tail[k] == text[k + 1]);
        }
        lemma_encoded_empty_codes(tail, table);
        assert(code_of(table, text[0]) == Some(Seq::<char>::empty()));
        assert(Seq::<char>::empty() + Seq::<char>::empty() =~= Seq::<char>::empty());
    }
}

/// The first entry of the table for `c`, if there is one.
fn find_code(codes: &Vec<(char, String)>, c: char) -> (found: Option<usize>)
    ensures
        match found {
            Some(i) => i < codes.len() && code_of(codes.deep_view(), c) == Some(codes[i as int].1@),
            None => code_of(codes.deep_view(), c) is None,
        },
{
    let ghost table = codes.deep_view();
    let mut i: usize = 0;
    proof {
        assert(table.skip(0) =~= table);
    }
    while i < codes.len()
        invariant
            i <= codes.len(),
            table == codes.deep_view(),
            code_of(table, c) == code_of(table.skip(i as int), c),
        decreases codes.len() - i,
    {
        proof {
            assert(table.skip(i as int).first() == (codes[i as int].0, codes[i as int].1@));
            assert(table.skip(i as int).drop_first() =~= table.skip(i + 1));
        }
        if codes[i].0 == c {
            return Some(i);
        }
        i += 1;
    }
    None
}

/// Encodes a text with a code table and packs the bits. The bit string holds
/// the codes of the symbols in the order of the text, each symbol with the
/// code of its first entry in the table; the payload is the packed bit
/// string. A symbol without a code is an error: nothing is left out.
pub fn encode_data(data: &str, huffman_codes: &Vec<(char, String)>) -> (result: Result<
    (String, Vec<u8>),
    HuffmanError,
>)
    ensures
        result is Ok <==> covers(huffman_codes.deep_view(), data@),
        result matches Ok(encoded) ==> {
            &&& encoded_bits(data@, huffman_codes.deep_view()) == Some(encoded.0@)
            &&& encoded.1@ == packed(encoded.0@)
            &&& valid_payload(encoded.1@)
        },
        result matches Err(e) ==> e == HuffmanError::MissingCode,
{
    let ghost table = huffman_codes.deep_view();
    let mut encoded = String::new();
    let mut rest = data.chars();
    let ghost mut seen: Seq<char> = Seq::empty();
    proof {
        lemma_encoded_bits_some(data@, table);
    }
    loop
        invariant
            data@ == seen + rest.remaining(),
            rest.obeys_prophetic_iter_laws(),
            rest.decrease() is Some,
            table == huffman_codes.deep_view(),
            encoded_bits(seen, table) == Some(encoded@),
        ensures
            encoded_bits(data@, table) == Some(encoded@),
        decreases rest.decrease()->0,
    {
        match rest.next() {
            None => {
                assert(data@ =~= seen);
                break ;
            },
            Some(c) => {
                proof {
                    assert(seen.push(c) + rest.remaining() =~= data@);
                    assert(data@[seen.len() as int] == c);
                    lemma_encoded_bits_push(seen, c, table);
                }
                match find_code(huffman_codes, c) {
                    Some(i) => {
                        encoded.append(huffman_codes[i].1.as_str());
                    },
                    None => {
                        return Err(HuffmanError::MissingCode);
                    },
                }
                proof {
                    seen = seen.push(c);
                }
            },
        }
    }
    let payload = pack_bits(encoded.as_str());
    Ok((encoded, payload))
}

} // verus!
