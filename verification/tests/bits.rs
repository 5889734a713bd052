use huffman_codec::{
    bytes_to_binary_string, decode_huffman, encode_data, pack_bits, HuffmanError, Node,
};

fn two_level_tree() -> Node {
    Node::new_internal(
        4,
        Node::new_internal(2, Node::new('a', 1), Node::new('b', 1)),
        Node::new_internal(2, Node::new('c', 1), Node::new('d', 1)),
    )
}

#[test]
fn packing_no_bits_gives_the_header_alone() {
    assert_eq!(pack_bits(""), vec![0]);
}

#[test]
fn packing_fills_the_last_byte_with_zeros() {
    assert_eq!(pack_bits("1"), vec![1, 128]);
    assert_eq!(pack_bits("101"), vec![3, 160]);
    assert_eq!(pack_bits("0000001"), vec![7, 2]);
    assert_eq!(pack_bits("111111111"), vec![1, 255, 128]);
}

#[test]
fn packing_whole_bytes_has_header_zero() {
    assert_eq!(pack_bits("11111111"), vec![0, 255]);
    assert_eq!(pack_bits("0000000100000010"), vec![0, 1, 2]);
}

#[test]
fn packing_counts_other_characters_as_zero_bits() {
    assert_eq!(pack_bits("1x1"), vec![3, 160]);
}

#[test]
fn unpacking_reads_the_header() {
    assert_eq!(bytes_to_binary_string(&[3, 160]).unwrap(), "101");
    assert_eq!(bytes_to_binary_string(&[1, 255, 128]).unwrap(), "111111111");
    assert_eq!(bytes_to_binary_string(&[7, 2]).unwrap(), "0000001");
    assert_eq!(bytes_to_binary_string(&[0]).unwrap(), "");
}

#[test]
fn unpacking_header_zero_means_a_full_last_byte() {
    assert_eq!(bytes_to_binary_string(&[0, 255]).unwrap(), "11111111");
    assert_eq!(bytes_to_binary_string(&[0, 85]).unwrap(), "01010101");
    assert_eq!(bytes_to_binary_string(&[0, 1, 2]).unwrap(), "0000000100000010");
}

#[test]
fn unpacking_leaves_the_filling_out() {
    assert_eq!(bytes_to_binary_string(&[1, 255, 255]).unwrap(), "111111111");
}

#[test]
fn unpacking_gives_back_what_was_packed() {
    let mut bits = String::new();
    for n in 0..40usize {
        assert_eq!(bytes_to_binary_string(&pack_bits(&bits)).unwrap(), bits);
        let packed = pack_bits(&bits);
        assert_eq!(usize::from(packed[0]), n % 8);
        assert_eq!(packed.len(), 1 + (n + 7) / 8);
        bits.push(if n % 3 == 0 { '1' } else { '0' });
    }
}

#[test]
fn unpacking_refuses_a_malformed_payload() {
    assert_eq!(bytes_to_binary_string(&[]), Err(HuffmanError::CorruptPayload));
    assert_eq!(bytes_to_binary_string(&[8]), Err(HuffmanError::CorruptPayload));
    assert_eq!(bytes_to_binary_string(&[8, 1]), Err(HuffmanError::CorruptPayload));
    assert_eq!(bytes_to_binary_string(&[255, 0, 0]), Err(HuffmanError::CorruptPayload));
}

#[test]
fn unpacking_a_header_that_stands_alone_gives_no_bits() {
    for header in 0..8u8 {
        assert_eq!(bytes_to_binary_string(&[header]).unwrap(), "");
    }
}

#[test]
fn unpacking_stays_within_eight_bits_for_each_data_byte() {
    for header in 0..8u8 {
        for data_bytes in 0..4usize {
            let mut payload = vec![header];
            payload.resize(1 + data_bytes, 0xa5);
            let bits = bytes_to_binary_string(&payload).unwrap();
            assert!(bits.chars().all(|c| c == '0' || c == '1'));
            assert!(bits.len() <= 8 * data_bytes);
            if data_bytes >= 1 {
                assert!(bits.len() > 8 * (data_bytes - 1));
            }
        }
    }
}

#[test]
fn encoding_takes_the_codes_in_text_order() {
    let codes = vec![('a', String::from("0")), ('b', String::from("10")), ('c', String::from("11"))];
    let (bits, payload) = encode_data("abcab", &codes).unwrap();
    assert_eq!(bits, "01011010");
    assert_eq!(payload, vec![0, 90]);
}

#[test]
fn encoding_takes_the_first_entry_of_a_symbol() {
    let codes = vec![('a', String::from("0")), ('a', String::from("111"))];
    let (bits, payload) = encode_data("aa", &codes).unwrap();
    assert_eq!(bits, "00");
    assert_eq!(payload, vec![2, 0]);
}

#[test]
fn encoding_the_empty_text() {
    let codes = vec![('a', String::from("0"))];
    assert_eq!(encode_data("", &codes).unwrap(), (String::new(), vec![0]));
    assert_eq!(encode_data("", &vec![]).unwrap(), (String::new(), vec![0]));
}

#[test]
fn encoding_fails_on_a_symbol_without_a_code() {
    let codes = vec![('a', String::from("0")), ('b', String::from("1"))];
    assert_eq!(encode_data("abca", &codes), Err(HuffmanError::MissingCode));
    assert_eq!(encode_data("a", &vec![]), Err(HuffmanError::MissingCode));
}

#[test]
fn decoding_walks_from_the_root_to_a_leaf() {
    let tree = two_level_tree();
    assert_eq!(decode_huffman("00011011", &tree).unwrap(), "abcd");
    assert_eq!(decode_huffman("1100", &tree).unwrap(), "da");
    assert_eq!(decode_huffman("", &tree).unwrap(), "");
}

#[test]
fn decoding_a_tree_of_uneven_depth() {
    let tree = Node::new_internal(
        9,
        Node::new('c', 4),
        Node::new_internal(5, Node::new('a', 2), Node::new('b', 3)),
    );
    assert_eq!(decode_huffman("10101111110000", &tree).unwrap(), "aabbbcccc");
}

#[test]
fn decoding_fails_in_the_middle_of_a_code() {
    let tree = two_level_tree();
    assert_eq!(decode_huffman("0", &tree), Err(HuffmanError::CorruptPayload));
    assert_eq!(decode_huffman("00011", &tree), Err(HuffmanError::CorruptPayload));
}

#[test]
fn decoding_fails_on_a_character_that_is_no_bit() {
    let tree = two_level_tree();
    assert_eq!(decode_huffman("0002", &tree), Err(HuffmanError::CorruptPayload));
    assert_eq!(decode_huffman("00 11", &tree), Err(HuffmanError::CorruptPayload));
}

#[test]
fn decoding_under_a_single_leaf() {
    let tree = Node::new('A', 4);
    assert_eq!(decode_huffman("", &tree).unwrap(), "AAAA");
    assert_eq!(decode_huffman("0", &tree), Err(HuffmanError::CorruptPayload));
    assert_eq!(decode_huffman("", &Node::new('A', 0)).unwrap(), "");
}

#[test]
fn every_error_says_what_went_wrong() {
    assert_eq!(HuffmanError::EmptyInput.message(), "the frequency table is empty");
    assert_eq!(HuffmanError::MissingCode.message(), "a symbol of the text has no code");
    assert_eq!(HuffmanError::CorruptPayload.message(), "the payload is corrupt");
}
