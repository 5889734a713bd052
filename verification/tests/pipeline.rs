use huffman_codec::{
    build_tree, bytes_to_binary_string, compress, count_frequencies, decode_huffman, decompress,
    encode_data, generate_huffman_codes, ForWrite, HuffmanError, Node,
};

fn code_table(tree: &Node) -> Vec<(char, String)> {
    let mut codes = Vec::new();
    generate_huffman_codes(tree, String::new(), &mut codes);
    codes
}

fn round_trip_by_steps(text: &str) -> String {
    let tree = build_tree(count_frequencies(text)).unwrap();
    let codes = code_table(&tree);
    let (bits, payload) = encode_data(text, &codes).unwrap();
    let unpacked = bytes_to_binary_string(&payload).unwrap();
    assert_eq!(unpacked, bits);
    decode_huffman(&unpacked, &tree).unwrap()
}

fn leaf(character: char, frequency: u64) -> Node {
    Node::new(character, frequency)
}

fn above(left: Node, right: Node) -> Node {
    Node::new_internal(left.frequency() + right.frequency(), left, right)
}

#[test]
fn scenario_abc_ccc_frequencies() {
    assert_eq!(count_frequencies("ABC CCC"), vec![('A', 1), ('B', 1), ('C', 4), (' ', 1)]);
}

#[test]
fn scenario_abc_ccc_tree() {
    let tree = build_tree(count_frequencies("ABC CCC")).unwrap();
    let expected = above(above(leaf(' ', 1), above(leaf('A', 1), leaf('B', 1))), leaf('C', 4));
    assert_eq!(tree, expected);
    assert_eq!(tree.frequency(), 7);
}

#[test]
fn scenario_abc_ccc_codes() {
    let tree = build_tree(count_frequencies("ABC CCC")).unwrap();
    let expected = vec![
        (' ', String::from("00")),
        ('A', String::from("010")),
        ('B', String::from("011")),
        ('C', String::from("1")),
    ];
    assert_eq!(code_table(&tree), expected);
}

#[test]
fn scenario_abc_ccc_bits_and_payload() {
    let tree = build_tree(count_frequencies("ABC CCC")).unwrap();
    let (bits, payload) = encode_data("ABC CCC", &code_table(&tree)).unwrap();
    assert_eq!(bits, "010011100111");
    assert_eq!(payload, vec![4, 78, 112]);
}

#[test]
fn scenario_abc_ccc_round_trip() {
    assert_eq!(round_trip_by_steps("ABC CCC"), "ABC CCC");
    assert_eq!(decompress(&compress("ABC CCC")).unwrap(), "ABC CCC");
}

#[test]
fn round_trip_of_assorted_texts() {
    let texts = [
        "a",
        "ab",
        "abc",
        "hello world",
        "aabbbcccc",
        "the quick brown fox jumps over the lazy dog",
        "mississippi",
        "0101010101",
        "h\u{e9}llo w\u{f6}rld \u{2713}\u{2713} \u{1F600}",
        "line one\nline two\n\ttabbed",
    ];
    for text in texts {
        assert_eq!(round_trip_by_steps(text), text);
        assert_eq!(decompress(&compress(text)).unwrap(), text);
    }
}

#[test]
fn round_trip_of_a_long_text() {
    let mut text = String::new();
    for i in 0..5000u32 {
        let c = char::from_u32(u32::from(b'a') + (i * i + 3 * i) % 23).unwrap();
        text.push(c);
    }
    assert_eq!(decompress(&compress(&text)).unwrap(), text);
}

#[test]
fn single_symbol_text_round_trips() {
    let table = count_frequencies("AAAA");
    assert_eq!(table, vec![('A', 4)]);
    let tree = build_tree(table).unwrap();
    assert_eq!(tree, leaf('A', 4));
    let codes = code_table(&tree);
    assert_eq!(codes, vec![('A', String::new())]);
    let (bits, payload) = encode_data("AAAA", &codes).unwrap();
    assert_eq!(bits, "");
    assert_eq!(payload, vec![0]);
    let unpacked = bytes_to_binary_string(&payload).unwrap();
    assert_eq!(unpacked, "");
    assert_eq!(decode_huffman(&unpacked, &tree).unwrap(), "AAAA");
    assert_eq!(decompress(&compress("AAAA")).unwrap(), "AAAA");
}

#[test]
fn single_symbol_once_round_trips() {
    assert_eq!(decompress(&compress("z")).unwrap(), "z");
}

#[test]
fn whole_bytes_keep_their_last_byte() {
    let text = "ABABABAB";
    let tree = build_tree(count_frequencies(text)).unwrap();
    let (bits, payload) = encode_data(text, &code_table(&tree)).unwrap();
    assert_eq!(bits, "01010101");
    assert_eq!(payload, vec![0, 85]);
    let unpacked = bytes_to_binary_string(&payload).unwrap();
    assert_eq!(unpacked.len(), 8 * (payload.len() - 1));
    assert_eq!(unpacked, "01010101");
    assert_eq!(decode_huffman(&unpacked, &tree).unwrap(), text);
}

#[test]
fn whole_bytes_of_sixteen_bits() {
    let text = "ABCDABCDABCDABCD";
    let tree = build_tree(count_frequencies(text)).unwrap();
    let (bits, payload) = encode_data(text, &code_table(&tree)).unwrap();
    assert_eq!(bits.len(), 32);
    assert_eq!(payload[0], 0);
    assert_eq!(payload.len(), 5);
    let unpacked = bytes_to_binary_string(&payload).unwrap();
    assert_eq!(unpacked.len(), 8 * (payload.len() - 1));
    assert_eq!(decode_huffman(&unpacked, &tree).unwrap(), text);
}

#[test]
fn encoding_twice_gives_the_same() {
    let text = "abracadabra alakazam";
    let first_tree = build_tree(count_frequencies(text)).unwrap();
    let second_tree = build_tree(count_frequencies(text)).unwrap();
    assert_eq!(first_tree, second_tree);
    let first_codes = code_table(&first_tree);
    let second_codes = code_table(&second_tree);
    assert_eq!(first_codes, second_codes);
    assert_eq!(
        encode_data(text, &first_codes).unwrap(),
        encode_data(text, &second_codes).unwrap()
    );
    assert_eq!(compress(text), compress(text));
}

#[test]
fn equal_frequencies_are_taken_in_order_of_arrival() {
    let tree = build_tree(count_frequencies("abcd")).unwrap();
    let expected = above(above(leaf('a', 1), leaf('b', 1)), above(leaf('c', 1), leaf('d', 1)));
    assert_eq!(tree, expected);
    let codes = code_table(&tree);
    let expected_codes = vec![
        ('a', String::from("00")),
        ('b', String::from("01")),
        ('c', String::from("10")),
        ('d', String::from("11")),
    ];
    assert_eq!(codes, expected_codes);
}

#[test]
fn scenario_aabbbcccc_container() {
    let container = compress("aabbbcccc");
    let expected_tree = above(leaf('c', 4), above(leaf('a', 2), leaf('b', 3)));
    assert_eq!(container, ForWrite::new(expected_tree, vec![6, 175, 192]));
    assert_eq!(decompress(&container).unwrap(), "aabbbcccc");
}

#[test]
fn empty_text_gives_the_container_without_a_tree() {
    let container = compress("");
    assert_eq!(container, ForWrite::empty());
    assert_eq!(container.tree, None);
    assert_eq!(container.codes, vec![0]);
    assert_eq!(decompress(&container).unwrap(), "");
}

#[test]
fn container_without_a_tree_must_hold_no_bits() {
    let container = ForWrite { tree: None, codes: vec![0, 255] };
    assert_eq!(decompress(&container), Err(HuffmanError::CorruptPayload));
}

#[test]
fn container_with_a_bad_payload_is_refused() {
    let tree = build_tree(count_frequencies("ab")).unwrap();
    assert_eq!(decompress(&ForWrite::new(tree.clone(), vec![])), Err(HuffmanError::CorruptPayload));
    assert_eq!(decompress(&ForWrite::new(tree, vec![9, 0])), Err(HuffmanError::CorruptPayload));
}

#[test]
fn container_with_a_header_that_stands_alone_holds_no_bits() {
    let tree = build_tree(count_frequencies("ab")).unwrap();
    assert_eq!(decompress(&ForWrite::new(tree, vec![5])).unwrap(), "");
    assert_eq!(decompress(&ForWrite { tree: None, codes: vec![5] }).unwrap(), "");
    assert_eq!(decompress(&ForWrite::new(leaf('q', 2), vec![5])).unwrap(), "qq");
}

#[test]
fn container_new_keeps_its_parts() {
    let container = ForWrite::new(leaf('q', 2), vec![0]);
    assert_eq!(container.tree, Some(leaf('q', 2)));
    assert_eq!(container.codes, vec![0]);
    assert_eq!(decompress(&container).unwrap(), "qq");
}
