use huffman_codec::{build_tree, count_frequencies, generate_huffman_codes, HuffmanError, Node};

fn leaves(node: &Node, out: &mut Vec<(char, u64)>) {
    match node {
        Node::Leaf { character, frequency } => out.push((*character, *frequency)),
        Node::Internal { left, right, .. } => {
            leaves(left, out);
            leaves(right, out);
        }
    }
}

fn consistent(node: &Node) -> bool {
    match node {
        Node::Leaf { .. } => true,
        Node::Internal { frequency, left, right } => {
            *frequency == left.frequency() + right.frequency()
                && consistent(left)
                && consistent(right)
        }
    }
}

#[test]
fn leaf_holds_symbol_and_frequency() {
    let node = Node::new('x', 5);
    assert_eq!(node, Node::Leaf { character: 'x', frequency: 5 });
    assert_eq!(node.frequency(), 5);
    assert!(node.is_leaf());
}

#[test]
fn internal_vertex_owns_two_children() {
    let node = Node::new_internal(8, Node::new('x', 5), Node::new('y', 3));
    assert_eq!(
        node,
        Node::Internal {
            frequency: 8,
            left: Box::new(Node::Leaf { character: 'x', frequency: 5 }),
            right: Box::new(Node::Leaf { character: 'y', frequency: 3 }),
        }
    );
    assert_eq!(node.frequency(), 8);
    assert!(!node.is_leaf());
}

#[test]
fn record_of_a_leaf() {
    assert_eq!(Node::from_parts(Some('x'), 5, None, None), Some(Node::new('x', 5)));
    assert_eq!(Node::new('x', 5).into_parts(), (Some('x'), 5, None, None));
}

#[test]
fn record_of_an_internal_vertex() {
    let left = Node::new('x', 5);
    let right = Node::new('y', 3);
    let node = Node::new_internal(8, left.clone(), right.clone());
    assert_eq!(Node::from_parts(None, 8, Some(left.clone()), Some(right.clone())), Some(node.clone()));
    assert_eq!(node.into_parts(), (None, 8, Some(left), Some(right)));
}

#[test]
fn record_that_describes_no_vertex() {
    let child = Node::new('x', 5);
    assert_eq!(Node::from_parts(None, 1, None, None), None);
    assert_eq!(Node::from_parts(None, 1, Some(child.clone()), None), None);
    assert_eq!(Node::from_parts(None, 1, None, Some(child.clone())), None);
    assert_eq!(Node::from_parts(Some('a'), 1, Some(child.clone()), None), None);
    assert_eq!(Node::from_parts(Some('a'), 1, None, Some(child.clone())), None);
    assert_eq!(Node::from_parts(Some('a'), 1, Some(child.clone()), Some(child)), None);
}

#[test]
fn clone_copies_the_whole_tree() {
    let tree = build_tree(count_frequencies("some text to build a tree from")).unwrap();
    let copy = tree.clone();
    assert_eq!(copy, tree);
}

#[test]
fn frequencies_in_order_of_first_occurrence() {
    assert_eq!(count_frequencies("banana"), vec![('b', 1), ('a', 3), ('n', 2)]);
    assert_eq!(count_frequencies("h\u{e9}\u{e9}"), vec![('h', 1), ('\u{e9}', 2)]);
}

#[test]
fn frequencies_of_the_empty_text() {
    assert_eq!(count_frequencies(""), vec![]);
}

#[test]
fn frequencies_add_up_to_the_length() {
    let text = "how many symbols are there in this sentence?";
    let table = count_frequencies(text);
    let total: u64 = table.iter().map(|entry| entry.1).sum();
    assert_eq!(total, text.chars().count() as u64);
    for (i, entry) in table.iter().enumerate() {
        assert!(entry.1 >= 1);
        assert_eq!(entry.1, text.chars().filter(|c| *c == entry.0).count() as u64);
        for other in &table[i + 1..] {
            assert_ne!(entry.0, other.0);
        }
    }
}

#[test]
fn empty_table_is_refused() {
    assert_eq!(build_tree(vec![]), Err(HuffmanError::EmptyInput));
}

#[test]
fn table_of_one_entry_gives_a_leaf() {
    assert_eq!(build_tree(vec![('k', 9)]), Ok(Node::new('k', 9)));
}

#[test]
fn tree_of_three_symbols() {
    let tree = build_tree(vec![('a', 2), ('b', 3), ('c', 4)]).unwrap();
    let expected = Node::new_internal(
        9,
        Node::new('c', 4),
        Node::new_internal(5, Node::new('a', 2), Node::new('b', 3)),
    );
    assert_eq!(tree, expected);
}

#[test]
fn lowest_frequencies_are_merged_first() {
    let tree = build_tree(vec![('a', 45), ('b', 13), ('c', 12), ('d', 16), ('e', 9), ('f', 5)])
        .unwrap();
    let fe = Node::new_internal(14, Node::new('f', 5), Node::new('e', 9));
    let cb = Node::new_internal(25, Node::new('c', 12), Node::new('b', 13));
    let fed = Node::new_internal(30, fe, Node::new('d', 16));
    let rest = Node::new_internal(55, cb, fed);
    let expected = Node::new_internal(100, Node::new('a', 45), rest);
    assert_eq!(tree, expected);
}

#[test]
fn tree_holds_every_entry_once() {
    let text = "a tree has one leaf for each distinct symbol";
    let table = count_frequencies(text);
    let tree = build_tree(table.clone()).unwrap();
    let mut found = Vec::new();
    leaves(&tree, &mut found);
    found.sort();
    let mut expected = table;
    expected.sort();
    assert_eq!(found, expected);
    assert!(consistent(&tree));
    assert_eq!(tree.frequency(), text.chars().count() as u64);
}

#[test]
fn tree_does_not_depend_on_zero_frequencies_being_absent() {
    let tree = build_tree(vec![('a', 0), ('b', 0)]).unwrap();
    assert_eq!(tree, Node::new_internal(0, Node::new('a', 0), Node::new('b', 0)));
}

#[test]
fn codes_follow_the_leaves_from_left_to_right() {
    let tree = Node::new_internal(
        9,
        Node::new('c', 4),
        Node::new_internal(5, Node::new('a', 2), Node::new('b', 3)),
    );
    let mut codes = Vec::new();
    generate_huffman_codes(&tree, String::new(), &mut codes);
    let expected =
        vec![('c', String::from("0")), ('a', String::from("10")), ('b', String::from("11"))];
    assert_eq!(codes, expected);
}

#[test]
fn codes_are_written_behind_what_is_there() {
    let tree = Node::new_internal(2, Node::new('x', 1), Node::new('y', 1));
    let mut codes = vec![('w', String::from("111"))];
    generate_huffman_codes(&tree, String::from("10"), &mut codes);
    let expected = vec![
        ('w', String::from("111")),
        ('x', String::from("100")),
        ('y', String::from("101")),
    ];
    assert_eq!(codes, expected);
}

#[test]
fn single_leaf_has_the_empty_code() {
    let mut codes = Vec::new();
    generate_huffman_codes(&Node::new('A', 4), String::new(), &mut codes);
    assert_eq!(codes, vec![('A', String::new())]);
}

#[test]
fn no_code_begins_another_code() {
    let texts = ["ABC CCC", "mississippi river", "abcdefghijklmnopqrstuvwxyz", "aaaaaaaaab"];
    for text in texts {
        let tree = build_tree(count_frequencies(text)).unwrap();
        let mut codes = Vec::new();
        generate_huffman_codes(&tree, String::new(), &mut codes);
        for (i, first) in codes.iter().enumerate() {
            assert!(first.1.chars().all(|c| c == '0' || c == '1'));
            for (j, second) in codes.iter().enumerate() {
                if i != j {
                    assert!(!second.1.starts_with(first.1.as_str()));
                }
            }
        }
    }
}

fn cost(node: &Node, depth: u64) -> u64 {
    match node {
        Node::Leaf { frequency, .. } => frequency * depth,
        Node::Internal { left, right, .. } => cost(left, depth + 1) + cost(right, depth + 1),
    }
}

fn all_trees(entries: &[(char, u64)]) -> Vec<Node> {
    if entries.len() == 1 {
        return vec![Node::new(entries[0].0, entries[0].1)];
    }
    let mut trees = Vec::new();
    for mask in 1..(1u32 << entries.len()) - 1 {
        let mut low = Vec::new();
        let mut high = Vec::new();
        for (i, entry) in entries.iter().enumerate() {
            if mask & (1 << i) != 0 {
                low.push(*entry);
            } else {
                high.push(*entry);
            }
        }
        for left in all_trees(&low) {
            for right in all_trees(&high) {
                let frequency = left.frequency() + right.frequency();
                trees.push(Node::new_internal(frequency, left.clone(), right));
            }
        }
    }
    trees
}

#[test]
fn cost_of_a_known_tree() {
    let tree = build_tree(vec![('a', 45), ('b', 13), ('c', 12), ('d', 16), ('e', 9), ('f', 5)])
        .unwrap();
    assert_eq!(cost(&tree, 0), 224);
}

#[test]
fn no_other_tree_is_cheaper() {
    let tables = [
        vec![('a', 1), ('b', 1), ('c', 4), ('d', 1)],
        vec![('a', 5), ('b', 5), ('c', 5), ('d', 5), ('e', 5)],
        vec![('a', 1), ('b', 2), ('c', 3), ('d', 5), ('e', 8)],
        vec![('a', 0), ('b', 7), ('c', 7), ('d', 2)],
        vec![('a', 3), ('b', 3)],
    ];
    for table in tables {
        let best = cost(&build_tree(table.clone()).unwrap(), 0);
        let others = all_trees(&table);
        assert!(!others.is_empty());
        let least = others.iter().map(|tree| cost(tree, 0)).min().unwrap();
        assert_eq!(best, least);
    }
}

#[test]
fn more_frequent_symbols_have_no_longer_codes() {
    let texts = ["ABC CCC", "mississippi river", "aaaaaaaaabbbbcccdde", "abracadabra"];
    for text in texts {
        let table = count_frequencies(text);
        let tree = build_tree(table.clone()).unwrap();
        let mut codes = Vec::new();
        generate_huffman_codes(&tree, String::new(), &mut codes);
        let count = |symbol: char| table.iter().find(|entry| entry.0 == symbol).unwrap().1;
        for first in &codes {
            for second in &codes {
                if count(first.0) > count(second.0) {
                    assert!(first.1.len() <= second.1.len());
                }
            }
        }
    }
}

#[test]
fn bit_string_is_as_long_as_the_tree_costs() {
    let texts = ["ABC CCC", "mississippi river", "aabbbcccc", "AAAA", "ab"];
    for text in texts {
        let tree = build_tree(count_frequencies(text)).unwrap();
        let mut codes = Vec::new();
        generate_huffman_codes(&tree, String::new(), &mut codes);
        let (bits, _) = huffman_codec::encode_data(text, &codes).unwrap();
        assert_eq!(bits.len() as u64, cost(&tree, 0));
    }
}
