use huffman_codec::{compress, decompress, ForWrite, Node};
use serde::{Deserialize, Deserializer, Serialize, Serializer};

type NodeFields = (Option<char>, u64, Option<Box<BlobNode>>, Option<Box<BlobNode>>);

/// A vertex in the shape in which it is stored: a record of four fields.
#[derive(Debug, PartialEq, Eq)]
struct BlobNode {
    character: Option<char>,
    frequency: u64,
    left: Option<Box<BlobNode>>,
    right: Option<Box<BlobNode>>,
}

/// A container in the shape in which it is stored: the tree, then the bytes.
#[derive(Debug, PartialEq, Eq)]
struct BlobContainer {
    tree: Option<BlobNode>,
    codes: Vec<u8>,
}

impl Serialize for BlobNode {
    fn serialize<S: Serializer>(&self, serializer: S) -> Result<S::Ok, S::Error> {
        (&self.character, &self.frequency, &self.left, &self.right).serialize(serializer)
    }
}

impl<'de> Deserialize<'de> for BlobNode {
    fn deserialize<D: Deserializer<'de>>(deserializer: D) -> Result<BlobNode, D::Error> {
        let (character, frequency, left, right) = NodeFields::deserialize(deserializer)?;
        Ok(BlobNode { character, frequency, left, right })
    }
}

impl Serialize for BlobContainer {
    fn serialize<S: Serializer>(&self, serializer: S) -> Result<S::Ok, S::Error> {
        (&self.tree, &self.codes).serialize(serializer)
    }
}

impl<'de> Deserialize<'de> for BlobContainer {
    fn deserialize<D: Deserializer<'de>>(deserializer: D) -> Result<BlobContainer, D::Error> {
        let (tree, codes) = <(Option<BlobNode>, Vec<u8>)>::deserialize(deserializer)?;
        Ok(BlobContainer { tree, codes })
    }
}

fn to_blob_node(node: Node) -> BlobNode {
    let (character, frequency, left, right) = node.into_parts();
    BlobNode {
        character,
        frequency,
        left: left.map(|child| Box::new(to_blob_node(child))),
        right: right.map(|child| Box::new(to_blob_node(child))),
    }
}

fn from_blob_node(node: BlobNode) -> Node {
    let left = node.left.map(|child| from_blob_node(*child));
    let right = node.right.map(|child| from_blob_node(*child));
    Node::from_parts(node.character, node.frequency, left, right).unwrap()
}

fn serialize(container: &ForWrite) -> Vec<u8> {
    let record = BlobContainer {
        tree: container.tree.clone().map(to_blob_node),
        codes: container.codes.clone(),
    };
    rmp_serde::encode::to_vec(&record).unwrap()
}

fn deserialize(blob: &[u8]) -> ForWrite {
    let record: BlobContainer = rmp_serde::decode::from_slice(blob).unwrap();
    ForWrite { tree: record.tree.map(from_blob_node), codes: record.codes }
}

#[test]
fn container_round_trip_through_a_blob() {
    let container = compress("aabbbcccc");
    let blob = serialize(&container);
    let read_back = deserialize(&blob);
    assert_eq!(read_back, container);
    assert_eq!(decompress(&read_back).unwrap(), "aabbbcccc");
}

#[test]
fn container_blob_has_the_tree_first_and_the_bytes_second() {
    let blob = serialize(&compress("ab"));
    let expected: Vec<u8> = vec![
        0x92, 0x94, 0xc0, 0x02, 0x94, 0xa1, 0x61, 0x01, 0xc0, 0xc0, 0x94, 0xa1, 0x62, 0x01, 0xc0,
        0xc0, 0x92, 0x02, 0x40,
    ];
    assert_eq!(blob, expected);
}

#[test]
fn container_round_trip_of_assorted_texts() {
    let texts = ["", "A", "AAAA", "ABC CCC", "ABABABAB", "h\u{e9}llo w\u{f6}rld \u{2713}"];
    for text in texts {
        let container = compress(text);
        let read_back = deserialize(&serialize(&container));
        assert_eq!(read_back, container);
        assert_eq!(decompress(&read_back).unwrap(), text);
    }
}

#[test]
fn malformed_blob_is_refused() {
    let blob = serialize(&compress("aabbbcccc"));
    let cut: Result<BlobContainer, _> = rmp_serde::decode::from_slice(&blob[..blob.len() - 1]);
    assert!(cut.is_err());
    let empty: Result<BlobContainer, _> = rmp_serde::decode::from_slice(&[]);
    assert!(empty.is_err());
}
