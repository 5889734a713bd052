use vstd::prelude::*;

verus! {

/// A vertex of a prefix-code tree: a leaf that holds a symbol, or an internal
/// vertex that owns exactly two subtrees.
#[derive(Debug, PartialEq, Eq)]
pub enum Node {
    Leaf { character: char, frequency: u64 },
    Internal { frequency: u64, left: Box<Node>, right: Box<Node> },
}

impl Clone for Node {
    /// A copy of the whole tree below this vertex.
    fn clone(&self) -> (copy: Node)
        ensures
            copy == *self,
        decreases self,
    {
        match self {
            Node::Leaf { character, frequency } => Node::Leaf {
                character: *character,
                frequency: *frequency,
            },
            Node::Internal { frequency, left, right } => {
                let left_copy = (**left).clone();
                let right_copy = (**right).clone();
                Node::Internal {
                    frequency: *frequency,
                    left: Box::new(left_copy),
                    right: Box::new(right_copy),
                }
            },
        }
    }
}

impl Node {
    /// The frequency recorded at this vertex.
    pub open spec fn spec_frequency(&self) -> u64 {
        match *self {
            Node::Leaf { frequency, .. } => frequency,
            Node::Internal { frequency, .. } => frequency,
        }
    }

    /// The symbols of the leaves with their frequencies, from left to right.
    pub open spec fn leaves(self) -> Seq<(char, u64)>
        decreases self,
    {
        match self {
            Node::Leaf { character, frequency } => seq![(character, frequency)],
            Node::Internal { left, right, .. } => left.leaves() + right.leaves(),
        }
    }

    /// Every internal vertex records the sum of the frequencies of its two
    /// children.
    pub open spec fn consistent(self) -> bool
        decreases self,
    {
        match self {
            Node::Leaf { .. } => true,
            Node::Internal { frequency, left, right } => {
                &&& frequency == left.spec_frequency() + right.spec_frequency()
                &&& left.consistent()
                &&& right.consistent()
            },
        }
    }

    /// The vertex that a record of four fields describes: a leaf where the
    /// record has a character and no child, an internal vertex where it has
    /// two children and no character, and none otherwise.
    pub open spec fn described_by(
        character: Option<char>,
        frequency: u64,
        left: Option<Node>,
        right: Option<Node>,
    ) -> Option<Node> {
        match (character, left, right) {
            (Some(symbol), None, None) => Some(Node::Leaf { character: symbol, frequency }),
            (None, Some(low), Some(high)) => Some(
                Node::Internal { frequency, left: Box::new(low), right: Box::new(high) },
            ),
            _ => None,
        }
    }

    /// A leaf for `character`, seen `frequency` times.
    pub fn new(character: char, frequency: u64) -> (node: Node)
        ensures
            node == (Node::Leaf { character, frequency }),
    {
        Node::Leaf { character, frequency }
    }

    /// An internal vertex above `left` and `right`.
    pub fn new_internal(frequency: u64, left: Node, right: Node) -> (node: Node)
        ensures
            node == (Node::Internal { frequency, left: Box::new(left), right: Box::new(right) }),
            frequency == left.spec_frequency() + right.spec_frequency() && left.consistent()
                && right.consistent() ==> node.consistent(),
    {
        Node::Internal { frequency, left: Box::new(left), right: Box::new(right) }
    }

    /// The vertex that a record of four fields describes, for a tree that is
    /// kept as records: a character and no child make a leaf, two children
    /// and no character make an internal vertex. Any other record describes
    /// no vertex.
    pub fn from_parts(
        character: Option<char>,
        frequency: u64,
        left: Option<Node>,
        right: Option<Node>,
    ) -> (node: Option<Node>)
        ensures
            node == Node::described_by(character, frequency, left, right),
    {
        match (character, left, right) {
            (Some(symbol), None, None) => Some(Node::Leaf { character: symbol, frequency }),
            (None, Some(low), Some(high)) => Some(
                Node::Internal { frequency, left: Box::new(low), right: Box::new(high) },
            ),
            _ => None,
        }
    }

    /// The record that describes this vertex: its character, if it is a leaf,
    /// its frequency, and its two children, if it is an internal vertex.
    pub fn into_parts(self) -> (parts: (Option<char>, u64, Option<Node>, Option<Node>))
        ensures
            Node::described_by(parts.0, parts.1, parts.2, parts.3) == Some(self),
            parts.1 == self.spec_frequency(),
            parts.0 is Some <==> self is Leaf,
    {
        match self {
            Node::Leaf { character, frequency } => (Some(character), frequency, None, None),
            Node::Internal { frequency, left, right } => (
                None,
                frequency,
                Some(*left),
                Some(*right),
            ),
        }
    }

    /// The frequency recorded at this vertex.
    #[verifier::when_used_as_spec(spec_frequency)]
    pub fn frequency(&self) -> (f: u64)
        ensures
            f == self.spec_frequency(),
    {
        match self {
            Node::Leaf { frequency, .. } => *frequency,
            Node::Internal { frequency, .. } => *frequency,
        }
    }

    /// Whether this vertex is a leaf.
    pub fn is_leaf(&self) -> (b: bool)
        ensures
            b == (*self is Leaf),
    {
        match self {
            Node::Leaf { .. } => true,
            Node::Internal { .. } => false,
        }
    }
}

} // verus!
