use crate::error::HuffmanError;
use crate::frequency::{distinct_entries, has_entry, total_frequency};
use crate::optimality::{frequent_leaves_lie_high, is_cheapest, lemma_huffman_tree_is_cheapest};
use crate::tree::Node;
use vstd::prelude::*;

verus! {

/// How many vertices at the front of `queue` have a frequency of at most
/// `frequency`.
pub open spec fn rank(queue: Seq<Node>, frequency: u64) -> int
    decreases queue.len(),
{
    if queue.len() == 0 || queue.first().frequency() > frequency {
        0
    } else {
        1 + rank(queue.drop_first(), frequency)
    }
}

/// The queue with `node` put behind the vertices that it does not precede:
/// in a queue ordered by frequency it comes after every vertex of the same or
/// a lower frequency, so that of two vertices of equal frequency the one that
/// entered first leaves first.
pub open spec fn enqueue(queue: Seq<Node>, node: Node) -> Seq<Node> {
    queue.insert(rank(queue, node.frequency()), node)
}

/// The leaf that stands for an entry of a frequency table.
pub open spec fn leaf_for(entry: (char, u64)) -> Node {
    Node::Leaf { character: entry.0, frequency: entry.1 }
}

/// The queue of leaves that a frequency table starts with: its entries
/// enqueued one by one, in the order of the table.
pub open spec fn leaf_queue(table: Seq<(char, u64)>) -> Seq<Node>
    decreases table.len(),
{
    if table.len() == 0 {
        Seq::empty()
    } else {
        enqueue(leaf_queue(table.drop_last()), leaf_for(table.last()))
    }
}

/// The internal vertex above `left` and `right`, with the sum of their
/// frequencies.
pub open spec fn merged(left: Node, right: Node) -> Node {
    Node::Internal {
        frequency: (left.frequency() + right.frequency()) as u64,
        left: Box::new(left),
        right: Box::new(right),
    }
}

/// The tree that is left when the first two vertices of the queue are merged
/// and the merged vertex is enqueued again, until one vertex remains.
pub open spec fn merge_queue(queue: Seq<Node>) -> Node
    decreases queue.len(),
    via merge_queue_terminates
{
    if queue.len() < 2 {
        queue[0]
    } else {
        merge_queue(enqueue(queue.skip(2), merged(queue[0], queue[1])))
    }
}

/// Each round of merging makes the queue shorter by one vertex.
#[via_fn]
proof fn merge_queue_terminates(queue: Seq<Node>) {
    if queue.len() >= 2 {
        lemma_rank(queue.skip(2), merged(queue[0], queue[1]).frequency());
    }
}

/// The prefix-code tree of a frequency table.
pub open spec fn huffman_tree(table: Seq<(char, u64)>) -> Node {
    merge_queue(leaf_queue(table))
}

/// The queue is ordered by frequency, lowest first.
pub open spec fn ordered(queue: Seq<Node>) -> bool {
    forall|i: int, j: int|
        0 <= i <= j < queue.len() ==> (#[trigger] queue[i]).frequency() <= (
        #[trigger] queue[j]).frequency()
}

/// Every tree of the queue is consistent.
pub open spec fn all_consistent(queue: Seq<Node>) -> bool {
    forall|i: int| 0 <= i < queue.len() ==> (#[trigger] queue[i]).consistent()
}

/// The sum of the frequencies at the roots of the queue.
pub open spec fn queue_weight(queue: Seq<Node>) -> nat
    decreases queue.len(),
{
    if queue.len() == 0 {
        0
    } else {
        queue_weight(queue.drop_last()) + queue.last().frequency() as nat
    }
}

/// The leaves of all trees of the queue, from the first tree to the last.
pub open spec fn queue_leaves(queue: Seq<Node>) -> Seq<(char, u64)>
    decreases queue.len(),
{
    if queue.len() == 0 {
        Seq::empty()
    } else {
        queue_leaves(queue.drop_last()) + queue.last().leaves()
    }
}

/// Puts `node` into the queue behind the vertices of the same or a lower
/// frequency.
fn enqueue_node(queue: &mut Vec<Node>, node: Node)
    ensures
        final(queue)@ == enqueue(old(queue)@, node),
{
    let frequency: u64 = node.frequency();
    let mut i: usize = 0;
    proof {
        assert(queue@.skip(0) =~= queue@);
    }
    while i < queue.len() && queue[i].frequency() <= frequency
        invariant
            i <= queue.len(),
            queue@ == old(queue)@,
            rank(queue@, frequency) == i + rank(queue@.skip(i as int), frequency),
        decreases queue.len() - i,
    {
        proof {
            assert(queue@.skip(i as int).drop_first() =~= queue@.skip(i + 1));
        }
        i += 1;
    }
    queue.insert(i, node);
}

/// Builds the prefix-code tree of a frequency table: every entry becomes a
/// leaf, and the two vertices of lowest frequency are merged until one vertex
/// is left. Among vertices of equal frequency the one that entered the queue
/// first is taken first, so the tree depends on the table alone. No tree
/// over the same frequencies costs less. An empty table is refused.
pub fn build_tree(freq_map: Vec<(char, u64)>) -> (result: Result<Node, HuffmanError>)
    requires
        total_frequency(freq_map@) <= u64::MAX,
    ensures
        result is Err <==> freq_map@.len() == 0,
        result matches Err(e) ==> e == HuffmanError::EmptyInput,
        result matches Ok(tree) ==> {
            &&& tree == huffman_tree(freq_map@)
            &&& tree.consistent()
            &&& tree.frequency() == total_frequency(freq_map@)
            &&& tree.leaves().to_multiset() == freq_map@.to_multiset()
            &&& total_frequency(tree.leaves()) == total_frequency(freq_map@)
            &&& (tree is Leaf <==> freq_map@.len() == 1)
            &&& distinct_entries(freq_map@) ==> distinct_entries(tree.leaves())
            &&& is_cheapest(tree, freq_map@)
            &&& frequent_leaves_lie_high(tree)
        },
{
    if freq_map.len() == 0 {
        return Err(HuffmanError::EmptyInput);
    }
    let mut queue: Vec<Node> = Vec::new();
    let mut i: usize = 0;
    while i < freq_map.len()
        invariant
            i <= freq_map.len(),
            queue@ == leaf_queue(freq_map@.take(i as int)),
        decreases freq_map.len() - i,
    {
        let character: char = freq_map[i].0;
        let frequency: u64 = freq_map[i].1;
        enqueue_node(&mut queue, Node::new(character, frequency));
        proof {
            assert(freq_map@.take(i + 1).drop_last() =~= freq_map@.take(i as int));
            assert(freq_map@.take(i + 1).last() == freq_map@[i as int]);
        }
        i += 1;
    }
    proof {
        assert(freq_map@.take(i as int) =~= freq_map@);
        lemma_leaf_queue(freq_map@);
        lemma_huffman_tree(freq_map@);
        lemma_consistent_total(huffman_tree(freq_map@));
        lemma_huffman_tree_is_cheapest(freq_map@);
        if distinct_entries(freq_map@) {
            lemma_one_leaf_per_symbol(freq_map@);
        }
        assert(all_consistent(queue@)) by {
            assert forall|k: int| 0 <= k < queue@.len() implies (
            #[trigger] queue@[k]).consistent() by {
                assert(queue@[k] is Leaf);
            }
        }
    }
    while queue.len() > 1
        invariant
            queue@.len() >= 1,
            merge_queue(queue@) == huffman_tree(freq_map@),
            queue_weight(queue@) <= u64::MAX,
            all_consistent(queue@),
        decreases queue@.len(),
    {
        let ghost before = queue@;
        proof {
            lemma_merge_step(before);
        }
        let left = queue.remove(0);
        let right = queue.remove(0);
        proof {
            assert(queue@ =~= before.skip(2));
        }
        let node = Node::new_internal(left.frequency() + right.frequency(), left, right);
        enqueue_node(&mut queue, node);
    }
    match queue.pop() {
        Some(root) => Ok(root),
        // Not reached: merging leaves one vertex in the queue.
        None => Err(HuffmanError::EmptyInput),
    }
}

/// Where `rank` points: everything before it has at most the given frequency,
/// and the vertex at it, if there is one, has more.
pub proof fn lemma_rank(queue: Seq<Node>, frequency: u64)
    ensures
        0 <= rank(queue, frequency) <= queue.len(),
        forall|i: int|
            0 <= i < rank(queue, frequency) ==> (#[trigger] queue[i]).frequency() <= frequency,
        rank(queue, frequency) < queue.len() ==> queue[rank(queue, frequency)].frequency()
            > frequency,
    decreases queue.len(),
{
    if queue.len() == 0 || queue.first().frequency() > frequency {
    } else {
        let tail = queue.drop_first();
        lemma_rank(tail, frequency);
        assert forall|i: int| 0 <= i < rank(queue, frequency) implies (
        #[trigger] queue[i]).frequency() <= frequency by {
            if i > 0 {
                assert(queue[i] == tail[i - 1]);
            }
        }
    }
}

/// An ordered queue is still ordered after a vertex was enqueued.
pub proof fn lemma_enqueue_ordered(queue: Seq<Node>, node: Node)
    requires
        ordered(queue),
    ensures
        ordered(enqueue(queue, node)),
        enqueue(queue, node).len() == queue.len() + 1,
{
    let r = rank(queue, node.frequency());
    lemma_rank(queue, node.frequency());
    let longer = enqueue(queue, node);
    assert forall|i: int, j: int| 0 <= i <= j < longer.len() implies (
    #[trigger] longer[i]).frequency() <= (#[trigger] longer[j]).frequency() by {
        if j > r {
            assert(longer[j] == queue[j - 1]);
            assert(queue[r].frequency() <= queue[j - 1].frequency());
        }
        if i > r {
            assert(longer[i] == queue[i - 1]);
        }
        if i < r {
            assert(longer[i] == queue[i]);
        }
        if j < r {
            assert(longer[j] == queue[j]);
        }
    }
}

/// Weight and leaves of two queues, one behind the other.
proof fn lemma_queue_concat(a: Seq<Node>, b: Seq<Node>)
    ensures
        queue_weight(a + b) == queue_weight(a) + queue_weight(b),
        queue_leaves(a + b) == queue_leaves(a) + queue_leaves(b),
    decreases b.len(),
{
    if b.len() == 0 {
        assert(a + b =~= a);
        assert(queue_leaves(a) + queue_leaves(b) =~= queue_leaves(a));
    } else {
        lemma_queue_concat(a, b.drop_last());
        assert((a + b).drop_last() =~= a + b.drop_last());
        assert((a + b).last() == b.last());
        assert((queue_leaves(a) + queue_leaves(b.drop_last())) + b.last().leaves() =~= queue_leaves(
            a,
        ) + (queue_leaves(b.drop_last()) + b.last().leaves()));
    }
}

/// Weight and leaves of a queue of one tree.
proof fn lemma_queue_single(node: Node)
    ensures
        queue_weight(seq![node]) == node.frequency(),
        queue_leaves(seq![node]) == node.leaves(),
{
    let queue = seq![node];
    assert(queue.drop_last() =~= Seq::<Node>::empty());
    assert(queue.last() == node);
    assert(queue_weight(queue.drop_last()) == 0);
    assert(queue_leaves(queue.drop_last()) =~= Seq::empty());
    assert(queue_leaves(queue.drop_last()) + node.leaves() =~= node.leaves());
}

/// A vertex put anywhere into the queue adds its frequency to the weight and
/// its leaves to the leaves.
proof fn lemma_queue_insert(queue: Seq<Node>, i: int, node: Node)
    requires
        0 <= i <= queue.len(),
    ensures
        queue_weight(queue.insert(i, node)) == queue_weight(queue) + node.frequency(),
        queue_leaves(queue.insert(i, node)).to_multiset() == queue_leaves(
            queue,
        ).to_multiset().add(node.leaves().to_multiset()),
{
    broadcast use vstd::multiset::group_multiset_axioms;

    let a = queue.subrange(0, i);
    let b = queue.subrange(i, queue.len() as int);
    assert(queue =~= a + b);
    assert(queue.insert(i, node) =~= (a + seq![node]) + b);
    lemma_queue_concat(a, b);
    lemma_queue_concat(a, seq![node]);
    lemma_queue_concat(a + seq![node], b);
    lemma_queue_single(node);
    vstd::seq_lib::lemma_multiset_commutative(queue_leaves(a), queue_leaves(b));
    vstd::seq_lib::lemma_multiset_commutative(queue_leaves(a), node.leaves());
    vstd::seq_lib::lemma_multiset_commutative(queue_leaves(a) + node.leaves(), queue_leaves(b));
    assert(queue_leaves(queue.insert(i, node)).to_multiset() =~= queue_leaves(
        queue,
    ).to_multiset().add(node.leaves().to_multiset()));
}

/// What `enqueue` does: the new vertex stands at its rank, the vertices before
/// it keep their places, and those behind it move back by one. The weight
/// grows by its frequency, and the leaves by its leaves.
pub proof fn lemma_enqueue(queue: Seq<Node>, node: Node)
    ensures
        enqueue(queue, node).len() == queue.len() + 1,
        0 <= rank(queue, node.frequency()) <= queue.len(),
        forall|i: int|
            0 <= i < enqueue(queue, node).len() ==> #[trigger] enqueue(queue, node)[i] == (if i
                < rank(queue, node.frequency()) {
                queue[i]
            } else if i == rank(queue, node.frequency()) {
                node
            } else {
                queue[i - 1]
            }),
        queue_weight(enqueue(queue, node)) == queue_weight(queue) + node.frequency(),
        queue_leaves(enqueue(queue, node)).to_multiset() == queue_leaves(
            queue,
        ).to_multiset().add(node.leaves().to_multiset()),
{
    lemma_rank(queue, node.frequency());
    lemma_queue_insert(queue, rank(queue, node.frequency()), node);
}

/// Weight and leaves of a queue, told by its first two trees and the rest.
proof fn lemma_queue_front(queue: Seq<Node>)
    requires
        queue.len() >= 2,
    ensures
        queue_weight(queue) == queue[0].frequency() + queue[1].frequency() + queue_weight(
            queue.skip(2),
        ),
        queue_leaves(queue) == (queue[0].leaves() + queue[1].leaves()) + queue_leaves(
            queue.skip(2),
        ),
{
    let first = seq![queue[0]];
    let second = seq![queue[1]];
    assert(queue =~= (first + second) + queue.skip(2));
    lemma_queue_concat(first + second, queue.skip(2));
    lemma_queue_concat(first, second);
    lemma_queue_single(queue[0]);
    lemma_queue_single(queue[1]);
}

/// The queue of leaves of a table: one leaf for each entry, ordered by
/// frequency, with the weight of the whole table.
pub proof fn lemma_leaf_queue(table: Seq<(char, u64)>)
    ensures
        leaf_queue(table).len() == table.len(),
        ordered(leaf_queue(table)),
        forall|i: int|
            0 <= i < leaf_queue(table).len() ==> (#[trigger] leaf_queue(table)[i]) is Leaf,
        queue_weight(leaf_queue(table)) == total_frequency(table),
        queue_leaves(leaf_queue(table)).to_multiset() == table.to_multiset(),
    decreases table.len(),
{
    if table.len() == 0 {
        assert(table =~= Seq::empty());
    } else {
        let front = table.drop_last();
        let leaf = leaf_for(table.last());
        let before = leaf_queue(front);
        let after = leaf_queue(table);
        lemma_leaf_queue(front);
        assert(after == enqueue(before, leaf));
        lemma_enqueue_ordered(before, leaf);
        lemma_enqueue(before, leaf);
        assert(leaf.leaves() =~= seq![table.last()]);
        assert(table =~= front.push(table.last()));
        assert(front.push(table.last()) =~= front + seq![table.last()]);
        vstd::seq_lib::lemma_multiset_commutative(front, seq![table.last()]);
    }
}

/// One round of merging: the first two trees leave the queue and the vertex
/// above them enters it. The queue is shorter by one tree, weighs the same,
/// has the same leaves, and merges to the same tree. In an ordered queue the
/// two trees that leave are two of lowest frequency, and the queue stays
/// ordered.
pub proof fn lemma_merge_step(queue: Seq<Node>)
    requires
        queue.len() >= 2,
        queue_weight(queue) <= u64::MAX,
        all_consistent(queue),
    ensures
        queue[0].frequency() + queue[1].frequency() <= u64::MAX,
        merged(queue[0], queue[1]).consistent(),
        ({
            let next = enqueue(queue.skip(2), merged(queue[0], queue[1]));
            &&& next.len() == queue.len() - 1
            &&& merge_queue(queue) == merge_queue(next)
            &&& queue_weight(next) == queue_weight(queue)
            &&& all_consistent(next)
            &&& queue_leaves(next).to_multiset() == queue_leaves(queue).to_multiset()
            &&& queue.len() == 2 ==> next[0] == merged(queue[0], queue[1])
            &&& ordered(queue) ==> ordered(next)
        }),
        ordered(queue) ==> queue[0].frequency() <= queue[1].frequency() && forall|k: int|
            2 <= k < queue.len() ==> queue[1].frequency() <= (#[trigger] queue[k]).frequency(),
{
    broadcast use vstd::multiset::group_multiset_axioms;

    let node = merged(queue[0], queue[1]);
    let rest = queue.skip(2);
    let next = enqueue(rest, node);
    lemma_queue_front(queue);
    lemma_enqueue(rest, node);
    if ordered(queue) {
        assert forall|i: int, j: int| 0 <= i <= j < rest.len() implies (
        #[trigger] rest[i]).frequency() <= (#[trigger] rest[j]).frequency() by {
            assert(rest[i] == queue[i + 2] && rest[j] == queue[j + 2]);
        }
        lemma_enqueue_ordered(rest, node);
    }
    assert(queue[0].consistent() && queue[1].consistent());
    assert(node.consistent());
    assert forall|i: int| 0 <= i < next.len() implies (#[trigger] next[i]).consistent() by {
        let r = rank(rest, node.frequency());
        if i < r {
            assert(next[i] == queue[i + 2]);
        } else if i > r {
            assert(next[i] == queue[i + 1]);
        }
    }
    assert(node.leaves() == queue[0].leaves() + queue[1].leaves());
    vstd::seq_lib::lemma_multiset_commutative(node.leaves(), queue_leaves(rest));
    assert(queue_leaves(next).to_multiset() =~= queue_leaves(queue).to_multiset());
}

/// What merging does to a queue of consistent trees: the tree that comes out
/// is consistent, weighs as much as the queue, and has the leaves of the
/// queue. It is an internal vertex unless the queue held a single tree.
pub proof fn lemma_merge_queue(queue: Seq<Node>)
    requires
        queue.len() >= 1,
        queue_weight(queue) <= u64::MAX,
        all_consistent(queue),
    ensures
        merge_queue(queue).consistent(),
        merge_queue(queue).frequency() == queue_weight(queue),
        merge_queue(queue).leaves().to_multiset() == queue_leaves(queue).to_multiset(),
        queue.len() == 1 ==> merge_queue(queue) == queue[0],
        queue.len() >= 2 ==> merge_queue(queue) is Internal,
    decreases queue.len(),
{
    if queue.len() == 1 {
        assert(queue =~= seq![queue[0]]);
        lemma_queue_single(queue[0]);
    } else {
        let next = enqueue(queue.skip(2), merged(queue[0], queue[1]));
        lemma_merge_step(queue);
        lemma_merge_queue(next);
    }
}

/// The tree of a table that is not empty: it is consistent, its root holds
/// the sum of all frequencies, and its leaves are the entries of the table,
/// each entry once. It is a single leaf exactly if the table has one entry.
pub proof fn lemma_huffman_tree(table: Seq<(char, u64)>)
    requires
        table.len() >= 1,
        total_frequency(table) <= u64::MAX,
    ensures
        huffman_tree(table).consistent(),
        huffman_tree(table).frequency() == total_frequency(table),
        huffman_tree(table).leaves().to_multiset() == table.to_multiset(),
        huffman_tree(table) is Leaf <==> table.len() == 1,
        table.len() == 1 ==> huffman_tree(table) == leaf_for(table[0]),
{
    let queue = leaf_queue(table);
    lemma_leaf_queue(table);
    assert forall|i: int| 0 <= i < queue.len() implies (#[trigger] queue[i]).consistent() by {
        assert(queue[i] is Leaf);
    }
    lemma_merge_queue(queue);
    if table.len() == 1 {
        assert(table.drop_last() =~= Seq::empty());
        let leaf = leaf_for(table[0]);
        assert(table.last() == table[0]);
        assert(queue == enqueue(leaf_queue(table.drop_last()), leaf));
        lemma_enqueue(leaf_queue(table.drop_last()), leaf);
        assert(queue[0] == leaf);
    }
}

/// The tree of a table in which no symbol has two entries holds every symbol
/// of the table in exactly one leaf, and no other symbol.
pub proof fn lemma_one_leaf_per_symbol(table: Seq<(char, u64)>)
    requires
        table.len() >= 1,
        total_frequency(table) <= u64::MAX,
        distinct_entries(table),
    ensures
        distinct_entries(huffman_tree(table).leaves()),
        huffman_tree(table).leaves().len() == table.len(),
        forall|c: char| has_entry(huffman_tree(table).leaves(), c) <==> has_entry(table, c),
{
    broadcast use vstd::multiset::group_multiset_axioms;

    let leaves = huffman_tree(table).leaves();
    lemma_huffman_tree(table);
    assert(table.no_duplicates());
    table.lemma_multiset_has_no_duplicates();
    leaves.lemma_multiset_has_no_duplicates_conv();
    vstd::seq_lib::to_multiset_len(table);
    vstd::seq_lib::to_multiset_len(leaves);
    assert forall|i: int, j: int| 0 <= i < j < leaves.len() implies (#[trigger] leaves[i]).0 != (
    #[trigger] leaves[j]).0 by {
        assert(leaves.contains(leaves[i]) && leaves.contains(leaves[j]));
        vstd::seq_lib::to_multiset_contains(leaves, leaves[i]);
        vstd::seq_lib::to_multiset_contains(leaves, leaves[j]);
        vstd::seq_lib::to_multiset_contains(table, leaves[i]);
        vstd::seq_lib::to_multiset_contains(table, leaves[j]);
        let a = choose|a: int| 0 <= a < table.len() && table[a] == leaves[i];
        let b = choose|b: int| 0 <= b < table.len() && table[b] == leaves[j];
        if leaves[i].0 == leaves[j].0 {
            assert(a == b);
        }
    }
    assert forall|c: char| has_entry(leaves, c) <==> has_entry(table, c) by {
        if has_entry(leaves, c) {
            let i = choose|i: int| 0 <= i < leaves.len() && (#[trigger] leaves[i]).0 == c;
            assert(leaves.contains(leaves[i]));
            vstd::seq_lib::to_multiset_contains(leaves, leaves[i]);
            vstd::seq_lib::to_multiset_contains(table, leaves[i]);
            let a = choose|a: int| 0 <= a < table.len() && table[a] == leaves[i];
            assert(table[a].0 == c);
        }
        if has_entry(table, c) {
            let a = choose|a: int| 0 <= a < table.len() && (#[trigger] table[a]).0 == c;
            assert(table.contains(table[a]));
            vstd::seq_lib::to_multiset_contains(table, table[a]);
            vstd::seq_lib::to_multiset_contains(leaves, table[a]);
            let i = choose|i: int| 0 <= i < leaves.len() && leaves[i] == table[a];
            assert(leaves[i].0 == c);
        }
    }
}

/// The sum of two tables, one behind the other.
pub proof fn lemma_total_frequency_concat(a: Seq<(char, u64)>, b: Seq<(char, u64)>)
    ensures
        total_frequency(a + b) == total_frequency(a) + total_frequency(b),
    decreases b.len(),
{
    if b.len() == 0 {
        assert(a + b =~= a);
    } else {
        lemma_total_frequency_concat(a, b.drop_last());
        assert((a + b).drop_last() =~= a + b.drop_last());
    }
}

/// In a consistent tree the frequencies of the leaves add up to the frequency
/// at the root.
pub proof fn lemma_consistent_total(node: Node)
    requires
        node.consistent(),
    ensures
        total_frequency(node.leaves()) == node.frequency(),
    decreases node,
{
    match node {
        Node::Leaf { character, frequency } => {
            assert(node.leaves().drop_last() =~= Seq::empty());
            assert(total_frequency(node.leaves().drop_last()) == 0);
        },
        Node::Internal { left, right, .. } => {
            lemma_consistent_total(*left);
            lemma_consistent_total(*right);
            lemma_total_frequency_concat(left.leaves(), right.leaves());
        },
    }
}

} // verus!
