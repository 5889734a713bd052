use crate::builder::{
    all_consistent, enqueue, huffman_tree, leaf_for, leaf_queue, lemma_consistent_total,
    lemma_enqueue, lemma_huffman_tree, lemma_leaf_queue, lemma_merge_step,
    lemma_one_leaf_per_symbol, merge_queue, merged, queue_weight, rank,
};
use crate::codes::{code_entries, code_of, code_table, lemma_code_entries, lemma_code_of};
use crate::container::{bits_of, lemma_tree_covers_text, tree_of};
use crate::encoder::{covers, encoded_bits, lemma_encoded_bits_push, lemma_encoded_bits_some};
use crate::frequency::{
    distinct_entries, frequency_table, has_entry, lemma_frequency_table_properties,
    lemma_frequency_table_total, lemma_occurrences, occurrences, total_frequency,
};
use crate::tree::Node;
use vstd::prelude::*;

verus! {

/// The length of the longest way from this vertex down to a leaf.
pub open spec fn height(node: Node) -> nat
    decreases node,
{
    match node {
        Node::Leaf { .. } => 0,
        Node::Internal { left, right, .. } => 1 + if height(*left) >= height(*right) {
            height(*left)
        } else {
            height(*right)
        },
    }
}

/// Every depth of `ds`, one more.
pub open spec fn deeper(ds: Seq<nat>) -> Seq<nat> {
    Seq::new(ds.len(), |i: int| (ds[i] + 1) as nat)
}

/// The depths of the leaves below this vertex, from left to right: for each
/// leaf the number of steps from this vertex down to it.
pub open spec fn depths(node: Node) -> Seq<nat>
    decreases node,
{
    match node {
        Node::Leaf { .. } => seq![0nat],
        Node::Internal { left, right, .. } => deeper(depths(*left) + depths(*right)),
    }
}

/// The frequencies of a table, in the order of its entries.
pub open spec fn frequencies(entries: Seq<(char, u64)>) -> Seq<nat> {
    Seq::new(entries.len(), |i: int| entries[i].1 as nat)
}

/// The sum of the numbers of `ws`.
pub open spec fn sum(ws: Seq<nat>) -> nat
    decreases ws.len(),
{
    if ws.len() == 0 {
        0
    } else {
        sum(ws.drop_last()) + ws.last()
    }
}

/// The sum of the weights `ws`, each times the depth that `ds` has at its
/// place.
pub open spec fn weighted_sum(ws: Seq<nat>, ds: Seq<nat>) -> nat
    decreases ws.len(),
{
    if ws.len() == 0 {
        0
    } else {
        weighted_sum(ws.drop_last(), ds.drop_last()) + ws.last() * ds.last()
    }
}

/// The cost of a tree: the frequency of every leaf times its depth, summed
/// up.
pub open spec fn cost(node: Node) -> nat {
    weighted_sum(frequencies(node.leaves()), depths(node))
}

/// The sum of two sequences, one behind the other.
pub proof fn lemma_sum_concat(a: Seq<nat>, b: Seq<nat>)
    ensures
        sum(a + b) == sum(a) + sum(b),
    decreases b.len(),
{
    if b.len() == 0 {
        assert(a + b =~= a);
    } else {
        lemma_sum_concat(a, b.drop_last());
        assert((a + b).drop_last() =~= a + b.drop_last());
    }
}

/// The weighted sum of two sequences, one behind the other.
pub proof fn lemma_weighted_sum_concat(a: Seq<nat>, da: Seq<nat>, b: Seq<nat>, db: Seq<nat>)
    requires
        a.len() == da.len(),
        b.len() == db.len(),
    ensures
        weighted_sum(a + b, da + db) == weighted_sum(a, da) + weighted_sum(b, db),
    decreases b.len(),
{
    if b.len() == 0 {
        assert(a + b =~= a);
        assert(da + db =~= da);
    } else {
        lemma_weighted_sum_concat(a, da, b.drop_last(), db.drop_last());
        assert((a + b).drop_last() =~= a + b.drop_last());
        assert((da + db).drop_last() =~= da + db.drop_last());
    }
}

/// One step deeper costs every weight once more.
pub proof fn lemma_weighted_sum_deeper(ws: Seq<nat>, ds: Seq<nat>)
    requires
        ws.len() == ds.len(),
    ensures
        weighted_sum(ws, deeper(ds)) == weighted_sum(ws, ds) + sum(ws),
    decreases ws.len(),
{
    if ws.len() > 0 {
        lemma_weighted_sum_deeper(ws.drop_last(), ds.drop_last());
        assert(deeper(ds).drop_last() =~= deeper(ds.drop_last()));
        let w = ws.last();
        let d = ds.last();
        assert(deeper(ds).last() == d + 1);
        assert(w * (d + 1) == w * d + w) by (nonlinear_arith);
    }
}

/// Another weight at one place changes the weighted sum by the difference of
/// the two weights, times the depth at that place.
pub proof fn lemma_weighted_sum_update(ws: Seq<nat>, ds: Seq<nat>, k: int, v: nat)
    requires
        ws.len() == ds.len(),
        0 <= k < ws.len(),
    ensures
        weighted_sum(ws.update(k, v), ds) == weighted_sum(ws, ds) - ws[k] * ds[k] + v * ds[k],
    decreases ws.len(),
{
    let changed = ws.update(k, v);
    if k == ws.len() - 1 {
        assert(changed.drop_last() =~= ws.drop_last());
    } else {
        lemma_weighted_sum_update(ws.drop_last(), ds.drop_last(), k, v);
        assert(changed.drop_last() =~= ws.drop_last().update(k, v));
    }
}

/// The frequencies of a table add up to its total.
pub proof fn lemma_sum_frequencies(entries: Seq<(char, u64)>)
    ensures
        sum(frequencies(entries)) == total_frequency(entries),
    decreases entries.len(),
{
    if entries.len() > 0 {
        lemma_sum_frequencies(entries.drop_last());
        assert(frequencies(entries).drop_last() =~= frequencies(entries.drop_last()));
    }
}

/// A tree has a depth for each leaf, and no leaf lies deeper than the tree
/// is high.
pub proof fn lemma_depths(node: Node)
    ensures
        depths(node).len() == node.leaves().len(),
        depths(node).len() >= 1,
        node is Internal ==> depths(node).len() >= 2,
        forall|k: int| 0 <= k < depths(node).len() ==> #[trigger] depths(node)[k] <= height(node),
    decreases node,
{
    match node {
        Node::Leaf { .. } => {},
        Node::Internal { left, right, .. } => {
            lemma_depths(*left);
            lemma_depths(*right);
        },
    }
}

/// The place of the left one of two leaves that have the same parent and lie
/// as deep as any leaf of the tree.
pub open spec fn deepest_pair(node: Node) -> int
    decreases node,
{
    match node {
        Node::Leaf { .. } => 0,
        Node::Internal { left, right, .. } => {
            if height(*left) >= height(*right) {
                if *left is Leaf {
                    0
                } else {
                    deepest_pair(*left)
                }
            } else {
                depths(*left).len() + deepest_pair(*right)
            }
        },
    }
}

/// The tree with the parent of its deepest pair of leaves made a leaf.
pub open spec fn collapsed(node: Node) -> Node
    decreases node,
{
    match node {
        Node::Leaf { .. } => node,
        Node::Internal { frequency, left, right } => {
            if height(*left) >= height(*right) {
                match *left {
                    Node::Leaf { character, .. } => Node::Leaf { character, frequency },
                    Node::Internal { .. } => Node::Internal {
                        frequency,
                        left: Box::new(collapsed(*left)),
                        right,
                    },
                }
            } else {
                Node::Internal { frequency, left, right: Box::new(collapsed(*right)) }
            }
        },
    }
}

/// The depths `ds` with the two at `i` and `i + 1` replaced by one that is
/// one less.
pub open spec fn depths_merged(ds: Seq<nat>, i: int) -> Seq<nat> {
    ds.subrange(0, i) + seq![(ds[i] - 1) as nat] + ds.subrange(i + 2, ds.len() as int)
}

/// What collapsing does to the depths: the two leaves of the deepest pair,
/// which lie as deep as the tree is high, give way to one leaf that lies one
/// step higher, and every other leaf keeps its depth.
pub proof fn lemma_collapsed(node: Node)
    requires
        node is Internal,
    ensures
        height(node) >= 1,
        0 <= deepest_pair(node) < depths(node).len() - 1,
        depths(node)[deepest_pair(node)] == height(node),
        depths(node)[deepest_pair(node) + 1] == height(node),
        depths(collapsed(node)) == depths_merged(depths(node), deepest_pair(node)),
    decreases node,
{
    match node {
        Node::Leaf { .. } => {},
        Node::Internal { left, right, .. } => {
            let dl = depths(*left);
            let dr = depths(*right);
            let ds = depths(node);
            let i = deepest_pair(node);
            lemma_depths(*left);
            lemma_depths(*right);
            assert(ds == deeper(dl + dr));
            if height(*left) >= height(*right) {
                match *left {
                    Node::Leaf { .. } => {
                        assert(*right is Leaf) by {
                            if *right is Internal {
                                assert(height(*right) >= 1);
                            }
                        }
                        assert(depths(collapsed(node)) =~= depths_merged(ds, i));
                    },
                    Node::Internal { .. } => {
                        lemma_collapsed(*left);
                        let cl = depths(collapsed(*left));
                        assert(depths(collapsed(node)) == deeper(cl + dr));
                        assert(deeper(cl + dr) =~= depths_merged(ds, i));
                    },
                }
            } else {
                assert(*right is Internal);
                lemma_collapsed(*right);
                let j = deepest_pair(*right);
                let cr = depths(collapsed(*right));
                assert(depths(collapsed(node)) == deeper(dl + cr));
                assert(deeper(dl + cr) =~= depths_merged(ds, i));
            }
        },
    }
}

/// The numbers are in ascending order.
pub open spec fn ascending(ws: Seq<nat>) -> bool {
    forall|i: int, j: int| 0 <= i <= j < ws.len() ==> #[trigger] ws[i] <= #[trigger] ws[j]
}

/// How many numbers at the front of `ws` are at most `w`.
pub open spec fn place_of(ws: Seq<nat>, w: nat) -> int
    decreases ws.len(),
{
    if ws.len() == 0 || ws.first() > w {
        0
    } else {
        1 + place_of(ws.drop_first(), w)
    }
}

/// The numbers without the first two, and with the sum of the first two put
/// behind the numbers that are not greater.
pub open spec fn with_merged(ws: Seq<nat>) -> Seq<nat> {
    ws.skip(2).insert(place_of(ws.skip(2), ws[0] + ws[1]), ws[0] + ws[1])
}

/// What it costs to merge weights in ascending order down to one: in each
/// round the sum of the two lowest, which every leaf below them pays with one
/// more step of depth.
pub open spec fn merge_cost(ws: Seq<nat>) -> nat
    decreases ws.len(),
    via merge_cost_terminates
{
    if ws.len() < 2 {
        0
    } else {
        ws[0] + ws[1] + merge_cost(with_merged(ws))
    }
}

/// Each round of merging leaves one number less.
#[via_fn]
proof fn merge_cost_terminates(ws: Seq<nat>) {
    if ws.len() >= 2 {
        lemma_place_of(ws.skip(2), ws[0] + ws[1]);
    }
}

/// Where `place_of` points: everything before it is at most the given number,
/// and the number at it, if there is one, is greater.
pub proof fn lemma_place_of(ws: Seq<nat>, w: nat)
    ensures
        0 <= place_of(ws, w) <= ws.len(),
        forall|i: int| 0 <= i < place_of(ws, w) ==> #[trigger] ws[i] <= w,
        place_of(ws, w) < ws.len() ==> ws[place_of(ws, w)] > w,
    decreases ws.len(),
{
    if ws.len() == 0 || ws.first() > w {
    } else {
        let tail = ws.drop_first();
        lemma_place_of(tail, w);
        assert forall|i: int| 0 <= i < place_of(ws, w) implies #[trigger] ws[i] <= w by {
            if i > 0 {
                assert(ws[i] == tail[i - 1]);
            }
        }
    }
}

/// Merging the two lowest of ascending numbers leaves ascending numbers, one
/// fewer: the two are gone and their sum has come.
pub proof fn lemma_with_merged(ws: Seq<nat>)
    requires
        ws.len() >= 2,
        ascending(ws),
    ensures
        with_merged(ws).len() == ws.len() - 1,
        ascending(with_merged(ws)),
        with_merged(ws).to_multiset() == ws.to_multiset().remove(ws[0]).remove(ws[1]).insert(
            ws[0] + ws[1],
        ),
{
    let rest = ws.skip(2);
    let w = ws[0] + ws[1];
    let r = place_of(rest, w);
    let next = with_merged(ws);
    lemma_place_of(rest, w);
    assert forall|i: int, j: int| 0 <= i <= j < next.len() implies #[trigger] next[i]
        <= #[trigger] next[j] by {
        if i < r {
            assert(next[i] == rest[i]);
            assert(rest[i] == ws[i + 2]);
        } else if i > r {
            assert(next[i] == rest[i - 1]);
            assert(rest[i - 1] == ws[i + 1]);
        }
        if j < r {
            assert(next[j] == rest[j]);
            assert(rest[j] == ws[j + 2]);
        } else if j > r {
            assert(next[j] == rest[j - 1]);
            assert(rest[j - 1] == ws[j + 1]);
            if r < rest.len() {
                assert(rest[r] == ws[r + 2]);
            }
        }
    }
    assert(ws.remove(0).remove(0) =~= rest);
    vstd::seq_lib::to_multiset_remove(ws, 0);
    vstd::seq_lib::to_multiset_remove(ws.remove(0), 0);
    vstd::seq_lib::to_multiset_insert(rest, r, w);
}

/// The weights with those at `i` and `p` changed about.
pub open spec fn swapped(ws: Seq<nat>, i: int, p: int) -> Seq<nat> {
    ws.update(i, ws[p]).update(p, ws[i])
}

/// Changing a weight at a deep place for a lower weight at a higher place
/// does not raise the weighted sum, and lowers it where weights and depths
/// both differ.
pub proof fn lemma_swapped(ws: Seq<nat>, ds: Seq<nat>, i: int, p: int)
    requires
        ws.len() == ds.len(),
        0 <= i < ws.len(),
        0 <= p < ws.len(),
        ws[p] <= ws[i],
        ds[p] <= ds[i],
    ensures
        swapped(ws, i, p).len() == ws.len(),
        swapped(ws, i, p).to_multiset() == ws.to_multiset(),
        weighted_sum(swapped(ws, i, p), ds) <= weighted_sum(ws, ds),
        ws[p] < ws[i] && ds[p] < ds[i] ==> weighted_sum(swapped(ws, i, p), ds) < weighted_sum(
            ws,
            ds,
        ),
{
    broadcast use vstd::multiset::group_multiset_axioms;

    if i == p {
        assert(swapped(ws, i, p) =~= ws);
    } else {
        let first = ws.update(i, ws[p]);
        lemma_weighted_sum_update(ws, ds, i, ws[p]);
        lemma_weighted_sum_update(first, ds, p, ws[i]);
        let x = ws[i] as int;
        let m = ws[p] as int;
        let deep = ds[i] as int;
        let high = ds[p] as int;
        assert(m * deep + x * high <= x * deep + m * high) by (nonlinear_arith)
            requires
                m <= x,
                high <= deep,
        ;
        assert(m < x && high < deep ==> m * deep + x * high < x * deep + m * high)
            by (nonlinear_arith);
        vstd::seq_lib::to_multiset_update(ws, i, ws[p]);
        vstd::seq_lib::to_multiset_update(first, p, ws[i]);
        assert(ws.contains(ws[i]) && ws.contains(ws[p]));
        vstd::seq_lib::to_multiset_contains(ws, ws[i]);
        vstd::seq_lib::to_multiset_contains(ws, ws[p]);
        assert(swapped(ws, i, p).to_multiset() =~= ws.to_multiset());
    }
}

/// Of two sequences that hold the same numbers, one of them ascending: the
/// other holds the first number of the ascending one, and nothing lower.
pub proof fn lemma_least(ws: Seq<nat>, sw: Seq<nat>) -> (p: int)
    requires
        ws.to_multiset() == sw.to_multiset(),
        ascending(sw),
        sw.len() >= 1,
    ensures
        ws.len() == sw.len(),
        0 <= p < ws.len(),
        ws[p] == sw[0],
        forall|k: int| 0 <= k < ws.len() ==> #[trigger] ws[k] >= sw[0],
{
    vstd::seq_lib::to_multiset_len(ws);
    vstd::seq_lib::to_multiset_len(sw);
    assert(sw.contains(sw[0]));
    vstd::seq_lib::to_multiset_contains(sw, sw[0]);
    vstd::seq_lib::to_multiset_contains(ws, sw[0]);
    let p = choose|p: int| 0 <= p < ws.len() && ws[p] == sw[0];
    assert forall|k: int| 0 <= k < ws.len() implies #[trigger] ws[k] >= sw[0] by {
        assert(ws.contains(ws[k]));
        vstd::seq_lib::to_multiset_contains(ws, ws[k]);
        vstd::seq_lib::to_multiset_contains(sw, ws[k]);
        let j = choose|j: int| 0 <= j < sw.len() && sw[j] == ws[k];
        assert(sw[0] <= sw[j]);
    }
    p
}

/// The weights `ws` with the two at `i` and `i + 1` replaced by their sum.
pub open spec fn weights_merged(ws: Seq<nat>, i: int) -> Seq<nat> {
    ws.subrange(0, i) + seq![ws[i] + ws[i + 1]] + ws.subrange(i + 2, ws.len() as int)
}

/// Two leaves of one parent made one leaf in the place of the parent: the
/// weighted sum falls by the two weights.
pub proof fn lemma_weighted_sum_merged(ws: Seq<nat>, ds: Seq<nat>, i: int)
    requires
        ws.len() == ds.len(),
        0 <= i < ws.len() - 1,
        ds[i] == ds[i + 1],
        ds[i] >= 1,
    ensures
        weighted_sum(ws, ds) == weighted_sum(weights_merged(ws, i), depths_merged(ds, i)) + ws[i]
            + ws[i + 1],
{
    let n = ws.len() as int;
    let a = ws.subrange(0, i);
    let da = ds.subrange(0, i);
    let c = ws.subrange(i + 2, n);
    let dc = ds.subrange(i + 2, n);
    let x = ws[i];
    let y = ws[i + 1];
    let d = ds[i];
    let pair = seq![x, y];
    let dpair = seq![d, d];
    let one = seq![x + y];
    let done = seq![(d - 1) as nat];
    assert(ws =~= (a + pair) + c);
    assert(ds =~= (da + dpair) + dc);
    lemma_weighted_sum_concat(a + pair, da + dpair, c, dc);
    lemma_weighted_sum_concat(a, da, pair, dpair);
    lemma_weighted_sum_concat(a + one, da + done, c, dc);
    lemma_weighted_sum_concat(a, da, one, done);
    assert(weighted_sum(pair, dpair) == x * d + y * d) by {
        assert(pair.drop_last() =~= seq![x]);
        assert(dpair.drop_last() =~= seq![d]);
        assert(seq![x].drop_last() =~= Seq::<nat>::empty());
        assert(weighted_sum(seq![x].drop_last(), seq![d].drop_last()) == 0);
        assert(weighted_sum(seq![x], seq![d]) == x * d);
    }
    assert(weighted_sum(one, done) == (x + y) * (d - 1)) by {
        assert(one.drop_last() =~= Seq::<nat>::empty());
        assert(weighted_sum(one.drop_last(), done.drop_last()) == 0);
    }
    assert((x + y) * (d - 1) + x + y == x * d + y * d) by (nonlinear_arith);
}

/// No tree is cheaper than merging by lowest weights: whatever the shape of
/// a tree and whatever the order in which weights stand at its leaves, the
/// weighted sum of the depths is at least the cost of merging those weights
/// in ascending order.
pub proof fn lemma_cost_at_least_merge_cost(shape: Node, ws: Seq<nat>, sw: Seq<nat>)
    requires
        ws.len() == depths(shape).len(),
        ws.to_multiset() == sw.to_multiset(),
        ascending(sw),
    ensures
        weighted_sum(ws, depths(shape)) >= merge_cost(sw),
    decreases ws.len(),
{
    broadcast use vstd::multiset::group_multiset_axioms;

    lemma_depths(shape);
    vstd::seq_lib::to_multiset_len(ws);
    vstd::seq_lib::to_multiset_len(sw);
    if ws.len() >= 2 {
        let n = ws.len() as int;
        let ds = depths(shape);
        let i = deepest_pair(shape);
        lemma_collapsed(shape);
        let p = lemma_least(ws, sw);
        lemma_swapped(ws, ds, i, p);
        let first = swapped(ws, i, p);
        assert(first[i] == sw[0]);
        let tail = sw.skip(1);
        assert(sw.remove(0) =~= tail);
        vstd::seq_lib::to_multiset_remove(first, i);
        vstd::seq_lib::to_multiset_remove(sw, 0);
        let rest = first.remove(i);
        assert forall|a: int, b: int| 0 <= a <= b < tail.len() implies #[trigger] tail[a]
            <= #[trigger] tail[b] by {
            assert(tail[a] == sw[a + 1] && tail[b] == sw[b + 1]);
        }
        let q0 = lemma_least(rest, tail);
        let q = if q0 < i {
            q0
        } else {
            q0 + 1
        };
        assert(first[q] == rest[q0]);
        assert(first[i + 1] == rest[i]);
        assert(tail[0] == sw[1]);
        lemma_swapped(first, ds, i + 1, q);
        let second = swapped(first, i + 1, q);
        assert(second[i] == sw[0]);
        assert(second[i + 1] == sw[1]);
        lemma_weighted_sum_merged(second, ds, i);
        let third = weights_merged(second, i);
        lemma_with_merged(sw);
        assert(second.remove(i).remove(i).insert(i, sw[0] + sw[1]) =~= third);
        vstd::seq_lib::to_multiset_remove(second, i);
        vstd::seq_lib::to_multiset_remove(second.remove(i), i);
        vstd::seq_lib::to_multiset_insert(second.remove(i).remove(i), i, sw[0] + sw[1]);
        assert(second.remove(i)[i] == sw[1]);
        lemma_cost_at_least_merge_cost(collapsed(shape), third, with_merged(sw));
    }
}

/// The frequencies at the roots of the queue, in the order of the queue.
pub open spec fn root_weights(queue: Seq<Node>) -> Seq<nat> {
    Seq::new(queue.len(), |i: int| queue[i].frequency() as nat)
}

/// The costs of the trees of the queue, summed up.
pub open spec fn queue_cost(queue: Seq<Node>) -> nat
    decreases queue.len(),
{
    if queue.len() == 0 {
        0
    } else {
        queue_cost(queue.drop_last()) + cost(queue.last())
    }
}

/// The rank of a frequency in the queue is its place among the frequencies at
/// the roots.
pub proof fn lemma_rank_is_place(queue: Seq<Node>, frequency: u64)
    ensures
        rank(queue, frequency) == place_of(root_weights(queue), frequency as nat),
    decreases queue.len(),
{
    if queue.len() > 0 {
        lemma_rank_is_place(queue.drop_first(), frequency);
        assert(root_weights(queue).drop_first() =~= root_weights(queue.drop_first()));
    }
}

/// The frequencies at the roots after a vertex was enqueued.
pub proof fn lemma_root_weights_enqueue(queue: Seq<Node>, node: Node)
    ensures
        root_weights(enqueue(queue, node)) == root_weights(queue).insert(
            place_of(root_weights(queue), node.frequency() as nat),
            node.frequency() as nat,
        ),
{
    lemma_enqueue(queue, node);
    lemma_rank_is_place(queue, node.frequency());
    assert(root_weights(enqueue(queue, node)) =~= root_weights(queue).insert(
        place_of(root_weights(queue), node.frequency() as nat),
        node.frequency() as nat,
    ));
}

/// The cost of two queues, one behind the other.
proof fn lemma_queue_cost_concat(a: Seq<Node>, b: Seq<Node>)
    ensures
        queue_cost(a + b) == queue_cost(a) + queue_cost(b),
    decreases b.len(),
{
    if b.len() == 0 {
        assert(a + b =~= a);
    } else {
        lemma_queue_cost_concat(a, b.drop_last());
        assert((a + b).drop_last() =~= a + b.drop_last());
    }
}

/// The cost of a queue of one tree.
proof fn lemma_queue_cost_single(node: Node)
    ensures
        queue_cost(seq![node]) == cost(node),
{
    let queue = seq![node];
    assert(queue.drop_last() =~= Seq::<Node>::empty());
    assert(queue_cost(queue.drop_last()) == 0);
    assert(queue.last() == node);
}

/// A tree put anywhere into the queue adds its cost to the cost of the queue.
proof fn lemma_queue_cost_insert(queue: Seq<Node>, i: int, node: Node)
    requires
        0 <= i <= queue.len(),
    ensures
        queue_cost(queue.insert(i, node)) == queue_cost(queue) + cost(node),
{
    let a = queue.subrange(0, i);
    let b = queue.subrange(i, queue.len() as int);
    assert(queue =~= a + b);
    assert(queue.insert(i, node) =~= (a + seq![node]) + b);
    lemma_queue_cost_concat(a, b);
    lemma_queue_cost_concat(a, seq![node]);
    lemma_queue_cost_concat(a + seq![node], b);
    lemma_queue_cost_single(node);
}

/// The cost of a queue, told by its first two trees and the rest.
proof fn lemma_queue_cost_front(queue: Seq<Node>)
    requires
        queue.len() >= 2,
    ensures
        queue_cost(queue) == cost(queue[0]) + cost(queue[1]) + queue_cost(queue.skip(2)),
{
    let first = seq![queue[0]];
    let second = seq![queue[1]];
    assert(queue =~= (first + second) + queue.skip(2));
    lemma_queue_cost_concat(first + second, queue.skip(2));
    lemma_queue_cost_concat(first, second);
    lemma_queue_cost_single(queue[0]);
    lemma_queue_cost_single(queue[1]);
}

/// A leaf costs nothing, and a tree costs what its two subtrees cost and, for
/// the step down to them, the frequencies of all its leaves.
pub proof fn lemma_cost_of_vertex(node: Node)
    requires
        node.consistent(),
    ensures
        node is Leaf ==> cost(node) == 0,
        node matches Node::Internal { left, right, .. } ==> cost(node) == cost(*left) + cost(
            *right,
        ) + left.frequency() + right.frequency(),
{
    match node {
        Node::Leaf { frequency, .. } => {
            let ws = frequencies(node.leaves());
            assert(ws.drop_last() =~= Seq::<nat>::empty());
            assert(weighted_sum(ws.drop_last(), depths(node).drop_last()) == 0);
            assert(depths(node).last() == 0);
            assert(ws.last() * 0 == 0) by (nonlinear_arith);
        },
        Node::Internal { left, right, .. } => {
            let wl = frequencies(left.leaves());
            let wr = frequencies(right.leaves());
            let dl = depths(*left);
            let dr = depths(*right);
            lemma_depths(*left);
            lemma_depths(*right);
            assert(frequencies(node.leaves()) =~= wl + wr);
            lemma_weighted_sum_deeper(wl + wr, dl + dr);
            lemma_weighted_sum_concat(wl, dl, wr, dr);
            lemma_sum_concat(wl, wr);
            lemma_sum_frequencies(left.leaves());
            lemma_sum_frequencies(right.leaves());
            lemma_consistent_total(*left);
            lemma_consistent_total(*right);
        },
    }
}

/// What the tree of a queue costs: what the trees of the queue cost already,
/// and what it costs to merge the frequencies at their roots.
pub proof fn lemma_merge_queue_cost(queue: Seq<Node>)
    requires
        queue.len() >= 1,
        queue_weight(queue) <= u64::MAX,
        all_consistent(queue),
    ensures
        cost(merge_queue(queue)) == queue_cost(queue) + merge_cost(root_weights(queue)),
    decreases queue.len(),
{
    if queue.len() == 1 {
        assert(queue =~= seq![queue[0]]);
        lemma_queue_cost_single(queue[0]);
    } else {
        let node = merged(queue[0], queue[1]);
        let rest = queue.skip(2);
        let next = enqueue(rest, node);
        lemma_merge_step(queue);
        lemma_merge_queue_cost(next);
        lemma_enqueue(rest, node);
        lemma_queue_cost_insert(rest, rank(rest, node.frequency()), node);
        lemma_queue_cost_front(queue);
        lemma_cost_of_vertex(node);
        lemma_root_weights_enqueue(rest, node);
        assert(root_weights(rest) =~= root_weights(queue).skip(2));
        assert(root_weights(next) == with_merged(root_weights(queue)));
    }
}

/// A queue of leaves costs nothing.
pub proof fn lemma_queue_of_leaves_cost(queue: Seq<Node>)
    requires
        forall|i: int| 0 <= i < queue.len() ==> (#[trigger] queue[i]) is Leaf,
    ensures
        queue_cost(queue) == 0,
    decreases queue.len(),
{
    if queue.len() > 0 {
        let front = queue.drop_last();
        assert forall|i: int| 0 <= i < front.len() implies (#[trigger] front[i]) is Leaf by {
            assert(front[i] == queue[i]);
        }
        lemma_queue_of_leaves_cost(front);
        assert(queue.last() == queue[queue.len() - 1]);
        lemma_cost_of_vertex(queue.last());
    }
}

/// The queue of leaves of a table holds the frequencies of the table, in
/// ascending order.
pub proof fn lemma_leaf_queue_weights(table: Seq<(char, u64)>)
    ensures
        ascending(root_weights(leaf_queue(table))),
        root_weights(leaf_queue(table)).to_multiset() == frequencies(table).to_multiset(),
    decreases table.len(),
{
    let queue = leaf_queue(table);
    lemma_leaf_queue(table);
    assert forall|i: int, j: int| 0 <= i <= j < queue.len() implies #[trigger] root_weights(
        queue,
    )[i] <= #[trigger] root_weights(queue)[j] by {
        assert(queue[i].frequency() <= queue[j].frequency());
    }
    if table.len() == 0 {
        assert(root_weights(queue) =~= frequencies(table));
    } else {
        let front = table.drop_last();
        let leaf = leaf_for(table.last());
        let before = leaf_queue(front);
        lemma_leaf_queue_weights(front);
        assert(queue == enqueue(before, leaf));
        lemma_root_weights_enqueue(before, leaf);
        lemma_place_of(root_weights(before), leaf.frequency() as nat);
        vstd::seq_lib::to_multiset_insert(
            root_weights(before),
            place_of(root_weights(before), leaf.frequency() as nat),
            leaf.frequency() as nat,
        );
        assert(frequencies(table) =~= frequencies(front).push(table.last().1 as nat));
        vstd::seq_lib::to_multiset_build(frequencies(front), table.last().1 as nat);
    }
}

/// Tables that hold the same entries hold the same frequencies.
pub proof fn lemma_same_entries_same_frequencies(a: Seq<(char, u64)>, b: Seq<(char, u64)>)
    requires
        a.to_multiset() == b.to_multiset(),
    ensures
        frequencies(a).to_multiset() == frequencies(b).to_multiset(),
    decreases a.len(),
{
    broadcast use vstd::multiset::group_multiset_axioms;

    vstd::seq_lib::to_multiset_len(a);
    vstd::seq_lib::to_multiset_len(b);
    if a.len() == 0 {
        assert(frequencies(a) =~= frequencies(b));
    } else {
        let x = a.last();
        let front = a.drop_last();
        assert(a.contains(x));
        vstd::seq_lib::to_multiset_contains(a, x);
        vstd::seq_lib::to_multiset_contains(b, x);
        let k = choose|k: int| 0 <= k < b.len() && b[k] == x;
        let others = b.remove(k);
        assert(a.remove(a.len() - 1) =~= front);
        vstd::seq_lib::to_multiset_remove(a, a.len() - 1);
        vstd::seq_lib::to_multiset_remove(b, k);
        lemma_same_entries_same_frequencies(front, others);
        assert(frequencies(a) =~= frequencies(front).push(x.1 as nat));
        assert(frequencies(b) =~= frequencies(others).insert(k, x.1 as nat));
        vstd::seq_lib::to_multiset_build(frequencies(front), x.1 as nat);
        vstd::seq_lib::to_multiset_insert(frequencies(others), k, x.1 as nat);
    }
}

/// No tree whose leaves hold the frequencies of `table`, in whatever shape
/// and order, costs less than `tree`.
pub open spec fn is_cheapest(tree: Node, table: Seq<(char, u64)>) -> bool {
    forall|other: Node|
        frequencies(other.leaves()).to_multiset() == frequencies(table).to_multiset() ==> cost(
            tree,
        ) <= #[trigger] cost(other)
}

/// No leaf of `tree` lies deeper than a leaf of lower frequency.
pub open spec fn frequent_leaves_lie_high(tree: Node) -> bool {
    forall|i: int, j: int|
        0 <= i < tree.leaves().len() && 0 <= j < tree.leaves().len() && tree.leaves()[i].1
            > tree.leaves()[j].1 ==> #[trigger] depths(tree)[i] <= #[trigger] depths(tree)[j]
}

/// The tree of a table is a cheapest one, and in it no leaf lies deeper than
/// a leaf of lower frequency.
pub proof fn lemma_huffman_tree_is_cheapest(table: Seq<(char, u64)>)
    requires
        table.len() >= 1,
        total_frequency(table) <= u64::MAX,
    ensures
        is_cheapest(huffman_tree(table), table),
        frequent_leaves_lie_high(huffman_tree(table)),
{
    let tree = huffman_tree(table);
    assert forall|other: Node|
        frequencies(other.leaves()).to_multiset() == frequencies(
            table,
        ).to_multiset() implies cost(tree) <= #[trigger] cost(other) by {
        lemma_huffman_tree_is_optimal(table, other);
    }
    assert forall|i: int, j: int|
        0 <= i < tree.leaves().len() && 0 <= j < tree.leaves().len() && tree.leaves()[i].1
            > tree.leaves()[j].1 implies #[trigger] depths(tree)[i] <= #[trigger] depths(
        tree,
    )[j] by {
        lemma_more_frequent_not_deeper(table, i, j);
    }
}

/// The tree of a table costs what it costs to merge the frequencies of the
/// table in ascending order.
pub proof fn lemma_huffman_tree_cost(table: Seq<(char, u64)>)
    requires
        table.len() >= 1,
        total_frequency(table) <= u64::MAX,
    ensures
        cost(huffman_tree(table)) == merge_cost(root_weights(leaf_queue(table))),
{
    let queue = leaf_queue(table);
    lemma_leaf_queue(table);
    assert(all_consistent(queue)) by {
        assert forall|i: int| 0 <= i < queue.len() implies (#[trigger] queue[i]).consistent() by {
            assert(queue[i] is Leaf);
        }
    }
    lemma_merge_queue_cost(queue);
    lemma_queue_of_leaves_cost(queue);
}

/// The tree of a table is a cheapest one: no tree whose leaves hold the
/// frequencies of the table, in whatever shape and order, costs less.
pub proof fn lemma_huffman_tree_is_optimal(table: Seq<(char, u64)>, other: Node)
    requires
        table.len() >= 1,
        total_frequency(table) <= u64::MAX,
        frequencies(other.leaves()).to_multiset() == frequencies(table).to_multiset(),
    ensures
        cost(huffman_tree(table)) <= cost(other),
{
    lemma_huffman_tree_cost(table);
    lemma_leaf_queue_weights(table);
    lemma_depths(other);
    lemma_cost_at_least_merge_cost(
        other,
        frequencies(other.leaves()),
        root_weights(leaf_queue(table)),
    );
}

/// The code of a leaf is as long as the leaf lies deep.
pub proof fn lemma_code_length(node: Node, prefix: Seq<char>)
    ensures
        code_entries(node, prefix).len() == depths(node).len(),
        forall|i: int|
            0 <= i < depths(node).len() ==> (#[trigger] code_entries(node, prefix)[i]).1.len()
                == prefix.len() + depths(node)[i],
    decreases node,
{
    match node {
        Node::Leaf { .. } => {},
        Node::Internal { left, right, .. } => {
            lemma_code_length(*left, prefix.push('0'));
            lemma_code_length(*right, prefix.push('1'));
            let low = code_entries(*left, prefix.push('0'));
            let high = code_entries(*right, prefix.push('1'));
            assert forall|i: int| 0 <= i < depths(node).len() implies (#[trigger] code_entries(
                node,
                prefix,
            )[i]).1.len() == prefix.len() + depths(node)[i] by {
                if i < low.len() {
                    assert(code_entries(node, prefix)[i] == low[i]);
                } else {
                    assert(code_entries(node, prefix)[i] == high[i - low.len()]);
                }
            }
        },
    }
}

/// In the tree of a table a leaf of higher frequency never lies deeper than
/// one of lower frequency, so a symbol that is more frequent never has the
/// longer code.
pub proof fn lemma_more_frequent_not_deeper(table: Seq<(char, u64)>, i: int, j: int)
    requires
        table.len() >= 1,
        total_frequency(table) <= u64::MAX,
        0 <= i < huffman_tree(table).leaves().len(),
        0 <= j < huffman_tree(table).leaves().len(),
        huffman_tree(table).leaves()[i].1 > huffman_tree(table).leaves()[j].1,
    ensures
        depths(huffman_tree(table))[i] <= depths(huffman_tree(table))[j],
        code_table(huffman_tree(table))[i].1.len() <= code_table(huffman_tree(table))[j].1.len(),
{
    let tree = huffman_tree(table);
    let ws = frequencies(tree.leaves());
    let ds = depths(tree);
    let sw = root_weights(leaf_queue(table));
    lemma_depths(tree);
    lemma_code_length(tree, Seq::empty());
    if ds[i] > ds[j] {
        lemma_huffman_tree(table);
        lemma_same_entries_same_frequencies(tree.leaves(), table);
        lemma_huffman_tree_cost(table);
        lemma_leaf_queue_weights(table);
        lemma_swapped(ws, ds, i, j);
        lemma_cost_at_least_merge_cost(tree, swapped(ws, i, j), sw);
    }
}

/// How often each symbol of a code table occurs in `text`, in the order of
/// the table.
pub open spec fn counts_in(text: Seq<char>, codes: Seq<(char, Seq<char>)>) -> Seq<nat> {
    Seq::new(codes.len(), |i: int| occurrences(text, codes[i].0))
}

/// The lengths of the codes of a code table, in the order of the table.
pub open spec fn code_lengths(codes: Seq<(char, Seq<char>)>) -> Seq<nat> {
    Seq::new(codes.len(), |i: int| codes[i].1.len())
}

/// No two entries of the code table are for the same symbol.
pub open spec fn distinct_codes(codes: Seq<(char, Seq<char>)>) -> bool {
    forall|i: int, j: int|
        0 <= i < j < codes.len() ==> (#[trigger] codes[i]).0 != (#[trigger] codes[j]).0
}

/// Weights that are all zero weigh nothing.
pub proof fn lemma_weighted_sum_of_zeros(ws: Seq<nat>, ds: Seq<nat>)
    requires
        forall|i: int| 0 <= i < ws.len() ==> #[trigger] ws[i] == 0,
    ensures
        weighted_sum(ws, ds) == 0,
    decreases ws.len(),
{
    if ws.len() > 0 {
        lemma_weighted_sum_of_zeros(ws.drop_last(), ds.drop_last());
        assert(ws.last() == ws[ws.len() - 1]);
        assert(0 * ds.last() == 0) by (nonlinear_arith);
    }
}

/// The bit string of a text is as long as the codes of its symbols together:
/// for each symbol of the table the length of its code, times the number of
/// its occurrences.
pub proof fn lemma_encoded_length(text: Seq<char>, codes: Seq<(char, Seq<char>)>)
    requires
        distinct_codes(codes),
        covers(codes, text),
    ensures
        encoded_bits(text, codes) is Some,
        encoded_bits(text, codes)->0.len() == weighted_sum(
            counts_in(text, codes),
            code_lengths(codes),
        ),
    decreases text.len(),
{
    lemma_encoded_bits_some(text, codes);
    if text.len() == 0 {
        lemma_weighted_sum_of_zeros(counts_in(text, codes), code_lengths(codes));
    } else {
        let front = text.drop_last();
        let c = text.last();
        assert(front.push(c) =~= text);
        assert forall|k: int| 0 <= k < front.len() implies code_of(codes, #[trigger] front[k])
            is Some by {
            assert(front[k] == text[k]);
        }
        lemma_encoded_length(front, codes);
        lemma_encoded_bits_push(front, c, codes);
        assert(code_of(codes, text[text.len() - 1]) is Some);
        lemma_code_of(codes, c);
        let code = code_of(codes, c)->0;
        let k = choose|k: int|
            0 <= k < codes.len() && (#[trigger] codes[k]).0 == c && codes[k].1 == code;
        let before = counts_in(front, codes);
        let after = counts_in(text, codes);
        assert forall|i: int| 0 <= i < codes.len() implies after[i] == before.update(
            k,
            before[k] + 1,
        )[i] by {
            if i < k {
                assert(codes[i].0 != codes[k].0);
            } else if i > k {
                assert(codes[k].0 != codes[i].0);
            }
        }
        assert(after =~= before.update(k, before[k] + 1));
        lemma_weighted_sum_update(before, code_lengths(codes), k, before[k] + 1);
        let w = before[k] as int;
        let d = code_lengths(codes)[k] as int;
        assert((w + 1) * d - w * d == d) by (nonlinear_arith);
    }
}

/// Sequences that hold the same things, each thing once, hold them equally
/// often.
pub proof fn lemma_same_members<A>(a: Seq<A>, b: Seq<A>)
    requires
        a.no_duplicates(),
        b.no_duplicates(),
        forall|x: A| a.contains(x) <==> b.contains(x),
    ensures
        a.to_multiset() == b.to_multiset(),
{
    broadcast use vstd::multiset::group_multiset_axioms;

    a.lemma_multiset_has_no_duplicates();
    b.lemma_multiset_has_no_duplicates();
    assert forall|x: A| a.to_multiset().count(x) == b.to_multiset().count(x) by {
        vstd::seq_lib::to_multiset_contains(a, x);
        vstd::seq_lib::to_multiset_contains(b, x);
    }
    assert(a.to_multiset() =~= b.to_multiset());
}

/// The bit string of a text under its own tree is as long as the tree costs.
pub proof fn lemma_bits_cost(text: Seq<char>)
    requires
        0 < text.len() <= u64::MAX,
    ensures
        bits_of(text).len() == cost(tree_of(text)),
{
    broadcast use vstd::multiset::group_multiset_axioms;

    let table = frequency_table(text);
    let tree = tree_of(text);
    let leaves = tree.leaves();
    let codes = code_table(tree);
    lemma_frequency_table_properties(text);
    lemma_frequency_table_total(text);
    lemma_huffman_tree(table);
    lemma_one_leaf_per_symbol(table);
    lemma_tree_covers_text(text);
    lemma_code_entries(tree, Seq::empty());
    lemma_code_length(tree, Seq::empty());
    lemma_depths(tree);
    assert(distinct_codes(codes)) by {
        assert forall|i: int, j: int| 0 <= i < j < codes.len() implies (#[trigger] codes[i]).0
            != (#[trigger] codes[j]).0 by {
            assert(leaves[i].0 != leaves[j].0);
        }
    }
    lemma_encoded_length(text, codes);
    assert(code_lengths(codes) =~= depths(tree));
    assert forall|i: int| 0 <= i < leaves.len() implies counts_in(text, codes)[i] == frequencies(
        leaves,
    )[i] by {
        assert(leaves.contains(leaves[i]));
        vstd::seq_lib::to_multiset_contains(leaves, leaves[i]);
        vstd::seq_lib::to_multiset_contains(table, leaves[i]);
        let a = choose|a: int| 0 <= a < table.len() && table[a] == leaves[i];
        assert(table[a].1 == occurrences(text, table[a].0));
    }
    assert(counts_in(text, codes) =~= frequencies(leaves));
}

/// No tree encodes a text in fewer bits than the tree of the text does: under
/// any tree that has one leaf for each symbol of the text and no other leaf,
/// the bit string of the text is at least as long.
pub proof fn lemma_shortest_encoding(text: Seq<char>, other: Node)
    requires
        0 < text.len() <= u64::MAX,
        distinct_entries(other.leaves()),
        forall|c: char| has_entry(other.leaves(), c) <==> text.contains(c),
    ensures
        encoded_bits(text, code_table(other)) is Some,
        bits_of(text).len() <= encoded_bits(text, code_table(other))->0.len(),
{
    let table = frequency_table(text);
    let leaves = other.leaves();
    let codes = code_table(other);
    lemma_frequency_table_properties(text);
    lemma_frequency_table_total(text);
    lemma_code_entries(other, Seq::empty());
    lemma_code_length(other, Seq::empty());
    lemma_depths(other);
    assert(distinct_codes(codes)) by {
        assert forall|i: int, j: int| 0 <= i < j < codes.len() implies (#[trigger] codes[i]).0
            != (#[trigger] codes[j]).0 by {
            assert(leaves[i].0 != leaves[j].0);
        }
    }
    assert forall|k: int| 0 <= k < text.len() implies code_of(codes, #[trigger] text[k])
        is Some by {
        assert(text.contains(text[k]));
        assert(has_entry(leaves, text[k]));
        let i = choose|i: int| 0 <= i < leaves.len() && (#[trigger] leaves[i]).0 == text[k];
        assert(codes[i].0 == text[k]);
        lemma_code_of(codes, text[k]);
    }
    lemma_encoded_length(text, codes);
    assert(code_lengths(codes) =~= depths(other));
    // The leaves of the other tree, each with the number of its occurrences,
    // are the entries of the frequency table in another order.
    let counted = Seq::new(
        leaves.len(),
        |i: int| (leaves[i].0, occurrences(text, leaves[i].0) as u64),
    );
    assert forall|i: int| 0 <= i < counted.len() implies #[trigger] frequencies(counted)[i]
        == counts_in(text, codes)[i] by {
        lemma_occurrences(text, leaves[i].0);
    }
    assert(frequencies(counted) =~= counts_in(text, codes));
    assert forall|x: (char, u64)| counted.contains(x) <==> table.contains(x) by {
        if counted.contains(x) {
            let i = choose|i: int| 0 <= i < counted.len() && counted[i] == x;
            assert(has_entry(leaves, leaves[i].0));
            assert(text.contains(x.0));
            let k = choose|k: int| 0 <= k < text.len() && text[k] == x.0;
            assert(has_entry(table, text[k]));
            let a = choose|a: int| 0 <= a < table.len() && (#[trigger] table[a]).0 == x.0;
            assert(table[a].1 == occurrences(text, table[a].0));
            assert(table[a] == x);
        }
        if table.contains(x) {
            let a = choose|a: int| 0 <= a < table.len() && table[a] == x;
            assert(text.contains(table[a].0));
            assert(has_entry(leaves, x.0));
            let i = choose|i: int| 0 <= i < leaves.len() && (#[trigger] leaves[i]).0 == x.0;
            assert(table[a].1 == occurrences(text, table[a].0));
            assert(counted[i] == x);
        }
    }
    assert(counted.no_duplicates()) by {
        assert forall|i: int, j: int|
            0 <= i < counted.len() && 0 <= j < counted.len() && i != j implies counted[i]
            != counted[j] by {
            if i < j {
                assert(leaves[i].0 != leaves[j].0);
            } else {
                assert(leaves[j].0 != leaves[i].0);
            }
        }
    }
    assert(table.no_duplicates());
    lemma_same_members(counted, table);
    lemma_same_entries_same_frequencies(counted, table);
    lemma_leaf_queue_weights(table);
    lemma_huffman_tree_cost(table);
    lemma_cost_at_least_merge_cost(
        other,
        counts_in(text, codes),
        root_weights(leaf_queue(table)),
    );
    lemma_bits_cost(text);
}

} // verus!
