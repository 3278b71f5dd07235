//! Optimality: no tree over the same counts has a smaller weighted length
//! than the Huffman tree.
//!
//! The weighted length of a tree is the sum over its leaves of the leaf's
//! weight times its depth, the number of bits of its code. It is what a
//! corpus with those counts takes when it is encoded with the tree's codes.

use crate::codec::{code_length, encoded, lemma_encoded_length};
use crate::compression::{compressed, lemma_round_trip};
use crate::table::{
    code_for, code_table, codes_under, height, lemma_codes_under, lemma_first_with_text,
    lemma_table_of_map, tokens_distinct, Code,
};
use crate::freqs::{
    count_of, credited, distinct, holds, index_of, lemma_count_within_total,
    lemma_index_of_entry, lemma_tally, tally, total_of, Entry,
};
use crate::huffman::{
    enqueued, forest_weight, forest_wf, huffman_of, insert_position, joined, leaf_queue,
    lemma_enqueued, lemma_front_two, lemma_insert_position_bounds, lemma_leaf_queue,
    lemma_huffman_of, lemma_leaf_queue_ordered, merge_all, ordered, Tree,
};
use vstd::prelude::*;

verus! {

/// The weights of the leaves, left to right.
pub open spec fn leaf_weights<K>(tree: Tree<K>) -> Seq<nat>
    decreases tree,
{
    match tree {
        Tree::Leaf { freq, .. } => seq![freq as nat],
        Tree::Node { left, right, .. } => leaf_weights(*left) + leaf_weights(*right),
    }
}

/// Each depth one more.
pub open spec fn deeper(depths: Seq<nat>) -> Seq<nat> {
    Seq::new(depths.len(), |i: int| depths[i] + 1)
}

/// The depths of the leaves, left to right.
pub open spec fn depths<K>(tree: Tree<K>) -> Seq<nat>
    decreases tree,
{
    match tree {
        Tree::Leaf { .. } => seq![0nat],
        Tree::Node { left, right, .. } => deeper(depths(*left) + depths(*right)),
    }
}

/// The sum of the products of depth and weight, place by place.
pub open spec fn dot(depths: Seq<nat>, weights: Seq<nat>) -> nat
    decreases depths.len(),
{
    if depths.len() == 0 {
        0
    } else {
        dot(depths.drop_last(), weights.drop_last()) + depths.last() * weights.last()
    }
}

/// The sum of the weights.
pub open spec fn summed(weights: Seq<nat>) -> nat
    decreases weights.len(),
{
    if weights.len() == 0 {
        0
    } else {
        summed(weights.drop_last()) + weights.last()
    }
}

/// The weighted length of a tree: each leaf's weight times its depth, added
/// up.
pub open spec fn weighted_length<K>(tree: Tree<K>) -> nat {
    dot(depths(tree), leaf_weights(tree))
}

/// Sums add up over concatenation.
pub proof fn lemma_summed_concat(front: Seq<nat>, back: Seq<nat>)
    ensures
        summed(front + back) == summed(front) + summed(back),
    decreases back.len(),
{
    if back.len() == 0 {
        assert(front + back == front);
    } else {
        assert((front + back).drop_last() == front + back.drop_last());
        lemma_summed_concat(front, back.drop_last());
    }
}

/// Products add up over concatenation.
pub proof fn lemma_dot_concat(
    depths_front: Seq<nat>,
    weights_front: Seq<nat>,
    depths_back: Seq<nat>,
    weights_back: Seq<nat>,
)
    requires
        depths_front.len() == weights_front.len(),
        depths_back.len() == weights_back.len(),
    ensures
        dot(depths_front + depths_back, weights_front + weights_back) == dot(
            depths_front,
            weights_front,
        ) + dot(depths_back, weights_back),
    decreases depths_back.len(),
{
    if depths_back.len() == 0 {
        assert(depths_front + depths_back == depths_front);
        assert(weights_front + weights_back == weights_front);
    } else {
        assert((depths_front + depths_back).drop_last() == depths_front + depths_back.drop_last());
        assert((weights_front + weights_back).drop_last() == weights_front
            + weights_back.drop_last());
        lemma_dot_concat(
            depths_front,
            weights_front,
            depths_back.drop_last(),
            weights_back.drop_last(),
        );
    }
}

/// One level more costs every weight once more.
pub proof fn lemma_dot_deeper(depths: Seq<nat>, weights: Seq<nat>)
    requires
        depths.len() == weights.len(),
    ensures
        dot(deeper(depths), weights) == dot(depths, weights) + summed(weights),
    decreases depths.len(),
{
    if depths.len() > 0 {
        assert(deeper(depths).drop_last() == deeper(depths.drop_last()));
        lemma_dot_deeper(depths.drop_last(), weights.drop_last());
        let d = depths.last();
        let w = weights.last();
        assert((d + 1) * w == d * w + w) by (nonlinear_arith);
    }
}

/// Another weight at one place changes the sum by the difference times the
/// depth of the place.
pub proof fn lemma_dot_update(depths: Seq<nat>, weights: Seq<nat>, i: int, weight: nat)
    requires
        depths.len() == weights.len(),
        0 <= i < weights.len(),
    ensures
        dot(depths, weights.update(i, weight)) + depths[i] * weights[i] == dot(depths, weights)
            + depths[i] * weight,
    decreases depths.len(),
{
    let after = weights.update(i, weight);
    if i == weights.len() - 1 {
        assert(after.drop_last() == weights.drop_last());
    } else {
        assert(after.drop_last() == weights.drop_last().update(i, weight));
        lemma_dot_update(depths.drop_last(), weights.drop_last(), i, weight);
    }
}

/// The sum of one product.
pub proof fn lemma_dot_single(depth: nat, weight: nat)
    ensures
        dot(seq![depth], seq![weight]) == depth * weight,
        summed(seq![weight]) == weight,
{
    assert(seq![depth].drop_last() =~= Seq::<nat>::empty());
    assert(seq![weight].drop_last() =~= Seq::<nat>::empty());
    assert(seq![depth].last() == depth);
    assert(seq![weight].last() == weight);
    assert(dot(seq![depth].drop_last(), seq![weight].drop_last()) == 0);
    assert(summed(seq![weight].drop_last()) == 0);
}

/// A tree has a depth and a weight for each leaf, and no leaf is deeper
/// than the tree is high.
pub proof fn lemma_depths<K>(tree: Tree<K>)
    ensures
        depths(tree).len() == leaf_weights(tree).len(),
        depths(tree).len() == tree.leaves().len(),
        depths(tree).len() >= 1,
        tree is Leaf <==> depths(tree).len() == 1,
        forall|i: int| 0 <= i < depths(tree).len() ==> depths(tree)[i] <= height(tree),
    decreases tree,
{
    match tree {
        Tree::Leaf { .. } => {},
        Tree::Node { left, right, .. } => {
            lemma_depths(*left);
            lemma_depths(*right);
        },
    }
}

/// The place of a leaf of greatest depth that has a leaf for its right
/// neighbour and sibling.
pub open spec fn deepest<K>(tree: Tree<K>) -> int
    decreases tree,
{
    match tree {
        Tree::Leaf { .. } => 0,
        Tree::Node { left, right, .. } => if *left is Leaf && *right is Leaf {
            0
        } else if height(*left) >= height(*right) {
            deepest(*left)
        } else {
            depths(*left).len() + deepest(*right)
        },
    }
}

/// The tree with the two sibling leaves at [`deepest`] replaced by one
/// leaf.
pub open spec fn contracted<K>(tree: Tree<K>) -> Tree<K>
    decreases tree,
{
    match tree {
        Tree::Leaf { .. } => tree,
        Tree::Node { freq, left, right } => if *left is Leaf && *right is Leaf {
            *left
        } else if height(*left) >= height(*right) {
            Tree::Node { freq, left: Box::new(contracted(*left)), right }
        } else {
            Tree::Node { freq, left, right: Box::new(contracted(*right)) }
        },
    }
}

/// A tree with more than one leaf has two sibling leaves at its greatest
/// depth, next to each other; with one leaf in their place, one level up,
/// the other leaves keep their depths.
pub proof fn lemma_contracted<K>(tree: Tree<K>)
    requires
        tree is Node,
    ensures
        0 <= deepest(tree) < depths(tree).len() - 1,
        height(tree) >= 1,
        depths(tree)[deepest(tree)] == height(tree),
        depths(tree)[deepest(tree) + 1] == height(tree),
        depths(contracted(tree)) == depths(tree).take(deepest(tree)).push(
            (height(tree) - 1) as nat,
        ) + depths(tree).skip(deepest(tree) + 2),
    decreases tree,
{
    match tree {
        Tree::Leaf { .. } => {},
        Tree::Node { left, right, .. } => {
            lemma_depths(*left);
            lemma_depths(*right);
            let low = depths(*left);
            let high = depths(*right);
            let all = depths(tree);
            let k = deepest(tree);
            let h = height(tree);
            if *left is Leaf && *right is Leaf {
                assert(depths(contracted(tree)) =~= all.take(k).push((h - 1) as nat) + all.skip(
                    k + 2,
                ));
            } else if height(*left) >= height(*right) {
                lemma_contracted(*left);
                assert(depths(contracted(tree)) =~= all.take(k).push((h - 1) as nat) + all.skip(
                    k + 2,
                ));
            } else {
                lemma_contracted(*right);
                let kr = deepest(*right);
                assert(all[k] == high[kr] + 1);
                assert(all[k + 1] == high[kr + 1] + 1);
                assert(depths(contracted(tree)) =~= all.take(k).push((h - 1) as nat) + all.skip(
                    k + 2,
                ));
            }
        },
    }
}

/// Where a weight enters an ascending sequence: behind the weights at its
/// front that are no greater.
pub open spec fn position(weights: Seq<nat>, weight: nat) -> int
    decreases weights.len(),
{
    if weights.len() == 0 {
        0
    } else if weights[0] <= weight {
        1 + position(weights.drop_first(), weight)
    } else {
        0
    }
}

/// The sequence after a weight entered it.
pub open spec fn inserted(weights: Seq<nat>, weight: nat) -> Seq<nat> {
    weights.insert(position(weights, weight), weight)
}

/// No weight is greater than one behind it.
pub open spec fn ascending(weights: Seq<nat>) -> bool {
    forall|i: int, j: int| 0 <= i < j < weights.len() ==> weights[i] <= weights[j]
}

/// What merging costs: the two least weights are replaced by their sum, at
/// the cost of that sum, until one weight is left.
pub open spec fn merge_cost(weights: Seq<nat>) -> nat
    decreases weights.len(),
{
    if weights.len() <= 1 {
        0
    } else {
        proof {
            lemma_position(weights.skip(2), weights[0] + weights[1]);
        }
        weights[0] + weights[1] + merge_cost(inserted(weights.skip(2), weights[0] + weights[1]))
    }
}

/// A weight enters within the sequence, behind weights that are no greater
/// and before one that is greater.
pub proof fn lemma_position(weights: Seq<nat>, weight: nat)
    ensures
        0 <= position(weights, weight) <= weights.len(),
        forall|i: int| 0 <= i < position(weights, weight) ==> weights[i] <= weight,
        position(weights, weight) < weights.len() ==> weights[position(weights, weight)] > weight,
    decreases weights.len(),
{
    if weights.len() > 0 && weights[0] <= weight {
        let rest = weights.drop_first();
        lemma_position(rest, weight);
        assert forall|i: int| 0 <= i < position(weights, weight) implies weights[i] <= weight by {
            if i > 0 {
                assert(weights[i] == rest[i - 1]);
            }
        }
        if position(weights, weight) < weights.len() {
            assert(weights[position(weights, weight)] == rest[position(rest, weight)]);
        }
    }
}

/// A weight that enters makes the sequence longer by itself, and leaves an
/// ascending sequence ascending.
pub proof fn lemma_inserted(weights: Seq<nat>, weight: nat)
    ensures
        inserted(weights, weight).len() == weights.len() + 1,
        inserted(weights, weight).to_multiset() == weights.to_multiset().insert(weight),
        ascending(weights) ==> ascending(inserted(weights, weight)),
{
    broadcast use vstd::seq_lib::group_to_multiset_ensures;

    let at = position(weights, weight);
    let after = inserted(weights, weight);
    lemma_position(weights, weight);
    if ascending(weights) {
        assert forall|i: int, j: int| 0 <= i < j < after.len() implies after[i] <= after[j] by {
            if j < at {
                assert(after[i] == weights[i] && after[j] == weights[j]);
            } else if j == at {
                assert(after[i] == weights[i]);
            } else if i < at {
                assert(after[i] == weights[i] && after[j] == weights[j - 1]);
            } else if i == at {
                assert(after[j] == weights[j - 1]);
                assert(weights[at] <= weights[j - 1]);
            } else {
                assert(after[i] == weights[i - 1] && after[j] == weights[j - 1]);
            }
        }
    }
}

/// Of two sequences with the same weights, one of them ascending, the
/// other has the first weight of the ascending one, and none below it.
pub proof fn lemma_least(weights: Seq<nat>, sorted: Seq<nat>)
    requires
        ascending(sorted),
        sorted.to_multiset() == weights.to_multiset(),
        sorted.len() >= 1,
    ensures
        weights.len() == sorted.len(),
        forall|i: int| 0 <= i < weights.len() ==> weights[i] >= sorted[0],
        exists|a: int| 0 <= a < weights.len() && weights[a] == sorted[0],
{
    broadcast use vstd::seq_lib::group_to_multiset_ensures;

    assert(weights.to_multiset().len() == weights.len());
    assert(sorted.to_multiset().len() == sorted.len());
    assert forall|i: int| 0 <= i < weights.len() implies weights[i] >= sorted[0] by {
        assert(weights.to_multiset().count(weights[i]) > 0);
        assert(sorted.contains(weights[i]));
        let j = choose|j: int| 0 <= j < sorted.len() && sorted[j] == weights[i];
        if j > 0 {
            assert(sorted[0] <= sorted[j]);
        }
    }
    assert(sorted.to_multiset().count(sorted[0]) > 0);
    assert(weights.contains(sorted[0]));
}

/// Exchanging two weights, the lesser of which stands at the lesser depth,
/// does not make the weighted sum greater.
pub proof fn lemma_swap(depths: Seq<nat>, weights: Seq<nat>, i: int, j: int)
    requires
        depths.len() == weights.len(),
        0 <= i < weights.len(),
        0 <= j < weights.len(),
        depths[i] <= depths[j],
        weights[i] <= weights[j],
    ensures
        dot(depths, weights.update(i, weights[j]).update(j, weights[i])) <= dot(depths, weights),
        weights.update(i, weights[j]).update(j, weights[i]).to_multiset()
            == weights.to_multiset(),
{
    broadcast use vstd::seq_lib::group_to_multiset_ensures;

    let first = weights.update(i, weights[j]);
    let both = first.update(j, weights[i]);
    if i == j {
        assert(both =~= weights);
    } else {
        lemma_dot_update(depths, weights, i, weights[j]);
        lemma_dot_update(depths, first, j, weights[i]);
        assert(first[j] == weights[j]);
        let di = depths[i] as int;
        let dj = depths[j] as int;
        let wi = weights[i] as int;
        let wj = weights[j] as int;
        assert(di * wj + dj * wi <= di * wi + dj * wj) by (nonlinear_arith)
            requires
                di <= dj,
                wi <= wj,
        ;
        assert(both.to_multiset() =~= weights.to_multiset());
    }
}

/// Two neighbours at the same depth `h`, replaced by one place a level
/// higher that holds the sum of their weights, save the sum once.
pub proof fn lemma_contract_dot(depths: Seq<nat>, weights: Seq<nat>, k: int, h: nat)
    requires
        depths.len() == weights.len(),
        0 <= k < weights.len() - 1,
        depths[k] == h,
        depths[k + 1] == h,
        h >= 1,
    ensures
        dot(
            depths.take(k).push((h - 1) as nat) + depths.skip(k + 2),
            weights.take(k).push(weights[k] + weights[k + 1]) + weights.skip(k + 2),
        ) + weights[k] + weights[k + 1] == dot(depths, weights),
{
    let w0 = weights[k];
    let w1 = weights[k + 1];
    let up = (h - 1) as nat;
    assert(depths =~= depths.take(k) + seq![h] + seq![h] + depths.skip(k + 2));
    assert(weights =~= weights.take(k) + seq![w0] + seq![w1] + weights.skip(k + 2));
    lemma_dot_single(h, w0);
    lemma_dot_single(h, w1);
    lemma_dot_single(up, w0 + w1);
    lemma_dot_concat(depths.take(k), weights.take(k), seq![h], seq![w0]);
    lemma_dot_concat(depths.take(k) + seq![h], weights.take(k) + seq![w0], seq![h], seq![w1]);
    lemma_dot_concat(
        depths.take(k) + seq![h] + seq![h],
        weights.take(k) + seq![w0] + seq![w1],
        depths.skip(k + 2),
        weights.skip(k + 2),
    );
    assert(depths.take(k).push(up) =~= depths.take(k) + seq![up]);
    assert(weights.take(k).push(w0 + w1) =~= weights.take(k) + seq![w0 + w1]);
    lemma_dot_concat(depths.take(k), weights.take(k), seq![up], seq![w0 + w1]);
    lemma_dot_concat(
        depths.take(k) + seq![up],
        weights.take(k) + seq![w0 + w1],
        depths.skip(k + 2),
        weights.skip(k + 2),
    );
    assert(up * (w0 + w1) + w0 + w1 == h * w0 + h * w1) by (nonlinear_arith)
        requires
            up + 1 == h,
    ;
}

/// The lower bound: whatever the shape of a tree and however the weights
/// are dealt to its leaves, the weighted sum is no less than what merging
/// the weights costs.
pub proof fn lemma_lower_bound<K>(tree: Tree<K>, weights: Seq<nat>, sorted: Seq<nat>)
    requires
        weights.len() == depths(tree).len(),
        ascending(sorted),
        sorted.to_multiset() == weights.to_multiset(),
    ensures
        dot(depths(tree), weights) >= merge_cost(sorted),
    decreases weights.len(),
{
    broadcast use vstd::seq_lib::group_to_multiset_ensures;

    lemma_depths(tree);
    assert(weights.to_multiset().len() == weights.len());
    assert(sorted.to_multiset().len() == sorted.len());
    if weights.len() >= 2 {
        lemma_contracted(tree);
        let d = depths(tree);
        let k = deepest(tree);
        let h = height(tree);
        let w0 = sorted[0];
        let w1 = sorted[1];
        // the least weight goes to the first of the two deepest places
        lemma_least(weights, sorted);
        let a = choose|a: int| 0 <= a < weights.len() && weights[a] == w0;
        let once = weights.update(a, weights[k]).update(k, weights[a]);
        lemma_swap(d, weights, a, k);
        assert(once[k] == w0);
        // the least of the others goes to the second
        let others = once.remove(k);
        let tail = sorted.remove(0);
        assert(others.to_multiset() == tail.to_multiset());
        assert(ascending(tail)) by {
            assert forall|i: int, j: int| 0 <= i < j < tail.len() implies tail[i] <= tail[j] by {
                assert(tail[i] == sorted[i + 1] && tail[j] == sorted[j + 1]);
            }
        }
        assert(tail[0] == w1);
        lemma_least(others, tail);
        let r = choose|r: int| 0 <= r < others.len() && others[r] == w1;
        let b = if r < k {
            r
        } else {
            r + 1
        };
        assert(once[b] == others[r]);
        assert(once[k + 1] == others[k]);
        let twice = once.update(b, once[k + 1]).update(k + 1, once[b]);
        lemma_swap(d, once, b, k + 1);
        assert(twice[k] == w0 && twice[k + 1] == w1);
        // the two become one
        let merged = twice.remove(k + 1).update(k, w0 + w1);
        assert(merged =~= twice.take(k).push(twice[k] + twice[k + 1]) + twice.skip(k + 2));
        lemma_contract_dot(d, twice, k, h);
        let next = inserted(sorted.skip(2), w0 + w1);
        lemma_inserted(sorted.skip(2), w0 + w1);
        assert(ascending(sorted.skip(2))) by {
            assert forall|i: int, j: int| 0 <= i < j < sorted.skip(2).len() implies sorted.skip(
                2,
            )[i] <= sorted.skip(2)[j] by {
                assert(sorted.skip(2)[i] == sorted[i + 2] && sorted.skip(2)[j] == sorted[j + 2]);
            }
        }
        assert(sorted.skip(2) =~= tail.remove(0));
        assert(twice.remove(k + 1)[k] == w0);
        assert(merged.to_multiset() =~= next.to_multiset()) by {
            assert(twice.to_multiset() == sorted.to_multiset());
            assert(twice.remove(k + 1).to_multiset() == twice.to_multiset().remove(w1));
            assert(merged.to_multiset() == twice.remove(k + 1).to_multiset().insert(
                w0 + w1,
            ).remove(w0));
            assert(tail.to_multiset() == sorted.to_multiset().remove(w0));
            assert(sorted.skip(2).to_multiset() == tail.to_multiset().remove(w1));
            assert(sorted.to_multiset().count(w0) > 0);
            assert(tail.to_multiset().count(w1) > 0);
        }
        lemma_lower_bound(contracted(tree), merged, next);
    }
}

/// The weights at the roots of a queue's trees, in order.
pub open spec fn queue_weights<K>(queue: Seq<Tree<K>>) -> Seq<nat> {
    Seq::new(queue.len(), |i: int| queue[i].weight())
}

/// The weighted lengths of a queue's trees, added up.
pub open spec fn forest_length<K>(queue: Seq<Tree<K>>) -> nat
    decreases queue.len(),
{
    if queue.len() == 0 {
        0
    } else {
        forest_length(queue.drop_last()) + weighted_length(queue.last())
    }
}

/// The counts of the entries, in order.
pub open spec fn counts<K>(entries: Seq<(K, u64)>) -> Seq<nat> {
    Seq::new(entries.len(), |i: int| entries[i].1 as nat)
}

/// A well-formed tree weighs what its leaves weigh together.
pub proof fn lemma_weight_is_sum<K>(tree: Tree<K>)
    requires
        tree.wf(),
    ensures
        tree.weight() == summed(leaf_weights(tree)),
    decreases tree,
{
    match tree {
        Tree::Leaf { freq, .. } => {
            lemma_dot_single(0, freq as nat);
        },
        Tree::Node { left, right, .. } => {
            lemma_weight_is_sum(*left);
            lemma_weight_is_sum(*right);
            lemma_summed_concat(leaf_weights(*left), leaf_weights(*right));
        },
    }
}

/// Joining two trees puts every leaf of both one level deeper.
pub proof fn lemma_joined_length<K>(left: Tree<K>, right: Tree<K>)
    ensures
        weighted_length(joined(left, right)) == weighted_length(left) + weighted_length(right)
            + summed(leaf_weights(left)) + summed(leaf_weights(right)),
{
    lemma_depths(left);
    lemma_depths(right);
    lemma_dot_deeper(depths(left) + depths(right), leaf_weights(left) + leaf_weights(right));
    lemma_dot_concat(depths(left), leaf_weights(left), depths(right), leaf_weights(right));
    lemma_summed_concat(leaf_weights(left), leaf_weights(right));
}

/// A tree enters a queue where its weight enters the queue's weights.
pub proof fn lemma_queue_weights_enqueued<K>(queue: Seq<Tree<K>>, node: Tree<K>)
    ensures
        insert_position(queue, node.weight()) == position(queue_weights(queue), node.weight()),
        queue_weights(enqueued(queue, node)) == inserted(queue_weights(queue), node.weight()),
    decreases queue.len(),
{
    lemma_insert_position_bounds(queue, node.weight());
    if queue.len() > 0 {
        assert(queue_weights(queue.drop_first()) =~= queue_weights(queue).drop_first());
        lemma_queue_weights_enqueued(queue.drop_first(), node);
    }
    assert(queue_weights(enqueued(queue, node)) =~= inserted(
        queue_weights(queue),
        node.weight(),
    ));
}

/// The weighted lengths of two queues, one behind the other, add up.
pub proof fn lemma_forest_length_concat<K>(front: Seq<Tree<K>>, back: Seq<Tree<K>>)
    ensures
        forest_length(front + back) == forest_length(front) + forest_length(back),
    decreases back.len(),
{
    if back.len() == 0 {
        assert(front + back == front);
    } else {
        assert((front + back).drop_last() == front + back.drop_last());
        lemma_forest_length_concat(front, back.drop_last());
    }
}

/// The weighted length of a queue of one tree is that of the tree.
pub proof fn lemma_forest_length_single<K>(tree: Tree<K>)
    ensures
        forest_length(seq![tree]) == weighted_length(tree),
{
    assert(seq![tree].drop_last() =~= Seq::<Tree<K>>::empty());
    assert(seq![tree].last() == tree);
    assert(forest_length(seq![tree].drop_last()) == 0);
}

/// A tree that enters a queue adds its weighted length to the queue's.
pub proof fn lemma_forest_length_enqueued<K>(queue: Seq<Tree<K>>, node: Tree<K>)
    ensures
        forest_length(enqueued(queue, node)) == forest_length(queue) + weighted_length(node),
{
    let at = insert_position(queue, node.weight());
    lemma_insert_position_bounds(queue, node.weight());
    let front = queue.take(at);
    let back = queue.skip(at);
    assert(queue == front + back);
    assert(enqueued(queue, node) =~= front + seq![node] + back);
    lemma_forest_length_single(node);
    lemma_forest_length_concat(front, back);
    lemma_forest_length_concat(front, seq![node]);
    lemma_forest_length_concat(front + seq![node], back);
}

/// The tree that merging leaves of a queue has the weighted lengths of the
/// queue's trees and, on top of them, what merging their weights costs.
pub proof fn lemma_merge_all_length<K>(queue: Seq<Tree<K>>)
    requires
        queue.len() >= 1,
        forest_wf(queue),
        forest_weight(queue) <= u64::MAX,
    ensures
        weighted_length(merge_all(queue)) == forest_length(queue) + merge_cost(
            queue_weights(queue),
        ),
    decreases queue.len(),
{
    if queue.len() == 1 {
        assert(queue =~= seq![queue[0]]);
        lemma_forest_length_single(queue[0]);
    } else {
        let node = joined(queue[0], queue[1]);
        let rest = queue.skip(2);
        let weights = queue_weights(queue);
        lemma_front_two(queue);
        assert(queue[0].wf() && queue[1].wf());
        lemma_weight_is_sum(queue[0]);
        lemma_weight_is_sum(queue[1]);
        lemma_joined_length(queue[0], queue[1]);
        lemma_enqueued(rest, node);
        lemma_queue_weights_enqueued(rest, node);
        lemma_forest_length_enqueued(rest, node);
        lemma_merge_all_length(enqueued(rest, node));
        assert(queue_weights(rest) =~= weights.skip(2));
        assert(queue =~= seq![queue[0]] + seq![queue[1]] + rest);
        lemma_forest_length_single(queue[0]);
        lemma_forest_length_single(queue[1]);
        lemma_forest_length_concat(seq![queue[0]], seq![queue[1]]);
        lemma_forest_length_concat(seq![queue[0]] + seq![queue[1]], rest);
    }
}

/// The queue of the leaves has no weighted length, and its weights are the
/// counts of the entries.
pub proof fn lemma_leaf_queue_weights<K>(entries: Seq<(K, u64)>)
    ensures
        forest_length(leaf_queue(entries)) == 0,
        queue_weights(leaf_queue(entries)).to_multiset() == counts(entries).to_multiset(),
    decreases entries.len(),
{
    broadcast use vstd::seq_lib::group_to_multiset_ensures;

    if entries.len() == 0 {
        assert(queue_weights(leaf_queue(entries)) =~= counts(entries));
    } else {
        let leaf = Tree::Leaf { freq: entries.last().1, token: entries.last().0 };
        let before = leaf_queue(entries.drop_last());
        lemma_leaf_queue_weights(entries.drop_last());
        lemma_forest_length_enqueued(before, leaf);
        lemma_dot_single(0, entries.last().1 as nat);
        lemma_queue_weights_enqueued(before, leaf);
        lemma_inserted(queue_weights(before), leaf.weight());
        assert(counts(entries) =~= counts(entries.drop_last()).push(entries.last().1 as nat));
    }
}

/// An ordered queue has ascending weights.
pub proof fn lemma_queue_weights_ascending<K>(queue: Seq<Tree<K>>)
    requires
        ordered(queue),
    ensures
        ascending(queue_weights(queue)),
{
}

/// Optimality: of all trees whose leaves carry the counts of a frequency
/// map, each count once, none has a smaller weighted length than the map's
/// Huffman tree.
pub proof fn lemma_huffman_optimal<K>(entries: Seq<Entry>, other: Tree<K>)
    requires
        entries.len() > 0,
        total_of(entries) <= u64::MAX,
        leaf_weights(other).to_multiset() == counts(entries).to_multiset(),
    ensures
        weighted_length(huffman_of(entries)) <= weighted_length(other),
{
    let queue = leaf_queue(entries);
    lemma_leaf_queue(entries);
    lemma_leaf_queue_ordered(entries);
    lemma_leaf_queue_weights(entries);
    lemma_queue_weights_ascending(queue);
    lemma_merge_all_length(queue);
    lemma_depths(other);
    lemma_lower_bound(other, leaf_weights(other), queue_weights(queue));
}

/// The bits of a code are as many as its leaf is deep.
pub proof fn lemma_code_lengths<K>(tree: Tree<K>, path: Seq<bool>)
    ensures
        codes_under(tree, path).len() == depths(tree).len(),
        forall|i: int|
            0 <= i < depths(tree).len() ==> (#[trigger] codes_under(tree, path)[i]).1.len()
                == path.len() + depths(tree)[i],
    decreases tree,
{
    match tree {
        Tree::Leaf { .. } => {},
        Tree::Node { left, right, .. } => {
            lemma_code_lengths(*left, path.push(false));
            lemma_code_lengths(*right, path.push(true));
            lemma_depths(*left);
            lemma_depths(*right);
            let codes = codes_under(tree, path);
            let low = codes_under(*left, path.push(false));
            assert forall|i: int| 0 <= i < depths(tree).len() implies (#[trigger] codes[i]).1.len()
                == path.len() + depths(tree)[i] by {
                if i < low.len() {
                    assert(codes[i] == low[i]);
                } else {
                    assert(codes[i] == codes_under(*right, path.push(true))[i - low.len()]);
                }
            }
        },
    }
}

/// The weights of a tree's leaves are the counts that the leaves hold.
pub proof fn lemma_leaf_weights<K>(tree: Tree<K>)
    ensures
        leaf_weights(tree) == counts(tree.leaves()),
    decreases tree,
{
    match tree {
        Tree::Leaf { .. } => {
            assert(leaf_weights(tree) =~= counts(tree.leaves()));
        },
        Tree::Node { left, right, .. } => {
            lemma_leaf_weights(*left);
            lemma_leaf_weights(*right);
            assert(leaf_weights(tree) =~= counts(tree.leaves()));
        },
    }
}

/// Entries that are the same but for their order have counts that are the
/// same but for their order.
pub proof fn lemma_counts_multiset<K>(first: Seq<(K, u64)>, second: Seq<(K, u64)>)
    requires
        first.to_multiset() == second.to_multiset(),
    ensures
        counts(first).to_multiset() == counts(second).to_multiset(),
    decreases first.len(),
{
    broadcast use vstd::seq_lib::group_to_multiset_ensures;

    assert(first.to_multiset().len() == first.len());
    assert(second.to_multiset().len() == second.len());
    if first.len() == 0 {
        assert(counts(first) =~= counts(second));
    } else {
        let entry = first.last();
        assert(first == first.drop_last().push(entry));
        assert(first.to_multiset().count(entry) > 0);
        assert(second.contains(entry));
        let j = choose|j: int| 0 <= j < second.len() && second[j] == entry;
        assert(first.drop_last().to_multiset() =~= second.remove(j).to_multiset());
        lemma_counts_multiset(first.drop_last(), second.remove(j));
        assert(counts(first) =~= counts(first.drop_last()).push(entry.1 as nat));
        assert(counts(second) =~= counts(second.remove(j)).insert(j, entry.1 as nat));
    }
}

/// The Huffman tree of a frequency map is itself a tree whose leaves carry
/// the counts of the map, each once.
pub proof fn lemma_huffman_weights(entries: Seq<Entry>)
    requires
        entries.len() > 0,
        total_of(entries) <= u64::MAX,
    ensures
        leaf_weights(huffman_of(entries)).to_multiset() == counts(entries).to_multiset(),
{
    lemma_huffman_of(entries);
    lemma_leaf_weights(huffman_of(entries));
    lemma_counts_multiset(huffman_of(entries).leaves(), entries);
}

/// The bits that the occurrences of an entry's token take when they are
/// written with the table's code for it.
pub open spec fn entry_bits(table: Seq<Code>, entry: Entry) -> nat {
    match code_for(table, entry.0) {
        Some(code) => (entry.1 as nat) * code.len(),
        None => 0,
    }
}

/// The bits that all occurrences of all entries' tokens take.
pub open spec fn priced(table: Seq<Code>, entries: Seq<Entry>) -> nat
    decreases entries.len(),
{
    if entries.len() == 0 {
        0
    } else {
        priced(table, entries.drop_last()) + entry_bits(table, entries.last())
    }
}

/// Prices add up over concatenation.
pub proof fn lemma_priced_concat(table: Seq<Code>, front: Seq<Entry>, back: Seq<Entry>)
    ensures
        priced(table, front + back) == priced(table, front) + priced(table, back),
    decreases back.len(),
{
    if back.len() == 0 {
        assert(front + back == front);
    } else {
        assert((front + back).drop_last() == front + back.drop_last());
        lemma_priced_concat(table, front, back.drop_last());
    }
}

/// The price of the entries is that of all but one and that of the one.
pub proof fn lemma_priced_remove(table: Seq<Code>, entries: Seq<Entry>, i: int)
    requires
        0 <= i < entries.len(),
    ensures
        priced(table, entries) == priced(table, entries.remove(i)) + entry_bits(
            table,
            entries[i],
        ),
{
    let front = entries.take(i);
    let back = entries.skip(i + 1);
    let one = seq![entries[i]];
    assert(entries =~= front + one + back);
    assert(entries.remove(i) =~= front + back);
    assert(one.drop_last() =~= Seq::<Entry>::empty());
    assert(one.last() == entries[i]);
    assert(priced(table, one.drop_last()) == 0);
    lemma_priced_concat(table, front, one);
    lemma_priced_concat(table, front + one, back);
    lemma_priced_concat(table, front, back);
}

/// The price does not depend on the order of the entries.
pub proof fn lemma_priced_multiset(table: Seq<Code>, first: Seq<Entry>, second: Seq<Entry>)
    requires
        first.to_multiset() == second.to_multiset(),
    ensures
        priced(table, first) == priced(table, second),
    decreases first.len(),
{
    broadcast use vstd::seq_lib::group_to_multiset_ensures;

    assert(first.to_multiset().len() == first.len());
    assert(second.to_multiset().len() == second.len());
    if first.len() > 0 {
        let entry = first.last();
        assert(first == first.drop_last().push(entry));
        assert(first.to_multiset().count(entry) > 0);
        assert(second.contains(entry));
        let j = choose|j: int| 0 <= j < second.len() && second[j] == entry;
        assert(first.drop_last().to_multiset() =~= second.remove(j).to_multiset());
        lemma_priced_multiset(table, first.drop_last(), second.remove(j));
        lemma_priced_remove(table, second, j);
    }
}

/// More occurrences of a token cost its code that many times more.
pub proof fn lemma_priced_credited(table: Seq<Code>, entries: Seq<Entry>, text: Seq<char>, n: nat)
    requires
        distinct(entries),
        count_of(entries, text) + n <= u64::MAX,
    ensures
        priced(table, credited(entries, text, n)) == priced(table, entries) + entry_bits(
            table,
            (text, n as u64),
        ),
{
    let after = credited(entries, text, n);
    if holds(entries, text) {
        let i = index_of(entries, text);
        lemma_index_of_entry(entries, i);
        lemma_priced_remove(table, entries, i);
        lemma_priced_remove(table, after, i);
        assert(after.remove(i) =~= entries.remove(i));
        let width = match code_for(table, text) {
            Some(code) => code.len(),
            None => 0,
        };
        let had = entries[i].1 as nat;
        assert((had + n) * width == had * width + n * width) by (nonlinear_arith);
    } else {
        assert(after.drop_last() == entries);
    }
}

/// The bits of a sequence of tokens are what the entries of its tally
/// cost.
pub proof fn lemma_code_length_priced(table: Seq<Code>, tokens: Seq<Seq<char>>)
    requires
        tokens.len() <= u64::MAX,
    ensures
        code_length(table, tokens) == priced(table, tally(tokens)),
    decreases tokens.len(),
{
    if tokens.len() > 0 {
        let head = tokens.drop_last();
        let text = tokens.last();
        lemma_code_length_priced(table, head);
        lemma_tally(head);
        lemma_count_within_total(tally(head), text);
        lemma_priced_credited(table, tally(head), text, 1);
        assert(entry_bits(table, (text, 1u64)) == match code_for(table, text) {
            Some(code) => code.len(),
            None => 0,
        }) by {
            match code_for(table, text) {
                Some(code) => {
                    assert((1u64 as nat) * code.len() == code.len()) by (nonlinear_arith);
                },
                None => {},
            }
        }
    }
}

/// The bits of all lines are the bits of all their tokens.
pub proof fn lemma_code_length_flatten(table: Seq<Code>, lines: Seq<Seq<Seq<char>>>)
    ensures
        code_length(table, lines.flatten()) == lines_length(table, lines),
    decreases lines.len(),
{
    if lines.len() > 0 {
        let head = lines.drop_last();
        lemma_code_length_flatten(table, head);
        assert(lines == head.push(lines.last()));
        head.lemma_flatten_push(lines.last());
        lemma_code_length_concat(table, head.flatten(), lines.last());
    }
}

/// The code lengths of the lines, added up.
pub open spec fn lines_length(table: Seq<Code>, lines: Seq<Seq<Seq<char>>>) -> nat
    decreases lines.len(),
{
    if lines.len() == 0 {
        0
    } else {
        lines_length(table, lines.drop_last()) + code_length(table, lines.last())
    }
}

/// Code lengths add up over concatenation.
pub proof fn lemma_code_length_concat(
    table: Seq<Code>,
    front: Seq<Seq<char>>,
    back: Seq<Seq<char>>,
)
    ensures
        code_length(table, front + back) == code_length(table, front) + code_length(table, back),
    decreases back.len(),
{
    if back.len() == 0 {
        assert(front + back == front);
    } else {
        assert((front + back).drop_last() == front + back.drop_last());
        lemma_code_length_concat(table, front, back.drop_last());
    }
}

/// In the code table of a tree with more than one leaf and no token twice,
/// the leaves cost the weighted length of the tree.
pub proof fn lemma_priced_leaves(tree: Tree<Seq<char>>)
    requires
        tree is Node,
        tokens_distinct(code_table(tree)),
    ensures
        priced(code_table(tree), tree.leaves()) == weighted_length(tree),
{
    let table = code_table(tree);
    let leaves = tree.leaves();
    let deep = depths(tree);
    let weights = leaf_weights(tree);
    lemma_code_lengths(tree, Seq::empty());
    lemma_codes_under(tree, Seq::empty());
    lemma_leaf_weights(tree);
    lemma_depths(tree);
    assert forall|i: int| 0 <= i < leaves.len() implies entry_bits(table, #[trigger] leaves[i])
        == deep[i] * weights[i] by {
        assert(table[i].0 == leaves[i].0);
        assert forall|j: int| 0 <= j < i implies table[j].0 != leaves[i].0 by {
            assert(table[j].0 != table[i].0);
        }
        lemma_first_with_text(table, leaves[i].0, i);
        assert(table[i].1.len() == deep[i]);
        assert(leaves[i].1 * deep[i] == deep[i] * weights[i]) by (nonlinear_arith)
            requires
                leaves[i].1 == weights[i],
        ;
    }
    lemma_priced_dot(table, leaves, deep, weights, leaves.len() as int);
    assert(leaves.take(leaves.len() as int) == leaves);
    assert(deep.take(leaves.len() as int) == deep);
    assert(weights.take(leaves.len() as int) == weights);
}

/// Where each entry costs its depth times its weight, the first `n` cost
/// the weighted sum of the first `n`.
proof fn lemma_priced_dot(
    table: Seq<Code>,
    entries: Seq<Entry>,
    deep: Seq<nat>,
    weights: Seq<nat>,
    n: int,
)
    requires
        entries.len() == deep.len(),
        entries.len() == weights.len(),
        0 <= n <= entries.len(),
        forall|i: int|
            0 <= i < entries.len() ==> entry_bits(table, #[trigger] entries[i]) == deep[i]
                * weights[i],
    ensures
        priced(table, entries.take(n)) == dot(deep.take(n), weights.take(n)),
    decreases n,
{
    if n > 0 {
        lemma_priced_dot(table, entries, deep, weights, n - 1);
        assert(entries.take(n).drop_last() == entries.take(n - 1));
        assert(deep.take(n).drop_last() == deep.take(n - 1));
        assert(weights.take(n).drop_last() == weights.take(n - 1));
        assert(entries.take(n).last() == entries[n - 1]);
    }
}

/// The size of the compressed lines: a corpus with two or more distinct
/// tokens, compressed with its own frequency map, takes as many bits as the
/// weighted length of the map's Huffman tree, which no other tree over the
/// same counts undercuts.
pub proof fn lemma_compressed_size(lines: Seq<Seq<Seq<char>>>)
    requires
        lines.flatten().len() <= u64::MAX,
        tally(lines.flatten()).len() >= 2,
    ensures
        compressed(tally(lines.flatten()), lines) is Ok,
        compressed(tally(lines.flatten()), lines)->Ok_0.1.flatten().len() == weighted_length(
            huffman_of(tally(lines.flatten())),
        ),
{
    let corpus = lines.flatten();
    let entries = tally(corpus);
    let tree = huffman_of(entries);
    let table = code_table(tree);
    assert(corpus.len() > 0) by {
        if corpus.len() == 0 {
            assert(tally(corpus).len() == 0);
        }
    }
    lemma_round_trip(lines);
    lemma_tally(corpus);
    lemma_table_of_map(entries);
    lemma_huffman_of(entries);
    lemma_depths(tree);
    let data = compressed(entries, lines)->Ok_0.1;
    lemma_data_length(table, lines, data);
    lemma_code_length_flatten(table, lines);
    lemma_code_length_priced(table, corpus);
    lemma_priced_multiset(table, entries, tree.leaves());
    lemma_priced_leaves(tree);
}

/// The bits of the encoded lines are as many as the code lengths of the
/// lines say.
proof fn lemma_data_length(table: Seq<Code>, lines: Seq<Seq<Seq<char>>>, data: Seq<Seq<bool>>)
    requires
        data.len() == lines.len(),
        forall|i: int|
            0 <= i < lines.len() ==> encoded(table, #[trigger] lines[i]) == Some(data[i]),
    ensures
        data.flatten().len() == lines_length(table, lines),
    decreases lines.len(),
{
    if lines.len() > 0 {
        let head = lines.drop_last();
        let front = data.drop_last();
        assert forall|i: int| 0 <= i < head.len() implies encoded(table, #[trigger] head[i])
            == Some(front[i]) by {
            assert(head[i] == lines[i]);
        }
        lemma_data_length(table, head, front);
        assert(data == front.push(data.last()));
        front.lemma_flatten_push(data.last());
        assert(encoded(table, lines[lines.len() - 1]) == Some(data[lines.len() - 1]));
        lemma_encoded_length(table, lines.last());
    } else {
        assert(data =~= Seq::<Seq<bool>>::empty());
    }
}

} // verus!
