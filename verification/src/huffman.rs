//! The prefix-code tree and its construction.
//!
//! The tree is defined with a queue of trees that is kept ordered by weight,
//! lightest first. A tree that enters the queue goes behind every tree that
//! is no heavier than it, so of two trees of equal weight the one that
//! entered first leaves first. The leaves enter in the order of the
//! frequency map's entries. With that rule the tree is a function of the
//! frequency map, [`huffman_of`].
//!
//! [`huffman_tree`] computes it in O(n log n) steps for n entries: it sorts
//! the leaves by merging sorted halves, and keeps the merged nodes in a
//! queue of their own, which needs no sorting.

use crate::error::HuffmanError;
use crate::freqs::{total_of, Entry, FrequencyMap};
use crate::optimal::{counts, leaf_weights, lemma_huffman_optimal, weighted_length};
use crate::token::Token;
use std::collections::VecDeque;
use vstd::prelude::*;
use vstd::seq_lib::lemma_multiset_commutative;

verus! {

/// A binary tree with a token at each leaf and, at every node, a weight.
#[derive(Debug, PartialEq, Eq)]
pub enum Tree<T> {
    /// A token with the number of its occurrences.
    Leaf { freq: u64, token: T },
    /// Two subtrees; in a well-formed tree `freq` is the sum of their weights.
    Node { freq: u64, left: Box<Tree<T>>, right: Box<Tree<T>> },
}

impl<T> Tree<T> {
    /// The weight recorded at the root.
    pub open spec fn weight(self) -> nat {
        match self {
            Tree::Leaf { freq, .. } => freq as nat,
            Tree::Node { freq, .. } => freq as nat,
        }
    }

    /// Every inner node weighs as much as its two subtrees together.
    pub open spec fn wf(self) -> bool
        decreases self,
    {
        match self {
            Tree::Leaf { .. } => true,
            Tree::Node { freq, left, right } => {
                &&& freq == left.weight() + right.weight()
                &&& left.wf()
                &&& right.wf()
            },
        }
    }

    /// The leaves from left to right, each as its token and weight.
    pub open spec fn leaves(self) -> Seq<(T, u64)>
        decreases self,
    {
        match self {
            Tree::Leaf { freq, token } => seq![(token, freq)],
            Tree::Node { left, right, .. } => left.leaves() + right.leaves(),
        }
    }

    /// The number of inner nodes.
    pub open spec fn inner_nodes(self) -> nat
        decreases self,
    {
        match self {
            Tree::Leaf { .. } => 0,
            Tree::Node { left, right, .. } => 1 + left.inner_nodes() + right.inner_nodes(),
        }
    }
}

impl<T: Token> Tree<T> {
    /// The same tree with every token replaced by its text.
    pub open spec fn model(self) -> Tree<Seq<char>>
        decreases self,
    {
        match self {
            Tree::Leaf { freq, token } => Tree::Leaf { freq, token: token.text() },
            Tree::Node { freq, left, right } => Tree::Node {
                freq,
                left: Box::new(left.model()),
                right: Box::new(right.model()),
            },
        }
    }
}

impl<T: Token> Clone for Tree<T> {
    /// A copy of the tree, node for node.
    fn clone(&self) -> (copy: Self)
        ensures
            copy == *self,
        decreases self,
    {
        match self {
            Tree::Leaf { freq, token } => Tree::Leaf { freq: *freq, token: token.duplicate() },
            Tree::Node { freq, left, right } => Tree::Node {
                freq: *freq,
                left: Box::new((&**left).clone()),
                right: Box::new((&**right).clone()),
            },
        }
    }
}

impl<T: Token> View for Tree<T> {
    type V = Tree<Seq<char>>;

    open spec fn view(&self) -> Tree<Seq<char>> {
        self.model()
    }
}

impl<T: Token> Tree<T> {
    /// The weight recorded at the root.
    pub fn freq(&self) -> (freq: u64)
        ensures
            freq == self.weight(),
            freq == self@.weight(),
    {
        match self {
            Tree::Leaf { freq, .. } => *freq,
            Tree::Node { freq, .. } => *freq,
        }
    }

    /// A copy of the token, if this tree is a leaf.
    pub fn token(&self) -> (token: Option<T>)
        ensures
            match *self {
                Tree::Leaf { token: held, .. } => token == Some(held),
                Tree::Node { .. } => token is None,
            },
    {
        match self {
            Tree::Leaf { token, .. } => Some(token.duplicate()),
            Tree::Node { .. } => None,
        }
    }

    /// The left subtree, if this tree is an inner node.
    pub fn left(&self) -> (left: Option<&Tree<T>>)
        ensures
            match *self {
                Tree::Leaf { .. } => left is None,
                Tree::Node { left: held, .. } => left == Some(&*held),
            },
    {
        match self {
            Tree::Node { left, .. } => Some(&**left),
            Tree::Leaf { .. } => None,
        }
    }

    /// The right subtree, if this tree is an inner node.
    pub fn right(&self) -> (right: Option<&Tree<T>>)
        ensures
            match *self {
                Tree::Leaf { .. } => right is None,
                Tree::Node { right: held, .. } => right == Some(&*held),
            },
    {
        match self {
            Tree::Node { right, .. } => Some(&**right),
            Tree::Leaf { .. } => None,
        }
    }
}

/// The views of a sequence of trees, one for one.
pub open spec fn views<T: Token>(trees: Seq<Tree<T>>) -> Seq<Tree<Seq<char>>> {
    Seq::new(trees.len(), |i: int| trees[i]@)
}

/// Where a tree of the given weight enters the queue: behind the trees at
/// its front that are no heavier.
pub open spec fn insert_position<K>(queue: Seq<Tree<K>>, weight: nat) -> int
    decreases queue.len(),
{
    if queue.len() == 0 {
        0
    } else if queue[0].weight() <= weight {
        1 + insert_position(queue.drop_first(), weight)
    } else {
        0
    }
}

/// The queue after `node` entered it.
pub open spec fn enqueued<K>(queue: Seq<Tree<K>>, node: Tree<K>) -> Seq<Tree<K>> {
    queue.insert(insert_position(queue, node.weight()), node)
}

/// The queue after the leaves of all entries entered it, first entry first.
pub open spec fn leaf_queue<K>(entries: Seq<(K, u64)>) -> Seq<Tree<K>>
    decreases entries.len(),
{
    if entries.len() == 0 {
        Seq::empty()
    } else {
        enqueued(
            leaf_queue(entries.drop_last()),
            Tree::Leaf { freq: entries.last().1, token: entries.last().0 },
        )
    }
}

/// The node over `left` and `right`, weighing as much as both together.
pub open spec fn joined<K>(left: Tree<K>, right: Tree<K>) -> Tree<K> {
    Tree::Node {
        freq: (left.weight() + right.weight()) as u64,
        left: Box::new(left),
        right: Box::new(right),
    }
}

/// The tree that is left when the two trees at the front of the queue are
/// joined, the lighter on the left, and the result enters the queue, over
/// and over until one tree remains.
pub open spec fn merge_all<K>(queue: Seq<Tree<K>>) -> Tree<K>
    decreases queue.len(),
{
    if queue.len() <= 1 {
        queue[0]
    } else {
        proof {
            lemma_insert_position_bounds(queue.skip(2), joined(queue[0], queue[1]).weight());
        }
        merge_all(enqueued(queue.skip(2), joined(queue[0], queue[1])))
    }
}

/// The Huffman tree of a frequency map that has at least one entry.
pub open spec fn huffman_of<K>(entries: Seq<(K, u64)>) -> Tree<K> {
    merge_all(leaf_queue(entries))
}

/// The weights at the roots of the queue's trees, added up.
pub open spec fn forest_weight<K>(queue: Seq<Tree<K>>) -> nat
    decreases queue.len(),
{
    if queue.len() == 0 {
        0
    } else {
        forest_weight(queue.drop_last()) + queue.last().weight()
    }
}

/// The leaves of the queue's trees, tree by tree.
pub open spec fn forest_leaves<K>(queue: Seq<Tree<K>>) -> Seq<(K, u64)>
    decreases queue.len(),
{
    if queue.len() == 0 {
        Seq::empty()
    } else {
        forest_leaves(queue.drop_last()) + queue.last().leaves()
    }
}

/// Every tree of the queue is well formed.
pub open spec fn forest_wf<K>(queue: Seq<Tree<K>>) -> bool {
    forall|i: int| 0 <= i < queue.len() ==> (#[trigger] queue[i]).wf()
}

/// A tree enters the queue at a position within it.
pub proof fn lemma_insert_position_bounds<K>(queue: Seq<Tree<K>>, weight: nat)
    ensures
        0 <= insert_position(queue, weight) <= queue.len(),
    decreases queue.len(),
{
    if queue.len() > 0 && queue[0].weight() <= weight {
        lemma_insert_position_bounds(queue.drop_first(), weight);
    }
}

/// The weight of two queues, one behind the other, is the sum of both.
pub proof fn lemma_forest_weight_concat<K>(front: Seq<Tree<K>>, back: Seq<Tree<K>>)
    ensures
        forest_weight(front + back) == forest_weight(front) + forest_weight(back),
    decreases back.len(),
{
    if back.len() == 0 {
        assert(front + back == front);
    } else {
        assert((front + back).drop_last() == front + back.drop_last());
        lemma_forest_weight_concat(front, back.drop_last());
    }
}

/// The leaves of two queues, one behind the other, are those of the first
/// followed by those of the second.
pub proof fn lemma_forest_leaves_concat<K>(front: Seq<Tree<K>>, back: Seq<Tree<K>>)
    ensures
        forest_leaves(front + back) == forest_leaves(front) + forest_leaves(back),
    decreases back.len(),
{
    if back.len() == 0 {
        assert(front + back == front);
        assert(forest_leaves(front) + forest_leaves(back) == forest_leaves(front));
    } else {
        assert((front + back).drop_last() == front + back.drop_last());
        lemma_forest_leaves_concat(front, back.drop_last());
        assert(forest_leaves(front) + (forest_leaves(back.drop_last()) + back.last().leaves())
            == forest_leaves(front) + forest_leaves(back.drop_last()) + back.last().leaves());
    }
}

/// A queue of one tree weighs what the tree weighs and has its leaves.
pub proof fn lemma_forest_single<K>(node: Tree<K>)
    ensures
        forest_weight(seq![node]) == node.weight(),
        forest_leaves(seq![node]) == node.leaves(),
{
    let queue = seq![node];
    assert(queue.drop_last() =~= Seq::<Tree<K>>::empty());
    assert(queue.last() == node);
    assert(forest_weight(queue.drop_last()) == 0);
    assert(forest_leaves(queue.drop_last()) =~= Seq::<(K, u64)>::empty());
    assert(forest_leaves(queue) =~= node.leaves());
}

/// A tree that enters a queue adds its weight and its leaves to the
/// queue's, and leaves the trees well formed if it is so itself.
pub proof fn lemma_enqueued<K>(queue: Seq<Tree<K>>, node: Tree<K>)
    ensures
        enqueued(queue, node).len() == queue.len() + 1,
        forest_weight(enqueued(queue, node)) == forest_weight(queue) + node.weight(),
        forest_leaves(enqueued(queue, node)).to_multiset() == forest_leaves(
            queue,
        ).to_multiset().add(node.leaves().to_multiset()),
        forest_wf(queue) && node.wf() ==> forest_wf(enqueued(queue, node)),
{
    let at = insert_position(queue, node.weight());
    lemma_insert_position_bounds(queue, node.weight());
    let front = queue.take(at);
    let back = queue.skip(at);
    let after = enqueued(queue, node);
    assert(queue == front + back);
    assert(after =~= front + seq![node] + back);
    lemma_forest_single(node);
    lemma_forest_weight_concat(front, back);
    lemma_forest_weight_concat(front, seq![node]);
    lemma_forest_weight_concat(front + seq![node], back);
    lemma_forest_leaves_concat(front, back);
    lemma_forest_leaves_concat(front, seq![node]);
    lemma_forest_leaves_concat(front + seq![node], back);
    lemma_multiset_commutative(forest_leaves(front), forest_leaves(back));
    lemma_multiset_commutative(forest_leaves(front), node.leaves());
    lemma_multiset_commutative(forest_leaves(front) + node.leaves(), forest_leaves(back));
    assert(forest_leaves(after).to_multiset() =~= forest_leaves(queue).to_multiset().add(
        node.leaves().to_multiset(),
    ));
    if forest_wf(queue) && node.wf() {
        assert forall|i: int| 0 <= i < after.len() implies (#[trigger] after[i]).wf() by {
            if i < at {
                assert(after[i] == queue[i]);
            } else if i > at {
                assert(after[i] == queue[i - 1]);
            }
        }
    }
}

/// The two trees at the front of a queue account for their part of its
/// weight and of its leaves.
pub proof fn lemma_front_two<K>(queue: Seq<Tree<K>>)
    requires
        queue.len() >= 2,
    ensures
        forest_weight(queue) == queue[0].weight() + queue[1].weight() + forest_weight(
            queue.skip(2),
        ),
        forest_leaves(queue) == queue[0].leaves() + queue[1].leaves() + forest_leaves(
            queue.skip(2),
        ),
        forest_wf(queue) ==> forest_wf(queue.skip(2)),
{
    let front = seq![queue[0], queue[1]];
    assert(queue =~= front + queue.skip(2));
    assert(front =~= seq![queue[0]] + seq![queue[1]]);
    lemma_forest_weight_concat(front, queue.skip(2));
    lemma_forest_leaves_concat(front, queue.skip(2));
    lemma_forest_weight_concat(seq![queue[0]], seq![queue[1]]);
    lemma_forest_leaves_concat(seq![queue[0]], seq![queue[1]]);
    lemma_forest_single(queue[0]);
    lemma_forest_single(queue[1]);
    if forest_wf(queue) {
        assert forall|i: int| 0 <= i < queue.skip(2).len() implies (#[trigger] queue.skip(
            2,
        )[i]).wf() by {
            assert(queue.skip(2)[i] == queue[i + 2]);
        }
    }
}

/// Merging a queue of well-formed trees gives a well-formed tree that
/// weighs as much as the queue and has the queue's leaves.
pub proof fn lemma_merge_all<K>(queue: Seq<Tree<K>>)
    requires
        queue.len() >= 1,
        forest_wf(queue),
        forest_weight(queue) <= u64::MAX,
    ensures
        merge_all(queue).wf(),
        merge_all(queue).weight() == forest_weight(queue),
        merge_all(queue).leaves().to_multiset() == forest_leaves(queue).to_multiset(),
    decreases queue.len(),
{
    if queue.len() == 1 {
        assert(queue =~= seq![queue[0]]);
        lemma_forest_single(queue[0]);
    } else {
        let node = joined(queue[0], queue[1]);
        let rest = queue.skip(2);
        lemma_front_two(queue);
        assert(queue[0].wf() && queue[1].wf());
        lemma_enqueued(rest, node);
        lemma_merge_all(enqueued(rest, node));
        lemma_multiset_commutative(queue[0].leaves() + queue[1].leaves(), forest_leaves(rest));
        assert(merge_all(queue).leaves().to_multiset() =~= forest_leaves(queue).to_multiset());
    }
}

/// The queue of the leaves holds one well-formed tree for each entry, and
/// weighs what the entries count together.
pub proof fn lemma_leaf_queue(entries: Seq<Entry>)
    ensures
        leaf_queue(entries).len() == entries.len(),
        forest_wf(leaf_queue(entries)),
        forest_weight(leaf_queue(entries)) == total_of(entries),
        forest_leaves(leaf_queue(entries)).to_multiset() == entries.to_multiset(),
    decreases entries.len(),
{
    broadcast use vstd::seq_lib::group_to_multiset_ensures;

    if entries.len() > 0 {
        let leaf = Tree::Leaf { freq: entries.last().1, token: entries.last().0 };
        lemma_leaf_queue(entries.drop_last());
        lemma_enqueued(leaf_queue(entries.drop_last()), leaf);
        assert(leaf.leaves() == seq![entries.last()]);
        assert(entries == entries.drop_last().push(entries.last()));
        assert(seq![entries.last()] == Seq::<Entry>::empty().push(entries.last()));
        assert(forest_leaves(leaf_queue(entries)).to_multiset() =~= entries.to_multiset());
    }
}

/// A tree has one inner node less than it has leaves.
pub proof fn lemma_inner_nodes<K>(tree: Tree<K>)
    ensures
        tree.inner_nodes() + 1 == tree.leaves().len(),
    decreases tree,
{
    match tree {
        Tree::Leaf { .. } => {},
        Tree::Node { left, right, .. } => {
            lemma_inner_nodes(*left);
            lemma_inner_nodes(*right);
        },
    }
}

/// What holds of the Huffman tree of a frequency map with at least one
/// entry: every inner node weighs what its subtrees weigh, the root weighs
/// what all tokens count together, the leaves are the entries, each once,
/// and there is one inner node less than there are entries.
pub proof fn lemma_huffman_of(entries: Seq<Entry>)
    requires
        entries.len() > 0,
        total_of(entries) <= u64::MAX,
    ensures
        huffman_of(entries).wf(),
        huffman_of(entries).weight() == total_of(entries),
        huffman_of(entries).leaves().to_multiset() == entries.to_multiset(),
        huffman_of(entries).leaves().len() == entries.len(),
        huffman_of(entries).inner_nodes() == entries.len() - 1,
{
    broadcast use vstd::seq_lib::group_to_multiset_ensures;

    lemma_leaf_queue(entries);
    lemma_merge_all(leaf_queue(entries));
    lemma_inner_nodes(huffman_of(entries));
    assert(huffman_of(entries).leaves().to_multiset().len() == huffman_of(entries).leaves().len());
    assert(entries.to_multiset().len() == entries.len());
}

/// Two queues as one, lightest first: of the two trees at the fronts the
/// lighter comes first, and of equals the one of `first`.
pub open spec fn interleaved<K>(first: Seq<Tree<K>>, second: Seq<Tree<K>>) -> Seq<Tree<K>>
    decreases first.len() + second.len(),
{
    if first.len() == 0 {
        second
    } else if second.len() == 0 {
        first
    } else if first[0].weight() <= second[0].weight() {
        seq![first[0]] + interleaved(first.drop_first(), second)
    } else {
        seq![second[0]] + interleaved(first, second.drop_first())
    }
}

/// No tree of the queue is heavier than one behind it.
pub open spec fn ordered<K>(queue: Seq<Tree<K>>) -> bool {
    forall|i: int, j: int| 0 <= i < j < queue.len() ==> queue[i].weight() <= queue[j].weight()
}

/// A tree enters a queue behind its front tree if that is no heavier, and
/// before it otherwise.
pub proof fn lemma_enqueued_front<K>(queue: Seq<Tree<K>>, node: Tree<K>)
    requires
        queue.len() > 0,
    ensures
        queue[0].weight() <= node.weight() ==> enqueued(queue, node) == seq![queue[0]] + enqueued(
            queue.drop_first(),
            node,
        ),
        queue[0].weight() > node.weight() ==> enqueued(queue, node) == seq![node] + queue,
{
    lemma_insert_position_bounds(queue.drop_first(), node.weight());
    if queue[0].weight() <= node.weight() {
        assert(enqueued(queue, node) =~= seq![queue[0]] + enqueued(queue.drop_first(), node));
    } else {
        assert(enqueued(queue, node) =~= seq![node] + queue);
    }
}

/// A tree that is no lighter than any tree of the queue enters at its end.
pub proof fn lemma_enqueued_last<K>(queue: Seq<Tree<K>>, node: Tree<K>)
    requires
        forall|k: int| 0 <= k < queue.len() ==> queue[k].weight() <= node.weight(),
    ensures
        enqueued(queue, node) == queue.push(node),
    decreases queue.len(),
{
    if queue.len() == 0 {
        assert(enqueued(queue, node) =~= queue.push(node));
    } else {
        lemma_enqueued_front(queue, node);
        assert forall|k: int| 0 <= k < queue.drop_first().len() implies queue.drop_first()[k].weight()
            <= node.weight() by {
            assert(queue.drop_first()[k] == queue[k + 1]);
        }
        lemma_enqueued_last(queue.drop_first(), node);
        assert(seq![queue[0]] + queue.drop_first().push(node) =~= queue.push(node));
    }
}

/// An ordered queue stays ordered when a tree enters it.
pub proof fn lemma_enqueued_ordered<K>(queue: Seq<Tree<K>>, node: Tree<K>)
    requires
        ordered(queue),
    ensures
        ordered(enqueued(queue, node)),
    decreases queue.len(),
{
    if queue.len() == 0 {
        lemma_enqueued_last(queue, node);
    } else {
        let rest = queue.drop_first();
        lemma_enqueued_front(queue, node);
        let after = enqueued(queue, node);
        if queue[0].weight() <= node.weight() {
            assert(ordered(rest)) by {
                assert forall|i: int, j: int| 0 <= i < j < rest.len() implies rest[i].weight()
                    <= rest[j].weight() by {
                    assert(rest[i] == queue[i + 1] && rest[j] == queue[j + 1]);
                }
            }
            lemma_enqueued_ordered(rest, node);
            lemma_enqueued(rest, node);
            lemma_enqueued_members(rest, node);
            let tail = enqueued(rest, node);
            assert forall|i: int, j: int| 0 <= i < j < after.len() implies after[i].weight()
                <= after[j].weight() by {
                if i == 0 {
                    assert(after[j] == tail[j - 1]);
                    if tail[j - 1] != node {
                        let k = choose|k: int| 0 <= k < rest.len() && rest[k] == tail[j - 1];
                        assert(rest[k] == queue[k + 1]);
                    }
                } else {
                    assert(after[i] == tail[i - 1] && after[j] == tail[j - 1]);
                }
            }
        } else {
            assert forall|i: int, j: int| 0 <= i < j < after.len() implies after[i].weight()
                <= after[j].weight() by {
                if i == 0 {
                    assert(after[j] == queue[j - 1]);
                } else {
                    assert(after[i] == queue[i - 1] && after[j] == queue[j - 1]);
                }
            }
        }
    }
}

/// The trees of a queue that a tree has entered are that tree and those of
/// the queue before.
pub proof fn lemma_enqueued_members<K>(queue: Seq<Tree<K>>, node: Tree<K>)
    ensures
        forall|i: int|
            0 <= i < enqueued(queue, node).len() ==> #[trigger] enqueued(queue, node)[i] == node
                || exists|k: int| 0 <= k < queue.len() && queue[k] == enqueued(queue, node)[i],
{
    let at = insert_position(queue, node.weight());
    lemma_insert_position_bounds(queue, node.weight());
    let after = enqueued(queue, node);
    assert forall|i: int| 0 <= i < after.len() implies #[trigger] after[i] == node || exists|
        k: int,
    | 0 <= k < queue.len() && queue[k] == after[i] by {
        if i < at {
            assert(queue[i] == after[i]);
        } else if i > at {
            assert(queue[i - 1] == after[i]);
        }
    }
}

/// The queue of the leaves is ordered.
pub proof fn lemma_leaf_queue_ordered<K>(entries: Seq<(K, u64)>)
    ensures
        ordered(leaf_queue(entries)),
    decreases entries.len(),
{
    if entries.len() > 0 {
        lemma_leaf_queue_ordered(entries.drop_last());
        lemma_enqueued_ordered(
            leaf_queue(entries.drop_last()),
            Tree::Leaf { freq: entries.last().1, token: entries.last().0 },
        );
    }
}

/// A queue interleaved with an empty one is the queue.
pub proof fn lemma_interleaved_empty<K>(queue: Seq<Tree<K>>)
    ensures
        interleaved(queue, Seq::empty()) == queue,
        interleaved(Seq::empty(), queue) == queue,
        interleaved(queue, Seq::<Tree<K>>::empty()).len() == queue.len(),
{
}

/// Two queues interleaved have the trees of both.
pub proof fn lemma_interleaved_len<K>(first: Seq<Tree<K>>, second: Seq<Tree<K>>)
    ensures
        interleaved(first, second).len() == first.len() + second.len(),
    decreases first.len() + second.len(),
{
    if first.len() > 0 && second.len() > 0 {
        if first[0].weight() <= second[0].weight() {
            lemma_interleaved_len(first.drop_first(), second);
        } else {
            lemma_interleaved_len(first, second.drop_first());
        }
    }
}

/// A tree may enter the second of two queues before they are interleaved,
/// or the interleaved queue: the outcome is the same.
pub proof fn lemma_interleaved_enqueued<K>(
    first: Seq<Tree<K>>,
    second: Seq<Tree<K>>,
    node: Tree<K>,
)
    ensures
        interleaved(first, enqueued(second, node)) == enqueued(interleaved(first, second), node),
    decreases first.len() + second.len(),
{
    let entered = enqueued(second, node);
    lemma_enqueued(second, node);
    if first.len() == 0 {
    } else if second.len() == 0 {
        lemma_enqueued_last(second, node);
        assert(entered =~= seq![node]);
        assert(entered.drop_first() =~= Seq::<Tree<K>>::empty());
        lemma_enqueued_front(first, node);
        if first[0].weight() <= node.weight() {
            lemma_interleaved_enqueued(first.drop_first(), second, node);
            lemma_interleaved_empty(first.drop_first());
        } else {
            lemma_interleaved_empty(first);
        }
    } else {
        lemma_enqueued_front(second, node);
        lemma_interleaved_len(first, second);
        lemma_enqueued_front(interleaved(first, second), node);
        if first[0].weight() <= second[0].weight() {
            let rest = interleaved(first.drop_first(), second);
            assert(interleaved(first, second).drop_first() =~= rest);
            if first[0].weight() <= node.weight() {
                lemma_interleaved_enqueued(first.drop_first(), second, node);
            } else {
                assert(entered.drop_first() =~= second);
            }
        } else {
            let rest = interleaved(first, second.drop_first());
            assert(interleaved(first, second).drop_first() =~= rest);
            if second[0].weight() <= node.weight() {
                lemma_interleaved_enqueued(first, second.drop_first(), node);
                assert(entered.drop_first() =~= enqueued(second.drop_first(), node));
            } else {
                assert(entered.drop_first() =~= second);
            }
        }
    }
}

/// The leaves of two runs of entries may be queued run by run and the two
/// queues interleaved: that is the queue of the leaves of all the entries.
pub proof fn lemma_leaf_queue_concat<K>(first: Seq<(K, u64)>, second: Seq<(K, u64)>)
    ensures
        leaf_queue(first + second) == interleaved(leaf_queue(first), leaf_queue(second)),
    decreases second.len(),
{
    if second.len() == 0 {
        assert(first + second == first);
        lemma_interleaved_empty(leaf_queue(first));
    } else {
        let leaf = Tree::Leaf { freq: second.last().1, token: second.last().0 };
        assert((first + second).drop_last() == first + second.drop_last());
        lemma_leaf_queue_concat(first, second.drop_last());
        lemma_interleaved_enqueued(leaf_queue(first), leaf_queue(second.drop_last()), leaf);
    }
}

/// Interleaves two queues.
fn merge_queues<T: Token>(first: VecDeque<Tree<T>>, second: VecDeque<Tree<T>>) -> (merged:
    VecDeque<Tree<T>>)
    ensures
        views(merged@) == interleaved(views(first@), views(second@)),
{
    let ghost whole = interleaved(views(first@), views(second@));
    let mut first = first;
    let mut second = second;
    let mut merged: VecDeque<Tree<T>> = VecDeque::new();
    assert(views(merged@) + whole =~= whole);
    while first.len() > 0 && second.len() > 0
        invariant
            views(merged@) + interleaved(views(first@), views(second@)) == whole,
        decreases first.len() + second.len(),
    {
        let ghost done = views(merged@);
        let ghost one = views(first@);
        let ghost two = views(second@);
        if first[0].freq() <= second[0].freq() {
            if let Some(tree) = first.pop_front() {
                merged.push_back(tree);
            }
            assert(views(first@) =~= one.drop_first());
            assert(views(merged@) =~= done + seq![one[0]]);
            assert(done + seq![one[0]] + interleaved(one.drop_first(), two) =~= done + (seq![
                one[0],
            ] + interleaved(one.drop_first(), two)));
        } else {
            if let Some(tree) = second.pop_front() {
                merged.push_back(tree);
            }
            assert(views(second@) =~= two.drop_first());
            assert(views(merged@) =~= done + seq![two[0]]);
            assert(done + seq![two[0]] + interleaved(one, two.drop_first()) =~= done + (seq![
                two[0],
            ] + interleaved(one, two.drop_first())));
        }
    }
    let ghost done = views(merged@);
    let ghost one = views(first@);
    let ghost two = views(second@);
    merged.append(&mut first);
    merged.append(&mut second);
    proof {
        if one.len() == 0 {
            assert(views(merged@) =~= done + two);
        } else {
            assert(views(merged@) =~= done + one);
        }
    }
    merged
}

/// The queue of the leaves of the entries from `from` up to `to`, sorted by
/// halves.
fn sorted_leaves<T: Token>(freqs: &FrequencyMap<T>, from: usize, to: usize) -> (queue: VecDeque<
    Tree<T>,
>)
    requires
        from <= to <= freqs@.len(),
    ensures
        views(queue@) == leaf_queue(freqs@.subrange(from as int, to as int)),
    decreases to - from,
{
    let ghost run = freqs@.subrange(from as int, to as int);
    let mut queue: VecDeque<Tree<T>> = VecDeque::new();
    if to - from == 0 {
        assert(views(queue@) =~= leaf_queue(run));
        queue
    } else if to - from == 1 {
        let leaf = Tree::Leaf { freq: freqs.count_at(from), token: freqs.token_at(from).duplicate() };
        queue.push_back(leaf);
        proof {
            assert(run.drop_last() =~= Seq::<Entry>::empty());
            assert(run.last() == freqs@[from as int]);
            lemma_enqueued_last(leaf_queue(run.drop_last()), leaf@);
            assert(views(queue@) =~= leaf_queue(run));
        }
        queue
    } else {
        let middle = from + (to - from) / 2;
        let low = sorted_leaves(freqs, from, middle);
        let high = sorted_leaves(freqs, middle, to);
        proof {
            let head = freqs@.subrange(from as int, middle as int);
            let tail = freqs@.subrange(middle as int, to as int);
            assert(head + tail =~= run);
            lemma_leaf_queue_concat(head, tail);
        }
        merge_queues(low, high)
    }
}

/// Takes the lightest tree off two ordered queues, which together hold at
/// least one: the lighter of the two at their fronts, and of equals that of
/// `leaves`.
fn pop_lightest<T: Token>(leaves: &mut VecDeque<Tree<T>>, nodes: &mut VecDeque<Tree<T>>) -> (tree:
    Tree<T>)
    requires
        old(leaves)@.len() + old(nodes)@.len() > 0,
    ensures
        tree@ == interleaved(views(old(leaves)@), views(old(nodes)@))[0],
        interleaved(views(final(leaves)@), views(final(nodes)@)) == interleaved(
            views(old(leaves)@),
            views(old(nodes)@),
        ).drop_first(),
        final(leaves)@.len() + final(nodes)@.len() + 1 == old(leaves)@.len() + old(nodes)@.len(),
        final(nodes)@.len() <= old(nodes)@.len(),
        forall|k: int|
            0 <= k < final(nodes)@.len() ==> final(nodes)@[k] == old(nodes)@[k + old(nodes)@.len()
                - final(nodes)@.len()],
{
    let ghost one = views(leaves@);
    let ghost two = views(nodes@);
    let from_leaves = if leaves.len() == 0 {
        false
    } else if nodes.len() == 0 {
        true
    } else {
        leaves[0].freq() <= nodes[0].freq()
    };
    if from_leaves {
        let tree = leaves.pop_front().unwrap();
        proof {
            assert(views(leaves@) =~= one.drop_first());
            if two.len() == 0 {
                lemma_interleaved_empty(one.drop_first());
            } else {
                assert(interleaved(one, two).drop_first() =~= interleaved(one.drop_first(), two));
            }
        }
        tree
    } else {
        let tree = nodes.pop_front().unwrap();
        proof {
            assert(views(nodes@) =~= two.drop_first());
            if one.len() == 0 {
                lemma_interleaved_empty(two.drop_first());
            } else {
                assert(interleaved(one, two).drop_first() =~= interleaved(one, two.drop_first()));
            }
        }
        tree
    }
}

/// Builds the Huffman tree of a frequency map.
///
/// The leaves enter the queue in the order of the map's entries; among
/// trees of equal weight the one that entered the queue first is merged
/// first, and of the two trees merged the lighter, or of equals the earlier,
/// becomes the left subtree. No tree over the same counts has a smaller
/// weighted length.
///
/// The queue is kept in two parts, the leaves and the merged nodes. The
/// leaves are sorted once; the nodes come into being in the order of their
/// weights, so each new one goes to the end of its part.
pub fn huffman_tree<T: Token>(freqs: &FrequencyMap<T>) -> (tree: Result<Tree<T>, HuffmanError>)
    requires
        total_of(freqs@) <= u64::MAX,
    ensures
        freqs@.len() == 0 ==> tree == Err::<Tree<T>, HuffmanError>(HuffmanError::EmptyAlphabet),
        freqs@.len() > 0 ==> tree is Ok,
        tree matches Ok(t) ==> {
            &&& t@ == huffman_of(freqs@)
            &&& t@.wf()
            &&& t@.weight() == total_of(freqs@)
            &&& t@.leaves().to_multiset() == freqs@.to_multiset()
            &&& t@.inner_nodes() == freqs@.len() - 1
            &&& forall|other: Tree<Seq<char>>|
                leaf_weights(other).to_multiset() == counts(freqs@).to_multiset()
                    ==> weighted_length(t@) <= #[trigger] weighted_length(other)
        },
{
    if freqs.is_empty() {
        return Err(HuffmanError::EmptyAlphabet);
    }
    proof {
        assert forall|other: Tree<Seq<char>>|
            leaf_weights(other).to_multiset() == counts(freqs@).to_multiset() implies weighted_length(
            huffman_of(freqs@),
        ) <= #[trigger] weighted_length(other) by {
            lemma_huffman_optimal(freqs@, other);
        }
    }
    let mut remaining = freqs.len();
    let mut leaves = sorted_leaves(freqs, 0, remaining);
    let mut nodes: VecDeque<Tree<T>> = VecDeque::new();
    let ghost mut floor: nat = 0;
    proof {
        assert(freqs@.subrange(0, remaining as int) == freqs@);
        assert(views(nodes@) =~= Seq::<Tree<Seq<char>>>::empty());
        lemma_interleaved_empty(leaf_queue(freqs@));
        lemma_leaf_queue(freqs@);
        lemma_leaf_queue_ordered(freqs@);
        lemma_huffman_of(freqs@);
    }
    while remaining > 1
        invariant
            remaining >= 1,
            leaves@.len() + nodes@.len() == remaining,
            merge_all(interleaved(views(leaves@), views(nodes@))) == huffman_of(freqs@),
            ordered(interleaved(views(leaves@), views(nodes@))),
            forest_weight(interleaved(views(leaves@), views(nodes@))) <= u64::MAX,
            forall|i: int|
                0 <= i < interleaved(views(leaves@), views(nodes@)).len() ==> interleaved(
                    views(leaves@),
                    views(nodes@),
                )[i].weight() >= floor,
            forall|k: int| 0 <= k < nodes@.len() ==> (#[trigger] nodes@[k])@.weight() <= 2 * floor,
        decreases remaining,
    {
        let ghost queue = interleaved(views(leaves@), views(nodes@));
        let ghost before = nodes@;
        proof {
            lemma_interleaved_len(views(leaves@), views(nodes@));
            lemma_front_two(queue);
        }
        let first = pop_lightest(&mut leaves, &mut nodes);
        let ghost between = nodes@;
        proof {
            lemma_interleaved_len(views(leaves@), views(nodes@));
        }
        let second = pop_lightest(&mut leaves, &mut nodes);
        let ghost rest = interleaved(views(leaves@), views(nodes@));
        let ghost held = nodes@;
        proof {
            assert(rest =~= queue.skip(2));
            assert(first@ == queue[0] && second@ == queue[1]);
            assert forall|k: int| 0 <= k < between.len() implies (#[trigger] between[k])@.weight()
                <= 2 * floor by {
                assert(between[k] == before[k + before.len() - between.len()]);
            }
            assert forall|k: int| 0 <= k < held.len() implies (#[trigger] held[k])@.weight() <= 2
                * floor by {
                assert(held[k] == between[k + between.len() - held.len()]);
            }
        }
        let node = Tree::Node {
            freq: first.freq() + second.freq(),
            left: Box::new(first),
            right: Box::new(second),
        };
        nodes.push_back(node);
        proof {
            let joint = joined(queue[0], queue[1]);
            assert(node@ == joint);
            assert forall|k: int| 0 <= k < views(held).len() implies views(held)[k].weight()
                <= joint.weight() by {
                assert(held[k]@.weight() <= 2 * floor);
                assert(queue[0].weight() >= floor && queue[1].weight() >= floor);
            }
            lemma_enqueued_last(views(held), joint);
            assert(views(nodes@) =~= views(held).push(joint));
            lemma_interleaved_enqueued(views(leaves@), views(held), joint);
            lemma_enqueued(rest, joint);
            lemma_enqueued_members(rest, joint);
            assert(ordered(rest)) by {
                assert forall|i: int, j: int| 0 <= i < j < rest.len() implies rest[i].weight()
                    <= rest[j].weight() by {
                    assert(rest[i] == queue[i + 2] && rest[j] == queue[j + 2]);
                }
            }
            lemma_enqueued_ordered(rest, joint);
            let after = enqueued(rest, joint);
            let bound = queue[1].weight();
            assert forall|i: int| 0 <= i < after.len() implies after[i].weight() >= bound by {
                if after[i] != joint {
                    let k = choose|k: int| 0 <= k < rest.len() && rest[k] == after[i];
                    assert(rest[k] == queue[k + 2]);
                }
            }
            assert forall|k: int| 0 <= k < nodes@.len() implies (#[trigger] nodes@[k])@.weight()
                <= 2 * bound by {
                if k < held.len() {
                    assert(nodes@[k] == held[k]);
                }
                assert(queue[0].weight() <= queue[1].weight());
            }
            assert(bound >= floor);
            floor = bound;
        }
        remaining -= 1;
    }
    proof {
        lemma_interleaved_len(views(leaves@), views(nodes@));
    }
    let tree = pop_lightest(&mut leaves, &mut nodes);
    Ok(tree)
}

} // verus!
