//! A binomial heap: a priority queue of which two can be melted into one.

use crate::node::{
    at_least, at_most_two_of_a_degree, chain_ascending, chain_keys, chain_len, chain_ordered,
    chain_sorted, chain_trees, degree_count, has_root, lemma_chain_len_at_most_keys,
    lemma_roots_bound_all, lemma_sorted_has_none_below, Node, Siblings,
};
use vstd::multiset::Multiset;
use vstd::prelude::*;

verus! {

/// A multiset of keys from which the smallest can be taken.
#[derive(Debug)]
pub struct BinomialHeap {
    root_list: Option<Box<Node>>,
}

impl Default for BinomialHeap {
    /// A heap without keys.
    fn default() -> (heap: Self)
        ensures
            heap.wf(),
            heap@ == Multiset::<u64>::empty(),
    {
        Self::new()
    }
}

impl Clone for BinomialHeap {
    /// A heap of its own with the same keys.
    fn clone(&self) -> (copy: Self)
        ensures
            copy@ == self@,
            copy.wf() == self.wf(),
            copy.root_chain() == self.root_chain(),
    {
        Self {
            root_list: match &self.root_list {
                Some(head) => Some(Box::new((&**head).clone())),
                None => None,
            },
        }
    }
}

impl View for BinomialHeap {
    type V = Multiset<u64>;

    /// The keys in the heap, each as often as it was put in.
    closed spec fn view(&self) -> Multiset<u64> {
        chain_keys(self.root_list)
    }
}

/// Melts two chains into one by taking, as long as both have trees, the
/// first tree of the left chain if its degree is below that of the first tree of
/// the right chain, and the first tree of the right chain otherwise.
fn merge_chains(left: Option<Box<Node>>, right: Option<Box<Node>>) -> (merged: Option<Box<Node>>)
    requires
        chain_ordered(left),
        chain_ordered(right),
    ensures
        chain_ordered(merged),
        chain_keys(merged) == chain_keys(left).add(chain_keys(right)),
    decreases chain_len(left) + chain_len(right),
{
    if left.is_none() {
        proof {
            assert(chain_keys(right) =~= chain_keys(left).add(chain_keys(right)));
        }
        return right;
    }
    if right.is_none() {
        proof {
            assert(chain_keys(left) =~= chain_keys(left).add(chain_keys(right)));
        }
        return left;
    }
    let mut l = left.unwrap();
    let mut r = right.unwrap();
    if l.degree < r.degree {
        let rest = l.sibling.take();
        let tail = merge_chains(rest, Some(r));
        l.sibling = tail;
        let merged = Some(l);
        proof {
            assert(chain_keys(merged) =~= chain_keys(left).add(chain_keys(right)));
        }
        merged
    } else {
        let rest = r.sibling.take();
        let tail = merge_chains(Some(l), rest);
        r.sibling = tail;
        let merged = Some(r);
        proof {
            assert(chain_keys(merged) =~= chain_keys(left).add(chain_keys(right)));
        }
        merged
    }
}

/// Walks along a chain and links neighbours of equal degree, the larger
/// root below the smaller, unless a third tree of that degree follows. Of a
/// chain that comes sorted by degree, with no degree more than twice behind
/// its first tree, this leaves a chain of growing degrees; it starts above
/// the degree of the first tree where just two trees had that degree.
fn consolidate(head: Box<Node>) -> (merged: Box<Node>)
    requires
        head.list_ordered(),
        head.list_keys().len() <= usize::MAX,
    ensures
        merged.list_ordered(),
        merged.list_keys() == head.list_keys(),
        chain_sorted(Some(head), 0) && at_most_two_of_a_degree(head.sibling) ==> chain_ascending(
            Some(merged),
            head.degree as nat,
        ) && (degree_count(Some(head), head.degree as nat) == 2 ==> merged.degree > head.degree),
    decreases chain_len(head.sibling),
{
    let mut x = head;
    let sibling = x.sibling.take();
    if sibling.is_none() {
        proof {
            assert(degree_count(head.sibling, head.degree as nat) == 0);
            assert(chain_ascending(x.sibling, (head.degree + 1) as nat));
        }
        return x;
    }
    let mut next = sibling.unwrap();
    let ghost second = *next;
    let ghost sorted = chain_sorted(Some(head), 0) && at_most_two_of_a_degree(head.sibling);
    let ghost d = head.degree as nat;
    let repeats = match &next.sibling {
        Some(after) => after.degree == next.degree,
        None => false,
    };
    proof {
        lemma_chain_len_at_most_keys(x.child);
        lemma_chain_len_at_most_keys(next.child);
        assert(chain_keys(head.sibling) == next.list_keys());
        if sorted {
            assert(chain_sorted(head.sibling, d));
            assert(chain_sorted(second.sibling, second.degree as nat));
            assert forall|degree: nat| degree_count(second.sibling, degree) <= 2 by {
                assert(degree_count(head.sibling, degree) <= 2);
            }
            assert(degree_count(head.sibling, d) <= 2);
            assert(degree_count(Some(head), d) == 1 + degree_count(head.sibling, d));
            if second.degree > d {
                lemma_sorted_has_none_below(head.sibling, second.degree as nat, d);
            }
            if second.sibling is Some {
                let third = second.sibling.unwrap();
                assert(chain_sorted(third.sibling, third.degree as nat));
                assert(degree_count(second.sibling, d) == (if third.degree == d {
                    1nat
                } else {
                    0nat
                }) + degree_count(third.sibling, d));
            }
        }
    }
    if x.degree != next.degree || repeats {
        let tail = consolidate(next);
        x.sibling = Some(tail);
        proof {
            assert(chain_keys(x.sibling) == tail.list_keys());
            assert(x.list_keys() =~= head.list_keys());
            if sorted {
                assert(chain_sorted(Some(next), 0));
                assert(chain_ascending(Some(tail), second.degree as nat));
                assert(chain_ascending(Some(tail), d + 1));
                assert(chain_ascending(Some(x), d));
            }
        }
        x
    } else if x.key <= next.key {
        let ghost lower = *next;
        x.sibling = next.sibling.take();
        Node::link(&mut x, next);
        proof {
            assert(chain_keys(x.child) =~= lower.tree_keys().add(chain_keys(head.child)));
            assert(chain_len(x.child) == 1 + chain_len(head.child));
            assert(chain_ordered(x.child));
            assert(x.list_keys() =~= head.list_keys());
            if sorted {
                assert(chain_sorted(x.sibling, d + 1));
                assert(chain_sorted(Some(x), 0));
            }
        }
        let merged = consolidate(x);
        proof {
            if sorted {
                assert(chain_ascending(Some(merged), d + 1));
                assert(chain_ascending(Some(merged), d));
            }
        }
        merged
    } else {
        let ghost upper = *next;
        Node::link(&mut next, x);
        proof {
            assert(chain_keys(next.child) =~= head.tree_keys().add(chain_keys(upper.child)));
            assert(chain_len(next.child) == 1 + chain_len(upper.child));
            assert(chain_ordered(next.child));
            assert(next.list_keys() =~= head.list_keys());
            if sorted {
                assert(chain_sorted(next.sibling, d + 1));
                assert(chain_sorted(Some(next), 0));
            }
        }
        let merged = consolidate(next);
        proof {
            if sorted {
                assert(chain_ascending(Some(merged), d + 1));
                assert(chain_ascending(Some(merged), d));
            }
        }
        merged
    }
}

/// Takes the first tree with `key` at its root out of a chain.
fn remove_root(head: Box<Node>, key: u64) -> (parts: (Box<Node>, Option<Box<Node>>))
    requires
        head.list_ordered(),
        head.key == key || has_root(head.sibling, key),
    ensures
        parts.0.key == key,
        parts.0.sibling is None,
        parts.0.tree_ordered(),
        chain_ordered(parts.1),
        head.list_keys() == parts.0.tree_keys().add(chain_keys(parts.1)),
    decreases chain_len(head.sibling),
{
    let mut node = head;
    let rest = node.sibling.take();
    if node.key == key {
        return (node, rest);
    }
    let next = rest.unwrap();
    proof {
        assert(chain_keys(head.sibling) == next.list_keys());
    }
    let (found, remaining) = remove_root(next, key);
    node.sibling = remaining;
    let others = Some(node);
    proof {
        assert(head.list_keys() =~= found.tree_keys().add(chain_keys(others)));
    }
    (found, others)
}

/// Replacing `key` by `new_value` in a part of a multiset replaces it in
/// the whole.
proof fn lemma_lowering_extends(
    part: Multiset<u64>,
    lowered: Multiset<u64>,
    rest: Multiset<u64>,
    key: u64,
    new_value: u64,
)
    requires
        part.count(key) > 0,
        lowered == part.remove(key).insert(new_value),
    ensures
        lowered.add(rest) == part.add(rest).remove(key).insert(new_value),
{
    assert(lowered.add(rest) =~= part.add(rest).remove(key).insert(new_value));
}

/// A tree in which `key` was lowered, seen from the key `top` above it: its
/// root `risen` changes places with `top` if it has come to be the smaller.
/// `above` and `root` are the two keys after that.
proof fn lemma_lowered_below(
    top: u64,
    tree: Multiset<u64>,
    risen: u64,
    children: Multiset<u64>,
    siblings: Multiset<u64>,
    key: u64,
    new_value: u64,
    above: u64,
    root: u64,
)
    requires
        at_least(tree.add(siblings), top),
        tree.count(key) > 0,
        new_value < key,
        Multiset::singleton(risen).add(children) == tree.remove(key).insert(new_value),
        at_least(children, risen),
        risen < top ==> above == risen && root == top,
        risen >= top ==> above == top && root == risen,
    ensures
        above <= top,
        at_least(children, root),
        at_least(Multiset::singleton(root).add(children).add(siblings), above),
        Multiset::singleton(above).add(Multiset::singleton(root).add(children).add(siblings))
            == Multiset::singleton(top).add(tree.add(siblings)).remove(key).insert(new_value),
{
    let lowered = Multiset::singleton(risen).add(children);
    assert forall|k: u64| tree.count(k) > 0 implies top <= k by {
        assert(tree.add(siblings).count(k) > 0);
    }
    assert forall|k: u64| siblings.count(k) > 0 implies top <= k by {
        assert(tree.add(siblings).count(k) > 0);
    }
    assert forall|k: u64| k < top && lowered.count(k) > 0 implies k == new_value && lowered.count(k)
        == 1 by {
        assert(tree.count(k) == 0);
    }
    assert(lowered.count(risen) > 0);
    assert forall|k: u64| children.count(k) > 0 implies root <= k by {
        if risen < top && k < top {
            assert(lowered.count(k) > 0);
            assert(lowered.count(k) == Multiset::singleton(risen).count(k) + children.count(k));
        }
    }
    lemma_lowering_extends(
        tree,
        lowered,
        Multiset::singleton(top).add(siblings),
        key,
        new_value,
    );
    assert(Multiset::singleton(above).add(Multiset::singleton(root).add(children).add(siblings))
        =~= lowered.add(Multiset::singleton(top).add(siblings)));
    assert(Multiset::singleton(top).add(tree.add(siblings)) =~= tree.add(
        Multiset::singleton(top).add(siblings),
    ));
}

/// A chain in which `key` was lowered behind its first tree, seen from the
/// key `top` above it.
proof fn lemma_lowered_beside(
    top: u64,
    tree: Multiset<u64>,
    siblings: Multiset<u64>,
    lowered: Multiset<u64>,
    key: u64,
    new_value: u64,
    above: u64,
)
    requires
        at_least(tree.add(siblings), top),
        siblings.count(key) > 0,
        above <= top,
        at_least(lowered, above),
        Multiset::singleton(above).add(lowered) == Multiset::singleton(top).add(siblings).remove(
            key,
        ).insert(new_value),
    ensures
        at_least(tree.add(lowered), above),
        Multiset::singleton(above).add(tree.add(lowered)) == Multiset::singleton(top).add(
            tree.add(siblings),
        ).remove(key).insert(new_value),
{
    assert forall|k: u64| tree.count(k) > 0 implies top <= k by {
        assert(tree.add(siblings).count(k) > 0);
    }
    lemma_lowering_extends(
        Multiset::singleton(top).add(siblings),
        Multiset::singleton(above).add(lowered),
        tree,
        key,
        new_value,
    );
    assert(Multiset::singleton(above).add(tree.add(lowered)) =~= Multiset::singleton(above).add(
        lowered,
    ).add(tree));
    assert(Multiset::singleton(top).add(tree.add(siblings)) =~= Multiset::singleton(top).add(
        siblings,
    ).add(tree));
}

/// Looks for a node with key `key`, tree by tree and in each tree from the
/// root down, and gives the first one found the key `new_value`. On the way
/// back up a key that has come to stand below a larger one changes places with
/// it; `above` is the key over the whole chain.
fn lower_in_chain(chain: Option<Box<Node>>, above: &mut u64, key: u64, new_value: u64) -> (result:
    (Option<Box<Node>>, bool))
    requires
        chain_ordered(chain),
        at_least(chain_keys(chain), *old(above)),
        new_value < key,
    ensures
        chain_ordered(result.0),
        chain_len(result.0) == chain_len(chain),
        at_least(chain_keys(result.0), *final(above)),
        *final(above) <= *old(above),
        result.1 == (chain_keys(chain).count(key) > 0),
        !result.1 ==> result.0 == chain && *final(above) == *old(above),
        result.1 ==> Multiset::singleton(*final(above)).add(chain_keys(result.0))
            == Multiset::singleton(*old(above)).add(chain_keys(chain)).remove(key).insert(
            new_value,
        ),
    decreases chain,
{
    if chain.is_none() {
        return (chain, false);
    }
    let mut node = chain.unwrap();
    let ghost before = *node;
    let ghost top = *above;
    let ghost tree = Multiset::singleton(before.key).add(chain_keys(before.child));
    let ghost siblings = chain_keys(before.sibling);
    proof {
        assert(chain_keys(chain) == tree.add(siblings));
        assert forall|k: u64| chain_keys(before.child).count(k) > 0 implies top <= k by {
            assert(chain_keys(chain).count(k) > 0);
        }
        assert forall|k: u64| siblings.count(k) > 0 implies top <= k by {
            assert(chain_keys(chain).count(k) > 0);
        }
    }
    let found = if node.key == key {
        node.key = new_value;
        proof {
            assert(Multiset::singleton(node.key).add(chain_keys(node.child)) =~= tree.remove(
                key,
            ).insert(new_value));
        }
        true
    } else {
        let children = node.child.take();
        let (lowered, below) = lower_in_chain(children, &mut node.key, key, new_value);
        node.child = lowered;
        below
    };
    if found {
        let ghost risen = node.key;
        if node.key < *above {
            core::mem::swap(&mut node.key, above);
        }
        let result = Some(node);
        proof {
            lemma_lowered_below(
                top,
                tree,
                risen,
                chain_keys(node.child),
                siblings,
                key,
                new_value,
                *above,
                node.key,
            );
            assert(chain_keys(result) == Multiset::singleton(node.key).add(
                chain_keys(node.child),
            ).add(siblings));
        }
        (result, true)
    } else {
        let rest = node.sibling.take();
        let (others, beside) = lower_in_chain(rest, above, key, new_value);
        node.sibling = others;
        let result = Some(node);
        proof {
            assert(chain_keys(result) == tree.add(chain_keys(others)));
            if beside {
                lemma_lowered_beside(
                    top,
                    tree,
                    siblings,
                    chain_keys(others),
                    key,
                    new_value,
                    *above,
                );
            }
        }
        (result, beside)
    }
}

impl BinomialHeap {
    /// The trees are in heap order, every node counts its children in
    /// `degree`, and the number of keys fits in a `usize`.
    pub closed spec fn wf(&self) -> bool {
        &&& chain_ordered(self.root_list)
        &&& chain_keys(self.root_list).len() <= usize::MAX
    }

    /// The chain of trees that the heap is made of; their keys are the
    /// keys of the heap.
    pub closed spec fn root_chain(&self) -> Option<Box<Node>> {
        self.root_list
    }

    /// The keys of the heap are the keys of its chain of trees.
    pub proof fn lemma_keys_of_root_chain(&self)
        ensures
            self@ == chain_keys(self.root_chain()),
            self.wf() ==> chain_ordered(self.root_chain()),
    {
    }

    /// A heap without keys.
    pub fn new() -> (heap: Self)
        ensures
            heap.wf(),
            heap@ == Multiset::<u64>::empty(),
    {
        Self { root_list: None }
    }

    /// Moves every key of `other` into this heap.
    pub fn union(&mut self, other: Self)
        requires
            old(self).wf(),
            other.wf(),
            old(self)@.len() + other@.len() <= usize::MAX,
        ensures
            final(self).wf(),
            final(self)@ == old(self)@.add(other@),
    {
        self.merge(other);
        let merged = self.root_list.take();
        if merged.is_some() {
            let head = merged.unwrap();
            proof {
                assert(chain_keys(merged) == head.list_keys());
            }
            let consolidated = consolidate(head);
            self.root_list = Some(consolidated);
            proof {
                assert(chain_keys(self.root_list) == consolidated.list_keys());
            }
        }
    }

    /// Puts `value` into the heap.
    pub fn insert(&mut self, value: u64)
        requires
            old(self).wf(),
            old(self)@.len() < usize::MAX,
        ensures
            final(self).wf(),
            final(self)@ == old(self)@.insert(value),
    {
        let node = Node::wrapped(value);
        let single = Self { root_list: Some(node) };
        proof {
            let lone = single.root_list.unwrap();
            assert(chain_keys(lone.child) =~= Multiset::empty());
            assert(chain_keys(lone.sibling) =~= Multiset::empty());
            assert(chain_len(lone.child) == 0);
            assert(chain_ordered(lone.child) && chain_ordered(lone.sibling));
            assert(single@ =~= Multiset::singleton(value));
            assert(old(self)@.insert(value) =~= old(self)@.add(single@));
        }
        self.union(single);
    }

    /// Turns the chain of roots round: the last tree comes first and the
    /// first last, each with the children it had.
    fn reverse(&mut self)
        requires
            chain_ordered(old(self).root_list),
        ensures
            chain_ordered(final(self).root_list),
            chain_keys(final(self).root_list) == chain_keys(old(self).root_list),
            chain_trees(final(self).root_list) == chain_trees(old(self).root_list).reverse(),
    {
        let mut last: Option<Box<Node>> = None;
        let mut cursor = self.root_list.take();
        let ghost trees = chain_trees(old(self).root_list);
        proof {
            assert(chain_trees(last).reverse().add(chain_trees(cursor)) =~= trees);
        }
        while cursor.is_some()
            invariant
                chain_ordered(last),
                chain_ordered(cursor),
                chain_keys(last).add(chain_keys(cursor)) == chain_keys(old(self).root_list),
                chain_trees(last).reverse().add(chain_trees(cursor)) == trees,
            decreases chain_len(cursor),
        {
            let ghost before_last = last;
            let ghost before_cursor = cursor;
            let mut node = cursor.unwrap();
            cursor = node.sibling.take();
            node.sibling = last;
            last = Some(node);
            proof {
                assert(chain_keys(last).add(chain_keys(cursor)) =~= chain_keys(before_last).add(
                    chain_keys(before_cursor),
                ));
                let tree = Node {
                    key: node.key,
                    degree: node.degree,
                    sibling: None,
                    child: node.child,
                };
                assert(chain_trees(last) == seq![tree].add(chain_trees(before_last)));
                assert(chain_trees(before_cursor) == seq![tree].add(chain_trees(cursor)));
                assert(chain_trees(last).reverse() =~= chain_trees(before_last).reverse().add(
                    seq![tree],
                ));
                assert(chain_trees(last).reverse().add(chain_trees(cursor)) =~= chain_trees(
                    before_last,
                ).reverse().add(chain_trees(before_cursor)));
            }
        }
        proof {
            assert(chain_keys(last) =~= chain_keys(last).add(chain_keys(cursor)));
            assert(chain_trees(cursor) =~= Seq::<Node>::empty());
            assert(chain_trees(last).reverse() =~= trees);
            assert(chain_trees(last) =~= trees.reverse());
        }
        self.root_list = last;
    }

    /// Takes the smallest key out of the heap.
    pub fn extract_min(&mut self) -> (min: Option<u64>)
        requires
            old(self).wf(),
        ensures
            final(self).wf(),
            match min {
                None => old(self)@.len() == 0 && final(self)@ == old(self)@,
                Some(key) => old(self)@.count(key) > 0 && at_least(old(self)@, key)
                    && final(self)@ == old(self)@.remove(key),
            },
    {
        let mut min = match self.extract_min_root() {
            Some(min) => min,
            None => {
                return None;
            },
        };
        let ghost taken = *min;
        let ghost left = self@;
        let children = min.child.take();
        if children.is_some() {
            let mut orphaned = Self { root_list: children };
            orphaned.reverse();
            self.union(orphaned);
        }
        proof {
            assert(self@ =~= left.add(chain_keys(taken.child)));
            assert(self@ =~= old(self)@.remove(min.key));
        }
        Some(min.key)
    }

    /// Takes the tree with the smallest root out of the chain of roots,
    /// the first of them if there are several.
    pub fn extract_min_root(&mut self) -> (min: Option<Box<Node>>)
        requires
            old(self).wf(),
        ensures
            final(self).wf(),
            match min {
                None => old(self)@.len() == 0 && final(self)@ == old(self)@,
                Some(node) => node.sibling is None && node.tree_ordered() && at_least(
                    old(self)@,
                    node.key,
                ) && old(self)@ == final(self)@.add(node.tree_keys()),
            },
    {
        let mut roots = self.roots();
        let first = match roots.next() {
            Some(first) => first,
            None => {
                return None;
            },
        };
        let mut min_key = first.key;
        proof {
            let head = self.root_list.unwrap();
            assert forall|k: u64|
                roots.has_root(k) == has_root(head.sibling, k) && has_root(self.root_list, k) == (
                head.key == k || has_root(head.sibling, k)) by {
                match head.sibling {
                    Some(second) => {
                        assert(has_root(head.sibling, k) == (second.key == k || has_root(
                            second.sibling,
                            k,
                        )));
                    },
                    None => {},
                }
            }
        }
        loop
            invariant
                has_root(self.root_list, min_key),
                forall|k: u64| #[trigger]
                    has_root(self.root_list, k) ==> min_key <= k || roots.has_root(k),
                forall|k: u64| #[trigger] roots.has_root(k) ==> has_root(self.root_list, k),
            ensures
                has_root(self.root_list, min_key),
                forall|k: u64| has_root(self.root_list, k) ==> min_key <= k,
            decreases roots.remaining(),
        {
            let ghost before = roots;
            match roots.next() {
                Some(current) => {
                    if current.key < min_key {
                        proof {
                            assert(before.has_root(current.key));
                            assert(has_root(self.root_list, current.key));
                        }
                        min_key = current.key;
                    }
                    proof {
                        assert forall|k: u64| #[trigger]
                            has_root(self.root_list, k) implies min_key <= k || roots.has_root(
                            k,
                        ) by {
                            if before.has_root(k) {
                            }
                        }
                        assert forall|k: u64| #[trigger] roots.has_root(k) implies has_root(
                            self.root_list,
                            k,
                        ) by {
                            assert(before.has_root(k));
                        }
                    }
                },
                None => {
                    break ;
                },
            }
        }
        proof {
            lemma_roots_bound_all(self.root_list, min_key);
        }
        let head = self.root_list.take().unwrap();
        proof {
            assert(chain_keys(old(self).root_list) == head.list_keys());
        }
        let (min, rest) = remove_root(head, min_key);
        self.root_list = rest;
        Some(min)
    }

    /// Gives one node that holds `key` the smaller key `new_value` and
    /// moves that key up as far as the heap order asks. A key that the heap
    /// does not hold leaves it as it is.
    pub fn decrease_key(&mut self, key: u64, new_value: u64)
        requires
            old(self).wf(),
            new_value < key,
        ensures
            final(self).wf(),
            final(self)@ == if old(self)@.count(key) > 0 {
                old(self)@.remove(key).insert(new_value)
            } else {
                old(self)@
            },
    {
        let roots = self.root_list.take();
        let mut floor: u64 = 0;
        let (lowered, found) = lower_in_chain(roots, &mut floor, key, new_value);
        self.root_list = lowered;
        proof {
            if found {
                let zero = Multiset::singleton(0u64);
                let target = old(self)@.remove(key).insert(new_value);
                assert forall|k: u64| self@.count(k) == target.count(k) by {
                    assert(zero.add(self@).count(k) == zero.add(old(self)@).remove(key).insert(
                        new_value,
                    ).count(k));
                }
                assert(self@ =~= target);
            }
        }
    }

    /// Melts the chain of roots of `other` into this heap's, by degree.
    fn merge(&mut self, other: Self)
        requires
            chain_ordered(old(self).root_list),
            chain_ordered(other.root_list),
        ensures
            chain_ordered(final(self).root_list),
            chain_keys(final(self).root_list) == chain_keys(old(self).root_list).add(
                chain_keys(other.root_list),
            ),
    {
        let mine = self.root_list.take();
        self.root_list = merge_chains(mine, other.root_list);
    }

    /// A walk along the roots, from the first tree of the chain on.
    pub fn roots(&self) -> (roots: Siblings<'_>)
        ensures
            forall|k: u64| roots.has_root(k) == has_root(self.root_chain(), k),
            roots.remaining() == chain_len(self.root_chain()),
            match self.root_chain() {
                Some(head) => roots.inner == Some(&*head),
                None => roots.inner is None,
            },
    {
        Siblings {
            inner: match &self.root_list {
                Some(head) => Some(&**head),
                None => None,
            },
        }
    }
}

} // verus!
