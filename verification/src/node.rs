//! The nodes of a binomial heap: each owns its first child and its next
//! sibling, so a heap is a chain of trees.

use vstd::multiset::Multiset;
use vstd::prelude::*;

mod order;

verus! {

/// One node of a binomial tree. `child` is the first of its children,
/// `sibling` the next tree of the chain it stands in, and `degree` the number
/// of its children.
#[derive(Debug)]
pub struct Node {
    pub key: u64,
    pub degree: usize,
    pub sibling: Option<Box<Node>>,
    pub child: Option<Box<Node>>,
}

/// The keys of all the nodes of a chain of trees, children included.
pub open spec fn chain_keys(chain: Option<Box<Node>>) -> Multiset<u64>
    decreases chain,
{
    match chain {
        None => Multiset::empty(),
        Some(node) => Multiset::singleton(node.key).add(chain_keys(node.child)).add(
            chain_keys(node.sibling),
        ),
    }
}

/// The number of trees in a chain.
pub open spec fn chain_len(chain: Option<Box<Node>>) -> nat
    decreases chain,
{
    match chain {
        None => 0,
        Some(node) => 1 + chain_len(node.sibling),
    }
}

/// No key of `keys` is below `bound`.
pub open spec fn at_least(keys: Multiset<u64>, bound: u64) -> bool {
    forall|k: u64| keys.count(k) > 0 ==> bound <= k
}

/// Every node of the chain counts its children in `degree` and has a key
/// that none of its descendants undercuts.
pub open spec fn chain_ordered(chain: Option<Box<Node>>) -> bool
    decreases chain,
{
    match chain {
        None => true,
        Some(node) => {
            &&& node.degree == chain_len(node.child)
            &&& at_least(chain_keys(node.child), node.key)
            &&& chain_ordered(node.child)
            &&& chain_ordered(node.sibling)
        },
    }
}

/// The trees of a chain from the first to the last, each as it stands
/// without the chain behind it.
pub open spec fn chain_trees(chain: Option<Box<Node>>) -> Seq<Node>
    decreases chain,
{
    match chain {
        None => Seq::empty(),
        Some(node) => seq![
            Node { key: node.key, degree: node.degree, sibling: None, child: node.child },
        ].add(chain_trees(node.sibling)),
    }
}

/// Along the chain the degrees of the roots never fall, and none of them
/// is below `floor`.
pub open spec fn chain_sorted(chain: Option<Box<Node>>, floor: nat) -> bool
    decreases chain,
{
    match chain {
        None => true,
        Some(node) => floor <= node.degree && chain_sorted(node.sibling, node.degree as nat),
    }
}

/// Along the chain the degrees of the roots grow from tree to tree, and
/// none of them is below `floor`.
pub open spec fn chain_ascending(chain: Option<Box<Node>>, floor: nat) -> bool
    decreases chain,
{
    match chain {
        None => true,
        Some(node) => floor <= node.degree && chain_ascending(
            node.sibling,
            (node.degree + 1) as nat,
        ),
    }
}

/// The number of trees of the chain whose root has degree `degree`.
pub open spec fn degree_count(chain: Option<Box<Node>>, degree: nat) -> nat
    decreases chain,
{
    match chain {
        None => 0,
        Some(node) => (if node.degree == degree {
            1nat
        } else {
            0nat
        }) + degree_count(node.sibling, degree),
    }
}

/// No degree occurs at more than two roots of the chain, as in a chain
/// melted from two chains of growing degrees.
pub open spec fn at_most_two_of_a_degree(chain: Option<Box<Node>>) -> bool {
    forall|degree: nat| degree_count(chain, degree) <= 2
}

/// A chain sorted from `floor` on has no root of a degree below `floor`.
pub proof fn lemma_sorted_has_none_below(chain: Option<Box<Node>>, floor: nat, degree: nat)
    requires
        chain_sorted(chain, floor),
        degree < floor,
    ensures
        degree_count(chain, degree) == 0,
    decreases chain,
{
    match chain {
        None => {},
        Some(node) => {
            lemma_sorted_has_none_below(node.sibling, node.degree as nat, degree);
        },
    }
}

/// One of the trees of the chain has `key` at its root.
pub open spec fn has_root(chain: Option<Box<Node>>, key: u64) -> bool
    decreases chain,
{
    match chain {
        None => false,
        Some(node) => node.key == key || has_root(node.sibling, key),
    }
}

/// A chain has no more trees than keys.
pub proof fn lemma_chain_len_at_most_keys(chain: Option<Box<Node>>)
    ensures
        chain_len(chain) <= chain_keys(chain).len(),
    decreases chain,
{
    match chain {
        None => {},
        Some(node) => {
            lemma_chain_len_at_most_keys(node.sibling);
        },
    }
}

/// In an ordered chain a bound on the roots is a bound on every key.
pub proof fn lemma_roots_bound_all(chain: Option<Box<Node>>, bound: u64)
    requires
        chain_ordered(chain),
        forall|k: u64| has_root(chain, k) ==> bound <= k,
    ensures
        at_least(chain_keys(chain), bound),
    decreases chain,
{
    match chain {
        None => {},
        Some(node) => {
            assert(has_root(chain, node.key));
            assert forall|k: u64| has_root(node.sibling, k) implies bound <= k by {
                assert(has_root(chain, k));
            }
            lemma_roots_bound_all(node.sibling, bound);
        },
    }
}

impl Node {
    /// The keys of this node and of its descendants.
    pub open spec fn tree_keys(self) -> Multiset<u64> {
        Multiset::singleton(self.key).add(chain_keys(self.child))
    }

    /// The keys of the chain that starts with this node.
    pub open spec fn list_keys(self) -> Multiset<u64> {
        self.tree_keys().add(chain_keys(self.sibling))
    }

    /// The chain that starts with this node is ordered.
    pub open spec fn list_ordered(self) -> bool {
        self.tree_ordered() && chain_ordered(self.sibling)
    }

    /// This node and its descendants are in heap order and count their
    /// children rightly, whatever stands behind `sibling`.
    pub open spec fn tree_ordered(self) -> bool {
        &&& self.degree == chain_len(self.child)
        &&& at_least(chain_keys(self.child), self.key)
        &&& chain_ordered(self.child)
    }

    fn new(value: u64) -> (node: Self)
        ensures
            node.key == value,
            node.degree == 0,
            node.sibling is None,
            node.child is None,
    {
        Self { key: value, degree: 0, sibling: None, child: None }
    }

    /// A fresh node with key `value`, on the heap and on its own.
    pub fn wrapped(value: u64) -> (node: Box<Node>)
        ensures
            node.key == value,
            node.degree == 0,
            node.sibling is None,
            node.child is None,
    {
        Box::new(Node::new(value))
    }

    /// Moves the node to the heap.
    pub fn wrap(self) -> (node: Box<Node>)
        ensures
            *node == self,
    {
        Box::new(self)
    }

    /// Makes `right` the first child of `left`; the children that `left`
    /// had follow it as its siblings.
    pub fn link(left: &mut Node, right: Box<Node>)
        requires
            old(left).degree < usize::MAX,
            right.sibling is None,
        ensures
            final(left).key == old(left).key,
            final(left).degree == old(left).degree + 1,
            final(left).sibling == old(left).sibling,
            final(left).child is Some,
            final(left).child.unwrap().key == right.key,
            final(left).child.unwrap().degree == right.degree,
            final(left).child.unwrap().child == right.child,
            final(left).child.unwrap().sibling == old(left).child,
    {
        let mut right_tree = right;
        right_tree.sibling = left.child.take();
        left.child = Some(right_tree);
        left.degree += 1;
    }

    /// The number of trees from this one to the end of its chain.
    pub fn sibling_count(&self) -> (count: usize)
        requires
            1 + chain_len(self.sibling) <= usize::MAX,
        ensures
            count == 1 + chain_len(self.sibling),
    {
        let mut siblings = self.siblings();
        let mut count: usize = 0;
        loop
            invariant
                count + siblings.remaining() == 1 + chain_len(self.sibling),
                1 + chain_len(self.sibling) <= usize::MAX,
            ensures
                count == 1 + chain_len(self.sibling),
            decreases siblings.remaining(),
        {
            match siblings.next() {
                Some(_) => {
                    count += 1;
                },
                None => {
                    break ;
                },
            }
        }
        count
    }

    /// A walk along the chain from this node on.
    pub fn siblings(&self) -> (siblings: Siblings<'_>)
        ensures
            siblings.inner == Some(self),
    {
        Siblings { inner: Some(self) }
    }
}

impl Clone for Node {
    /// A copy of the node with copies of its children and of the siblings
    /// behind it.
    fn clone(&self) -> (copy: Self)
        ensures
            copy == *self,
        decreases self,
    {
        Node {
            key: self.key,
            degree: self.degree,
            sibling: match &self.sibling {
                Some(sibling) => Some(Box::new((&**sibling).clone())),
                None => None,
            },
            child: match &self.child {
                Some(child) => Some(Box::new((&**child).clone())),
                None => None,
            },
        }
    }
}

/// A walk along a chain of trees; `inner` is the tree that comes next.
#[derive(Debug)]
pub struct Siblings<'a> {
    pub inner: Option<&'a Node>,
}

impl<'a> Clone for Siblings<'a> {
    /// A second walk from where this one stands.
    fn clone(&self) -> (copy: Self)
        ensures
            copy == *self,
    {
        Siblings { inner: self.inner }
    }
}

impl<'a> Siblings<'a> {
    /// One of the trees still to come has `key` at its root.
    pub open spec fn has_root(self, key: u64) -> bool {
        match self.inner {
            None => false,
            Some(node) => node.key == key || has_root(node.sibling, key),
        }
    }

    /// The number of trees still to come.
    pub open spec fn remaining(self) -> nat {
        match self.inner {
            None => 0,
            Some(node) => 1 + chain_len(node.sibling),
        }
    }

    /// Hands out the next tree and steps to its sibling.
    pub fn next(&mut self) -> (node: Option<&'a Node>)
        ensures
            node == old(self).inner,
            final(self).inner == match old(self).inner {
                None => None,
                Some(node) => match node.sibling {
                    None => None,
                    Some(next) => Some(&*next),
                },
            },
    {
        let x = self.inner.take();
        if let Some(node) = x {
            self.inner = match &node.sibling {
                Some(next) => Some(&**next),
                None => None,
            };
        }
        x
    }
}

} // verus!
