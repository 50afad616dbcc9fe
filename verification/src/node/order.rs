//! Nodes compared by degree, the order in which chains of trees are melted.

use super::Node;
use core::cmp::Ordering;
use vstd::prelude::*;
use vstd::std_specs::cmp::{PartialEqSpecImpl, PartialOrdSpecImpl};

verus! {

impl PartialEq for Node {
    /// Nodes are equal when they have equally many children.
    fn eq(&self, other: &Self) -> (equal: bool) {
        self.degree == other.degree
    }
}

impl PartialEqSpecImpl for Node {
    open spec fn obeys_eq_spec() -> bool {
        true
    }

    open spec fn eq_spec(&self, other: &Self) -> bool {
        self.degree == other.degree
    }
}

impl Eq for Node {

}

impl PartialOrd for Node {
    /// The node with fewer children is the smaller.
    fn partial_cmp(&self, other: &Self) -> (order: Option<Ordering>) {
        if self.degree < other.degree {
            Some(Ordering::Less)
        } else if self.degree > other.degree {
            Some(Ordering::Greater)
        } else {
            Some(Ordering::Equal)
        }
    }
}

impl PartialOrdSpecImpl for Node {
    open spec fn obeys_partial_cmp_spec() -> bool {
        true
    }

    open spec fn partial_cmp_spec(&self, other: &Self) -> Option<Ordering> {
        if self.degree < other.degree {
            Some(Ordering::Less)
        } else if self.degree > other.degree {
            Some(Ordering::Greater)
        } else {
            Some(Ordering::Equal)
        }
    }
}

} // verus!
