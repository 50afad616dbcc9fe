//! A van Emde Boas tree: a set of integers below a fixed power of two, laid
//! out as a summary and clusters of about the square root of that size.

use crate::sizing::{
    high_root, is_power_of_two, lemma_join, lemma_join_order, lemma_roots,
    lemma_round_up_is_least, lemma_round_up_is_tight, lemma_round_up_of_power_of_two, lemma_split,
    lemma_split_bound, low_root, next_power_of_two, round_up_to_power_of_two, spec_high_root,
    spec_low_root,
};
use vstd::prelude::*;

mod drawing;

pub use drawing::{binary, cluster_tag, decimal, digit, DIM, GREEN, RED, RESET};

verus! {

/// A set of keys drawn from `0 .. universe_size`.
///
/// A tree over more than two keys owns one cluster for each block of
/// `low_root` consecutive keys and a summary that records which clusters are
/// occupied. The smallest key lives in `bounds` alone and in no cluster, so
/// an insertion into an empty tree never descends.
#[derive(Debug)]
pub struct VanEmdeBoas {
    universe_size: usize,
    bounds: Option<(usize, usize)>,
    summary: Option<Box<VanEmdeBoas>>,
    clusters: Vec<VanEmdeBoas>,
}

/// The keys after one insertion of `value` into a tree that held `keys` out
/// of `universe` many: a value outside the universe changes nothing.
pub open spec fn inserted(keys: Set<int>, universe: nat, value: usize) -> Set<int> {
    if value < universe {
        keys.insert(value as int)
    } else {
        keys
    }
}

impl VanEmdeBoas {
    /// The number of keys the tree ranges over.
    pub closed spec fn universe(&self) -> nat {
        self.universe_size as nat
    }

    spec fn low(&self) -> int {
        spec_low_root(self.universe_size as nat) as int
    }

    spec fn high(&self) -> int {
        spec_high_root(self.universe_size as nat) as int
    }

    /// The keys in the tree: the two bounds, and each key of a cluster put
    /// back behind the number of that cluster.
    pub closed spec fn contents(&self) -> Set<int>
        decreases self,
    {
        match self.bounds {
            None => Set::empty(),
            Some((min, max)) => Set::new(
                |x: int|
                    x == min || x == max || {
                        let low = spec_low_root(self.universe_size as nat) as int;
                        &&& 0 <= x
                        &&& 0 <= x / low < self.clusters.len()
                        &&& self.clusters[x / low].contents().contains(x % low)
                    },
            ),
        }
    }

    /// Key `x` is held by the cluster that covers it.
    spec fn stores(&self, x: int) -> bool {
        let low = self.low();
        &&& 0 <= x
        &&& 0 <= x / low < self.clusters.len()
        &&& self.clusters[x / low].contents().contains(x % low)
    }

    /// The structural invariant: sizes are powers of two that multiply up,
    /// the summary holds exactly the numbers of the occupied clusters, and
    /// every key of a cluster lies above the lower bound and not above the
    /// upper one, which is among them when the bounds differ.
    pub closed spec fn wf(&self) -> bool
        decreases self,
    {
        &&& is_power_of_two(self.universe_size as nat)
        &&& match self.bounds {
            Some((min, max)) => min <= max < self.universe_size,
            None => true,
        }
        &&& if self.universe_size <= 2 {
            self.summary is None && self.clusters.len() == 0
        } else {
            &&& match self.summary {
                Some(summary) => {
                    &&& summary.wf()
                    &&& summary.universe_size == self.high()
                    &&& forall|i: int|
                        0 <= i < self.clusters.len() ==> (summary.contents().contains(i) <==> (
                        #[trigger] self.clusters[i]).bounds is Some)
                },
                None => false,
            }
            &&& self.clusters.len() == self.high()
            &&& forall|i: int|
                0 <= i < self.clusters.len() ==> (#[trigger] self.clusters[i]).wf()
                    && self.clusters[i].universe_size == self.low()
            &&& match self.bounds {
                None => forall|i: int|
                    0 <= i < self.clusters.len() ==> (#[trigger] self.clusters[i]).bounds is None,
                Some((min, max)) => {
                    &&& forall|i: int, l: int|
                        0 <= i < self.clusters.len()
                            && #[trigger] self.clusters[i].contents().contains(l) ==> min < i
                            * self.low() + l <= max
                    &&& min < max ==> self.stores(max as int)
                },
            }
        }
    }

    /// A tree without bounds holds nothing, and a tree with bounds holds them.
    proof fn lemma_bounds_tell_emptiness(&self)
        ensures
            self.bounds is None <==> self.contents() == Set::<int>::empty(),
            self.bounds is Some ==> self.contents().contains(self.bounds.unwrap().0 as int)
                && self.contents().contains(self.bounds.unwrap().1 as int),
    {
        if self.bounds is Some {
            assert(self.contents().contains(self.bounds.unwrap().0 as int));
        }
    }

    /// Every key of a well-formed tree lies between its bounds and inside
    /// its universe.
    proof fn lemma_contents_within_bounds(&self)
        requires
            self.wf(),
        ensures
            forall|x: int|
                self.contents().contains(x) ==> self.bounds is Some && self.bounds.unwrap().0 <= x
                    <= self.bounds.unwrap().1 && x < self.universe_size,
    {
        assert forall|x: int| self.contents().contains(x) implies self.bounds is Some
            && self.bounds.unwrap().0 <= x <= self.bounds.unwrap().1 && x < self.universe_size by {
            if self.stores(x) {
                lemma_roots(self.universe_size as nat);
                lemma_split(x, self.low());
                assert(self.clusters[x / self.low()].contents().contains(x % self.low()));
            }
        }
    }

    /// The clusters, in the order of the blocks of keys that they cover.
    pub closed spec fn cluster_trees(&self) -> Seq<VanEmdeBoas> {
        self.clusters@
    }

    /// The summary, in a tree that has one.
    pub closed spec fn summary_tree(&self) -> Option<VanEmdeBoas> {
        match self.summary {
            Some(summary) => Some(*summary),
            None => None,
        }
    }

    /// How a tree is laid out: a universe of at most two keys has neither
    /// summary nor clusters; a larger one of `u` keys has `high_root(u)`
    /// clusters over `low_root(u)` keys each, and a summary over the cluster
    /// numbers that holds those of the clusters that hold a key. The clusters
    /// of an empty tree are empty.
    pub proof fn lemma_layout(&self)
        requires
            self.wf(),
        ensures
            is_power_of_two(self.universe()),
            self.universe() <= 2 ==> self.summary_tree() is None && self.cluster_trees().len()
                == 0,
            self.universe() > 2 ==> {
                &&& self.summary_tree() is Some
                &&& self.summary_tree().unwrap().wf()
                &&& self.summary_tree().unwrap().universe() == spec_high_root(self.universe())
                &&& self.cluster_trees().len() == spec_high_root(self.universe())
                &&& forall|i: int|
                    0 <= i < self.cluster_trees().len() ==> {
                        &&& (#[trigger] self.cluster_trees()[i]).wf()
                        &&& self.cluster_trees()[i].universe() == spec_low_root(self.universe())
                        &&& self.summary_tree().unwrap()@.contains(i)
                            <==> self.cluster_trees()[i]@ != Set::<int>::empty()
                        &&& self@ == Set::<int>::empty() ==> self.cluster_trees()[i]@
                            == Set::<int>::empty()
                    }
            },
    {
        self.lemma_bounds_tell_emptiness();
        if self.universe_size > 2 {
            assert forall|i: int| 0 <= i < self.cluster_trees().len() implies {
                &&& (#[trigger] self.cluster_trees()[i]).wf()
                &&& self.cluster_trees()[i].universe() == spec_low_root(self.universe())
                &&& self.summary_tree().unwrap()@.contains(i) <==> self.cluster_trees()[i]@
                    != Set::<int>::empty()
                &&& self@ == Set::<int>::empty() ==> self.cluster_trees()[i]@ == Set::<
                    int,
                >::empty()
            } by {
                self.clusters[i].lemma_bounds_tell_emptiness();
            }
        }
    }

    /// A key `l` of cluster `i` stands for the key `i * low_root + l` of the
    /// tree, and that key is never the smallest: the smallest key of a tree
    /// is in none of its clusters.
    pub proof fn lemma_cluster_keys_are_above_the_minimum(&self, i: int, l: int)
        requires
            self.wf(),
            0 <= i < self.cluster_trees().len(),
            self.cluster_trees()[i]@.contains(l),
        ensures
            self@.contains(i * spec_low_root(self.universe()) + l),
            exists|x: int| self@.contains(x) && x < i * spec_low_root(self.universe()) + l,
    {
        let lo = self.low();
        lemma_roots(self.universe_size as nat);
        self.clusters[i].lemma_contents_within_bounds();
        lemma_join(i, l, lo);
        assert(self.stores(i * lo + l));
        let min = self.bounds.unwrap().0 as int;
        assert(self@.contains(min) && min < i * spec_low_root(self.universe()) + l);
    }

    /// Every key of a tree over more than two keys, but for the smallest,
    /// is in the cluster that covers it.
    pub proof fn lemma_larger_keys_are_in_clusters(&self, x: int, smaller: int)
        requires
            self.wf(),
            self.universe() > 2,
            self@.contains(x),
            self@.contains(smaller),
            smaller < x,
        ensures
            0 <= x / (spec_low_root(self.universe()) as int) < self.cluster_trees().len(),
            self.cluster_trees()[x / (spec_low_root(self.universe()) as int)]@.contains(
                x % (spec_low_root(self.universe()) as int),
            ),
    {
        self.lemma_contents_within_bounds();
        assert(self.stores(x));
    }

    /// Every key of the tree is a key of its universe.
    pub proof fn lemma_keys_within_universe(&self)
        requires
            self.wf(),
        ensures
            forall|x: int| self@.contains(x) ==> 0 <= x < self.universe(),
    {
        self.lemma_contents_within_bounds();
    }

    /// The number of keys the tree ranges over.
    pub fn universe_size(&self) -> (u: usize)
        ensures
            u == self.universe(),
    {
        self.universe_size
    }

    /// Splits a key into the number of its cluster and its key within it.
    fn partition_value(&self, value: usize) -> (parts: (usize, usize))
        requires
            self.universe_size >= 1,
            self.low() >= 1,
        ensures
            parts.0 == value as int / self.low(),
            parts.1 == value as int % self.low(),
    {
        let low_root: usize = low_root(self.universe_size);
        (value / low_root, value % low_root)
    }

    /// Puts a cluster number `y` and a key `z` within that cluster together.
    fn index(&self, y: usize, z: usize) -> (value: usize)
        requires
            self.universe_size >= 1,
            y * self.low() + z <= usize::MAX,
        ensures
            value == y * self.low() + z,
    {
        let low_root: usize = low_root(self.universe_size);
        assert(0 <= y * low_root <= y * low_root + z) by (nonlinear_arith)
            requires
                0 <= y,
                0 <= low_root,
                0 <= z,
        ;
        (y * low_root) + z
    }

    /// An empty tree over the smallest power of two that is at least `size`,
    /// with its summary and all its clusters. `size` may be any number whose
    /// next power of two fits in a `usize`.
    pub fn new(size: usize) -> (tree: Self)
        requires
            size <= usize::MAX / 2 + 1,
        ensures
            tree.wf(),
            tree@ == Set::<int>::empty(),
            tree.universe() == round_up_to_power_of_two(size as nat),
        decreases size,
    {
        let universe_size: usize = next_power_of_two(size);
        proof {
            lemma_round_up_is_least(size as nat, 0);
            lemma_round_up_is_tight(size as nat);
        }
        let mut clusters: Vec<VanEmdeBoas> = Vec::new();
        let summary = if universe_size > 2 {
            let summary_size: usize = high_root(universe_size);
            let cluster_size: usize = low_root(universe_size);
            proof {
                lemma_roots(universe_size as nat);
                lemma_round_up_of_power_of_two(summary_size as nat);
                lemma_round_up_of_power_of_two(cluster_size as nat);
            }
            for i in 0..summary_size
                invariant
                    clusters.len() == i,
                    cluster_size < size,
                    size <= usize::MAX / 2 + 1,
                    round_up_to_power_of_two(cluster_size as nat) == cluster_size,
                    forall|j: int|
                        0 <= j < i ==> (#[trigger] clusters[j]).wf() && clusters[j].universe_size
                            == cluster_size && clusters[j].bounds is None,
            {
                let cluster = VanEmdeBoas::new(cluster_size);
                proof {
                    cluster.lemma_bounds_tell_emptiness();
                }
                clusters.push(cluster);
            }
            let summary = VanEmdeBoas::new(summary_size);
            Some(Box::new(summary))
        } else {
            None
        };
        Self { universe_size, bounds: None, summary, clusters }
    }

    /// Whether the tree holds no key.
    pub fn is_empty(&self) -> (empty: bool)
        ensures
            empty <==> self@ == Set::<int>::empty(),
    {
        proof {
            self.lemma_bounds_tell_emptiness();
        }
        self.bounds.is_none()
    }

    /// The smallest key, if there is one.
    pub fn min(&self) -> (min: Option<usize>)
        requires
            self.wf(),
        ensures
            match min {
                None => self@ == Set::<int>::empty(),
                Some(m) => self@.contains(m as int) && forall|x: int|
                    self@.contains(x) ==> m <= x,
            },
    {
        proof {
            self.lemma_bounds_tell_emptiness();
            self.lemma_contents_within_bounds();
        }
        match self.bounds {
            Some((min, _)) => Some(min),
            None => None,
        }
    }

    /// The largest key, if there is one.
    pub fn max(&self) -> (max: Option<usize>)
        requires
            self.wf(),
        ensures
            match max {
                None => self@ == Set::<int>::empty(),
                Some(m) => self@.contains(m as int) && forall|x: int|
                    self@.contains(x) ==> x <= m,
            },
    {
        proof {
            self.lemma_bounds_tell_emptiness();
            self.lemma_contents_within_bounds();
        }
        match self.bounds {
            Some((_, max)) => Some(max),
            None => None,
        }
    }

    /// Whether `value` is in the tree; a value outside the universe is not.
    pub fn contains(&self, value: usize) -> (found: bool)
        requires
            self.wf(),
        ensures
            found == self@.contains(value as int),
        decreases self, 1nat,
    {
        proof {
            self.lemma_contents_within_bounds();
        }
        value < self.universe_size && self.contains_unchecked(value)
    }

    /// Whether `value`, a key of the universe, is in the tree.
    pub fn contains_unchecked(&self, value: usize) -> (found: bool)
        requires
            self.wf(),
            value < self.universe(),
        ensures
            found == self@.contains(value as int),
        decreases self, 0nat,
    {
        match self.bounds {
            None => false,
            Some((min, max)) => {
                if value == min || value == max {
                    true
                } else if self.universe_size <= 2 {
                    false
                } else {
                    proof {
                        lemma_roots(self.universe_size as nat);
                        lemma_split_bound(value as int, self.low(), self.high());
                        lemma_split(value as int, self.low());
                    }
                    let (high, low) = self.partition_value(value);
                    self.clusters[high].contains(low)
                }
            },
        }
    }

    /// Adds `value` to the tree. A value outside the universe is dropped and
    /// the tree stays as it was.
    pub fn insert(&mut self, value: usize)
        requires
            old(self).wf(),
        ensures
            final(self).wf(),
            final(self).universe() == old(self).universe(),
            final(self)@ == inserted(old(self)@, old(self).universe(), value),
            value >= old(self).universe() ==> *final(self) == *old(self),
        decreases *old(self), 1nat,
    {
        if value >= self.universe_size {
            return ;
        }
        self.insert_unchecked(value);
    }

    /// The first key of a tree becomes both of its bounds.
    proof fn lemma_insert_first(before: Self, after: Self, value: int)
        requires
            before.wf(),
            before.bounds is None,
            0 <= value < before.universe_size,
            after.universe_size == before.universe_size,
            after.summary == before.summary,
            after.clusters == before.clusters,
            after.bounds is Some,
            after.bounds.unwrap().0 == value,
            after.bounds.unwrap().1 == value,
        ensures
            after.wf(),
            after.contents() == before.contents().insert(value),
    {
        assert forall|x: int| !after.stores(x) by {
            if 0 <= x && 0 <= x / after.low() < after.clusters.len() {
                after.clusters[x / after.low()].lemma_bounds_tell_emptiness();
            }
        }
        assert forall|i: int, l: int| 0 <= i < after.clusters.len() implies !(
        #[trigger] after.clusters[i].contents().contains(l)) by {
            after.clusters[i].lemma_bounds_tell_emptiness();
        }
        assert forall|x: int|
            after.contents().contains(x) <==> before.contents().insert(value).contains(x) by {
            assert(!after.stores(x));
        }
        assert(after.contents() =~= before.contents().insert(value));
    }

    /// In a tree over at most two keys the bounds are the whole content.
    proof fn lemma_insert_leaf(before: Self, after: Self, value: int)
        requires
            before.wf(),
            before.bounds is Some,
            before.universe_size <= 2,
            0 <= value < before.universe_size,
            after.universe_size == before.universe_size,
            after.summary == before.summary,
            after.clusters == before.clusters,
            after.bounds is Some,
            after.bounds.unwrap().0 == if value < before.bounds.unwrap().0 {
                value
            } else {
                before.bounds.unwrap().0 as int
            },
            after.bounds.unwrap().1 == if value > before.bounds.unwrap().1 {
                value
            } else {
                before.bounds.unwrap().1 as int
            },
        ensures
            after.wf(),
            after.contents() == before.contents().insert(value),
    {
        assert forall|x: int|
            after.contents().contains(x) <==> before.contents().insert(value).contains(x) by {
            assert(!after.stores(x));
            assert(!before.stores(x));
        }
        assert(after.contents() =~= before.contents().insert(value));
    }

    /// What an insertion below the bounds does to the tree as a whole: the
    /// key `pushed` went into its cluster, and the number of that cluster
    /// into the summary if the cluster was empty.
    proof fn lemma_insert_below(before: Self, after: Self, value: int, pushed: int)
        requires
            before.wf(),
            before.bounds is Some,
            before.universe_size > 2,
            0 <= value < before.universe_size,
            value != before.bounds.unwrap().0,
            after.universe_size == before.universe_size,
            after.bounds is Some,
            after.bounds.unwrap().0 == if value < before.bounds.unwrap().0 {
                value
            } else {
                before.bounds.unwrap().0 as int
            },
            after.bounds.unwrap().1 == if value > before.bounds.unwrap().1 {
                value
            } else {
                before.bounds.unwrap().1 as int
            },
            pushed == if value < before.bounds.unwrap().0 {
                before.bounds.unwrap().0 as int
            } else {
                value
            },
            after.clusters.len() == before.clusters.len(),
            0 <= pushed / before.low() < before.clusters.len(),
            forall|i: int|
                0 <= i < after.clusters.len() && i != pushed / before.low()
                    ==> after.clusters[i] == before.clusters[i],
            after.clusters[pushed / before.low()].wf(),
            after.clusters[pushed / before.low()].universe_size == before.low(),
            after.clusters[pushed / before.low()].contents() == before.clusters[pushed
                / before.low()].contents().insert(pushed % before.low()),
            after.summary is Some,
            after.summary.unwrap().wf(),
            after.summary.unwrap().universe_size == before.high(),
            after.summary.unwrap().contents() == if before.clusters[pushed
                / before.low()].bounds is None {
                before.summary.unwrap().contents().insert(pushed / before.low())
            } else {
                before.summary.unwrap().contents()
            },
        ensures
            after.wf(),
            after.contents() == before.contents().insert(value),
    {
        let lo = before.low();
        let h = pushed / lo;
        let low = pushed % lo;
        let (min, max) = after.bounds.unwrap();
        let s_new = after.summary.unwrap();
        let s_old = before.summary.unwrap();
        lemma_roots(before.universe_size as nat);
        lemma_split(pushed, lo);
        after.clusters[h].lemma_bounds_tell_emptiness();
        before.clusters[h].lemma_bounds_tell_emptiness();
        assert(after.clusters[h].contents().contains(low));
        assert forall|i: int| 0 <= i < after.clusters.len() implies (s_new.contents().contains(i)
            <==> (#[trigger] after.clusters[i]).bounds is Some) by {
            if i != h {
                assert(after.clusters[i] == before.clusters[i]);
            }
        }
        assert forall|i: int, l: int|
            0 <= i < after.clusters.len()
                && #[trigger] after.clusters[i].contents().contains(l) implies min < i * lo + l
            <= max by {
            if i != h {
                assert(before.clusters[i].contents().contains(l));
            } else if l != low {
                assert(before.clusters[h].contents().contains(l));
            }
        }
        assert forall|x: int| after.stores(x) <==> (before.stores(x) || x == pushed) by {
            if 0 <= x {
                lemma_split(x, lo);
                if 0 <= x / lo < after.clusters.len() && x / lo != h {
                    assert(after.clusters[x / lo] == before.clusters[x / lo]);
                }
            }
        }
        assert(min < max ==> after.stores(max as int));
        assert forall|i: int| 0 <= i < after.clusters.len() implies (
        #[trigger] after.clusters[i]).wf() && after.clusters[i].universe_size == after.low() by {
            if i != h {
                assert(after.clusters[i] == before.clusters[i]);
            }
        }
        assert(after.wf());
        assert forall|x: int|
            after.contents().contains(x) <==> before.contents().insert(value).contains(x) by {
            assert(after.stores(x) <==> (before.stores(x) || x == pushed));
            let (old_min, old_max) = before.bounds.unwrap();
            assert(old_min < old_max ==> before.stores(old_max as int));
        }
        assert(after.contents() =~= before.contents().insert(value));
    }

    /// Adds `value`, a key of the universe, to the tree.
    pub fn insert_unchecked(&mut self, value: usize)
        requires
            old(self).wf(),
            value < old(self).universe(),
        ensures
            final(self).wf(),
            final(self).universe() == old(self).universe(),
            final(self)@ == old(self)@.insert(value as int),
        decreases *old(self), 0nat,
    {
        let ghost before = *old(self);
        let (old_min, old_max) = match self.bounds {
            None => {
                self.bounds = Some((value, value));
                proof {
                    Self::lemma_insert_first(before, *self, value as int);
                }
                return ;
            },
            Some(bounds) => bounds,
        };
        if value == old_min {
            proof {
                self.lemma_bounds_tell_emptiness();
                assert(self.contents() =~= before.contents().insert(value as int));
            }
            return ;
        }
        let mut pushed: usize = value;
        let mut min: usize = old_min;
        let mut max: usize = old_max;
        if pushed > max {
            max = pushed;
        }
        if pushed < min {
            core::mem::swap(&mut min, &mut pushed);
        }
        self.bounds = Some((min, max));
        if self.summary.is_some() {
            proof {
                lemma_roots(self.universe_size as nat);
                lemma_split_bound(pushed as int, self.low(), self.high());
                lemma_split(pushed as int, self.low());
            }
            let (high, low) = self.partition_value(pushed);
            if self.clusters[high].is_empty() {
                if let Some(summary) = self.summary.as_mut() {
                    summary.insert(high);
                }
            }
            proof {
                before.clusters[high as int].lemma_bounds_tell_emptiness();
            }
            self.clusters[high].insert(low);
            proof {
                Self::lemma_insert_below(before, *self, value as int, pushed as int);
            }
        } else {
            proof {
                Self::lemma_insert_leaf(before, *self, value as int);
            }
        }
    }

    /// The successor of `value` lies in the cluster `h` of `value`: it is the
    /// successor `z` of the local key `l` there, behind the same cluster number.
    proof fn lemma_successor_in_cluster(&self, value: int, h: int, l: int, z: int)
        requires
            self.wf(),
            self.universe_size > 2,
            self.bounds is Some,
            self.bounds.unwrap().0 <= value < self.universe_size,
            h == value / self.low(),
            l == value % self.low(),
            self.clusters[h].contents().contains(z),
            l < z,
            forall|y: int| self.clusters[h].contents().contains(y) && l < y ==> z <= y,
        ensures
            h * self.low() + z < self.universe_size,
            self.contents().contains(h * self.low() + z),
            value < h * self.low() + z,
            forall|x: int| self.contents().contains(x) && value < x ==> h * self.low() + z <= x,
    {
        let lo = self.low();
        let r = h * lo + z;
        lemma_roots(self.universe_size as nat);
        lemma_split(value, lo);
        lemma_split_bound(value, lo, self.high());
        self.clusters[h].lemma_contents_within_bounds();
        lemma_join(h, z, lo);
        assert(self.stores(r));
        self.lemma_contents_within_bounds();
        assert forall|x: int| self.contents().contains(x) && value < x implies r <= x by {
            assert(self.stores(x));
            lemma_split(x, lo);
            let i = x / lo;
            self.clusters[i].lemma_contents_within_bounds();
            if i < h {
                lemma_join_order(i, x % lo, h, l, lo);
            } else if i > h {
                lemma_join_order(h, z, i, x % lo, lo);
            }
        }
    }

    /// The successor of `value` lies in a later cluster: it is the smallest
    /// key `z` of the next occupied cluster `n`.
    proof fn lemma_successor_in_next_cluster(&self, value: int, h: int, l: int, n: int, z: int)
        requires
            self.wf(),
            self.universe_size > 2,
            self.bounds is Some,
            self.bounds.unwrap().0 <= value < self.universe_size,
            h == value / self.low(),
            l == value % self.low(),
            forall|y: int| self.clusters[h].contents().contains(y) ==> y <= l,
            self.summary.unwrap().contents().contains(n),
            h < n,
            forall|i: int| self.summary.unwrap().contents().contains(i) && h < i ==> n <= i,
            self.clusters[n].contents().contains(z),
            forall|y: int| self.clusters[n].contents().contains(y) ==> z <= y,
        ensures
            0 <= n < self.clusters.len(),
            n * self.low() + z < self.universe_size,
            self.contents().contains(n * self.low() + z),
            value < n * self.low() + z,
            forall|x: int| self.contents().contains(x) && value < x ==> n * self.low() + z <= x,
    {
        let lo = self.low();
        let r = n * lo + z;
        lemma_roots(self.universe_size as nat);
        lemma_split(value, lo);
        lemma_split_bound(value, lo, self.high());
        self.summary.unwrap().lemma_contents_within_bounds();
        self.clusters[n].lemma_contents_within_bounds();
        lemma_join(n, z, lo);
        lemma_join_order(h, l, n, z, lo);
        assert(self.stores(r));
        self.lemma_contents_within_bounds();
        assert forall|x: int| self.contents().contains(x) && value < x implies r <= x by {
            assert(self.stores(x));
            lemma_split(x, lo);
            let i = x / lo;
            self.clusters[i].lemma_contents_within_bounds();
            self.clusters[i].lemma_bounds_tell_emptiness();
            assert(self.summary.unwrap().contents().contains(i));
            if i < h {
                lemma_join_order(i, x % lo, h, l, lo);
            } else if i > n {
                lemma_join_order(n, z, i, x % lo, lo);
            }
        }
    }

    /// No key follows `value`: its own cluster `h` holds nothing larger and
    /// no later cluster is occupied.
    proof fn lemma_no_successor(&self, value: int, h: int, l: int)
        requires
            self.wf(),
            self.universe_size > 2,
            self.bounds is Some,
            self.bounds.unwrap().0 <= value < self.universe_size,
            h == value / self.low(),
            l == value % self.low(),
            forall|y: int| self.clusters[h].contents().contains(y) ==> y <= l,
            forall|i: int| self.summary.unwrap().contents().contains(i) ==> i <= h,
        ensures
            forall|x: int| self.contents().contains(x) ==> x <= value,
    {
        let lo = self.low();
        lemma_roots(self.universe_size as nat);
        lemma_split(value, lo);
        lemma_split_bound(value, lo, self.high());
        self.lemma_contents_within_bounds();
        assert forall|x: int| self.contents().contains(x) implies x <= value by {
            if value < x {
                assert(self.stores(x));
                lemma_split(x, lo);
                let i = x / lo;
                self.clusters[i].lemma_contents_within_bounds();
                self.clusters[i].lemma_bounds_tell_emptiness();
                assert(self.summary.unwrap().contents().contains(i));
                if i < h {
                    lemma_join_order(i, x % lo, h, l, lo);
                }
            }
        }
    }

    /// The smallest key above `value`, if there is one.
    pub fn successor(&self, value: usize) -> (found: Option<usize>)
        requires
            self.wf(),
        ensures
            match found {
                Some(next) => self@.contains(next as int) && value < next && forall|x: int|
                    self@.contains(x) && value < x ==> next <= x,
                None => forall|x: int| self@.contains(x) ==> x <= value,
            },
        decreases self,
    {
        proof {
            self.lemma_contents_within_bounds();
            self.lemma_bounds_tell_emptiness();
        }
        let (min, max) = match self.bounds {
            None => {
                return None;
            },
            Some(bounds) => bounds,
        };
        if value >= self.universe_size {
            return None;
        }
        if self.universe_size <= 2 {
            return if value < max {
                Some(max)
            } else {
                None
            };
        }
        if value < min {
            return Some(min);
        }
        proof {
            lemma_roots(self.universe_size as nat);
            lemma_split_bound(value as int, self.low(), self.high());
            lemma_split(value as int, self.low());
        }
        let (high, low) = self.partition_value(value);
        let in_same_cluster = match self.clusters[high].max() {
            Some(cluster_max) => low < cluster_max,
            None => false,
        };
        if in_same_cluster {
            match self.clusters[high].successor(low) {
                Some(z) => {
                    proof {
                        self.lemma_successor_in_cluster(
                            value as int,
                            high as int,
                            low as int,
                            z as int,
                        );
                    }
                    Some(self.index(high, z))
                },
                None => None,
            }
        } else {
            let summary = match self.summary.as_ref() {
                Some(summary) => summary,
                None => {
                    return None;
                },
            };
            match summary.successor(high) {
                Some(next_cluster) => {
                    proof {
                        summary.lemma_contents_within_bounds();
                        self.clusters[next_cluster as int].lemma_bounds_tell_emptiness();
                    }
                    match self.clusters[next_cluster].min() {
                        Some(z) => {
                            proof {
                                self.lemma_successor_in_next_cluster(
                                    value as int,
                                    high as int,
                                    low as int,
                                    next_cluster as int,
                                    z as int,
                                );
                            }
                            Some(self.index(next_cluster, z))
                        },
                        None => None,
                    }
                },
                None => {
                    proof {
                        assert forall|i: int|
                            self.summary.unwrap().contents().contains(i) implies i <= high by {
                            assert(summary@.contains(i));
                        }
                        self.lemma_no_successor(value as int, high as int, low as int);
                    }
                    None
                },
            }
        }
    }
}

impl VanEmdeBoas {
    /// `other` has the sizes and the bounds of this tree, node by node.
    pub closed spec fn matches(&self, other: &Self) -> bool
        decreases self,
    {
        &&& self.universe_size == other.universe_size
        &&& self.bounds == other.bounds
        &&& match self.summary {
            Some(summary) => other.summary is Some && summary.matches(&*other.summary.unwrap()),
            None => other.summary is None,
        }
        &&& self.clusters.len() == other.clusters.len()
        &&& forall|i: int|
            0 <= i < self.clusters.len() ==> (#[trigger] self.clusters[i]).matches(
                &other.clusters[i],
            )
    }

    /// Trees that match node by node hold the same keys.
    pub proof fn lemma_matching_trees_hold_the_same(&self, other: &Self)
        requires
            self.matches(other),
        ensures
            self@ == other@,
            self.universe() == other.universe(),
        decreases self,
    {
        assert forall|x: int| self.contents().contains(x) <==> other.contents().contains(x) by {
            let i = x / self.low();
            if 0 <= x && 0 <= i < self.clusters.len() {
                self.clusters[i].lemma_matching_trees_hold_the_same(&other.clusters[i]);
            }
            assert(self.stores(x) <==> other.stores(x));
        }
        assert(self.contents() =~= other.contents());
    }

    /// A tree that matches a well-formed one node by node is well-formed.
    pub proof fn lemma_matching_trees_are_well_formed(&self, other: &Self)
        requires
            self.matches(other),
            self.wf(),
        ensures
            other.wf(),
        decreases self,
    {
        if self.universe_size > 2 {
            let summary = self.summary.unwrap();
            summary.lemma_matching_trees_are_well_formed(&*other.summary.unwrap());
            summary.lemma_matching_trees_hold_the_same(&*other.summary.unwrap());
            assert forall|i: int| 0 <= i < other.clusters.len() implies (
            #[trigger] other.clusters[i]).wf() && other.clusters[i].universe_size == other.low()
                && other.clusters[i].contents() == self.clusters[i].contents()
                && other.clusters[i].bounds == self.clusters[i].bounds by {
                self.clusters[i].lemma_matching_trees_are_well_formed(&other.clusters[i]);
                self.clusters[i].lemma_matching_trees_hold_the_same(&other.clusters[i]);
            }
            assert forall|i: int, l: int|
                0 <= i < other.clusters.len()
                    && #[trigger] other.clusters[i].contents().contains(
                    l,
                ) implies self.clusters[i].contents().contains(l) by {}
            if self.bounds is Some {
                let max = self.bounds.unwrap().1 as int;
                assert(self.stores(max) ==> other.stores(max));
            }
        }
    }

    fn duplicate(&self) -> (copy: Self)
        ensures
            self.matches(&copy),
        decreases self,
    {
        let mut clusters: Vec<VanEmdeBoas> = Vec::new();
        let count = self.clusters.len();
        let mut i: usize = 0;
        while i < count
            invariant
                i <= count,
                count == self.clusters.len(),
                clusters.len() == i,
                forall|j: int| 0 <= j < i ==> (#[trigger] self.clusters[j]).matches(&clusters[j]),
            decreases count - i,
        {
            let cluster = self.clusters[i].duplicate();
            clusters.push(cluster);
            i += 1;
        }
        let summary = match &self.summary {
            Some(summary) => Some(Box::new(summary.duplicate())),
            None => None,
        };
        Self { universe_size: self.universe_size, bounds: self.bounds, summary, clusters }
    }
}

impl Clone for VanEmdeBoas {
    /// A tree of its own with the same universe and the same keys.
    fn clone(&self) -> (copy: Self)
        ensures
            copy@ == self@,
            copy.universe() == self.universe(),
            self.wf() ==> copy.wf(),
    {
        let copy = self.duplicate();
        proof {
            self.lemma_matching_trees_hold_the_same(&copy);
            if self.wf() {
                self.lemma_matching_trees_are_well_formed(&copy);
            }
        }
        copy
    }
}

impl View for VanEmdeBoas {
    type V = Set<int>;

    /// The set of keys in the tree.
    closed spec fn view(&self) -> Set<int> {
        self.contents()
    }
}

} // verus!
