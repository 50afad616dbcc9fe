//! Walking a van Emde Boas tree in increasing order.

use crate::tree::VanEmdeBoas;
use vstd::prelude::*;

verus! {

/// The keys of `keys` from `from` up to, but not including, `to`, in
/// increasing order.
pub open spec fn ascending(keys: Set<int>, from: int, to: int) -> Seq<int>
    decreases to - from,
{
    if from >= to {
        Seq::empty()
    } else if keys.contains(from) {
        seq![from].add(ascending(keys, from + 1, to))
    } else {
        ascending(keys, from + 1, to)
    }
}

/// `ascending` lists keys of its range only, each one of them, and in
/// strictly increasing order.
pub proof fn lemma_ascending_lists_all_in_order(keys: Set<int>, from: int, to: int)
    ensures
        forall|i: int|
            0 <= i < ascending(keys, from, to).len() ==> from <= #[trigger] ascending(
                keys,
                from,
                to,
            )[i] < to && keys.contains(ascending(keys, from, to)[i]),
        forall|i: int, j: int|
            0 <= i < j < ascending(keys, from, to).len() ==> ascending(keys, from, to)[i]
                < ascending(keys, from, to)[j],
        forall|x: int|
            keys.contains(x) && from <= x < to ==> ascending(keys, from, to).contains(x),
    decreases to - from,
{
    let all = ascending(keys, from, to);
    if from < to {
        let rest = ascending(keys, from + 1, to);
        lemma_ascending_lists_all_in_order(keys, from + 1, to);
        if keys.contains(from) {
            assert(all =~= seq![from].add(rest));
            assert forall|i: int| 0 < i < all.len() implies all[i] == rest[i - 1] by {}
            assert forall|x: int| keys.contains(x) && from <= x < to implies all.contains(x) by {
                if x == from {
                    assert(all[0] == x);
                } else {
                    let i = choose|i: int| 0 <= i < rest.len() && rest[i] == x;
                    assert(all[i + 1] == x);
                }
            }
            assert forall|i: int, j: int| 0 <= i < j < all.len() implies all[i] < all[j] by {
                if i > 0 {
                    assert(rest[i - 1] < rest[j - 1]);
                } else {
                    assert(all[j] == rest[j - 1]);
                }
            }
        }
    }
}

/// A range that starts with a stretch without keys lists what the rest of
/// it lists.
pub proof fn lemma_ascending_skips_gap(keys: Set<int>, from: int, mid: int, to: int)
    requires
        from <= mid <= to,
        forall|x: int| from <= x < mid ==> !keys.contains(x),
    ensures
        ascending(keys, from, to) == ascending(keys, mid, to),
    decreases mid - from,
{
    if from < mid {
        lemma_ascending_skips_gap(keys, from + 1, mid, to);
    }
}

/// A cursor into a tree: the keys it has yet to hand out are those from
/// `current` on.
#[derive(Debug)]
pub struct VanEmdeBoasWalker<'v> {
    tree: &'v VanEmdeBoas,
    current: Option<usize>,
}

impl<'v> VanEmdeBoasWalker<'v> {
    /// The tree that is walked.
    pub closed spec fn tree(&self) -> VanEmdeBoas {
        *self.tree
    }

    /// The walked tree is well-formed and the cursor stands on one of its keys.
    pub closed spec fn wf(&self) -> bool {
        &&& self.tree.wf()
        &&& match self.current {
            Some(key) => self.tree@.contains(key as int),
            None => true,
        }
    }

    /// The keys still to come, in the order in which they come.
    pub closed spec fn remaining(&self) -> Seq<int> {
        match self.current {
            Some(key) => ascending(self.tree@, key as int, self.tree.universe() as int),
            None => Seq::empty(),
        }
    }

    /// Hands out the next key and moves on to its successor.
    pub fn next(&mut self) -> (item: Option<usize>)
        requires
            old(self).wf(),
        ensures
            final(self).wf(),
            final(self).tree() == old(self).tree(),
            match item {
                Some(key) => old(self).remaining().len() > 0 && key == old(self).remaining()[0]
                    && final(self).remaining() == old(self).remaining().drop_first(),
                None => old(self).remaining().len() == 0 && final(self).remaining().len() == 0,
            },
    {
        let key = match self.current {
            Some(key) => key,
            None => {
                return None;
            },
        };
        let ghost keys = self.tree@;
        let ghost end = self.tree.universe() as int;
        proof {
            self.tree.lemma_keys_within_universe();
        }
        match self.tree.successor(key) {
            Some(next) => {
                proof {
                    lemma_ascending_skips_gap(keys, key + 1, next as int, end);
                    assert(old(self).remaining() =~= seq![key as int].add(
                        ascending(keys, next as int, end),
                    ));
                    assert(old(self).remaining().drop_first() =~= ascending(
                        keys,
                        next as int,
                        end,
                    ));
                }
                self.current = Some(next);
            },
            None => {
                proof {
                    lemma_ascending_skips_gap(keys, key + 1, end, end);
                    assert(old(self).remaining() =~= seq![key as int]);
                    assert(old(self).remaining().drop_first() =~= Seq::<int>::empty());
                }
                self.current = None;
            },
        }
        Some(key)
    }

    /// All the keys still to come, in the order in which they come.
    pub fn collect(self) -> (keys: Vec<usize>)
        requires
            self.wf(),
        ensures
            keys@.map_values(|key: usize| key as int) == self.remaining(),
    {
        let mut walker = self;
        let mut keys: Vec<usize> = Vec::new();
        loop
            invariant
                walker.wf(),
                keys@.map_values(|key: usize| key as int).add(walker.remaining())
                    == self.remaining(),
            ensures
                keys@.map_values(|key: usize| key as int) == self.remaining(),
            decreases walker.remaining().len(),
        {
            let ghost before = walker.remaining();
            let ghost collected = keys@.map_values(|key: usize| key as int);
            match walker.next() {
                Some(key) => {
                    keys.push(key);
                    proof {
                        assert(keys@.map_values(|key: usize| key as int) =~= collected.push(
                            key as int,
                        ));
                        assert(collected.push(key as int).add(before.drop_first())
                            =~= collected.add(before));
                    }
                },
                None => {
                    proof {
                        assert(collected.add(before) =~= collected);
                    }
                    break ;
                },
            }
        }
        keys
    }
}

impl VanEmdeBoas {
    /// A walker over the keys of the tree from the smallest on.
    pub fn iter(&self) -> (walker: VanEmdeBoasWalker<'_>)
        requires
            self.wf(),
        ensures
            walker.wf(),
            walker.tree() == *self,
            walker.remaining() == ascending(self@, 0, self.universe() as int),
    {
        let current = self.min();
        proof {
            self.lemma_keys_within_universe();
            let end = self.universe() as int;
            match current {
                Some(first) => {
                    lemma_ascending_skips_gap(self@, 0, first as int, end);
                },
                None => {
                    lemma_ascending_skips_gap(self@, 0, end, end);
                },
            }
        }
        VanEmdeBoasWalker { tree: self, current }
    }
}

} // verus!
