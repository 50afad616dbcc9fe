//! What holds of a van Emde Boas tree over whole runs of calls.

use crate::tree::{inserted, VanEmdeBoas};
use crate::walker::{ascending, lemma_ascending_lists_all_in_order};
use vstd::prelude::*;

verus! {

/// The keys after inserting `values` one after the other, from the first on,
/// into a tree that held `keys` out of `universe` many.
pub open spec fn inserted_all(keys: Set<int>, universe: nat, values: Seq<usize>) -> Set<int>
    decreases values.len(),
{
    if values.len() == 0 {
        keys
    } else {
        inserted(inserted_all(keys, universe, values.drop_last()), universe, values.last())
    }
}

/// After a run of insertions the tree holds what it held before and every
/// value of the run that lies in the universe, and nothing else.
pub proof fn lemma_inserted_all_holds(keys: Set<int>, universe: nat, values: Seq<usize>, x: int)
    ensures
        inserted_all(keys, universe, values).contains(x) <==> keys.contains(x) || (x < universe
            && exists|i: int| 0 <= i < values.len() && values[i] == x),
    decreases values.len(),
{
    if values.len() > 0 {
        let front = values.drop_last();
        lemma_inserted_all_holds(keys, universe, front, x);
        if exists|i: int| 0 <= i < front.len() && front[i] == x {
            let i = choose|i: int| 0 <= i < front.len() && front[i] == x;
            assert(values[i] == x);
        }
        if exists|i: int| 0 <= i < values.len() && values[i] == x {
            let i = choose|i: int| 0 <= i < values.len() && values[i] == x;
            if i < front.len() {
                assert(front[i] == x);
            }
        }
        if values.last() == x {
            assert(values[values.len() - 1] == x);
        }
    }
}

/// Two runs of insertions that name the same values, in whatever order and
/// however often, leave the same keys.
pub proof fn lemma_insertion_order_is_irrelevant(
    keys: Set<int>,
    universe: nat,
    first: Seq<usize>,
    second: Seq<usize>,
)
    requires
        first.to_set() == second.to_set(),
    ensures
        inserted_all(keys, universe, first) == inserted_all(keys, universe, second),
{
    assert forall|x: int|
        inserted_all(keys, universe, first).contains(x) <==> inserted_all(
            keys,
            universe,
            second,
        ).contains(x) by {
        lemma_inserted_all_holds(keys, universe, first, x);
        lemma_inserted_all_holds(keys, universe, second, x);
        if exists|i: int| 0 <= i < first.len() && first[i] == x {
            let i = choose|i: int| 0 <= i < first.len() && first[i] == x;
            assert(first.contains(first[i]));
            assert(second.to_set().contains(first[i]));
            assert(second.contains(first[i]));
        }
        if exists|i: int| 0 <= i < second.len() && second[i] == x {
            let i = choose|i: int| 0 <= i < second.len() && second[i] == x;
            assert(second.contains(second[i]));
            assert(first.to_set().contains(second[i]));
            assert(first.contains(second[i]));
        }
    }
    assert(inserted_all(keys, universe, first) =~= inserted_all(keys, universe, second));
}

/// Inserting a value a second time changes nothing.
pub proof fn lemma_insertion_is_idempotent(keys: Set<int>, universe: nat, value: usize)
    ensures
        inserted(inserted(keys, universe, value), universe, value) == inserted(
            keys,
            universe,
            value,
        ),
{
    assert(inserted(inserted(keys, universe, value), universe, value) =~= inserted(
        keys,
        universe,
        value,
    ));
}

/// A smallest and a largest key of the same set are in order.
pub proof fn lemma_min_is_at_most_max(keys: Set<int>, min: int, max: int)
    requires
        keys.contains(min),
        keys.contains(max),
        forall|x: int| keys.contains(x) ==> min <= x,
        forall|x: int| keys.contains(x) ==> x <= max,
    ensures
        min <= max,
{
}

/// A walk from the start hands out every key of the tree, nothing else, and
/// each key after all smaller ones.
pub proof fn lemma_walk_lists_the_keys_in_order(tree: &VanEmdeBoas)
    requires
        tree.wf(),
    ensures
        forall|x: int|
            ascending(tree@, 0, tree.universe() as int).contains(x) <==> tree@.contains(x),
        forall|i: int, j: int|
            0 <= i < j < ascending(tree@, 0, tree.universe() as int).len() ==> ascending(
                tree@,
                0,
                tree.universe() as int,
            )[i] < ascending(tree@, 0, tree.universe() as int)[j],
{
    tree.lemma_keys_within_universe();
    lemma_ascending_lists_all_in_order(tree@, 0, tree.universe() as int);
}

} // verus!
