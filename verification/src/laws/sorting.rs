//! Promises of sorting.
use vstd::prelude::*;

use crate::ordered::{picked, stable_order, stably_sorted, Key};

verus! {

proof fn lemma_picking_permutes<T>(items: Seq<T>, order: Seq<int>)
    requires
        order.len() == items.len(),
        forall|i: int| 0 <= i < order.len() ==> 0 <= #[trigger] order[i] < items.len(),
        forall|i: int, j: int|
            0 <= i < j < order.len() ==> #[trigger] order[i] != #[trigger] order[j],
    ensures
        picked(items, order).to_multiset() == items.to_multiset(),
    decreases items.len(),
{
    broadcast use vstd::seq_lib::group_to_multiset_ensures;

    let all = picked(items, order);
    if items.len() == 0 {
        assert(all =~= items);
    } else {
        let v = order.last();
        let item = items[v];
        let fewer = items.remove(v);
        let rest = order.drop_last();
        let shifted = Seq::new(
            rest.len(),
            |i: int|
                if rest[i] > v {
                    rest[i] - 1
                } else {
                    rest[i]
                },
        );
        assert forall|i: int| 0 <= i < shifted.len() implies 0 <= #[trigger] shifted[i]
            < fewer.len() by {
            assert(rest[i] == order[i]);
            assert(order[i] != order[order.len() - 1]);
        }
        assert forall|i: int, j: int| 0 <= i < j < shifted.len() implies #[trigger] shifted[i]
            != #[trigger] shifted[j] by {
            assert(order[i] != order[j]);
            assert(order[i] != order[order.len() - 1]);
            assert(order[j] != order[order.len() - 1]);
        }
        lemma_picking_permutes(fewer, shifted);
        assert(all.drop_last() =~= picked(fewer, shifted)) by {
            assert forall|i: int| 0 <= i < shifted.len() implies #[trigger] all[i]
                == fewer[shifted[i]] by {
                assert(order[i] != order[order.len() - 1]);
            }
        }
        assert(all =~= all.drop_last().push(item));
        assert(items.contains(item));
        assert(items.to_multiset().count(item) > 0);
        assert(items.to_multiset().remove(item).insert(item) =~= items.to_multiset());
    }
}

/// Sorting loses nothing, adds nothing and repeats nothing.
pub proof fn sorting_permutes<K: Key, T>(keys: Seq<K::V>, items: Seq<T>, sorted: Seq<T>)
    requires
        keys.len() == items.len(),
        stably_sorted::<K, T>(keys, items, sorted),
    ensures
        sorted.to_multiset() == items.to_multiset(),
        sorted.len() == items.len(),
{
    let order = choose|order: Seq<int>| #[trigger]
        stable_order::<K>(keys, order) && sorted == picked(items, order);
    lemma_picking_permutes(items, order);
}

/// What stands earlier after sorting has no later key, and of equal keys it is the one
/// that stood earlier before.
pub proof fn sorting_orders<K: Key, T>(
    keys: Seq<K::V>,
    items: Seq<T>,
    sorted: Seq<T>,
    i: int,
    j: int,
) -> (places: (int, int))
    requires
        keys.len() == items.len(),
        stably_sorted::<K, T>(keys, items, sorted),
        0 <= i < j < sorted.len(),
    ensures
        0 <= places.0 < items.len(),
        0 <= places.1 < items.len(),
        places.0 != places.1,
        sorted[i] == items[places.0],
        sorted[j] == items[places.1],
        !K::before(keys[places.1], keys[places.0]),
        !K::before(keys[places.0], keys[places.1]) ==> places.0 < places.1,
{
    let order = choose|order: Seq<int>| #[trigger]
        stable_order::<K>(keys, order) && sorted == picked(items, order);
    let a = order[i];
    let b = order[j];
    if K::before(keys[a], keys[b]) && K::before(keys[b], keys[a]) {
        K::transitive(keys[a], keys[b], keys[a]);
        K::irreflexive(keys[a]);
    }
    (a, b)
}

} // verus!
