//! Collections kept in order: a map and a set whose entries stand sorted by
//! key, and a stable sort.
use vstd::prelude::*;

use crate::text::{
    lemma_text_connected, lemma_text_irreflexive, lemma_text_transitive, text_before, text_less,
};

verus! {

/// A type whose values are totally ordered, as seen through their views.
pub trait Key: View + Sized {
    /// `a` comes strictly before `b`.
    spec fn before(a: Self::V, b: Self::V) -> bool;

    /// Nothing comes before itself.
    proof fn irreflexive(a: Self::V)
        ensures
            !Self::before(a, a),
    ;

    /// The order is transitive.
    proof fn transitive(a: Self::V, b: Self::V, c: Self::V)
        requires
            Self::before(a, b),
            Self::before(b, c),
        ensures
            Self::before(a, c),
    ;

    /// Of two different values one comes before the other.
    proof fn connected(a: Self::V, b: Self::V)
        requires
            a != b,
        ensures
            Self::before(a, b) || Self::before(b, a),
    ;

    /// Whether `self` comes strictly before `other`.
    fn less(&self, other: &Self) -> (less: bool)
        ensures
            less == Self::before(self@, other@),
    ;
}

impl Key for String {
    open spec fn before(a: Seq<char>, b: Seq<char>) -> bool {
        text_before(a, b)
    }

    proof fn irreflexive(a: Seq<char>) {
        lemma_text_irreflexive(a);
    }

    proof fn transitive(a: Seq<char>, b: Seq<char>, c: Seq<char>) {
        lemma_text_transitive(a, b, c);
    }

    proof fn connected(a: Seq<char>, b: Seq<char>) {
        lemma_text_connected(a, b);
    }

    fn less(&self, other: &Self) -> (less: bool) {
        text_less(self.as_str(), other.as_str())
    }
}

impl Key for u32 {
    open spec fn before(a: u32, b: u32) -> bool {
        a < b
    }

    proof fn irreflexive(a: u32) {
    }

    proof fn transitive(a: u32, b: u32, c: u32) {
    }

    proof fn connected(a: u32, b: u32) {
    }

    fn less(&self, other: &Self) -> (less: bool) {
        *self < *other
    }
}

/// Each entry of `keys` comes strictly before all later ones.
pub open spec fn ascending<K: Key>(keys: Seq<K::V>) -> bool {
    forall|i: int, j: int| 0 <= i < j < keys.len() ==> K::before(#[trigger] keys[i], #[trigger] keys[j])
}

/// The views of a list's items.
pub open spec fn viewed<T: View>(items: Seq<T>) -> Seq<T::V> {
    items.map_values(|item: T| item@)
}

/// The map that takes `keys[i]` to `values[i]`.
pub open spec fn zipped<A, B>(keys: Seq<A>, values: Seq<B>) -> Map<A, B> {
    Map::new(|k: A| keys.contains(k), |k: A| values[keys.index_of(k)])
}

/// A map whose entries stand in ascending order of their keys.
pub struct OrderedMap<K, V> {
    keys: Vec<K>,
    values: Vec<V>,
}

impl<K: Key, V: View> View for OrderedMap<K, V> {
    type V = Map<K::V, V::V>;

    closed spec fn view(&self) -> Map<K::V, V::V> {
        zipped(viewed(self.keys@), viewed(self.values@))
    }
}

impl<K: Key, V: View> OrderedMap<K, V> {
    /// The keys ascend and each has its value.
    pub closed spec fn wf(&self) -> bool {
        &&& self.keys.len() == self.values.len()
        &&& ascending::<K>(viewed(self.keys@))
    }

    /// The map without entries.
    pub fn new() -> (map: Self)
        ensures
            map.wf(),
            map@ == Map::<K::V, V::V>::empty(),
    {
        let map = OrderedMap { keys: Vec::new(), values: Vec::new() };
        assert(map@ =~= Map::<K::V, V::V>::empty());
        map
    }

    /// The first position whose key does not come before `key`.
    fn lower_bound(&self, key: &K) -> (at: usize)
        requires
            self.wf(),
        ensures
            at <= self.keys.len(),
            forall|i: int| 0 <= i < at ==> K::before(#[trigger] self.keys@[i]@, key@),
            forall|i: int| at <= i < self.keys.len() ==> !K::before(#[trigger] self.keys@[i]@, key@),
    {
        let mut low: usize = 0;
        let mut high: usize = self.keys.len();
        while low < high
            invariant
                self.wf(),
                low <= high <= self.keys.len(),
                forall|i: int| 0 <= i < low ==> K::before(#[trigger] self.keys@[i]@, key@),
                forall|i: int|
                    high <= i < self.keys.len() ==> !K::before(#[trigger] self.keys@[i]@, key@),
            decreases high - low,
        {
            let mid: usize = low + (high - low) / 2;
            let ghost keys = viewed(self.keys@);
            if self.keys[mid].less(key) {
                assert forall|i: int| 0 <= i < mid + 1 implies K::before(
                    #[trigger] self.keys@[i]@,
                    key@,
                ) by {
                    if i < mid {
                        assert(K::before(keys[i], keys[mid as int]));
                        K::transitive(keys[i], keys[mid as int], key@);
                    }
                }
                low = mid + 1;
            } else {
                assert forall|i: int| mid <= i < self.keys.len() implies !K::before(
                    #[trigger] self.keys@[i]@,
                    key@,
                ) by {
                    if mid < i && K::before(keys[i], key@) {
                        assert(K::before(keys[mid as int], keys[i]));
                        K::transitive(keys[mid as int], keys[i], key@);
                    }
                }
                high = mid;
            }
        }
        low
    }

    /// Whether the entry at `at` is the one for `key`.
    fn is_at(&self, at: usize, key: &K) -> (found: bool)
        requires
            self.wf(),
            at <= self.keys.len(),
            forall|i: int| 0 <= i < at ==> K::before(#[trigger] self.keys@[i]@, key@),
            forall|i: int| at <= i < self.keys.len() ==> !K::before(#[trigger] self.keys@[i]@, key@),
        ensures
            found ==> at < self.keys.len() && self.keys@[at as int]@ == key@,
            found == self@.dom().contains(key@),
            !found ==> (forall|i: int|
                at <= i < self.keys.len() ==> K::before(key@, #[trigger] self.keys@[i]@)),
    {
        let ghost keys = viewed(self.keys@);
        let found = at < self.keys.len() && !key.less(&self.keys[at]);
        proof {
            if found {
                if keys[at as int] != key@ {
                    K::connected(keys[at as int], key@);
                }
                assert(keys[at as int] == key@);
                assert(keys.contains(key@));
            } else {
                assert forall|i: int| 0 <= i < keys.len() implies #[trigger] keys[i] != key@ by {
                    K::irreflexive(key@);
                    if i < at {
                        assert(K::before(self.keys@[i]@, key@));
                    } else if i > at {
                        assert(K::before(keys[at as int], keys[i]));
                        K::transitive(key@, keys[at as int], keys[i]);
                    }
                }
                assert forall|i: int| at <= i < self.keys.len() implies K::before(
                    key@,
                    #[trigger] self.keys@[i]@,
                ) by {
                    if i > at {
                        assert(K::before(keys[at as int], keys[i]));
                        K::transitive(key@, keys[at as int], keys[i]);
                    }
                }
            }
        }
        found
    }

    /// Whether the map has an entry for `key`.
    pub fn contains(&self, key: &K) -> (found: bool)
        requires
            self.wf(),
        ensures
            found == self@.dom().contains(key@),
    {
        let at = self.lower_bound(key);
        self.is_at(at, key)
    }

    /// The value for `key`.
    pub fn get(&self, key: &K) -> (value: Option<&V>)
        requires
            self.wf(),
        ensures
            value is Some == self@.dom().contains(key@),
            value matches Some(v) ==> v@ == self@[key@],
    {
        let at = self.lower_bound(key);
        if self.is_at(at, key) {
            proof {
                lemma_zipped::<K, V::V>(viewed(self.keys@), viewed(self.values@), at as int);
            }
            Some(&self.values[at])
        } else {
            None
        }
    }

    /// Takes the value for `key` out of the map.
    pub fn remove(&mut self, key: &K) -> (value: Option<V>)
        requires
            old(self).wf(),
        ensures
            final(self).wf(),
            value is Some == old(self)@.dom().contains(key@),
            value matches Some(v) ==> v@ == old(self)@[key@],
            final(self)@ == old(self)@.remove(key@),
    {
        let at = self.lower_bound(key);
        if self.is_at(at, key) {
            let ghost keys = viewed(self.keys@);
            let ghost values = viewed(self.values@);
            self.keys.remove(at);
            let value = self.values.remove(at);
            proof {
                lemma_zipped::<K, V::V>(keys, values, at as int);
                assert(viewed(self.keys@) =~= keys.remove(at as int));
                assert(viewed(self.values@) =~= values.remove(at as int));
                lemma_zipped_remove::<K, V::V>(keys, values, at as int);
            }
            Some(value)
        } else {
            assert(self@.remove(key@) =~= self@);
            None
        }
    }

    /// Sets the value for `key`.
    pub fn insert(&mut self, key: K, value: V)
        requires
            old(self).wf(),
        ensures
            final(self).wf(),
            final(self)@ == old(self)@.insert(key@, value@),
    {
        let at = self.lower_bound(&key);
        let ghost keys = viewed(self.keys@);
        let ghost values = viewed(self.values@);
        let ghost map = self@;
        let ghost k = key@;
        let ghost v = value@;
        if self.is_at(at, &key) {
            self.values.remove(at);
            self.values.insert(at, value);
            proof {
                assert(viewed(self.values@) =~= values.update(at as int, v));
                lemma_zipped_update::<K, V::V>(keys, values, at as int, v);
            }
        } else {
            self.keys.insert(at, key);
            self.values.insert(at, value);
            proof {
                assert(viewed(self.keys@) =~= keys.insert(at as int, k));
                assert(viewed(self.values@) =~= values.insert(at as int, v));
                lemma_zipped_insert::<K, V::V>(keys, values, at as int, k, v);
            }
        }
    }

    /// The keys and the values, in ascending order of the keys.
    pub fn into_parts(self) -> (parts: (Vec<K>, Vec<V>))
        requires
            self.wf(),
        ensures
            parts.0.len() == parts.1.len(),
            ascending::<K>(viewed(parts.0@)),
            self@ == zipped(viewed(parts.0@), viewed(parts.1@)),
    {
        (self.keys, self.values)
    }
}

/// In a map with ascending keys each key finds its own value.
pub proof fn lemma_zipped<K: Key, B>(keys: Seq<K::V>, values: Seq<B>, i: int)
    requires
        ascending::<K>(keys),
        keys.len() == values.len(),
        0 <= i < keys.len(),
    ensures
        zipped(keys, values).dom().contains(keys[i]),
        zipped(keys, values)[keys[i]] == values[i],
{
    let j = keys.index_of(keys[i]);
    assert(keys.contains(keys[i]));
    if j != i {
        K::irreflexive(keys[i]);
        if j < i {
            assert(K::before(keys[j], keys[i]));
        } else {
            assert(K::before(keys[i], keys[j]));
        }
    }
}

proof fn lemma_zipped_remove<K: Key, B>(keys: Seq<K::V>, values: Seq<B>, at: int)
    requires
        ascending::<K>(keys),
        keys.len() == values.len(),
        0 <= at < keys.len(),
    ensures
        ascending::<K>(keys.remove(at)),
        zipped(keys.remove(at), values.remove(at)) == zipped(keys, values).remove(keys[at]),
{
    let new_keys = keys.remove(at);
    let new_values = values.remove(at);
    assert forall|i: int, j: int| 0 <= i < j < new_keys.len() implies K::before(
        #[trigger] new_keys[i],
        #[trigger] new_keys[j],
    ) by {
        let i0 = if i < at { i } else { i + 1 };
        let j0 = if j < at { j } else { j + 1 };
        assert(K::before(keys[i0], keys[j0]));
    }
    let new_map = zipped(new_keys, new_values);
    let old_map = zipped(keys, values).remove(keys[at]);
    assert forall|k: K::V| new_map.dom().contains(k) implies #[trigger] old_map.dom().contains(k)
        && new_map[k] == old_map[k] by {
        let i = new_keys.index_of(k);
        let i0 = if i < at { i } else { i + 1 };
        lemma_zipped::<K, B>(new_keys, new_values, i);
        lemma_zipped::<K, B>(keys, values, i0);
        if k == keys[at] {
            K::irreflexive(k);
            if i0 < at {
                assert(K::before(keys[i0], keys[at]));
            } else {
                assert(K::before(keys[at], keys[i0]));
            }
        }
    }
    assert forall|k: K::V| old_map.dom().contains(k) implies #[trigger] new_map.dom().contains(k) by {
        let i0 = keys.index_of(k);
        let i = if i0 < at { i0 } else { i0 - 1 };
        assert(new_keys[i] == k);
    }
    assert(new_map =~= old_map);
}

proof fn lemma_zipped_update<K: Key, B>(keys: Seq<K::V>, values: Seq<B>, at: int, v: B)
    requires
        ascending::<K>(keys),
        keys.len() == values.len(),
        0 <= at < keys.len(),
    ensures
        zipped(keys, values.update(at, v)) == zipped(keys, values).insert(keys[at], v),
{
    let new_map = zipped(keys, values.update(at, v));
    let old_map = zipped(keys, values).insert(keys[at], v);
    assert forall|k: K::V| new_map.dom().contains(k) implies #[trigger] old_map.dom().contains(k)
        && new_map[k] == old_map[k] by {
        let i = keys.index_of(k);
        lemma_zipped::<K, B>(keys, values.update(at, v), i);
        lemma_zipped::<K, B>(keys, values.update(at, v), at);
        lemma_zipped::<K, B>(keys, values, i);
    }
    assert(keys.contains(keys[at]));
    assert(new_map =~= old_map);
}

proof fn lemma_zipped_insert<K: Key, B>(keys: Seq<K::V>, values: Seq<B>, at: int, k: K::V, v: B)
    requires
        ascending::<K>(keys),
        keys.len() == values.len(),
        0 <= at <= keys.len(),
        forall|i: int| 0 <= i < at ==> K::before(#[trigger] keys[i], k),
        forall|i: int| at <= i < keys.len() ==> K::before(k, #[trigger] keys[i]),
    ensures
        ascending::<K>(keys.insert(at, k)),
        zipped(keys.insert(at, k), values.insert(at, v)) == zipped(keys, values).insert(k, v),
{
    let new_keys = keys.insert(at, k);
    let new_values = values.insert(at, v);
    assert forall|i: int, j: int| 0 <= i < j < new_keys.len() implies K::before(
        #[trigger] new_keys[i],
        #[trigger] new_keys[j],
    ) by {
        let i0 = if i < at { i } else { i - 1 };
        let j0 = if j < at { j } else { j - 1 };
        if i != at && j != at {
            assert(K::before(keys[i0], keys[j0]));
        }
    }
    let new_map = zipped(new_keys, new_values);
    let old_map = zipped(keys, values).insert(k, v);
    assert(new_keys[at] == k);
    lemma_zipped::<K, B>(new_keys, new_values, at);
    assert forall|x: K::V| new_map.dom().contains(x) implies #[trigger] old_map.dom().contains(x)
        && new_map[x] == old_map[x] by {
        let i = new_keys.index_of(x);
        lemma_zipped::<K, B>(new_keys, new_values, i);
        if x != k {
            let i0 = if i < at { i } else { i - 1 };
            assert(keys[i0] == x);
            lemma_zipped::<K, B>(keys, values, i0);
        }
    }
    assert forall|x: K::V| old_map.dom().contains(x) implies #[trigger] new_map.dom().contains(x) by {
        if x != k {
            let i0 = keys.index_of(x);
            let i = if i0 < at { i0 } else { i0 + 1 };
            assert(new_keys[i] == x);
        }
    }
    assert(new_map =~= old_map);
}

/// A set whose members stand in ascending order.
pub struct OrderedSet<K> {
    members: OrderedMap<K, ()>,
}

impl<K: Key> View for OrderedSet<K> {
    type V = Set<K::V>;

    closed spec fn view(&self) -> Set<K::V> {
        self.members@.dom()
    }
}

impl<K: Key> OrderedSet<K> {
    /// The members ascend.
    pub closed spec fn wf(&self) -> bool {
        self.members.wf()
    }

    /// The empty set.
    pub fn new() -> (set: Self)
        ensures
            set.wf(),
            set@ == Set::<K::V>::empty(),
    {
        OrderedSet { members: OrderedMap::new() }
    }

    /// Adds a member.
    pub fn insert(&mut self, key: K)
        requires
            old(self).wf(),
        ensures
            final(self).wf(),
            final(self)@ == old(self)@.insert(key@),
    {
        self.members.insert(key, ());
    }

    /// Whether `key` is a member.
    pub fn contains(&self, key: &K) -> (found: bool)
        requires
            self.wf(),
        ensures
            found == self@.contains(key@),
    {
        self.members.contains(key)
    }

    /// The members in ascending order.
    pub fn into_vec(self) -> (members: Vec<K>)
        requires
            self.wf(),
        ensures
            ascending::<K>(viewed(members@)),
            viewed(members@).to_set() == self@,
    {
        let (keys, _) = self.members.into_parts();
        assert(viewed(keys@).to_set() =~= self@);
        keys
    }
}

/// A set has one ascending list of its members.
pub proof fn lemma_ascending_unique<K: Key>(a: Seq<K::V>, b: Seq<K::V>)
    requires
        ascending::<K>(a),
        ascending::<K>(b),
        a.to_set() == b.to_set(),
    ensures
        a == b,
    decreases a.len(),
{
    if a.len() == 0 {
        if b.len() > 0 {
            assert(b.contains(b[0]));
            assert(b.to_set().contains(b[0]));
        }
        assert(a =~= b);
    } else {
        assert(a.contains(a[a.len() - 1]));
        assert(a.to_set().contains(a.last()));
        let i = b.index_of(a.last());
        assert(b.contains(b[b.len() - 1]));
        assert(b.to_set().contains(b.last()));
        let j = a.index_of(b.last());
        if a.last() != b.last() {
            assert(K::before(b[i], b[b.len() - 1]));
            assert(K::before(a[j], a[a.len() - 1]));
            K::transitive(a.last(), b.last(), a.last());
            K::irreflexive(a.last());
        }
        lemma_without_last::<K>(a);
        lemma_without_last::<K>(b);
        lemma_ascending_unique::<K>(a.drop_last(), b.drop_last());
        assert(a =~= a.drop_last().push(a.last()));
        assert(b =~= b.drop_last().push(b.last()));
    }
}

/// Without its last member an ascending list holds the rest of the set.
proof fn lemma_without_last<K: Key>(a: Seq<K::V>)
    requires
        ascending::<K>(a),
        a.len() > 0,
    ensures
        ascending::<K>(a.drop_last()),
        a.drop_last().to_set() == a.to_set().remove(a.last()),
{
    let rest = a.drop_last();
    assert forall|i: int, j: int| 0 <= i < j < rest.len() implies K::before(
        #[trigger] rest[i],
        #[trigger] rest[j],
    ) by {
        assert(K::before(a[i], a[j]));
    }
    assert forall|x: K::V| #[trigger] rest.to_set().contains(x) == a.to_set().remove(
        a.last(),
    ).contains(x) by {
        if rest.contains(x) {
            let i = rest.index_of(x);
            assert(a[i] == x);
            assert(a.contains(x));
            assert(K::before(a[i], a[a.len() - 1]));
            K::irreflexive(x);
        }
        if a.contains(x) && x != a.last() {
            let i = a.index_of(x);
            assert(rest[i] == x);
        }
    }
    assert(rest.to_set() =~= a.to_set().remove(a.last()));
}

// ---------------------------------------------------------------- sorting

/// The items at the given positions.
pub open spec fn picked<T>(items: Seq<T>, order: Seq<int>) -> Seq<T> {
    Seq::new(order.len(), |i: int| items[order[i]])
}

/// Of two positions the first may stand before the second: its key comes
/// first, or neither key does and it stood first.
pub open spec fn in_stable_order<K: Key>(keys: Seq<K::V>, a: int, b: int) -> bool {
    ||| K::before(keys[a], keys[b])
    ||| !K::before(keys[b], keys[a]) && a < b
}

/// `order` lists the positions from `from` on, each once, by ascending key and
/// equal keys by position.
pub open spec fn orders_from<K: Key>(keys: Seq<K::V>, from: int, order: Seq<int>) -> bool {
    &&& order.len() == keys.len() - from
    &&& forall|i: int| 0 <= i < order.len() ==> from <= #[trigger] order[i] < keys.len()
    &&& forall|i: int, j: int|
        0 <= i < j < order.len() ==> #[trigger] order[i] != #[trigger] order[j]
            && in_stable_order::<K>(keys, order[i], order[j])
}

/// `order` is the stable ascending order of `keys`.
pub open spec fn stable_order<K: Key>(keys: Seq<K::V>, order: Seq<int>) -> bool {
    orders_from::<K>(keys, 0, order)
}

/// `sorted` holds the items in the stable ascending order of their keys.
pub open spec fn stably_sorted<K: Key, T>(keys: Seq<K::V>, items: Seq<T>, sorted: Seq<T>) -> bool {
    exists|order: Seq<int>| #[trigger] stable_order::<K>(keys, order) && sorted == picked(items, order)
}

/// Sorts the items by their keys; items with equal keys keep their order.
pub fn stable_sort<K: Key, T>(keys: Vec<K>, items: Vec<T>) -> (sorted: Vec<T>)
    requires
        keys.len() == items.len(),
    ensures
        stably_sorted::<K, T>(viewed(keys@), items@, sorted@),
{
    let ghost all_keys = viewed(keys@);
    let ghost all_items = items@;
    let mut keys = keys;
    let mut items = items;
    let mut sorted_keys: Vec<K> = Vec::new();
    let mut sorted: Vec<T> = Vec::new();
    let ghost mut order: Seq<int> = Seq::empty();
    while keys.len() > 0
        invariant
            keys.len() == items.len() <= all_keys.len() == all_items.len(),
            viewed(keys@) == all_keys.take(keys.len() as int),
            items@ == all_items.take(items.len() as int),
            orders_from::<K>(all_keys, keys.len() as int, order),
            viewed(sorted_keys@) == picked(all_keys, order),
            sorted@ == picked(all_items, order),
            sorted_keys.len() == sorted.len() == order.len(),
        decreases keys.len(),
    {
        let ghost n = keys.len() as int;
        let ghost placed = viewed(sorted_keys@);
        assert(viewed(keys@)[n - 1] == all_keys[n - 1]);
        if let Some(key) = keys.pop() {
            if let Some(item) = items.pop() {
                assert(viewed(keys@) =~= all_keys.take(n - 1));
                assert(items@ =~= all_items.take(n - 1));
                let mut at: usize = 0;
                while at < sorted_keys.len() && sorted_keys[at].less(&key)
                    invariant
                        at <= sorted_keys.len(),
                        placed == viewed(sorted_keys@),
                        forall|i: int| 0 <= i < at ==> K::before(#[trigger] placed[i], key@),
                    decreases sorted_keys.len() - at,
                {
                    assert(placed[at as int] == sorted_keys@[at as int]@);
                    at += 1;
                }
                let ghost p = at as int;
                let ghost new_order = order.insert(p, n - 1);
                proof {
                    lemma_stable_insert::<K>(all_keys, n, order, p);
                }
                let ghost k = key@;
                sorted_keys.insert(at, key);
                sorted.insert(at, item);
                assert(viewed(sorted_keys@) =~= placed.insert(p, k));
                assert(viewed(sorted_keys@) =~= picked(all_keys, new_order));
                assert(sorted@ =~= picked(all_items, new_order));
                proof {
                    order = new_order;
                }
            }
        }
    }
    assert(stable_order::<K>(all_keys, order));
    sorted
}

proof fn lemma_stable_insert<K: Key>(keys: Seq<K::V>, n: int, order: Seq<int>, p: int)
    requires
        0 < n <= keys.len(),
        orders_from::<K>(keys, n, order),
        0 <= p <= order.len(),
        forall|i: int| 0 <= i < p ==> K::before(#[trigger] picked(keys, order)[i], keys[n - 1]),
        p < order.len() ==> !K::before(picked(keys, order)[p], keys[n - 1]),
    ensures
        orders_from::<K>(keys, n - 1, order.insert(p, n - 1)),
{
    let placed = picked(keys, order);
    let new_order = order.insert(p, n - 1);
    assert forall|j: int| p <= j < order.len() implies !K::before(
        #[trigger] placed[j],
        keys[n - 1],
    ) by {
        if p < j && K::before(placed[j], keys[n - 1]) {
            assert(order[p] != order[j]);
            if K::before(placed[p], placed[j]) {
                K::transitive(placed[p], placed[j], keys[n - 1]);
            } else {
                assert(in_stable_order::<K>(keys, order[p], order[j]));
                if placed[p] != placed[j] {
                    K::connected(placed[p], placed[j]);
                }
            }
        }
    }
    assert forall|i: int| 0 <= i < new_order.len() implies n - 1 <= #[trigger] new_order[i]
        < keys.len() by {
        let i0 = if i < p { i } else { i - 1 };
        if i != p {
            assert(new_order[i] == order[i0]);
        }
    }
    assert forall|i: int, j: int| 0 <= i < j < new_order.len() implies #[trigger] new_order[i]
        != #[trigger] new_order[j] && in_stable_order::<K>(keys, new_order[i], new_order[j]) by {
        let i0 = if i < p { i } else { i - 1 };
        let j0 = if j < p { j } else { j - 1 };
        if i == p {
            assert(new_order[j] == order[j0]);
            assert(!K::before(placed[j0], keys[n - 1]));
        } else if j == p {
            assert(new_order[i] == order[i0]);
            assert(K::before(placed[i0], keys[n - 1]));
        } else {
            assert(new_order[i] == order[i0] && new_order[j] == order[j0]);
        }
    }
}

/// Sorting items sorts what they say.
pub proof fn lemma_sorted_views<K: Key, T: View>(keys: Seq<K::V>, items: Seq<T>, sorted: Seq<T>)
    requires
        keys.len() == items.len(),
        stably_sorted::<K, T>(keys, items, sorted),
    ensures
        stably_sorted::<K, T::V>(keys, viewed(items), viewed(sorted)),
        sorted.len() == items.len(),
{
    let order = choose|order: Seq<int>|
        #[trigger] stable_order::<K>(keys, order) && sorted == picked(items, order);
    assert(viewed(sorted) =~= picked(viewed(items), order));
}

/// A stable order lists every position.
pub proof fn lemma_order_complete<K: Key>(keys: Seq<K::V>, order: Seq<int>, position: int)
    requires
        stable_order::<K>(keys, order),
        0 <= position < keys.len(),
    ensures
        order.contains(position),
{
    let n = keys.len() as int;
    let all = vstd::set_lib::set_int_range(0, n);
    vstd::set_lib::lemma_int_range(0, n);
    assert(order.no_duplicates());
    order.unique_seq_to_set();
    assert(order.to_set().subset_of(all));
    vstd::set_lib::lemma_subset_equality(order.to_set(), all);
    assert(order.to_set().contains(position));
}

/// There is one stable order: sorting determines where every item goes.
proof fn lemma_stable_order_unique<K: Key>(keys: Seq<K::V>, a: Seq<int>, b: Seq<int>)
    requires
        stable_order::<K>(keys, a),
        stable_order::<K>(keys, b),
    ensures
        a == b,
{
    lemma_orders_agree::<K>(keys, a, b, keys.len() as int);
    assert(a =~= b);
}

proof fn lemma_orders_agree<K: Key>(keys: Seq<K::V>, a: Seq<int>, b: Seq<int>, n: int)
    requires
        stable_order::<K>(keys, a),
        stable_order::<K>(keys, b),
        0 <= n <= keys.len(),
    ensures
        forall|i: int| 0 <= i < n ==> a[i] == b[i],
    decreases n,
{
    if n > 0 {
        lemma_orders_agree::<K>(keys, a, b, n - 1);
        let x = a[n - 1];
        let y = b[n - 1];
        if x != y {
            lemma_order_complete::<K>(keys, a, y);
            lemma_order_complete::<K>(keys, b, x);
            let i = a.index_of(y);
            let j = b.index_of(x);
            assert(a[i] == y && b[j] == x);
            assert(i >= n) by {
                if i < n - 1 {
                    assert(b[i] == y);
                    assert(b[i] != b[n - 1]);
                }
            }
            assert(j >= n) by {
                if j < n - 1 {
                    assert(a[j] == x);
                    assert(a[j] != a[n - 1]);
                }
            }
            assert(in_stable_order::<K>(keys, a[n - 1], a[i]));
            assert(in_stable_order::<K>(keys, b[n - 1], b[j]));
            if K::before(keys[x], keys[y]) && K::before(keys[y], keys[x]) {
                K::transitive(keys[x], keys[y], keys[x]);
                K::irreflexive(keys[x]);
            }
        }
    }
}

/// Sorting is determined: there is one stable ascending order of the items.
pub proof fn sorting_is_determined<K: Key, T>(keys: Seq<K::V>, items: Seq<T>, a: Seq<T>, b: Seq<T>)
    requires
        stably_sorted::<K, T>(keys, items, a),
        stably_sorted::<K, T>(keys, items, b),
    ensures
        a == b,
{
    let first = choose|order: Seq<int>|
        #[trigger] stable_order::<K>(keys, order) && a == picked(items, order);
    let second = choose|order: Seq<int>|
        #[trigger] stable_order::<K>(keys, order) && b == picked(items, order);
    lemma_stable_order_unique::<K>(keys, first, second);
}

} // verus!
