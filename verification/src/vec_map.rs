//! A map that keeps its keys in an order, adds new keys at the end, and gives one up at
//! random.

use crate::dice::below_drawn;
use crate::dice::draw_below;
use crate::dice::draw_unit;
use crate::dice::state_of;
use crate::dice::unit_drawn;
use rand::rngs::StdRng;
use std::collections::HashMap;
use std::hash::Hash;
use vstd::prelude::*;
use vstd::std_specs::hash::*;

verus! {

/// What a `VecMap` holds: its keys in order, and the value under each key.
#[verifier::reject_recursive_types(K)]
pub struct VecMapView<K, V> {
    pub order: Seq<K>,
    pub entries: Map<K, V>,
}

impl<K, V> VecMapView<K, V> {
    /// No key stands twice in the order, and the keys in the order are the keys that have
    /// a value.
    pub open spec fn valid(self) -> bool {
        &&& self.order.no_duplicates()
        &&& forall|k: K| #[trigger] self.entries.contains_key(k) ==> self.order.contains(k)
        &&& forall|i: int|
            0 <= i < self.order.len() ==> self.entries.contains_key(#[trigger] self.order[i])
    }

    pub open spec fn empty() -> Self {
        VecMapView { order: Seq::empty(), entries: Map::empty() }
    }

    /// With `key` added last, holding `value`.
    pub open spec fn inserted(self, key: K, value: V) -> Self {
        VecMapView { order: self.order.push(key), entries: self.entries.insert(key, value) }
    }

    /// With the value under `key` replaced.
    pub open spec fn updated(self, key: K, value: V) -> Self {
        VecMapView { order: self.order, entries: self.entries.insert(key, value) }
    }

    /// With the key at `index` gone, and the last key moved into its place.
    pub open spec fn without(self, index: int) -> Self {
        VecMapView {
            order: self.order.update(index, self.order.last()).drop_last(),
            entries: self.entries.remove(self.order[index]),
        }
    }

    /// The key at `index` with its value.
    pub open spec fn entry(self, index: int) -> (K, V) {
        (self.order[index], self.entries[self.order[index]])
    }
}

/// The place that is given up: the last place of the order where the unit draw falls below
/// `fuzz`, else the place drawn.
pub open spec fn chosen(len: nat, drawn: u64, unit: u64, fuzz: u64) -> int {
    if unit < fuzz {
        len - 1
    } else {
        drawn as int
    }
}

/// The index that a generator in the given state picks among `len`, and the state it is
/// left in: one draw below `len`, then one from the unit interval.
pub open spec fn picked(state: Seq<u32>, len: nat, fuzz: u64) -> (int, Seq<u32>) {
    let first = below_drawn(state, len as u64);
    let second = unit_drawn(first.1);
    (chosen(len, first.0, second.0, fuzz), second.1)
}

/// Removing the key at `index` keeps a view valid.
pub proof fn lemma_without_valid<K, V>(v: VecMapView<K, V>, index: int)
    requires
        v.valid(),
        0 <= index < v.order.len(),
    ensures
        v.without(index).valid(),
        v.without(index).order.len() == v.order.len() - 1,
        !v.without(index).entries.contains_key(v.order[index]),
{
    let w = v.without(index);
    let n = v.order.len() as int;
    assert forall|i: int| 0 <= i < w.order.len() implies w.entries.contains_key(
        #[trigger] w.order[i],
    ) by {
        let j = if i == index { n - 1 } else { i };
        assert(w.order[i] == v.order[j]);
        assert(v.entries.contains_key(v.order[j]));
    }
    assert forall|k: K| #[trigger] w.entries.contains_key(k) implies w.order.contains(k) by {
        assert(v.entries.contains_key(k));
        let j = choose|j: int| 0 <= j < n && v.order[j] == k;
        if j == n - 1 {
            assert(w.order[index] == k);
        } else {
            assert(w.order[j] == k);
        }
    }
}

/// Machine words hash as their equality demands, so they can be keys.
pub proof fn lemma_word_keys()
    ensures
        obeys_key_model::<usize>(),
{
    broadcast use group_hash_axioms;

}

/// Adding a key that has no value yet keeps a view valid.
pub proof fn lemma_inserted_valid<K, V>(v: VecMapView<K, V>, key: K, value: V)
    requires
        v.valid(),
        !v.entries.contains_key(key),
    ensures
        v.inserted(key, value).valid(),
{
    let w = v.inserted(key, value);
    let n = v.order.len() as int;
    assert forall|k: K| #[trigger] w.entries.contains_key(k) implies w.order.contains(k) by {
        if k == key {
            assert(w.order[n] == k);
        } else {
            let j = choose|j: int| 0 <= j < n && v.order[j] == k;
            assert(w.order[j] == k);
        }
    }
    assert forall|i: int| 0 <= i < w.order.len() implies w.entries.contains_key(
        #[trigger] w.order[i],
    ) by {
        if i < n {
            assert(w.order[i] == v.order[i]);
        }
    }
}

/// Replacing the value under a key that has one keeps a view valid.
pub proof fn lemma_updated_valid<K, V>(v: VecMapView<K, V>, key: K, value: V)
    requires
        v.valid(),
        v.entries.contains_key(key),
    ensures
        v.updated(key, value).valid(),
{
}

/// In a valid view the order holds as many keys as there are entries.
pub proof fn lemma_counts_agree<K, V>(v: VecMapView<K, V>)
    requires
        v.valid(),
    ensures
        v.entries.dom().finite(),
        v.order.len() == v.entries.dom().len(),
{
    v.order.unique_seq_to_set();
    assert(v.order.to_set() =~= v.entries.dom()) by {
        assert forall|k: K| v.order.to_set().contains(k) implies v.entries.dom().contains(k) by {
            let j = choose|j: int| 0 <= j < v.order.len() && v.order[j] == k;
            assert(v.entries.contains_key(v.order[j]));
        }
    }
}

/// The place that is given up, from the two draws: the last place of the order where the
/// unit draw falls below `fuzz`, else the place drawn.
pub fn choose_index(len: usize, drawn: u64, unit: u64, fuzz: u64) -> (index: usize)
    requires
        drawn < len,
    ensures
        index == chosen(len as nat, drawn, unit, fuzz),
        index < len,
{
    if unit < fuzz {
        len - 1
    } else {
        drawn as usize
    }
}

/// A map from keys to values that keeps its keys in an order: a new key goes to the end,
/// and a key that leaves is replaced by the one at the end.
#[verifier::reject_recursive_types(K)]
pub struct VecMap<K, V> where K: Copy + Eq + Hash {
    order: Vec<K>,
    slots: HashMap<K, V>,
}

impl<K: Copy + Eq + Hash, V> View for VecMap<K, V> {
    type V = VecMapView<K, V>;

    closed spec fn view(&self) -> VecMapView<K, V> {
        VecMapView { order: self.order@, entries: self.slots@ }
    }
}

impl<K: Copy + Eq + Hash, V> VecMap<K, V> {
    /// The keys hash as equality demands, and the view is valid.
    pub open spec fn wf(&self) -> bool {
        obeys_key_model::<K>() && self@.valid()
    }

    /// An empty map.
    pub fn new() -> (m: Self)
        requires
            obeys_key_model::<K>(),
        ensures
            m.wf(),
            m@ == VecMapView::<K, V>::empty(),
    {
        VecMap { order: Vec::new(), slots: HashMap::new() }
    }

    /// How many keys the map holds.
    pub fn len(&self) -> (n: usize)
        requires
            self.wf(),
        ensures
            n == self@.order.len(),
            n == self@.entries.dom().len(),
    {
        proof {
            lemma_counts_agree(self@);
        }
        self.order.len()
    }

    /// Whether the map holds no key: then neither the order nor the entries hold one.
    pub fn is_empty(&self) -> (empty: bool)
        requires
            self.wf(),
        ensures
            empty == (self@.order.len() == 0),
            empty == (self@.entries.dom().len() == 0),
    {
        proof {
            lemma_counts_agree(self@);
        }
        self.order.len() == 0
    }

    /// Whether `key` has a value.
    pub fn contains_key(&self, key: K) -> (found: bool)
        requires
            self.wf(),
        ensures
            found == self@.entries.contains_key(key),
    {
        broadcast use group_hash_axioms;

        self.slots.contains_key(&key)
    }

    /// The value under `key`, if it has one.
    pub fn get(&self, key: K) -> (value: Option<&V>)
        requires
            self.wf(),
        ensures
            match value {
                Some(v) => self@.entries.contains_key(key) && *v == self@.entries[key],
                None => !self@.entries.contains_key(key),
            },
    {
        broadcast use group_hash_axioms;

        self.slots.get(&key)
    }

    /// Adds `key` with `value` at the end of the order. A key that has a value keeps it and
    /// its place, and that value is returned.
    pub fn insert(&mut self, key: K, value: V) -> (kept: Option<V>) where V: Copy
        requires
            old(self).wf(),
        ensures
            final(self).wf(),
            old(self)@.entries.contains_key(key) ==> kept == Some(old(self)@.entries[key])
                && final(self)@ == old(self)@,
            !old(self)@.entries.contains_key(key) ==> kept.is_none() && final(self)@ == old(
                self,
            )@.inserted(key, value),
    {
        broadcast use group_hash_axioms;

        let held = match self.slots.get(&key) {
            Some(v) => Some(*v),
            None => None,
        };
        if held.is_none() {
            proof {
                lemma_inserted_valid(self@, key, value);
            }
            self.slots.insert(key, value);
            self.order.push(key);
        }
        held
    }

    /// Adds `key` with `value` at the end of the order; where `key` has a value, that value
    /// is handed to `modify` and replaced by what it returns, and `value` is dropped.
    pub fn insert_modify<F: FnOnce(V) -> V>(&mut self, key: K, value: V, modify: F)
        requires
            old(self).wf(),
            old(self)@.entries.contains_key(key) ==> modify.requires((old(self)@.entries[key],)),
        ensures
            final(self).wf(),
            old(self)@.entries.contains_key(key) ==> final(self)@.entries.contains_key(key)
                && modify.ensures((old(self)@.entries[key],), final(self)@.entries[key])
                && final(self)@ == old(self)@.updated(key, final(self)@.entries[key]),
            !old(self)@.entries.contains_key(key) ==> final(self)@ == old(self)@.inserted(
                key,
                value,
            ),
    {
        broadcast use group_hash_axioms;

        let ghost before = self@;
        match self.slots.remove(&key) {
            Some(existing) => {
                let merged = modify(existing);
                self.slots.insert(key, merged);
                proof {
                    lemma_updated_valid(before, key, merged);
                    assert(self@.entries =~= before.entries.insert(key, merged));
                }
            },
            None => {
                proof {
                    assert(self@.entries =~= before.entries);
                    lemma_inserted_valid(before, key, value);
                }
                self.slots.insert(key, value);
                self.order.push(key);
            },
        }
    }

    /// Takes out the key at `index` of the order with its value; the last key of the order
    /// moves into its place.
    pub fn remove_at(&mut self, index: usize) -> (entry: (K, V))
        requires
            old(self).wf(),
            index < old(self)@.order.len(),
        ensures
            final(self).wf(),
            entry == old(self)@.entry(index as int),
            final(self)@ == old(self)@.without(index as int),
    {
        broadcast use group_hash_axioms;

        let ghost before = self@;
        proof {
            lemma_without_valid(before, index as int);
            assert(before.entries.contains_key(before.order[index as int]));
        }
        let key = self.order.swap_remove(index);
        let value = self.slots.remove(&key);
        (key, value.unwrap())
    }

    /// Takes out one key with its value, or nothing from an empty map. The key is the one
    /// at a drawn place of the order, but where a draw from the unit interval falls below
    /// `fuzz` (in units of `2^-53`) it is the key at the last place of the order. The last
    /// key of the order then moves into the place that was given up.
    pub fn rand_remove(&mut self, rng: &mut StdRng, fuzz: u64) -> (entry: Option<(K, V)>)
        requires
            old(self).wf(),
        ensures
            final(self).wf(),
            old(self)@.order.len() == 0 ==> entry.is_none() && final(self)@ == old(self)@
                && state_of(*final(rng)) == state_of(*old(rng)),
            old(self)@.order.len() > 0 ==> ({
                let pick = picked(state_of(*old(rng)), old(self)@.order.len(), fuzz);
                &&& 0 <= pick.0 < old(self)@.order.len()
                &&& entry == Some(old(self)@.entry(pick.0))
                &&& final(self)@ == old(self)@.without(pick.0)
                &&& state_of(*final(rng)) == pick.1
            }),
    {
        let len = self.order.len();
        if len == 0 {
            return None;
        }
        let drawn = draw_below(rng, len as u64);
        let unit = draw_unit(rng);
        let index = choose_index(len, drawn, unit, fuzz);
        Some(self.remove_at(index))
    }
}

} // verus!
