//! A map from strings to values that remembers the order in which its keys
//! were first inserted.
//!
//! Lookups go through a hash map; the keys are also kept in a vector, so that
//! the entries can be walked by position.

use vstd::hash_map::StringHashMap;
use vstd::prelude::*;

verus! {

/// A map keyed by strings, with its keys in insertion order.
#[verifier::reject_recursive_types(V)]
pub struct Table<V> {
    keys: Vec<String>,
    slots: StringHashMap<V>,
}

impl<V> View for Table<V> {
    type V = Map<Seq<char>, V>;

    closed spec fn view(&self) -> Map<Seq<char>, V> {
        self.slots@
    }
}

impl<V> Table<V> {
    /// The keys, in the order in which they were first inserted.
    pub closed spec fn keys(&self) -> Seq<Seq<char>> {
        self.keys.deep_view()
    }

    /// No key is listed twice, and the listed keys are those of the map.
    pub open spec fn well_formed(&self) -> bool {
        &&& self.keys().no_duplicates()
        &&& forall|k: Seq<char>| self@.contains_key(k) <==> self.keys().contains(k)
    }

    #[verifier::type_invariant]
    closed spec fn inv(&self) -> bool {
        self.well_formed()
    }

    /// An empty table.
    pub fn new() -> (table: Self)
        ensures
            table@ == Map::<Seq<char>, V>::empty(),
            table.keys() == Seq::<Seq<char>>::empty(),
            table.well_formed(),
    {
        let table = Table { keys: Vec::new(), slots: StringHashMap::new() };
        assert(table.keys() =~= Seq::<Seq<char>>::empty());
        table
    }

    /// The number of entries.
    pub fn len(&self) -> (n: usize)
        ensures
            n == self.keys().len(),
            n == self@.len(),
            self@.dom().finite(),
            self.well_formed(),
    {
        proof {
            use_type_invariant(self);
            self.keys().unique_seq_to_set();
            assert(self.keys().to_set() =~= self@.dom());
        }
        self.keys.len()
    }

    /// Whether `key` has an entry.
    pub fn contains_key(&self, key: &str) -> (found: bool)
        ensures
            found == self@.contains_key(key@),
    {
        self.slots.contains_key(key)
    }

    /// The value stored under `key`, if there is one.
    pub fn get(&self, key: &str) -> (value: Option<&V>)
        ensures
            match value {
                Some(v) => self@.contains_key(key@) && *v == self@[key@],
                None => !self@.contains_key(key@),
            },
    {
        self.slots.get(key)
    }

    /// The key at position `i` of the insertion order.
    pub fn key_at(&self, i: usize) -> (key: &String)
        requires
            i < self.keys().len(),
        ensures
            key@ == self.keys()[i as int],
            self@.contains_key(key@),
    {
        proof {
            use_type_invariant(self);
            assert(self.keys().contains(self.keys()[i as int]));
        }
        &self.keys[i]
    }

    /// Stores `value` under `key`. A key that is new goes to the end of the
    /// insertion order; one that is present keeps its place.
    pub fn insert(&mut self, key: String, value: V)
        ensures
            final(self)@ == old(self)@.insert(key@, value),
            final(self).keys() == if old(self)@.contains_key(key@) {
                old(self).keys()
            } else {
                old(self).keys().push(key@)
            },
            final(self).well_formed(),
    {
        proof {
            use_type_invariant(&*self);
        }
        let mut taken = Table::new();
        std::mem::swap(self, &mut taken);
        let Table { mut keys, mut slots } = taken;
        let ghost before = keys.deep_view();
        let ghost held = slots@;
        assert(before.no_duplicates());
        assert(forall|k: Seq<char>| held.contains_key(k) <==> before.contains(k));
        if !slots.contains_key(key.as_str()) {
            keys.push(key.clone());
            proof {
                let after = keys.deep_view();
                assert(after =~= before.push(key@));
                assert(!before.contains(key@));
                assert forall|i: int, j: int|
                    0 <= i < after.len() && 0 <= j < after.len() && i != j implies after[i]
                    != after[j] by {
                    if i < before.len() {
                        assert(before.contains(before[i]));
                    }
                    if j < before.len() {
                        assert(before.contains(before[j]));
                    }
                }
            }
        }
        slots.insert(key, value);
        proof {
            let after = keys.deep_view();
            assert forall|k: Seq<char>| slots@.contains_key(k) <==> after.contains(k) by {
                if before.contains(k) {
                    let i = choose|i: int| 0 <= i < before.len() && before[i] == k;
                    assert(after[i] == k);
                }
                if after.contains(k) && k != key@ {
                    let i = choose|i: int| 0 <= i < after.len() && after[i] == k;
                    assert(before[i] == k);
                }
                if k == key@ && !held.contains_key(k) {
                    assert(after[before.len() as int] == k);
                }
            }
        }
        *self = Table { keys, slots };
    }
}

} // verus!
