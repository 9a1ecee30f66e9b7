//! Hash tables keyed by identifiers, hashed with the Fowler-Noll-Vo function.
//!
//! The hash tables are those of the standard library, built with the hasher
//! that the `fnv` crate supplies. Calls that hash a key go through the small
//! functions at the top of this module, whose contracts are taken on trust.
//! [`IdSet`], [`IdTable`] and [`PositionSet`] are built on them and verified.

use vstd::prelude::*;
use std::hash::BuildHasherDefault;
use fnv::FnvHashMap;
use fnv::FnvHashSet;
use fnv::FnvHasher;

verus! {

/// `fnv::FnvHasher`, the state of the Fowler-Noll-Vo hash function. Nothing
/// is said of what it holds.
#[verifier::external_type_specification]
#[verifier::external_body]
pub struct ExFnvHasher(FnvHasher);

/// `std::hash::BuildHasherDefault`, which makes each hasher by `Default`.
/// Nothing is said of what it holds.
#[verifier::external_type_specification]
#[verifier::external_body]
#[verifier::reject_recursive_types(H)]
pub struct ExBuildHasherDefault<H>(BuildHasherDefault<H>);

/// `HashMap::insert` on a map that hashes with `fnv::FnvHasher`. That hasher
/// starts from a fixed basis and folds in the key's bytes, so equal keys meet
/// in one entry: the map afterwards holds `slot` under `key` and is
/// otherwise as before.
#[verifier::external_body]
fn slot_insert(m: &mut FnvHashMap<u32, usize>, key: u32, slot: usize)
    ensures
        final(m)@ == old(m)@.insert(key, slot),
{
    m.insert(key, slot);
}

/// `HashMap::get` on a map that hashes with `fnv::FnvHasher`: the slot held
/// under `key`, if the map holds one.
#[verifier::external_body]
fn slot_get(m: &FnvHashMap<u32, usize>, key: u32) -> (r: Option<usize>)
    ensures
        r == (if m@.contains_key(key) {
            Some(m@[key])
        } else {
            None
        }),
{
    m.get(&key).copied()
}

/// `HashSet::insert` on a set that hashes with `fnv::FnvHasher`: the set
/// afterwards holds `member` and what it held before.
#[verifier::external_body]
fn member_insert(s: &mut FnvHashSet<usize>, member: usize)
    ensures
        final(s)@ == old(s)@.insert(member),
{
    s.insert(member);
}

/// `HashSet::contains` on a set that hashes with `fnv::FnvHasher`: whether
/// the set holds `member`.
#[verifier::external_body]
fn member_contains(s: &FnvHashSet<usize>, member: usize) -> (r: bool)
    ensures
        r == s@.contains(member),
{
    s.contains(&member)
}

/// `HashSet::len` on a set that hashes with `fnv::FnvHasher`: the number of
/// members that the set holds.
#[verifier::external_body]
fn member_count(s: &FnvHashSet<usize>) -> (n: usize)
    ensures
        n == s@.len(),
{
    s.len()
}

/// `HashSet::iter` on a set that hashes with `fnv::FnvHasher`, collected:
/// the members that the set holds, in the order in which the set yields
/// them, which is not stated.
#[verifier::external_body]
fn member_list(s: &FnvHashSet<usize>) -> (v: Vec<usize>)
    ensures
        v@.to_set() == s@,
{
    s.iter().copied().collect()
}

/// A set of identifiers.
pub struct IdSet {
    ids: FnvHashSet<usize>,
}

impl View for IdSet {
    type V = Set<u32>;

    closed spec fn view(&self) -> Set<u32> {
        Set::new(|id: u32| self.ids@.contains(id as usize))
    }
}

impl IdSet {
    /// The empty set.
    pub fn new() -> (r: IdSet)
        ensures
            r@ == Set::<u32>::empty(),
    {
        let r = IdSet { ids: FnvHashSet::default() };
        assert(r@ =~= Set::<u32>::empty());
        r
    }

    /// Adds `id` to the set.
    pub fn insert(&mut self, id: u32)
        ensures
            final(self)@ == old(self)@.insert(id),
    {
        member_insert(&mut self.ids, id as usize);
        assert(self@ =~= old(self)@.insert(id));
    }

    /// Whether the set holds `id`.
    pub fn contains(&self, id: u32) -> (r: bool)
        ensures
            r == self@.contains(id),
    {
        member_contains(&self.ids, id as usize)
    }
}

/// An association from identifiers to values that remembers the order in
/// which the identifiers came, and finds the place of one in constant time.
pub struct IdTable<V> {
    slots: FnvHashMap<u32, usize>,
    keys: Vec<u32>,
    values: Vec<V>,
}

impl<V> IdTable<V> {
    /// The keys, in the order in which they were added.
    pub closed spec fn keys(&self) -> Seq<u32> {
        self.keys@
    }

    /// The values, in the order of their keys.
    pub closed spec fn values(&self) -> Seq<V> {
        self.values@
    }

    /// The association itself.
    pub open spec fn map(&self) -> Map<u32, V> {
        Map::new(
            |k: u32| self.keys().contains(k),
            |k: u32| self.values()[self.keys().index_of(k)],
        )
    }

    /// The table's invariant: one value for each key, and no key twice.
    pub closed spec fn wf(&self) -> bool {
        &&& self.keys.len() == self.values.len()
        &&& forall|i: int|
            0 <= i < self.keys.len() ==> self.slots@.contains_key(#[trigger] self.keys[i])
                && self.slots@[self.keys[i]] == i
        &&& forall|k: u32| #[trigger]
            self.slots@.contains_key(k) ==> self.slots@[k] < self.keys.len()
                && self.keys[self.slots@[k] as int] == k
    }

    /// Whether the table holds `key`.
    pub open spec fn has(&self, key: u32) -> bool {
        self.keys().contains(key)
    }

    /// A well-formed table has as many values as keys, no key twice, and
    /// under each key the value that stands at the key's place.
    pub proof fn lemma_wf(&self)
        requires
            self.wf(),
        ensures
            self.keys().len() == self.values().len(),
            self.keys().no_duplicates(),
            forall|i: int|
                0 <= i < self.keys().len() ==> self.map().contains_key(#[trigger] self.keys()[i])
                    && self.map()[self.keys()[i]] == self.values()[i],
    {
        assert forall|i: int, j: int|
            0 <= i < self.keys().len() && 0 <= j < self.keys().len() && i != j implies self.keys()[i]
            != self.keys()[j] by {
            assert(self.slots@[self.keys[i]] == i);
            assert(self.slots@[self.keys[j]] == j);
        }
        assert forall|i: int| 0 <= i < self.keys().len() implies self.map().contains_key(
            #[trigger] self.keys()[i],
        ) && self.map()[self.keys()[i]] == self.values()[i] by {
            let k = self.keys()[i];
            assert(self.keys().contains(k));
            let j = self.keys().index_of(k);
            assert(self.keys()[j] == k);
        }
    }

    /// The empty table.
    pub fn new() -> (r: IdTable<V>)
        ensures
            r.wf(),
            r.keys() == Seq::<u32>::empty(),
            r.values() == Seq::<V>::empty(),
            r.map() == Map::<u32, V>::empty(),
    {
        let r = IdTable { slots: FnvHashMap::default(), keys: Vec::new(), values: Vec::new() };
        assert(r.map() =~= Map::<u32, V>::empty());
        r
    }

    /// The number of keys.
    pub fn len(&self) -> (n: usize)
        requires
            self.wf(),
        ensures
            n == self.keys().len(),
            n == self.values().len(),
    {
        self.keys.len()
    }

    /// The key at place `i`.
    pub fn key(&self, i: usize) -> (k: u32)
        requires
            self.wf(),
            i < self.keys().len(),
        ensures
            k == self.keys()[i as int],
    {
        self.keys[i]
    }

    /// The place of `key`, if the table holds it.
    pub fn find(&self, key: u32) -> (r: Option<usize>)
        requires
            self.wf(),
        ensures
            match r {
                Some(i) => i < self.keys().len() && self.keys()[i as int] == key
                    && self.map().contains_key(key) && self.map()[key] == self.values()[i as int],
                None => !self.map().contains_key(key),
            },
    {
        let r = slot_get(&self.slots, key);
        proof {
            self.lemma_wf();
            if r is None && self.keys().contains(key) {
                let i = choose|i: int| 0 <= i < self.keys().len() && self.keys()[i] == key;
                assert(self.slots@.contains_key(self.keys[i]));
            }
        }
        r
    }

    /// Adds `key` with `value` in last place.
    pub fn push(&mut self, key: u32, value: V)
        requires
            old(self).wf(),
            !old(self).map().contains_key(key),
        ensures
            final(self).wf(),
            final(self).keys() == old(self).keys().push(key),
            final(self).values() == old(self).values().push(value),
            final(self).map() == old(self).map().insert(key, value),
    {
        let n = self.keys.len();
        slot_insert(&mut self.slots, key, n);
        self.keys.push(key);
        self.values.push(value);
        proof {
            assert forall|k: u32| #[trigger]
                self.slots@.contains_key(k) implies self.slots@[k] < self.keys.len()
                && self.keys[self.slots@[k] as int] == k by {
                if k != key {
                    assert(old(self).slots@.contains_key(k));
                }
            }
            assert forall|i: int| 0 <= i < self.keys.len() implies self.slots@.contains_key(
                #[trigger] self.keys[i],
            ) && self.slots@[self.keys[i]] == i by {
                if i < n {
                    assert(old(self).keys().contains(old(self).keys[i]));
                    assert(old(self).slots@.contains_key(old(self).keys[i]));
                }
            }
            old(self).lemma_wf();
            self.lemma_wf();
            assert forall|k: u32| self.map().contains_key(k) <==> old(self).map().insert(
                key,
                value,
            ).contains_key(k) by {
                if old(self).keys().contains(k) {
                    let i = choose|i: int| 0 <= i < n && old(self).keys()[i] == k;
                    assert(self.keys()[i] == k);
                }
                if self.keys().contains(k) && k != key {
                    let i = choose|i: int| 0 <= i < n + 1 && self.keys()[i] == k;
                    assert(old(self).keys()[i] == k);
                }
                assert(self.keys()[n as int] == key);
            }
            assert forall|k: u32| self.map().contains_key(k) implies self.map()[k] == old(
                self,
            ).map().insert(key, value)[k] by {
                let i = choose|i: int| 0 <= i < n + 1 && self.keys()[i] == k;
                assert(self.map()[self.keys()[i]] == self.values()[i]);
                if i < n {
                    assert(old(self).map()[old(self).keys()[i]] == old(self).values()[i]);
                }
            }
            assert(self.map() =~= old(self).map().insert(key, value));
        }
    }

    /// The value at place `i`.
    pub fn value(&self, i: usize) -> (v: &V)
        requires
            self.wf(),
            i < self.keys().len(),
        ensures
            *v == self.values()[i as int],
            *v == self.map()[self.keys()[i as int]],
    {
        proof {
            self.lemma_wf();
        }
        &self.values[i]
    }

    /// The keys and the values, in their order.
    pub fn into_parts(self) -> (parts: (Vec<u32>, Vec<V>))
        requires
            self.wf(),
        ensures
            parts.0@ == self.keys(),
            parts.1@ == self.values(),
    {
        (self.keys, self.values)
    }

    /// The value at place `i`, to be written to. The keys stay as they are.
    pub fn value_mut(&mut self, i: usize) -> (v: &mut V)
        requires
            old(self).wf(),
            i < old(self).keys().len(),
        ensures
            *v == old(self).values()[i as int],
            final(self).wf(),
            final(self).keys() == old(self).keys(),
            final(self).values() == old(self).values().update(i as int, *final(v)),
            final(self).map() == old(self).map().insert(old(self).keys()[i as int], *final(v)),
    {
        proof {
            old(self).lemma_wf();
            let keys = old(self).keys();
            assert forall|a: IdTable<V>|
                (#[trigger] a.keys()) == keys && a.values() == old(self).values().update(
                    i as int,
                    a.values()[i as int],
                ) implies a.map() == old(self).map().insert(keys[i as int], a.values()[i as int]) by {
                let x = a.values()[i as int];
                assert forall|k: u32| a.map().contains_key(k) implies a.map()[k] == old(
                    self,
                ).map().insert(keys[i as int], x)[k] by {
                    let j = keys.index_of(k);
                    assert(keys[j] == k);
                }
                assert(keys.contains(keys[i as int]));
                assert(a.map() =~= old(self).map().insert(keys[i as int], x));
            }
        }
        &mut self.values[i]
    }
}

/// A set of token positions.
pub struct PositionSet {
    set: FnvHashSet<usize>,
}

impl View for PositionSet {
    type V = Set<usize>;

    closed spec fn view(&self) -> Set<usize> {
        self.set@
    }
}

impl PositionSet {
    /// The set of the positions in `positions`.
    pub fn from_positions(positions: &Vec<usize>) -> (r: PositionSet)
        ensures
            r@ == positions@.to_set(),
    {
        let mut set: FnvHashSet<usize> = FnvHashSet::default();
        let n = positions.len();
        let mut i: usize = 0;
        assert(positions@.take(0).to_set() =~= Set::<usize>::empty());
        while i < n
            invariant
                n == positions.len(),
                i <= n,
                set@ == positions@.take(i as int).to_set(),
            decreases n - i,
        {
            member_insert(&mut set, positions[i]);
            proof {
                let next = positions@.take(i + 1);
                let prev = positions@.take(i as int);
                assert(next =~= prev.push(positions@[i as int]));
                assert forall|p: usize| next.to_set().contains(p) <==> prev.to_set().insert(
                    positions@[i as int],
                ).contains(p) by {
                    if prev.contains(p) {
                        let k = choose|k: int| 0 <= k < prev.len() && prev[k] == p;
                        assert(next[k] == p);
                    }
                    if next.contains(p) {
                        let k = choose|k: int| 0 <= k < next.len() && next[k] == p;
                        if k < i {
                            assert(prev[k] == p);
                        }
                    }
                    assert(next[i as int] == positions@[i as int]);
                }
                assert(next.to_set() =~= prev.to_set().insert(positions@[i as int]));
            }
            i += 1;
        }
        assert(positions@.take(n as int) =~= positions@);
        PositionSet { set }
    }

    /// Whether the set holds `position`.
    pub fn contains(&self, position: usize) -> (r: bool)
        ensures
            r == self@.contains(position),
    {
        member_contains(&self.set, position)
    }

    /// The number of distinct positions.
    pub fn len(&self) -> (n: usize)
        ensures
            n == self@.len(),
    {
        member_count(&self.set)
    }

    /// The positions, each once, in no stated order.
    pub fn to_vec(&self) -> (v: Vec<usize>)
        ensures
            v@.to_set() == self@,
    {
        member_list(&self.set)
    }
}

} // verus!
