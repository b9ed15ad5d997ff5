//! A map from texts to values that keeps its entries in the order of their
//! keys, so that walking it is deterministic.

use crate::text::{
    lemma_text_lt_asymmetric, lemma_text_lt_irreflexive, lemma_text_lt_total,
    lemma_text_lt_transitive, str_eq, str_lt, text_lt,
};
use vstd::prelude::*;

verus! {

/// Every key comes strictly before the keys behind it.
pub open spec fn sorted_keys(keys: Seq<Seq<char>>) -> bool {
    forall|i: int, j: int|
        0 <= i < j < keys.len() ==> text_lt(#[trigger] keys[i], #[trigger] keys[j])
}

/// The map that a sequence of keys and a sequence of values of the same
/// length stand for: each key leads to the value at its position.
pub open spec fn map_of<V>(keys: Seq<Seq<char>>, values: Seq<V>) -> Map<Seq<char>, V> {
    Map::new(|k: Seq<char>| keys.contains(k), |k: Seq<char>| values[keys.index_of(k)])
}

/// In sorted keys nothing occurs twice.
pub proof fn lemma_sorted_keys_distinct(keys: Seq<Seq<char>>, i: int, j: int)
    requires
        sorted_keys(keys),
        0 <= i < keys.len(),
        0 <= j < keys.len(),
        keys[i] == keys[j],
    ensures
        i == j,
{
    lemma_text_lt_irreflexive(keys[i]);
    if i < j {
        assert(text_lt(keys[i], keys[j]));
    } else if j < i {
        assert(text_lt(keys[j], keys[i]));
    }
}

/// In sorted keys, the key at a position leads back to that position.
pub proof fn lemma_sorted_index_of(keys: Seq<Seq<char>>, i: int)
    requires
        sorted_keys(keys),
        0 <= i < keys.len(),
    ensures
        keys.contains(keys[i]),
        keys.index_of(keys[i]) == i,
{
    assert(keys.contains(keys[i]));
    let found = keys.index_of(keys[i]);
    lemma_sorted_keys_distinct(keys, found, i);
}

/// What `map_of` holds for sorted keys: the key at each position leads to the
/// value at that position.
pub proof fn lemma_map_of_sorted<V>(keys: Seq<Seq<char>>, values: Seq<V>)
    requires
        sorted_keys(keys),
        keys.len() == values.len(),
    ensures
        forall|i: int|
            0 <= i < keys.len() ==> map_of(keys, values).contains_key(#[trigger] keys[i]) && map_of(
                keys,
                values,
            )[keys[i]] == values[i],
        forall|k: Seq<char>| map_of(keys, values).contains_key(k) <==> keys.contains(k),
{
    assert forall|i: int| 0 <= i < keys.len() implies map_of(keys, values).contains_key(
        #[trigger] keys[i],
    ) && map_of(keys, values)[keys[i]] == values[i] by {
        lemma_sorted_index_of(keys, i);
    }
}

/// A key that would have to stand at `at`, where another key stands or the
/// keys end, is not among sorted keys.
pub proof fn lemma_absent_at(keys: Seq<Seq<char>>, key: Seq<char>, at: int)
    requires
        sorted_keys(keys),
        0 <= at <= keys.len(),
        forall|j: int| 0 <= j < at ==> text_lt(#[trigger] keys[j], key),
        at == keys.len() || text_lt(key, keys[at]),
    ensures
        !keys.contains(key),
{
    if keys.contains(key) {
        let found = keys.index_of(key);
        lemma_text_lt_irreflexive(key);
        if found < at {
            assert(text_lt(keys[found], key));
        } else {
            if found > at {
                assert(text_lt(keys[at], keys[found]));
                lemma_text_lt_transitive(key, keys[at], keys[found]);
            }
        }
    }
}

/// Putting a key where it belongs keeps the keys sorted.
pub proof fn lemma_insert_keeps_sorted(keys: Seq<Seq<char>>, key: Seq<char>, at: int)
    requires
        sorted_keys(keys),
        0 <= at <= keys.len(),
        forall|j: int| 0 <= j < at ==> text_lt(#[trigger] keys[j], key),
        at == keys.len() || text_lt(key, keys[at]),
    ensures
        sorted_keys(keys.insert(at, key)),
{
    let after = keys.insert(at, key);
    assert forall|i: int, j: int| 0 <= i < j < after.len() implies text_lt(
        #[trigger] after[i],
        #[trigger] after[j],
    ) by {
        if j == at {
            assert(after[i] == keys[i]);
        } else if i == at {
            assert(after[j] == keys[j - 1]);
            if j - 1 > at {
                assert(text_lt(keys[at], keys[j - 1]));
                lemma_text_lt_transitive(key, keys[at], keys[j - 1]);
            }
        } else {
            let pi = if i < at { i } else { i - 1 };
            let pj = if j < at { j } else { j - 1 };
            assert(after[i] == keys[pi]);
            assert(after[j] == keys[pj]);
            assert(text_lt(keys[pi], keys[pj]));
        }
    }
}

/// Taking a key out keeps the keys sorted.
pub proof fn lemma_remove_keeps_sorted(keys: Seq<Seq<char>>, at: int)
    requires
        sorted_keys(keys),
        0 <= at < keys.len(),
    ensures
        sorted_keys(keys.remove(at)),
{
    let after = keys.remove(at);
    assert forall|i: int, j: int| 0 <= i < j < after.len() implies text_lt(
        #[trigger] after[i],
        #[trigger] after[j],
    ) by {
        let pi = if i < at { i } else { i + 1 };
        let pj = if j < at { j } else { j + 1 };
        assert(after[i] == keys[pi]);
        assert(after[j] == keys[pj]);
        assert(text_lt(keys[pi], keys[pj]));
    }
}

/// Two sorted maps that hold the same entries hold them at the same positions.
pub proof fn lemma_sorted_maps_agree<V>(
    keys1: Seq<Seq<char>>,
    values1: Seq<V>,
    keys2: Seq<Seq<char>>,
    values2: Seq<V>,
)
    requires
        sorted_keys(keys1),
        sorted_keys(keys2),
        keys1.len() == values1.len(),
        keys2.len() == values2.len(),
        map_of(keys1, values1) == map_of(keys2, values2),
    ensures
        keys1 == keys2,
        values1 == values2,
    decreases keys1.len(),
{
    lemma_map_of_sorted(keys1, values1);
    lemma_map_of_sorted(keys2, values2);
    if keys1.len() == 0 {
        if keys2.len() > 0 {
            assert(map_of(keys2, values2).contains_key(keys2[0]));
            assert(keys1.contains(keys2[0]));
        }
        assert(keys1 =~= keys2);
        assert(values1 =~= values2);
    } else if keys2.len() == 0 {
        assert(map_of(keys1, values1).contains_key(keys1[0]));
        assert(keys2.contains(keys1[0]));
    } else {
        // The greatest key of each is the greatest key of the other.
        let last1 = keys1.len() - 1;
        let last2 = keys2.len() - 1;
        assert(map_of(keys1, values1).contains_key(keys1[last1]));
        assert(keys2.contains(keys1[last1]));
        let found2 = keys2.index_of(keys1[last1]);
        assert(map_of(keys2, values2).contains_key(keys2[last2]));
        assert(keys1.contains(keys2[last2]));
        let found1 = keys1.index_of(keys2[last2]);
        if found2 < last2 {
            assert(text_lt(keys2[found2], keys2[last2]));
            lemma_text_lt_irreflexive(keys1[last1]);
            if found1 < last1 {
                assert(text_lt(keys1[found1], keys1[last1]));
                lemma_text_lt_asymmetric(keys1[found1], keys1[last1]);
            }
        }
        assert(keys1[last1] == keys2[last2]);
        assert(values1[last1] == values2[last2]);
        let k1 = keys1.drop_last();
        let v1 = values1.drop_last();
        let k2 = keys2.drop_last();
        let v2 = values2.drop_last();
        assert(sorted_keys(k1)) by {
            assert forall|i: int, j: int| 0 <= i < j < k1.len() implies text_lt(
                #[trigger] k1[i],
                #[trigger] k1[j],
            ) by {
                assert(text_lt(keys1[i], keys1[j]));
            }
        }
        assert(sorted_keys(k2)) by {
            assert forall|i: int, j: int| 0 <= i < j < k2.len() implies text_lt(
                #[trigger] k2[i],
                #[trigger] k2[j],
            ) by {
                assert(text_lt(keys2[i], keys2[j]));
            }
        }
        lemma_map_of_sorted(k1, v1);
        lemma_map_of_sorted(k2, v2);
        assert(map_of(k1, v1) =~= map_of(k2, v2)) by {
            assert forall|k: Seq<char>| map_of(k1, v1).contains_key(k) implies map_of(
                k2,
                v2,
            ).contains_key(k) && map_of(k1, v1)[k] == map_of(k2, v2)[k] by {
                let i = k1.index_of(k);
                assert(keys1[i] == k);
                lemma_sorted_keys_distinct(keys1, i, i);
                assert(map_of(keys1, values1).contains_key(keys1[i]));
                assert(keys2.contains(k));
                let j = keys2.index_of(k);
                if j == last2 {
                    lemma_sorted_keys_distinct(keys1, i, last1);
                }
                assert(k2[j] == k);
                lemma_sorted_index_of(k1, i);
                lemma_sorted_index_of(k2, j);
                lemma_sorted_index_of(keys1, i);
                lemma_sorted_index_of(keys2, j);
            }
            assert forall|k: Seq<char>| map_of(k2, v2).contains_key(k) implies map_of(
                k1,
                v1,
            ).contains_key(k) by {
                let j = k2.index_of(k);
                assert(keys2[j] == k);
                assert(map_of(keys2, values2).contains_key(keys2[j]));
                assert(keys1.contains(k));
                let i = keys1.index_of(k);
                if i == last1 {
                    lemma_sorted_keys_distinct(keys2, j, last2);
                }
                assert(k1[i] == k);
            }
        }
        lemma_sorted_maps_agree(k1, v1, k2, v2);
        assert(keys1 =~= k1.push(keys1[last1]));
        assert(keys2 =~= k2.push(keys2[last2]));
        assert(values1 =~= v1.push(values1[last1]));
        assert(values2 =~= v2.push(values2[last2]));
    }
}

/// The keys of a row of entries.
spec fn entry_keys<V>(entries: Seq<(String, V)>) -> Seq<Seq<char>> {
    Seq::new(entries.len(), |i: int| entries[i].0@)
}

/// The values of a row of entries.
spec fn entry_values<V>(entries: Seq<(String, V)>) -> Seq<V> {
    Seq::new(entries.len(), |i: int| entries[i].1)
}

/// The map that comes of putting the first `upto` of `entries` into an empty
/// map one after the other, so that of two entries with one key the later
/// stays.
pub open spec fn entries_map<V>(entries: Seq<(String, V)>, upto: int) -> Map<Seq<char>, V>
    decreases upto,
{
    if upto <= 0 {
        Map::empty()
    } else {
        entries_map(entries, upto - 1).insert(entries[upto - 1].0@, entries[upto - 1].1)
    }
}

/// A map from texts to values of type `V`, held in the order of its keys.
#[derive(Debug)]
pub struct SortedMap<V> {
    entries: Vec<(String, V)>,
}

impl<V> SortedMap<V> {
    /// The keys, in order.
    pub closed spec fn keys(&self) -> Seq<Seq<char>> {
        entry_keys(self.entries@)
    }

    /// The values, each at the position of its key.
    pub closed spec fn values(&self) -> Seq<V> {
        entry_values(self.entries@)
    }

    /// The entries as a map.
    pub open spec fn as_map(&self) -> Map<Seq<char>, V> {
        map_of(self.keys(), self.values())
    }

    /// What every value of this type satisfies: as many values as keys, and
    /// the keys sorted.
    pub open spec fn ordered(&self) -> bool {
        &&& self.keys().len() == self.values().len()
        &&& sorted_keys(self.keys())
    }

    #[verifier::type_invariant]
    spec fn keys_are_sorted(&self) -> bool {
        sorted_keys(self.keys())
    }

    /// Moves the entries out and leaves the map empty.
    fn take_entries(&mut self) -> (entries: Vec<(String, V)>)
        ensures
            entry_keys(entries@) == old(self).keys(),
            entry_values(entries@) == old(self).values(),
            sorted_keys(entry_keys(entries@)),
    {
        proof {
            use_type_invariant(&*self);
        }
        let mut taken = SortedMap { entries: Vec::new() };
        std::mem::swap(self, &mut taken);
        taken.entries
    }

    /// The empty map.
    pub fn new() -> (map: Self)
        ensures
            map.keys().len() == 0,
            map.values().len() == 0,
            map.as_map() == Map::<Seq<char>, V>::empty(),
            map.ordered(),
    {
        let map = SortedMap { entries: Vec::new() };
        assert(map.as_map() =~= Map::<Seq<char>, V>::empty());
        map
    }

    /// The map that holds `entries`, the later of two entries with one key.
    pub fn from_entries(entries: Vec<(String, V)>) -> (map: Self)
        ensures
            map.ordered(),
            map.as_map() == entries_map(entries@, entries@.len() as int),
    {
        let mut entries = entries;
        let ghost all = entries@;
        let mut map: SortedMap<V> = SortedMap::new();
        let ghost mut done: int = 0;
        while entries.len() > 0
            invariant
                0 <= done,
                done + entries@.len() == all.len(),
                entries@ == all.subrange(done, all.len() as int),
                map.ordered(),
                map.as_map() == entries_map(all, done),
            decreases entries@.len(),
        {
            let (key, value) = entries.remove(0);
            assert(all[done] == (key, value));
            map.insert(key, value);
            assert(entries@ =~= all.subrange(done + 1, all.len() as int));
            proof {
                done = done + 1;
            }
        }
        map
    }

    /// Number of entries.
    pub fn len(&self) -> (count: usize)
        ensures
            count == self.keys().len(),
            self.ordered(),
    {
        proof {
            use_type_invariant(self);
        }
        self.entries.len()
    }

    /// Whether there is no entry.
    pub fn is_empty(&self) -> (empty: bool)
        ensures
            empty == (self.keys().len() == 0),
            self.ordered(),
    {
        proof {
            use_type_invariant(self);
        }
        self.entries.len() == 0
    }

    /// The key at a position.
    pub fn key_at(&self, at: usize) -> (key: &String)
        requires
            at < self.keys().len(),
        ensures
            key@ == self.keys()[at as int],
    {
        &self.entries[at].0
    }

    /// The value at a position.
    pub fn value_at(&self, at: usize) -> (value: &V)
        requires
            at < self.keys().len(),
        ensures
            *value == self.values()[at as int],
    {
        &self.entries[at].1
    }

    /// Where `key` stands, or where it would have to be put.
    pub fn position(&self, key: &str) -> (place: (usize, bool))
        ensures
            self.ordered(),
            place.0 <= self.keys().len(),
            forall|j: int| 0 <= j < place.0 ==> text_lt(#[trigger] self.keys()[j], key@),
            place.1 ==> place.0 < self.keys().len() && self.keys()[place.0 as int] == key@,
            !place.1 ==> place.0 == self.keys().len() || text_lt(
                key@,
                self.keys()[place.0 as int],
            ),
            place.1 == self.keys().contains(key@),
    {
        proof {
            use_type_invariant(self);
        }
        let mut at: usize = 0;
        while at < self.entries.len()
            invariant
                at <= self.entries@.len(),
                self.ordered(),
                forall|j: int| 0 <= j < at ==> text_lt(#[trigger] self.keys()[j], key@),
            decreases self.entries@.len() - at,
        {
            let here = self.entries[at].0.as_str();
            assert(here@ == self.keys()[at as int]);
            if str_eq(here, key) {
                assert(self.keys().contains(key@));
                return (at, true);
            }
            if !str_lt(here, key) {
                proof {
                    lemma_text_lt_total(here@, key@);
                    lemma_absent_at(self.keys(), key@, at as int);
                }
                return (at, false);
            }
            at += 1;
        }
        proof {
            lemma_absent_at(self.keys(), key@, at as int);
        }
        (at, false)
    }

    /// The value under `key`, if there is one.
    pub fn get(&self, key: &str) -> (value: Option<&V>)
        ensures
            self.ordered(),
            value.is_some() == self.as_map().contains_key(key@),
            value matches Some(v) ==> *v == self.as_map()[key@],
    {
        let (at, found) = self.position(key);
        proof {
            lemma_map_of_sorted(self.keys(), self.values());
        }
        if found {
            Some(&self.entries[at].1)
        } else {
            None
        }
    }

    /// Whether there is an entry under `key`.
    pub fn contains_key(&self, key: &str) -> (present: bool)
        ensures
            self.ordered(),
            present == self.as_map().contains_key(key@),
    {
        let (_, found) = self.position(key);
        proof {
            lemma_map_of_sorted(self.keys(), self.values());
        }
        found
    }

    /// Puts `value` under `key` and hands back what was there before.
    pub fn insert(&mut self, key: String, value: V) -> (before: Option<V>)
        ensures
            final(self).ordered(),
            final(self).as_map() == old(self).as_map().insert(key@, value),
            before.is_some() == old(self).as_map().contains_key(key@),
            before matches Some(v) ==> v == old(self).as_map()[key@],
    {
        let (at, found) = self.position(key.as_str());
        let ghost keys0 = self.keys();
        let ghost values0 = self.values();
        proof {
            lemma_map_of_sorted(keys0, values0);
        }
        let mut entries = self.take_entries();
        if found {
            let gone = entries.remove(at);
            entries.insert(at, (key, value));
            assert(entry_keys(entries@) =~= keys0);
            assert(entry_values(entries@) =~= values0.update(at as int, value));
            *self = SortedMap { entries };
            proof {
                lemma_map_of_sorted(self.keys(), self.values());
                assert(self.as_map() =~= map_of(keys0, values0).insert(key@, value)) by {
                    assert forall|k: Seq<char>| keys0.contains(k) && k != key@ implies map_of(
                        keys0,
                        values0,
                    )[k] == self.as_map()[k] by {
                        let i = keys0.index_of(k);
                        assert(i != at);
                    }
                }
            }
            Some(gone.1)
        } else {
            proof {
                lemma_insert_keeps_sorted(keys0, key@, at as int);
            }
            entries.insert(at, (key, value));
            assert(entry_keys(entries@) =~= keys0.insert(at as int, key@));
            assert(entry_values(entries@) =~= values0.insert(at as int, value));
            *self = SortedMap { entries };
            proof {
                let keys1 = self.keys();
                let values1 = self.values();
                lemma_map_of_sorted(keys1, values1);
                assert(self.as_map() =~= map_of(keys0, values0).insert(key@, value)) by {
                    assert(keys1[at as int] == key@);
                    assert forall|k: Seq<char>| keys0.contains(k) implies keys1.contains(k)
                        && map_of(keys0, values0)[k] == map_of(keys1, values1)[k] by {
                        let i = keys0.index_of(k);
                        let j = if i < at { i } else { i + 1 };
                        assert(keys1[j] == k);
                        assert(values1[j] == values0[i]);
                    }
                    assert forall|k: Seq<char>| keys1.contains(k) && k != key@ implies keys0.contains(
                        k,
                    ) by {
                        let j = keys1.index_of(k);
                        let i = if j < at { j } else { j - 1 };
                        assert(keys0[i] == k);
                    }
                }
            }
            None
        }
    }

    /// Takes the entry under `key` out and hands its value back.
    pub fn remove(&mut self, key: &str) -> (gone: Option<V>)
        ensures
            final(self).ordered(),
            final(self).as_map() == old(self).as_map().remove(key@),
            gone.is_some() == old(self).as_map().contains_key(key@),
            gone matches Some(v) ==> v == old(self).as_map()[key@],
    {
        let (at, found) = self.position(key);
        let ghost keys0 = self.keys();
        let ghost values0 = self.values();
        proof {
            lemma_map_of_sorted(keys0, values0);
        }
        if found {
            proof {
                lemma_remove_keeps_sorted(keys0, at as int);
            }
            let mut entries = self.take_entries();
            let gone = entries.remove(at);
            assert(entry_keys(entries@) =~= keys0.remove(at as int));
            assert(entry_values(entries@) =~= values0.remove(at as int));
            *self = SortedMap { entries };
            proof {
                let keys1 = self.keys();
                let values1 = self.values();
                lemma_map_of_sorted(keys1, values1);
                assert(self.as_map() =~= map_of(keys0, values0).remove(key@)) by {
                    assert forall|k: Seq<char>| keys0.contains(k) && k != key@ implies keys1.contains(
                        k,
                    ) && map_of(keys0, values0)[k] == map_of(keys1, values1)[k] by {
                        let i = keys0.index_of(k);
                        let j = if i < at { i } else { i - 1 };
                        assert(keys1[j] == k);
                        assert(values1[j] == values0[i]);
                    }
                    assert forall|k: Seq<char>| keys1.contains(k) implies keys0.contains(k) && k
                        != key@ by {
                        let j = keys1.index_of(k);
                        let i = if j < at { j } else { j + 1 };
                        assert(keys0[i] == k);
                        if k == key@ {
                            lemma_sorted_keys_distinct(keys0, i, at as int);
                        }
                    }
                }
            }
            Some(gone.1)
        } else {
            assert(self.as_map() =~= old(self).as_map().remove(key@));
            None
        }
    }
}

} // verus!
