//! A map from strings to values that is walked in the order of its keys.
use vstd::prelude::*;

use crate::order::{
    ascending_list_is_unique, comes_before, precedes, precedes_asymmetric, precedes_irreflexive,
    precedes_total, precedes_transitive,
};

verus! {

/// Whether the texts come one after another in order, each only once.
pub open spec fn in_order(keys: Seq<Seq<char>>) -> bool {
    forall|i: int, j: int| 0 <= i < j < keys.len() ==> precedes(#[trigger] keys[i], #[trigger] keys[j])
}

/// Whether `keys` lists exactly the keys of `map`, in order.
pub open spec fn lists_keys<V>(keys: Seq<Seq<char>>, map: Map<Seq<char>, V>) -> bool {
    &&& in_order(keys)
    &&& forall|k: Seq<char>| #[trigger] map.contains_key(k) <==> keys.contains(k)
}

/// The keys of a map, in order.
pub open spec fn key_list<V>(map: Map<Seq<char>, V>) -> Seq<Seq<char>> {
    choose|keys: Seq<Seq<char>>| lists_keys(keys, map)
}

/// The keys of a map can be listed in order in one way only.
pub proof fn key_list_is_unique<V>(keys: Seq<Seq<char>>, map: Map<Seq<char>, V>)
    requires
        lists_keys(keys, map),
    ensures
        key_list(map) == keys,
{
    let chosen = key_list(map);
    assert(lists_keys(chosen, map));
    let before = |a: Seq<char>, b: Seq<char>| precedes(a, b);
    assert forall|x: Seq<char>, y: Seq<char>| #[trigger] before(x, y) implies !before(y, x) by {
        precedes_asymmetric(x, y);
    }
    assert forall|k: Seq<char>| #[trigger] chosen.contains(k) <==> keys.contains(k) by {
        assert(map.contains_key(k) <==> chosen.contains(k));
        assert(map.contains_key(k) <==> keys.contains(k));
    }
    ascending_list_is_unique(chosen, keys, before);
}

/// A map keyed by strings.
pub struct Table<V> {
    entries: Vec<(String, V)>,
}

impl<V> Table<V> {
    /// The keys, in order.
    pub closed spec fn keys(self) -> Seq<Seq<char>> {
        Seq::new(self.entries@.len(), |i: int| self.entries@[i].0@)
    }

    #[verifier::type_invariant]
    spec fn ordered(self) -> bool {
        in_order(self.keys())
    }
}

impl<V: View> View for Table<V> {
    type V = Map<Seq<char>, V::V>;

    closed spec fn view(&self) -> Map<Seq<char>, V::V> {
        Map::new(
            |k: Seq<char>| self.keys().contains(k),
            |k: Seq<char>| self.entries@[self.keys().index_of(k)].1@,
        )
    }
}

/// A sequence in order holds nothing twice.
pub proof fn in_order_is_duplicate_free(keys: Seq<Seq<char>>)
    requires
        in_order(keys),
    ensures
        keys.no_duplicates(),
{
    assert forall|i: int, j: int| 0 <= i < keys.len() && 0 <= j < keys.len() && i != j implies keys[i]
        != keys[j] by {
        precedes_irreflexive(keys[i]);
        if i < j {
            assert(precedes(keys[i], keys[j]));
        } else {
            assert(precedes(keys[j], keys[i]));
        }
    }
}

/// The keys of a map are finitely many when a sequence lists them, and there
/// are as many as the sequence is long.
pub proof fn listed_keys_are_counted<V>(keys: Seq<Seq<char>>, map: Map<Seq<char>, V>)
    requires
        lists_keys(keys, map),
    ensures
        map.dom().finite(),
        map.dom().len() == keys.len(),
        map.dom() == keys.to_set(),
{
    in_order_is_duplicate_free(keys);
    keys.unique_seq_to_set();
    assert(map.dom() =~= keys.to_set());
}

impl<V: View> Table<V> {
    /// The value of an entry is the one that the map holds under its key.
    proof fn lemma_value(self, i: int)
        requires
            self.ordered(),
            0 <= i < self.entries@.len(),
        ensures
            self@.contains_key(self.keys()[i]),
            self@[self.keys()[i]] == self.entries@[i].1@,
    {
        in_order_is_duplicate_free(self.keys());
        assert(self.keys().contains(self.keys()[i]));
        assert(self.keys().index_of(self.keys()[i]) == i);
    }

    /// An empty table.
    pub fn new() -> (table: Self)
        ensures
            table@ == Map::<Seq<char>, V::V>::empty(),
    {
        let table = Table { entries: Vec::new() };
        assert(table@ =~= Map::<Seq<char>, V::V>::empty());
        table
    }

    /// The number of entries.
    pub fn len(&self) -> (n: usize)
        ensures
            n == self.keys().len(),
            lists_keys(self.keys(), self@),
            self.keys() == key_list(self@),
            self@.dom().finite(),
    {
        proof {
            use_type_invariant(self);
            key_list_is_unique(self.keys(), self@);
            listed_keys_are_counted(self.keys(), self@);
        }
        self.entries.len()
    }

    /// The key at a place in the order.
    pub fn key_at(&self, i: usize) -> (key: &String)
        requires
            i < self.keys().len(),
        ensures
            key@ == self.keys()[i as int],
            self@.contains_key(key@),
    {
        proof {
            use_type_invariant(self);
            self.lemma_value(i as int);
        }
        &self.entries[i].0
    }

    /// The value at a place in the order.
    pub fn value_at(&self, i: usize) -> (value: &V)
        requires
            i < self.keys().len(),
        ensures
            value@ == self@[self.keys()[i as int]],
    {
        proof {
            use_type_invariant(self);
            self.lemma_value(i as int);
        }
        &self.entries[i].1
    }

    /// The place of `key`, or the place where it would go.
    fn place(&self, key: &str) -> (at: usize)
        ensures
            at <= self.entries@.len(),
            forall|i: int| 0 <= i < at ==> precedes(#[trigger] self.keys()[i], key@),
            forall|i: int|
                at <= i < self.entries@.len() ==> !precedes(#[trigger] self.keys()[i], key@),
    {
        proof {
            use_type_invariant(self);
        }
        let mut low: usize = 0;
        let mut high: usize = self.entries.len();
        while low < high
            invariant
                low <= high <= self.entries@.len(),
                self.ordered(),
                forall|i: int| 0 <= i < low ==> precedes(#[trigger] self.keys()[i], key@),
                forall|i: int|
                    high <= i < self.entries@.len() ==> !precedes(#[trigger] self.keys()[i], key@),
            decreases high - low,
        {
            let mid: usize = low + (high - low) / 2;
            let ghost keys = self.keys();
            assert(keys[mid as int] == self.entries@[mid as int].0@);
            if comes_before(self.entries[mid].0.as_str(), key) {
                assert forall|i: int| 0 <= i < mid + 1 implies precedes(
                    #[trigger] self.keys()[i],
                    key@,
                ) by {
                    if i < mid {
                        precedes_transitive(keys[i], keys[mid as int], key@);
                    }
                }
                low = mid + 1;
            } else {
                assert forall|i: int| mid <= i < self.entries@.len() implies !precedes(
                    #[trigger] self.keys()[i],
                    key@,
                ) by {
                    if i > mid && precedes(keys[i], key@) {
                        precedes_transitive(keys[mid as int], keys[i], key@);
                    }
                }
                high = mid;
            }
        }
        low
    }

    /// Whether the entry at `at` has the key, `at` being the key's place.
    fn holds(&self, at: usize, key: &str) -> (yes: bool)
        requires
            at <= self.entries@.len(),
            forall|i: int| 0 <= i < at ==> precedes(#[trigger] self.keys()[i], key@),
            forall|i: int|
                at <= i < self.entries@.len() ==> !precedes(#[trigger] self.keys()[i], key@),
        ensures
            yes ==> at < self.entries@.len() && self.keys()[at as int] == key@,
            yes == self@.contains_key(key@),
            !yes ==> forall|i: int|
                at <= i < self.entries@.len() ==> precedes(key@, #[trigger] self.keys()[i]),
    {
        proof {
            use_type_invariant(self);
        }
        let ghost keys = self.keys();
        let yes = at < self.entries.len() && !comes_before(key, self.entries[at].0.as_str());
        proof {
            if yes {
                precedes_total(keys[at as int], key@);
                self.lemma_value(at as int);
            } else {
                assert forall|i: int| at <= i < keys.len() implies precedes(
                    key@,
                    #[trigger] keys[i],
                ) by {
                    assert(precedes(key@, keys[at as int]));
                    if i > at {
                        precedes_transitive(key@, keys[at as int], keys[i]);
                    }
                }
                assert forall|i: int| 0 <= i < keys.len() implies keys[i] != key@ by {
                    precedes_irreflexive(key@);
                    if i < at {
                        assert(precedes(keys[i], key@));
                    } else {
                        assert(precedes(key@, keys[i]));
                    }
                }
            }
        }
        yes
    }

    /// The value under `key`.
    pub fn get(&self, key: &str) -> (value: Option<&V>)
        ensures
            match value {
                Some(v) => self@.contains_key(key@) && v@ == self@[key@],
                None => !self@.contains_key(key@),
            },
    {
        let at = self.place(key);
        if self.holds(at, key) {
            proof {
                use_type_invariant(self);
                self.lemma_value(at as int);
            }
            Some(&self.entries[at].1)
        } else {
            None
        }
    }

    /// Puts `value` under `key`, in place of what was there.
    pub fn insert(&mut self, key: String, value: V)
        ensures
            final(self)@ == old(self)@.insert(key@, value@),
    {
        let at = self.place(key.as_str());
        let found = self.holds(at, key.as_str());
        proof {
            use_type_invariant(&*self);
        }
        let ghost before = *self;
        let mut entries: Vec<(String, V)> = Vec::new();
        std::mem::swap(&mut entries, &mut self.entries);
        if found {
            let _gone = entries.remove(at);
        }
        let ghost rest = entries@;
        entries.insert(at, (key, value));
        proof {
            let now = Table { entries };
            let shift: int = if found {
                1
            } else {
                0
            };
            assert forall|i: int| 0 <= i < now.keys().len() implies #[trigger] now.keys()[i] == (if i
                < at {
                before.keys()[i]
            } else if i == at {
                key@
            } else {
                before.keys()[i - 1 + shift]
            }) by {}
            assert forall|i: int, j: int| 0 <= i < j < now.keys().len() implies precedes(
                #[trigger] now.keys()[i],
                #[trigger] now.keys()[j],
            ) by {
                if i < at && j < at {
                } else if i < at && j == at {
                } else if i < at {
                    assert(precedes(before.keys()[i], before.keys()[j - 1 + shift]));
                } else if i == at {
                    assert(0 <= j - 1 + shift < before.keys().len());
                    if found {
                        assert(precedes(before.keys()[at as int], before.keys()[j - 1 + shift]));
                    }
                } else {
                    assert(precedes(before.keys()[i - 1 + shift], before.keys()[j - 1 + shift]));
                }
            }
            assert(now@ =~= before@.insert(key@, value@)) by {
                assert forall|k: Seq<char>| now@.contains_key(k) == before@.insert(
                    key@,
                    value@,
                ).contains_key(k) by {
                    if now.keys().contains(k) {
                        let i = now.keys().index_of(k);
                        assert(now.keys()[i] == k);
                        if i < at {
                            assert(before.keys()[i] == k);
                        } else if i > at {
                            assert(before.keys()[i - 1 + shift] == k);
                        }
                    }
                    if before.keys().contains(k) {
                        let i = before.keys().index_of(k);
                        if i < at {
                            assert(now.keys()[i] == k);
                        } else if i == at && found {
                            assert(now.keys()[at as int] == k);
                        } else {
                            assert(now.keys()[i + 1 - shift] == k);
                        }
                    }
                    assert(now.keys()[at as int] == key@);
                }
                assert forall|k: Seq<char>| now@.contains_key(k) implies now@[k] == before@.insert(
                    key@,
                    value@,
                )[k] by {
                    let i = now.keys().index_of(k);
                    assert(now.keys()[i] == k);
                    now.lemma_value(i);
                    if i < at {
                        before.lemma_value(i);
                        precedes_irreflexive(k);
                    } else if i > at {
                        before.lemma_value(i - 1 + shift);
                        assert(precedes(now.keys()[at as int], now.keys()[i]));
                        precedes_irreflexive(k);
                    }
                }
            }
        }
        self.entries = entries;
    }

    /// Takes the value under `key` out.
    pub fn remove(&mut self, key: &str) -> (value: Option<V>)
        ensures
            final(self)@ == old(self)@.remove(key@),
            match value {
                Some(v) => old(self)@.contains_key(key@) && v@ == old(self)@[key@],
                None => !old(self)@.contains_key(key@),
            },
    {
        let at = self.place(key);
        let found = self.holds(at, key);
        proof {
            use_type_invariant(&*self);
        }
        let ghost before = *self;
        if !found {
            assert(self@ =~= before@.remove(key@));
            return None;
        }
        let mut entries: Vec<(String, V)> = Vec::new();
        std::mem::swap(&mut entries, &mut self.entries);
        let gone = entries.remove(at);
        proof {
            let now = Table { entries };
            before.lemma_value(at as int);
            assert forall|i: int| 0 <= i < now.keys().len() implies #[trigger] now.keys()[i] == (if i
                < at {
                before.keys()[i]
            } else {
                before.keys()[i + 1]
            }) by {}
            assert(in_order(now.keys()));
            assert(now@ =~= before@.remove(key@)) by {
                assert forall|k: Seq<char>| now@.contains_key(k) == before@.remove(
                    key@,
                ).contains_key(k) by {
                    in_order_is_duplicate_free(before.keys());
                    if now.keys().contains(k) {
                        let i = now.keys().index_of(k);
                        assert(now.keys()[i] == k);
                        if i < at {
                            assert(before.keys()[i] == k);
                        } else {
                            assert(before.keys()[i + 1] == k);
                        }
                    }
                    if before.keys().contains(k) && k != key@ {
                        let i = before.keys().index_of(k);
                        if i < at {
                            assert(now.keys()[i] == k);
                        } else {
                            assert(now.keys()[i - 1] == k);
                        }
                    }
                }
                assert forall|k: Seq<char>| now@.contains_key(k) implies now@[k] == before@.remove(
                    key@,
                )[k] by {
                    let i = now.keys().index_of(k);
                    assert(now.keys()[i] == k);
                    now.lemma_value(i);
                    if i < at {
                        before.lemma_value(i);
                    } else {
                        before.lemma_value(i + 1);
                    }
                }
            }
        }
        self.entries = entries;
        let (_, value) = gone;
        Some(value)
    }
}

} // verus!
