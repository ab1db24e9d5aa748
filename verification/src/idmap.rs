//! A small map from identifiers to values.
//!
//! The identifiers of an instance (shift ids, staff ids) are data, so the
//! mappings keyed by them are open-ended. `IdMap` keeps one entry per
//! identifier, in the order in which the identifiers were first inserted, and
//! is viewed as a mathematical `Map` from the identifier's characters.

use vstd::prelude::*;

verus! {

/// The map that a list of key/value pairs builds when the pairs are inserted
/// one after the other: a later pair replaces an earlier one with the same
/// key.
pub open spec fn pairs_to_map<V>(pairs: Seq<(Seq<char>, V)>) -> Map<Seq<char>, V>
    decreases pairs.len(),
{
    if pairs.len() == 0 {
        Map::empty()
    } else {
        pairs_to_map(pairs.drop_last()).insert(pairs.last().0, pairs.last().1)
    }
}

/// Whether no key occurs twice in `pairs`.
pub open spec fn distinct_keys<V>(pairs: Seq<(Seq<char>, V)>) -> bool {
    forall|i: int, j: int| 0 <= i < j < pairs.len() ==> (#[trigger] pairs[i]).0 != (#[trigger] pairs[j]).0
}

/// The keys of the map are the keys of the pairs.
pub proof fn lemma_pairs_to_map_keys<V>(pairs: Seq<(Seq<char>, V)>, k: Seq<char>)
    ensures
        pairs_to_map(pairs).contains_key(k) <==> exists|i: int|
            0 <= i < pairs.len() && (#[trigger] pairs[i]).0 == k,
    decreases pairs.len(),
{
    if pairs.len() > 0 {
        let front = pairs.drop_last();
        lemma_pairs_to_map_keys(front, k);
        if pairs_to_map(pairs).contains_key(k) {
            if pairs.last().0 == k {
                assert(pairs[pairs.len() - 1].0 == k);
            } else {
                let i = choose|i: int| 0 <= i < front.len() && (#[trigger] front[i]).0 == k;
                assert(pairs[i].0 == k);
            }
        }
        if exists|i: int| 0 <= i < pairs.len() && (#[trigger] pairs[i]).0 == k {
            let i = choose|i: int| 0 <= i < pairs.len() && (#[trigger] pairs[i]).0 == k;
            if i < pairs.len() - 1 {
                assert(front[i].0 == k);
            }
        }
    }
}

/// A key maps to the value of the last pair that holds it.
pub proof fn lemma_pairs_to_map_value<V>(pairs: Seq<(Seq<char>, V)>, i: int)
    requires
        0 <= i < pairs.len(),
        forall|j: int| i < j < pairs.len() ==> (#[trigger] pairs[j]).0 != pairs[i].0,
    ensures
        pairs_to_map(pairs).contains_key(pairs[i].0),
        pairs_to_map(pairs)[pairs[i].0] == pairs[i].1,
    decreases pairs.len(),
{
    if i < pairs.len() - 1 {
        let front = pairs.drop_last();
        assert(pairs[pairs.len() - 1].0 != pairs[i].0);
        assert forall|j: int| i < j < front.len() implies (#[trigger] front[j]).0 != front[i].0 by {
            assert(front[j] == pairs[j]);
        }
        lemma_pairs_to_map_value(front, i);
    }
}

/// With distinct keys the map has as many keys as there are pairs.
pub proof fn lemma_pairs_to_map_len<V>(pairs: Seq<(Seq<char>, V)>)
    requires
        distinct_keys(pairs),
    ensures
        pairs_to_map(pairs).dom().finite(),
        pairs_to_map(pairs).dom().len() == pairs.len(),
    decreases pairs.len(),
{
    if pairs.len() > 0 {
        let front = pairs.drop_last();
        assert forall|i: int, j: int| 0 <= i < j < front.len() implies (#[trigger] front[i]).0 != (
        #[trigger] front[j]).0 by {
            assert(front[i] == pairs[i]);
            assert(front[j] == pairs[j]);
        }
        lemma_pairs_to_map_len(front);
        lemma_pairs_to_map_keys(front, pairs.last().0);
        if pairs_to_map(front).contains_key(pairs.last().0) {
            let i = choose|i: int| 0 <= i < front.len() && (#[trigger] front[i]).0 == pairs.last().0;
            assert(pairs[i].0 == pairs[pairs.len() - 1].0);
        }
    }
}

/// Replacing the value of a pair in place is an insertion under its key.
pub proof fn lemma_pairs_to_map_update<V>(pairs: Seq<(Seq<char>, V)>, i: int, v: V)
    requires
        distinct_keys(pairs),
        0 <= i < pairs.len(),
    ensures
        distinct_keys(pairs.update(i, (pairs[i].0, v))),
        pairs_to_map(pairs.update(i, (pairs[i].0, v))) == pairs_to_map(pairs).insert(pairs[i].0, v),
{
    let k = pairs[i].0;
    let after = pairs.update(i, (k, v));
    assert forall|a: int, b: int| 0 <= a < b < after.len() implies (#[trigger] after[a]).0 != (
    #[trigger] after[b]).0 by {
        assert(after[a].0 == pairs[a].0);
        assert(after[b].0 == pairs[b].0);
    }
    let lhs = pairs_to_map(after);
    let rhs = pairs_to_map(pairs).insert(k, v);
    assert forall|x: Seq<char>| lhs.contains_key(x) <==> rhs.contains_key(x) by {
        lemma_pairs_to_map_keys(after, x);
        lemma_pairs_to_map_keys(pairs, x);
        if lhs.contains_key(x) {
            let j = choose|j: int| 0 <= j < after.len() && (#[trigger] after[j]).0 == x;
            assert(pairs[j].0 == x);
        }
        if rhs.contains_key(x) {
            if x == k {
                assert(after[i].0 == x);
            } else {
                let j = choose|j: int| 0 <= j < pairs.len() && (#[trigger] pairs[j]).0 == x;
                assert(after[j].0 == x);
            }
        }
    }
    assert forall|x: Seq<char>| lhs.contains_key(x) implies lhs[x] == rhs[x] by {
        lemma_pairs_to_map_keys(after, x);
        let j = choose|j: int| 0 <= j < after.len() && (#[trigger] after[j]).0 == x;
        assert(forall|m: int| j < m < after.len() ==> (#[trigger] after[m]).0 != after[j].0);
        lemma_pairs_to_map_value(after, j);
        if j != i {
            assert(pairs[j].0 == x);
            assert(forall|m: int| j < m < pairs.len() ==> (#[trigger] pairs[m]).0 != pairs[j].0);
            lemma_pairs_to_map_value(pairs, j);
        }
    }
    assert(lhs =~= rhs);
}

/// Whether `after` is `before` with `key` set to `value`: in the place of the
/// pair that held `key`, or at the end when no pair did.
pub open spec fn is_set<V>(
    before: Seq<(Seq<char>, V)>,
    after: Seq<(Seq<char>, V)>,
    key: Seq<char>,
    value: V,
) -> bool {
    &&& forall|i: int|
        0 <= i < before.len() && (#[trigger] before[i]).0 == key ==> after == before.update(
            i,
            (key, value),
        )
    &&& (forall|i: int| 0 <= i < before.len() ==> (#[trigger] before[i]).0 != key) ==> after
        == before.push((key, value))
}

/// Stored entries as pairs of plain values.
pub open spec fn plain_pairs<V>(entries: Seq<(String, V)>) -> Seq<(Seq<char>, V)> {
    entries.map_values(|e: (String, V)| (e.0@, e.1))
}

/// A map from identifiers to values of type `V`, with one entry per
/// identifier.
#[derive(Debug)]
pub struct IdMap<V> {
    entries: Vec<(String, V)>,
}

impl<V: Clone> Clone for IdMap<V> {
    /// A map with the same identifiers in the same order, each with a clone
    /// of its value.
    fn clone(&self) -> (r: Self)
        ensures
            r.pairs().len() == self.pairs().len(),
            forall|i: int|
                0 <= i < self.pairs().len() ==> (#[trigger] r.pairs()[i]).0 == self.pairs()[i].0
                    && cloned(self.pairs()[i].1, r.pairs()[i].1),
    {
        proof {
            use_type_invariant(self);
        }
        let n = self.entries.len();
        let mut entries: Vec<(String, V)> = Vec::new();
        let mut i: usize = 0;
        while i < n
            invariant
                n == self.entries@.len(),
                0 <= i <= n,
                entries@.len() == i,
                forall|j: int|
                    0 <= j < i ==> (#[trigger] entries@[j]).0@ == self.entries@[j].0@ && cloned(
                        self.entries@[j].1,
                        entries@[j].1,
                    ),
            decreases n - i,
        {
            let key = self.entries[i].0.clone();
            let value = self.entries[i].1.clone();
            entries.push((key, value));
            i += 1;
        }
        proof {
            let after = plain_pairs(entries@);
            let before = plain_pairs(self.entries@);
            assert forall|a: int, b: int| 0 <= a < b < after.len() implies (#[trigger] after[a]).0 != (
            #[trigger] after[b]).0 by {
                assert(after[a].0 == before[a].0);
                assert(after[b].0 == before[b].0);
            }
        }
        IdMap { entries }
    }
}

impl<V> View for IdMap<V> {
    type V = Map<Seq<char>, V>;

    closed spec fn view(&self) -> Map<Seq<char>, V> {
        pairs_to_map(self.pairs())
    }
}

impl<V> IdMap<V> {
    /// The entries as pairs of plain values, in insertion order.
    pub closed spec fn pairs(&self) -> Seq<(Seq<char>, V)> {
        plain_pairs(self.entries@)
    }

    #[verifier::type_invariant]
    spec fn one_entry_per_key(&self) -> bool {
        distinct_keys(self.pairs())
    }

    /// What the entries say about the map: it holds exactly their keys, each
    /// with its value, and no key twice.
    proof fn lemma_entries(&self)
        requires
            distinct_keys(self.pairs()),
        ensures
            self@.dom().finite(),
            self@.dom().len() == self.pairs().len(),
            forall|i: int|
                0 <= i < self.pairs().len() ==> self@.contains_key((#[trigger] self.pairs()[i]).0)
                    && self@[self.pairs()[i].0] == self.pairs()[i].1,
            forall|k: Seq<char>| #[trigger]
                self@.contains_key(k) ==> exists|i: int|
                    0 <= i < self.pairs().len() && (#[trigger] self.pairs()[i]).0 == k,
    {
        let pairs = self.pairs();
        lemma_pairs_to_map_len(pairs);
        assert forall|i: int| 0 <= i < pairs.len() implies self@.contains_key(
            (#[trigger] pairs[i]).0,
        ) && self@[pairs[i].0] == pairs[i].1 by {
            assert(forall|j: int| i < j < pairs.len() ==> (#[trigger] pairs[j]).0 != pairs[i].0);
            lemma_pairs_to_map_value(pairs, i);
        }
        assert forall|k: Seq<char>| #[trigger] self@.contains_key(k) implies exists|i: int|
            0 <= i < pairs.len() && (#[trigger] pairs[i]).0 == k by {
            lemma_pairs_to_map_keys(pairs, k);
        }
    }

    /// An empty map.
    pub fn new() -> (m: Self)
        ensures
            m@ == Map::<Seq<char>, V>::empty(),
            m.pairs() == Seq::<(Seq<char>, V)>::empty(),
    {
        let entries: Vec<(String, V)> = Vec::new();
        assert(plain_pairs(entries@) =~= Seq::<(Seq<char>, V)>::empty());
        IdMap { entries }
    }

    /// The number of identifiers in the map.
    pub fn len(&self) -> (n: usize)
        ensures
            n == self@.dom().len(),
            n == self.pairs().len(),
            self@.dom().finite(),
    {
        proof {
            use_type_invariant(self);
            self.lemma_entries();
        }
        self.entries.len()
    }

    /// The position of `key` among the entries, if it has one.
    fn position(&self, key: &String) -> (r: Option<usize>)
        ensures
            match r {
                Some(i) => i < self.pairs().len() && self.pairs()[i as int].0 == key@,
                None => forall|j: int| 0 <= j < self.pairs().len() ==> (#[trigger] self.pairs()[j]).0
                    != key@,
            },
    {
        let n = self.entries.len();
        let mut i: usize = 0;
        while i < n
            invariant
                n == self.entries@.len(),
                n == self.pairs().len(),
                0 <= i <= n,
                forall|j: int| 0 <= j < i ==> (#[trigger] self.pairs()[j]).0 != key@,
            decreases n - i,
        {
            if self.entries[i].0 == *key {
                return Some(i);
            }
            i += 1;
        }
        None
    }

    /// The value that `key` maps to, if the map holds `key`.
    pub fn get(&self, key: &str) -> (r: Option<&V>)
        ensures
            match r {
                Some(v) => self@.contains_key(key@) && *v == self@[key@],
                None => !self@.contains_key(key@),
            },
    {
        let owned = key.to_owned();
        proof {
            use_type_invariant(self);
            self.lemma_entries();
        }
        match self.position(&owned) {
            Some(i) => {
                assert(self.pairs()[i as int].1 == self.entries@[i as int].1);
                Some(&self.entries[i].1)
            },
            None => None,
        }
    }

    /// Whether the map holds `key`.
    pub fn contains_key(&self, key: &str) -> (r: bool)
        ensures
            r == self@.contains_key(key@),
    {
        self.get(key).is_some()
    }

    /// This map with `key` mapped to `value`. A key that the map already
    /// holds keeps its place and gets the new value.
    pub fn with(self, key: String, value: V) -> (m: Self)
        ensures
            m@ == self@.insert(key@, value),
            is_set(self.pairs(), m.pairs(), key@, value),
    {
        proof {
            use_type_invariant(&self);
        }
        let ghost before = self.pairs();
        let found = self.position(&key);
        let mut entries = self.entries;
        match found {
            Some(i) => {
                proof {
                    lemma_pairs_to_map_update(before, i as int, value);
                }
                entries.set(i, (key, value));
                assert(plain_pairs(entries@) =~= before.update(i as int, (key@, value)));
                assert forall|j: int| 0 <= j < before.len() && (#[trigger] before[j]).0
                    == key@ implies j == i by {
                    if j < i {
                        assert(before[j].0 != before[i as int].0);
                    } else if i < j {
                        assert(before[i as int].0 != before[j].0);
                    }
                }
            },
            None => {
                entries.push((key, value));
                let ghost after = plain_pairs(entries@);
                assert(after =~= before.push((key@, value)));
                assert(after.drop_last() =~= before);
                assert forall|a: int, b: int| 0 <= a < b < after.len() implies (#[trigger] after[a]).0
                    != (#[trigger] after[b]).0 by {
                    assert(after[a] == before[a]);
                    if b < before.len() {
                        assert(after[b] == before[b]);
                    }
                }
            },
        }
        IdMap { entries }
    }

    /// Maps `key` to `value`. A key that the map already holds keeps its
    /// place and gets the new value.
    pub fn insert(&mut self, key: String, value: V)
        ensures
            final(self)@ == old(self)@.insert(key@, value),
            is_set(old(self).pairs(), final(self).pairs(), key@, value),
    {
        let mut taken = IdMap::new();
        core::mem::swap(self, &mut taken);
        *self = taken.with(key, value);
    }

    /// The entry at position `i`, counted in the order in which the
    /// identifiers were first inserted, if there are that many.
    pub fn entry(&self, i: usize) -> (r: Option<(&String, &V)>)
        ensures
            match r {
                Some((key, value)) => {
                    &&& i < self.pairs().len()
                    &&& key@ == self.pairs()[i as int].0
                    &&& *value == self.pairs()[i as int].1
                    &&& self@.contains_key(key@)
                    &&& self@[key@] == *value
                },
                None => i >= self.pairs().len(),
            },
    {
        proof {
            use_type_invariant(self);
            self.lemma_entries();
        }
        if i < self.entries.len() {
            let pair = &self.entries[i];
            Some((&pair.0, &pair.1))
        } else {
            None
        }
    }
}

} // verus!
