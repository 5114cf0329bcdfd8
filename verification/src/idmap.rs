//! A small map with numeric keys that remembers the order of insertion.

use crate::seqs::{lemma_filter_contains, lemma_filter_index};
use vstd::prelude::*;

verus! {

/// A map from numbers to `V`, kept as a list without repeated keys.
#[derive(Debug)]
pub struct IdMap<V> {
    pub entries: Vec<(u64, V)>,
}

impl<V> IdMap<V> {
    /// No key occurs twice.
    pub open spec fn wf(self) -> bool {
        forall|i: int, j: int|
            0 <= i < j < self.entries@.len() ==> (#[trigger] self.entries@[i]).0 != (#[trigger] self.entries@[j]).0
    }

    /// Whether entry `i` has the key `k`.
    pub open spec fn key_is(self, i: int, k: u64) -> bool {
        0 <= i < self.entries@.len() && self.entries@[i].0 == k
    }

    /// What the map holds.
    pub open spec fn view(self) -> Map<u64, V> {
        Map::new(
            |k: u64| exists|i: int| self.key_is(i, k),
            |k: u64| self.entries@[choose|i: int| self.key_is(i, k)].1,
        )
    }

    /// Entry `i` is what the map holds under its key.
    pub proof fn lemma_entry(self, i: int)
        requires
            self.wf(),
            0 <= i < self.entries@.len(),
        ensures
            self@.contains_key(self.entries@[i].0),
            self@[self.entries@[i].0] == self.entries@[i].1,
    {
        let k = self.entries@[i].0;
        assert(self.key_is(i, k));
        let j = choose|j: int| self.key_is(j, k);
        assert(self.key_is(j, k));
        if i < j {
            assert(self.entries@[i].0 != self.entries@[j].0);
        } else if j < i {
            assert(self.entries@[j].0 != self.entries@[i].0);
        }
    }

    /// The map has as many keys as the list has entries.
    pub proof fn lemma_dom_len(self)
        requires
            self.wf(),
        ensures
            self@.dom().finite(),
            self@.dom().len() == self.entries@.len(),
        decreases self.entries@.len(),
    {
        let keys = Seq::new(self.entries@.len(), |i: int| self.entries@[i].0);
        assert(keys.no_duplicates()) by {
            assert forall|i: int, j: int| 0 <= i < keys.len() && 0 <= j < keys.len() && i != j implies keys[i]
                != keys[j] by {
                if i < j {
                    assert(self.entries@[i].0 != self.entries@[j].0);
                } else {
                    assert(self.entries@[j].0 != self.entries@[i].0);
                }
            }
        }
        keys.unique_seq_to_set();
        assert(self@.dom() =~= keys.to_set()) by {
            assert forall|k: u64| self@.dom().contains(k) <==> keys.to_set().contains(k) by {
                if self@.dom().contains(k) {
                    let i = choose|i: int| self.key_is(i, k);
                    assert(keys[i] == k);
                }
                if keys.contains(k) {
                    let i = choose|i: int| 0 <= i < keys.len() && keys[i] == k;
                    assert(self.key_is(i, k));
                }
            }
        }
    }

    /// An empty map.
    pub fn new() -> (m: Self)
        ensures
            m.wf(),
            m@ == Map::<u64, V>::empty(),
            m.entries@.len() == 0,
    {
        let m = IdMap { entries: Vec::new() };
        assert(m@ =~= Map::<u64, V>::empty()) by {
            assert forall|k: u64| !m@.contains_key(k) by {
                assert(forall|i: int| !m.key_is(i, k));
            }
        }
        m
    }

    /// Where the entry of `key` stands.
    pub fn find(&self, key: u64) -> (r: Option<usize>)
        requires
            self.wf(),
        ensures
            match r {
                Some(i) => self.key_is(i as int, key) && self@.contains_key(key) && self@[key]
                    == self.entries@[i as int].1,
                None => !self@.contains_key(key),
            },
    {
        let mut i: usize = 0;
        while i < self.entries.len()
            invariant
                i <= self.entries@.len(),
                self.wf(),
                forall|j: int| 0 <= j < i ==> (#[trigger] self.entries@[j]).0 != key,
            decreases self.entries@.len() - i,
        {
            if self.entries[i].0 == key {
                proof {
                    self.lemma_entry(i as int);
                }
                return Some(i);
            }
            i += 1;
        }
        None
    }

    /// Whether `key` is present.
    pub fn contains(&self, key: u64) -> (r: bool)
        requires
            self.wf(),
        ensures
            r == self@.contains_key(key),
    {
        self.find(key).is_some()
    }

    /// The value under `key`.
    pub fn get(&self, key: u64) -> (r: Option<&V>)
        requires
            self.wf(),
        ensures
            match r {
                Some(v) => self@.contains_key(key) && *v == self@[key],
                None => !self@.contains_key(key),
            },
    {
        match self.find(key) {
            Some(i) => Some(&self.entries[i].1),
            None => None,
        }
    }

    /// Stores `value` under `key`, in place of what was there.
    pub fn insert(&mut self, key: u64, value: V)
        requires
            old(self).wf(),
        ensures
            final(self).wf(),
            final(self)@ == old(self)@.insert(key, value),
    {
        let ghost before = *self;
        match self.find(key) {
            Some(i) => {
                self.entries[i].1 = value;
                proof {
                    self.lemma_replaced(before, i as int, value);
                }
            },
            None => {
                self.entries.push((key, value));
                proof {
                    assert(self.entries@.drop_last() =~= before.entries@);
                    self.lemma_appended(before);
                }
            },
        }
    }

    /// Replacing the value of entry `i` replaces what the map holds under its
    /// key.
    pub proof fn lemma_replaced(self, before: Self, i: int, value: V)
        requires
            before.wf(),
            0 <= i < before.entries@.len(),
            self.entries@.len() == before.entries@.len(),
            self.entries@[i].0 == before.entries@[i].0,
            self.entries@[i].1 == value,
            forall|j: int| 0 <= j < before.entries@.len() && j != i ==> self.entries@[j] == before.entries@[j],
        ensures
            self.wf(),
            self@ == before@.insert(before.entries@[i].0, value),
    {
        let k = before.entries@[i].0;
        assert forall|a: int, b: int| 0 <= a < b < self.entries@.len() implies (#[trigger] self.entries@[a]).0 != (
        #[trigger] self.entries@[b]).0 by {
            assert(before.entries@[a].0 != before.entries@[b].0);
        }
        assert forall|q: u64| self@.contains_key(q) <==> before@.insert(k, value).contains_key(q) by {
            if self@.contains_key(q) {
                let j = choose|j: int| self.key_is(j, q);
                assert(before.key_is(j, q));
            }
            if before@.contains_key(q) {
                let j = choose|j: int| before.key_is(j, q);
                assert(self.key_is(j, q));
            }
            if q == k {
                assert(self.key_is(i, q));
            }
        }
        assert forall|q: u64| self@.contains_key(q) implies self@[q] == before@.insert(k, value)[q] by {
            let j = choose|j: int| self.key_is(j, q);
            self.lemma_entry(j);
            before.lemma_entry(j);
            if q == k {
                self.lemma_entry(i);
            }
        }
        assert(self@ =~= before@.insert(k, value));
    }

    /// An entry with a new key at the end adds that key to the map.
    pub proof fn lemma_appended(self, before: Self)
        requires
            before.wf(),
            self.entries@.len() == before.entries@.len() + 1,
            self.entries@.drop_last() == before.entries@,
            !before@.contains_key(self.entries@.last().0),
        ensures
            self.wf(),
            self@ == before@.insert(self.entries@.last().0, self.entries@.last().1),
    {
        let n = before.entries@.len() as int;
        let k = self.entries@[n].0;
        let value = self.entries@[n].1;
        assert forall|a: int| 0 <= a < n implies self.entries@[a] == before.entries@[a] by {
            assert(self.entries@.drop_last()[a] == before.entries@[a]);
        }
        assert forall|a: int, b: int| 0 <= a < b < self.entries@.len() implies (#[trigger] self.entries@[a]).0 != (
        #[trigger] self.entries@[b]).0 by {
            if b < n {
                assert(before.entries@[a].0 != before.entries@[b].0);
            } else {
                before.lemma_entry(a);
            }
        }
        assert forall|q: u64| self@.contains_key(q) <==> before@.insert(k, value).contains_key(q) by {
            if self@.contains_key(q) {
                let j = choose|j: int| self.key_is(j, q);
                if j < n {
                    assert(before.key_is(j, q));
                }
            }
            if before@.contains_key(q) {
                let j = choose|j: int| before.key_is(j, q);
                assert(self.key_is(j, q));
            }
            if q == k {
                assert(self.key_is(n, q));
            }
        }
        assert forall|q: u64| self@.contains_key(q) implies self@[q] == before@.insert(k, value)[q] by {
            let j = choose|j: int| self.key_is(j, q);
            self.lemma_entry(j);
            if j < n {
                before.lemma_entry(j);
            }
        }
        assert(self@ =~= before@.insert(k, value));
    }

    /// Takes `key` out of the map and returns what was there.
    pub fn remove(&mut self, key: u64) -> (r: Option<V>)
        requires
            old(self).wf(),
        ensures
            final(self).wf(),
            final(self)@ == old(self)@.remove(key),
            match r {
                Some(v) => old(self)@.contains_key(key) && v == old(self)@[key],
                None => !old(self)@.contains_key(key),
            },
    {
        let ghost before = *self;
        match self.find(key) {
            Some(i) => {
                let e = self.entries.remove(i);
                proof {
                    self.lemma_removed(before, i as int);
                }
                Some(e.1)
            },
            None => {
                assert(self@ =~= before@.remove(key));
                None
            },
        }
    }

    /// Removing entry `i` removes its key from the map.
    pub proof fn lemma_removed(self, before: Self, i: int)
        requires
            before.wf(),
            0 <= i < before.entries@.len(),
            self.entries@ == before.entries@.remove(i),
        ensures
            self.wf(),
            self@ == before@.remove(before.entries@[i].0),
    {
        let k = before.entries@[i].0;
        let back = |j: int| if j < i { j } else { j + 1 };
        assert forall|a: int| 0 <= a < self.entries@.len() implies self.entries@[a] == before.entries@[back(a)] by {}
        assert forall|a: int, b: int| 0 <= a < b < self.entries@.len() implies (#[trigger] self.entries@[a]).0 != (
        #[trigger] self.entries@[b]).0 by {
            assert(before.entries@[back(a)].0 != before.entries@[back(b)].0);
        }
        assert forall|q: u64| self@.contains_key(q) <==> before@.remove(k).contains_key(q) by {
            if self@.contains_key(q) {
                let j = choose|j: int| self.key_is(j, q);
                assert(before.key_is(back(j), q));
                if back(j) < i {
                    assert(before.entries@[back(j)].0 != before.entries@[i].0);
                } else {
                    assert(before.entries@[i].0 != before.entries@[back(j)].0);
                }
            }
            if before@.contains_key(q) && q != k {
                let j = choose|j: int| before.key_is(j, q);
                let a = if j < i { j } else { j - 1 };
                assert(self.key_is(a, q));
            }
        }
        assert forall|q: u64| self@.contains_key(q) implies self@[q] == before@.remove(k)[q] by {
            let j = choose|j: int| self.key_is(j, q);
            self.lemma_entry(j);
            before.lemma_entry(back(j));
        }
        assert(self@ =~= before@.remove(k));
    }

    /// Keeping only the entries that pass a filter keeps just their keys.
    pub proof fn lemma_filtered(self, before: Self, pred: spec_fn((u64, V)) -> bool)
        requires
            before.wf(),
            self.entries@ == before.entries@.filter(pred),
        ensures
            self.wf(),
            self@ == before@.restrict(Set::new(|k: u64| before@.contains_key(k) && pred((k, before@[k])))),
    {
        let at = lemma_filter_index(before.entries@, pred);
        let keep = Set::new(|k: u64| before@.contains_key(k) && pred((k, before@[k])));
        assert forall|a: int, b: int| 0 <= a < b < self.entries@.len() implies (#[trigger] self.entries@[a]).0 != (
        #[trigger] self.entries@[b]).0 by {
            assert(at[a] < at[b]);
            assert(before.entries@[at[a]].0 != before.entries@[at[b]].0);
        }
        assert forall|k: u64| self@.contains_key(k) <==> before@.restrict(keep).contains_key(k) by {
            if self@.contains_key(k) {
                let a = choose|a: int| self.key_is(a, k);
                assert(before.entries@[at[a]] == self.entries@[a]);
                before.lemma_entry(at[a]);
            }
            if before@.contains_key(k) && pred((k, before@[k])) {
                let j = choose|j: int| before.key_is(j, k);
                before.lemma_entry(j);
                assert(before.entries@.contains(before.entries@[j]));
                lemma_filter_contains(before.entries@, pred, before.entries@[j]);
                let a = choose|a: int| 0 <= a < self.entries@.len() && self.entries@[a] == before.entries@[j];
                assert(self.key_is(a, k));
            }
        }
        assert forall|k: u64| self@.contains_key(k) implies self@[k] == before@.restrict(keep)[k] by {
            let a = choose|a: int| self.key_is(a, k);
            self.lemma_entry(a);
            assert(before.entries@[at[a]] == self.entries@[a]);
            before.lemma_entry(at[a]);
        }
        assert(self@ =~= before@.restrict(keep));
    }
}

/// A map holds just what its entries say: every entry is found under its number,
/// and what is found is an entry.
pub proof fn law_map_is_its_entries<V>(m: IdMap<V>, i: int, k: u64)
    requires
        m.wf(),
    ensures
        0 <= i < m.entries@.len() ==> m@.contains_key(m.entries@[i].0) && m@[m.entries@[i].0] == m.entries@[i].1,
        m@.contains_key(k) ==> exists|j: int| 0 <= j < m.entries@.len() && (#[trigger] m.entries@[j]).0 == k && m.entries@[j].1
            == m@[k],
{
    if 0 <= i < m.entries@.len() {
        m.lemma_entry(i);
    }
    if m@.contains_key(k) {
        let j = choose|j: int| m.key_is(j, k);
        assert(m.entries@[j].0 == k);
        m.lemma_entry(j);
    }
}

} // verus!
