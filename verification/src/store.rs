//! Keyed and ordered collections of the contract's records: a map from string
//! keys to values, and an insertion-ordered set of string identifiers.

use vstd::prelude::*;
use crate::model::{filter_ids, other_than, without_id};
use crate::types::Duplicate;

verus! {

/// A map from string keys to values, kept as parallel vectors of keys and values.
pub struct StrMap<V> {
    keys: Vec<String>,
    vals: Vec<V>,
}

/// The characters of each string of a sequence.
pub open spec fn string_views(s: Seq<String>) -> Seq<Seq<char>> {
    s.map_values(|k: String| k@)
}

/// The keys of a list of entries.
pub open spec fn entry_keys<V>(entries: Seq<(String, V)>) -> Seq<Seq<char>> {
    entries.map_values(|e: (String, V)| e.0@)
}

/// The views of the values of a list of entries.
pub open spec fn entry_views<V: View>(entries: Seq<(String, V)>) -> Seq<V::V> {
    entries.map_values(|e: (String, V)| e.1@)
}

/// The map that gives each key of `keys` the value at its place in `vals`.
pub open spec fn keyed_map<W>(keys: Seq<Seq<char>>, vals: Seq<W>) -> Map<Seq<char>, W> {
    Map::new(|k: Seq<char>| keys.contains(k), |k: Seq<char>| vals[keys.index_of(k)])
}

impl<V: View> StrMap<V> {
    /// The keys, in the order in which they were first inserted.
    pub closed spec fn key_seq(&self) -> Seq<Seq<char>> {
        string_views(self.keys@)
    }

    /// Every key has a value, and no key occurs twice.
    pub closed spec fn wf(&self) -> bool {
        &&& self.keys@.len() == self.vals@.len()
        &&& self.key_seq().no_duplicates()
    }

    /// The entries of the map.
    pub closed spec fn spec_map(&self) -> Map<Seq<char>, V::V> {
        Map::new(
            |k: Seq<char>| self.key_seq().contains(k),
            |k: Seq<char>| self.vals@[self.key_seq().index_of(k)]@,
        )
    }

    /// An empty map.
    pub fn new() -> (m: Self)
        ensures
            m.wf(),
            m@ == Map::<Seq<char>, V::V>::empty(),
    {
        let m = StrMap { keys: Vec::new(), vals: Vec::new() };
        assert(m@ =~= Map::<Seq<char>, V::V>::empty());
        m
    }

    fn find(&self, key: &String) -> (r: Option<usize>)
        requires
            self.wf(),
        ensures
            match r {
                Some(i) => i < self.keys@.len() && self.key_seq()[i as int] == key@,
                None => !self.key_seq().contains(key@),
            },
    {
        let n = self.keys.len();
        let mut i: usize = 0;
        while i < n
            invariant
                n == self.keys@.len(),
                i <= n,
                forall|j: int| 0 <= j < i ==> self.key_seq()[j] != key@,
            decreases n - i,
        {
            if self.keys[i] == *key {
                return Some(i);
            }
            i = i + 1;
        }
        None
    }

    proof fn lemma_value_at(&self, i: int)
        requires
            self.wf(),
            0 <= i < self.keys@.len(),
        ensures
            self@.contains_key(self.key_seq()[i]),
            self@[self.key_seq()[i]] == self.vals@[i]@,
    {
        let k = self.key_seq()[i];
        assert(self.key_seq().contains(k));
        let j = self.key_seq().index_of(k);
        assert(self.key_seq()[j] == k);
    }

    /// The keys are the map's domain, each once.
    pub proof fn lemma_keys(&self)
        requires
            self.wf(),
        ensures
            self.key_seq().no_duplicates(),
            forall|k: Seq<char>| #[trigger] self@.contains_key(k) <==> self.key_seq().contains(k),
    {
    }

    /// The number of entries.
    pub fn len(&self) -> (n: usize)
        requires
            self.wf(),
        ensures
            n == self.key_seq().len(),
    {
        self.keys.len()
    }

    /// The key of the entry at position `i`.
    pub fn key_at(&self, i: usize) -> (k: &String)
        requires
            self.wf(),
            i < self.key_seq().len(),
        ensures
            k@ == self.key_seq()[i as int],
    {
        &self.keys[i]
    }

    /// The value of the entry at position `i`.
    pub fn value_at(&self, i: usize) -> (v: &V)
        requires
            self.wf(),
            i < self.key_seq().len(),
        ensures
            self@.contains_key(self.key_seq()[i as int]),
            v@ == self@[self.key_seq()[i as int]],
    {
        proof {
            self.lemma_value_at(i as int);
        }
        &self.vals[i]
    }

    /// Whether the map has an entry for `key`.
    pub fn contains_key(&self, key: &String) -> (r: bool)
        requires
            self.wf(),
        ensures
            r == self@.contains_key(key@),
    {
        self.find(key).is_some()
    }

    /// The value stored under `key`, if any.
    pub fn get(&self, key: &String) -> (r: Option<&V>)
        requires
            self.wf(),
        ensures
            match r {
                Some(v) => self@.contains_key(key@) && v@ == self@[key@],
                None => !self@.contains_key(key@),
            },
    {
        match self.find(key) {
            Some(i) => {
                proof {
                    self.lemma_value_at(i as int);
                }
                Some(&self.vals[i])
            },
            None => None,
        }
    }

    /// Stores `value` under `key`, replacing what was stored there.
    pub fn insert(&mut self, key: String, value: V)
        requires
            old(self).wf(),
        ensures
            final(self).wf(),
            final(self)@ == old(self)@.insert(key@, value@),
    {
        let ghost k = key@;
        let ghost v = value@;
        match self.find(&key) {
            Some(i) => {
                self.vals.set(i, value);
                proof {
                    assert(self.key_seq() == old(self).key_seq());
                    assert forall|q: Seq<char>| #[trigger] self@.contains_key(q) implies self@[q]
                        == old(self)@.insert(k, v)[q] by {
                        let j = self.key_seq().index_of(q);
                        if q == k {
                            assert(self.key_seq()[i as int] == k);
                        } else {
                            old(self).lemma_value_at(j);
                        }
                    }
                    assert(self@ =~= old(self)@.insert(k, v));
                }
            },
            None => {
                self.keys.push(key);
                self.vals.push(value);
                proof {
                    let n = old(self).keys@.len() as int;
                    assert(self.key_seq() =~= old(self).key_seq().push(k));
                    assert forall|q: Seq<char>| old(self).key_seq().contains(q) implies #[trigger] self.key_seq().contains(q) by {
                        let j = old(self).key_seq().index_of(q);
                        assert(self.key_seq()[j] == q);
                    }
                    assert(self.key_seq()[n] == k);
                    assert forall|q: Seq<char>| #[trigger] self@.contains_key(q) implies self@[q]
                        == old(self)@.insert(k, v)[q] by {
                        if q == k {
                            self.lemma_value_at(n);
                        } else {
                            let j = old(self).key_seq().index_of(q);
                            old(self).lemma_value_at(j);
                            self.lemma_value_at(j);
                        }
                    }
                    assert(self@ =~= old(self)@.insert(k, v));
                }
            },
        }
    }
}

impl<V: Duplicate> StrMap<V> {
    /// A copy of the map.
    pub fn duplicate(&self) -> (m: Self)
        requires
            self.wf(),
        ensures
            m.wf(),
            m@ == self@,
    {
        let n = self.keys.len();
        let mut keys: Vec<String> = Vec::new();
        let mut vals: Vec<V> = Vec::new();
        let mut i: usize = 0;
        while i < n
            invariant
                self.wf(),
                n == self.keys@.len(),
                i <= n,
                keys@.len() == i,
                vals@.len() == i,
                forall|j: int| 0 <= j < i ==> keys@[j]@ == self.keys@[j]@,
                forall|j: int| 0 <= j < i ==> vals@[j]@ == self.vals@[j]@,
            decreases n - i,
        {
            keys.push(self.keys[i].clone());
            vals.push(self.vals[i].duplicate());
            i = i + 1;
        }
        let m = StrMap { keys, vals };
        assert(m.key_seq() =~= self.key_seq());
        assert(m@ =~= self@);
        m
    }

    /// The entries, in order.
    pub fn entries(&self) -> (r: Vec<(String, V)>)
        requires
            self.wf(),
        ensures
            entry_keys(r@) == self.key_seq(),
            self@ == keyed_map(entry_keys(r@), entry_views(r@)),
    {
        let n = self.keys.len();
        let mut out: Vec<(String, V)> = Vec::new();
        let mut i: usize = 0;
        while i < n
            invariant
                self.wf(),
                n == self.keys@.len(),
                i <= n,
                out@.len() == i,
                forall|j: int| 0 <= j < i ==> (#[trigger] out@[j]).0@ == self.keys@[j]@ && out@[j].1@ == self.vals@[j]@,
            decreases n - i,
        {
            out.push((self.keys[i].clone(), self.vals[i].duplicate()));
            i = i + 1;
        }
        assert(entry_keys(out@) =~= self.key_seq());
        assert(self@ =~= keyed_map(entry_keys(out@), entry_views(out@)));
        out
    }

    /// The map of `entries`, unless a key occurs twice.
    pub fn from_entries(entries: &Vec<(String, V)>) -> (r: Option<Self>)
        ensures
            match r {
                Some(m) => m.wf() && entry_keys(entries@).no_duplicates()
                    && m@ == keyed_map(entry_keys(entries@), entry_views(entries@)),
                None => !entry_keys(entries@).no_duplicates(),
            },
    {
        let ghost ks = entry_keys(entries@);
        let n = entries.len();
        assert(ks.len() == n);
        let mut m: StrMap<V> = StrMap { keys: Vec::new(), vals: Vec::new() };
        let mut i: usize = 0;
        while i < n
            invariant
                n == entries@.len(),
                ks == entry_keys(entries@),
                ks.len() == n,
                i <= n,
                m.wf(),
                m.keys@.len() == i,
                m.key_seq() == ks.take(i as int),
                forall|j: int| 0 <= j < i ==> (#[trigger] m.vals@[j])@ == entries@[j].1@,
            decreases n - i,
        {
            let k = &entries[i].0;
            assert(ks[i as int] == k@);
            if let Some(j) = m.find(k) {
                assert(ks.take(i as int)[j as int] == ks[j as int]);
                assert(ks[j as int] == ks[i as int]);
                return None;
            }
            m.keys.push(k.clone());
            m.vals.push(entries[i].1.duplicate());
            assert(m.key_seq() =~= ks.take(i + 1));
            i = i + 1;
        }
        assert(ks.take(n as int) =~= ks);
        assert(m@ =~= keyed_map(ks, entry_views(entries@))) by {
            assert forall|k: Seq<char>| #[trigger] ks.contains(k) implies m.vals@[ks.index_of(k)]@
                == entry_views(entries@)[ks.index_of(k)] by {
                let j = ks.index_of(k);
                assert(0 <= j < n);
            }
        }
        Some(m)
    }
}

impl<V: View> View for StrMap<V> {
    type V = Map<Seq<char>, V::V>;

    open spec fn view(&self) -> Map<Seq<char>, V::V> {
        self.spec_map()
    }
}

/// A set of identifiers that keeps them in the order of their first insertion.
pub struct IdList {
    ids: Vec<String>,
}

impl View for IdList {
    type V = Seq<Seq<char>>;

    open spec fn view(&self) -> Seq<Seq<char>> {
        self.spec_ids()
    }
}

impl IdList {
    /// The identifiers, in order.
    pub closed spec fn spec_ids(&self) -> Seq<Seq<char>> {
        string_views(self.ids@)
    }

    /// An empty list.
    pub fn new() -> (l: Self)
        ensures
            l@ == Seq::<Seq<char>>::empty(),
    {
        let l = IdList { ids: Vec::new() };
        assert(l@ =~= Seq::<Seq<char>>::empty());
        l
    }

    /// The number of identifiers.
    pub fn len(&self) -> (n: usize)
        ensures
            n == self@.len(),
    {
        self.ids.len()
    }

    /// The identifier at position `i`.
    pub fn get(&self, i: usize) -> (id: &String)
        requires
            i < self@.len(),
        ensures
            id@ == self@[i as int],
    {
        &self.ids[i]
    }

    /// Whether `id` is in the list.
    pub fn contains(&self, id: &String) -> (r: bool)
        ensures
            r == self@.contains(id@),
    {
        let n = self.ids.len();
        let mut i: usize = 0;
        while i < n
            invariant
                n == self.ids@.len(),
                i <= n,
                forall|j: int| 0 <= j < i ==> self@[j] != id@,
            decreases n - i,
        {
            if self.ids[i] == *id {
                assert(self@[i as int] == id@);
                return true;
            }
            i = i + 1;
        }
        false
    }

    /// Adds `id` at the end, unless it is already in the list.
    pub fn insert(&mut self, id: String)
        ensures
            final(self)@ == (if old(self)@.contains(id@) {
                old(self)@
            } else {
                old(self)@.push(id@)
            }),
    {
        if !self.contains(&id) {
            let ghost v = id@;
            self.ids.push(id);
            assert(self@ =~= old(self)@.push(v));
        }
    }

    /// The list of the identifiers `ids`.
    pub fn from_strings(ids: &Vec<String>) -> (l: Self)
        ensures
            l@ == string_views(ids@),
    {
        let n = ids.len();
        let mut out: Vec<String> = Vec::new();
        let mut i: usize = 0;
        while i < n
            invariant
                n == ids@.len(),
                i <= n,
                out@.len() == i,
                forall|j: int| 0 <= j < i ==> (#[trigger] out@[j])@ == ids@[j]@,
            decreases n - i,
        {
            out.push(ids[i].clone());
            i = i + 1;
        }
        let l = IdList { ids: out };
        assert(l@ =~= string_views(ids@));
        l
    }

    /// The identifiers, as strings.
    pub fn to_strings(&self) -> (r: Vec<String>)
        ensures
            string_views(r@) == self@,
    {
        let n = self.ids.len();
        let mut out: Vec<String> = Vec::new();
        let mut i: usize = 0;
        while i < n
            invariant
                n == self.ids@.len(),
                i <= n,
                out@.len() == i,
                forall|j: int| 0 <= j < i ==> (#[trigger] out@[j])@ == self.ids@[j]@,
            decreases n - i,
        {
            out.push(self.ids[i].clone());
            i = i + 1;
        }
        assert(string_views(out@) =~= self@);
        out
    }

    /// Whether no identifier occurs twice.
    pub fn no_duplicates(&self) -> (r: bool)
        ensures
            r == self@.no_duplicates(),
    {
        let n = self.ids.len();
        let mut a: usize = 0;
        while a < n
            invariant
                n == self@.len(),
                a <= n,
                forall|x: int, y: int| 0 <= x < a && x < y < n ==> self@[x] != self@[y],
            decreases n - a,
        {
            let mut b: usize = a + 1;
            while b < n
                invariant
                    n == self@.len(),
                    a < n,
                    a + 1 <= b <= n,
                    forall|x: int, y: int| 0 <= x < a && x < y < n ==> self@[x] != self@[y],
                    forall|y: int| a < y < b ==> self@[a as int] != self@[y],
                decreases n - b,
            {
                if self.ids[a] == self.ids[b] {
                    assert(self@[a as int] == self@[b as int]);
                    return false;
                }
                b = b + 1;
            }
            a = a + 1;
        }
        assert forall|x: int, y: int| 0 <= x < n && 0 <= y < n && x != y implies self@[x] != self@[y] by {
            if x > y {
                assert(self@[y] != self@[x]);
            }
        }
        true
    }

    /// Adds `id` at the end.
    pub fn push(&mut self, id: String)
        ensures
            final(self)@ == old(self)@.push(id@),
    {
        let ghost v = id@;
        self.ids.push(id);
        assert(self@ =~= old(self)@.push(v));
    }

    /// Takes `id` out of the list.
    pub fn remove(&mut self, id: &String)
        ensures
            final(self)@ == without_id(old(self)@, id@),
    {
        let ghost all = self@;
        let ghost keep = other_than(id@);
        let n = self.ids.len();
        let mut kept = IdList::new();
        let mut i: usize = 0;
        while i < n
            invariant
                n == self.ids@.len(),
                all == self@,
                keep == other_than(id@),
                i <= n,
                kept@ == filter_ids(all.take(i as int), keep),
            decreases n - i,
        {
            assert(all.take(i + 1).drop_last() =~= all.take(i as int));
            assert(all.take(i + 1).last() == all[i as int]);
            if !(self.ids[i] == *id) {
                kept.push(self.ids[i].clone());
            }
            i = i + 1;
        }
        assert(all.take(n as int) =~= all);
        *self = kept;
    }
}

impl Duplicate for IdList {
    fn duplicate(&self) -> (l: Self) {
        let n = self.ids.len();
        let mut ids: Vec<String> = Vec::new();
        let mut i: usize = 0;
        while i < n
            invariant
                n == self.ids@.len(),
                i <= n,
                ids@.len() == i,
                forall|j: int| 0 <= j < i ==> ids@[j]@ == self.ids@[j]@,
            decreases n - i,
        {
            ids.push(self.ids[i].clone());
            i = i + 1;
        }
        let l = IdList { ids };
        assert(l@ =~= self@);
        l
    }
}

} // verus!
