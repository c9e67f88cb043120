//! A string-keyed table that remembers insertion order and replaces the
//! value of a key stored again; it stands for the `HashMap<String, _>` tables of the config.
use vstd::prelude::*;
use crate::text::str_eq;

verus! {

/// The value stored under `k` in an association list (the last entry wins).
pub open spec fn assoc_lookup<V>(s: Seq<(Seq<char>, V)>, k: Seq<char>) -> Option<V>
    decreases s.len(),
{
    if s.len() == 0 {
        None
    } else if s.last().0 == k {
        Some(s.last().1)
    } else {
        assoc_lookup(s.drop_last(), k)
    }
}

pub proof fn lemma_assoc_lookup_none<V>(s: Seq<(Seq<char>, V)>, k: Seq<char>)
    requires
        forall|i: int| 0 <= i < s.len() ==> s[i].0 != k,
    ensures
        assoc_lookup(s, k) is None,
    decreases s.len(),
{
    if s.len() > 0 {
        let t = s.drop_last();
        assert forall|i: int| 0 <= i < t.len() implies t[i].0 != k by {
            assert(t[i] == s[i]);
        }
        lemma_assoc_lookup_none(t, k);
    }
}

/// A table from strings to values, in insertion order.
#[derive(Debug)]
pub struct StrMap<V> {
    entries: Vec<(String, V)>,
}

impl<V> StrMap<V> {
    /// The entries with their keys taken by view, in insertion order.
    pub closed spec fn spec_entries(&self) -> Seq<(Seq<char>, V)> {
        self.entries@.map_values(|e: (String, V)| (e.0@, e.1))
    }

    /// No key occurs in two entries.
    #[verifier::type_invariant]
    closed spec fn keys_distinct(self) -> bool {
        self.spec_keys().no_duplicates()
    }

    /// The value stored under `k`, if any.
    pub open spec fn spec_get(&self, k: Seq<char>) -> Option<V> {
        assoc_lookup(self.spec_entries(), k)
    }

    /// The keys, in insertion order.
    pub open spec fn spec_keys(&self) -> Seq<Seq<char>> {
        self.spec_entries().map_values(|e: (Seq<char>, V)| e.0)
    }

    /// An empty table.
    pub fn new() -> (m: Self)
        ensures
            m.spec_entries() == Seq::<(Seq<char>, V)>::empty(),
            m.spec_keys().no_duplicates(),
    {
        let e: Vec<(String, V)> = Vec::new();
        assert(e@.map_values(|x: (String, V)| (x.0@, x.1)).map_values(|x: (Seq<char>, V)| x.0) =~= Seq::<Seq<char>>::empty());
        let m = StrMap { entries: e };
        assert(m.spec_entries() =~= Seq::<(Seq<char>, V)>::empty());
        m
    }

    /// Number of entries.
    pub fn len(&self) -> (n: usize)
        ensures
            n == self.spec_entries().len(),
    {
        self.entries.len()
    }

    /// Index of the last entry with key `k`, if any.
    fn position(&self, k: &str) -> (r: Option<usize>)
        ensures
            match r {
                Some(i) => i < self.spec_entries().len() && self.spec_entries()[i as int].0 == k@
                    && forall|j: int| i < j < self.spec_entries().len() ==> self.spec_entries()[j].0 != k@,
                None => forall|i: int|
                    0 <= i < self.spec_entries().len() ==> self.spec_entries()[i].0 != k@,
            },
    {
        let mut i: usize = self.entries.len();
        while i > 0
            invariant
                i <= self.entries@.len(),
                forall|j: int| i <= j < self.entries@.len() ==> self.spec_entries()[j].0 != k@,
            decreases i,
        {
            if str_eq(self.entries[i - 1].0.as_str(), k) {
                return Some(i - 1);
            }
            i = i - 1;
        }
        None
    }

    /// The value stored under `k`.
    pub fn get(&self, k: &str) -> (r: Option<&V>)
        ensures
            match r {
                Some(v) => self.spec_get(k@) == Some(*v),
                None => self.spec_get(k@) is None,
            },
    {
        match self.position(k) {
            Some(i) => {
                proof {
                    lemma_assoc_lookup_last(self.spec_entries(), i as int);
                }
                Some(&self.entries[i].1)
            },
            None => {
                proof {
                    lemma_assoc_lookup_none(self.spec_entries(), k@);
                }
                None
            },
        }
    }

    /// The key of the `i`-th entry.
    pub fn key_at(&self, i: usize) -> (k: &String)
        requires
            i < self.spec_entries().len(),
        ensures
            k@ == self.spec_entries()[i as int].0,
    {
        &self.entries[i].0
    }

    /// The value of the `i`-th entry.
    pub fn value_at(&self, i: usize) -> (v: &V)
        requires
            i < self.spec_entries().len(),
        ensures
            *v == self.spec_entries()[i as int].1,
    {
        &self.entries[i].1
    }

    /// Stores `v` under `k`: the entry of an existing key is replaced in place,
    /// a new key is appended.
    pub fn insert(&mut self, k: String, v: V)
        ensures
            final(self).spec_entries() == (match old(self).spec_entries_position(k@) {
                Some(i) => old(self).spec_entries().update(i, (k@, v)),
                None => old(self).spec_entries().push((k@, v)),
            }),
            final(self).spec_get(k@) == Some(v),
            forall|k2: Seq<char>| k2 != k@ ==> final(self).spec_get(k2) == old(self).spec_get(k2),
            final(self).spec_keys().no_duplicates(),
    {
        proof {
            use_type_invariant(&*self);
        }
        let ghost old_entries = self.spec_entries();
        let pos = self.position(k.as_str());
        let mut entries = Vec::new();
        std::mem::swap(&mut entries, &mut self.entries);
        let ghost raw = entries@;
        assert(raw.map_values(|e: (String, V)| (e.0@, e.1)) == old_entries);
        match pos {
            Some(i) => {
                proof {
                    lemma_position_last(old_entries, i as int, k@);
                }
                entries.set(i, (k, v));
                let ghost new_entries = entries@.map_values(|e: (String, V)| (e.0@, e.1));
                assert(new_entries =~= old_entries.update(i as int, (new_entries[i as int].0, v)));
                assert(new_entries.map_values(|e: (Seq<char>, V)| e.0) =~= old_entries.map_values(|e: (Seq<char>, V)| e.0));
            },
            None => {
                proof {
                    lemma_position_none(old_entries, k@);
                }
                entries.push((k, v));
                let ghost new_entries = entries@.map_values(|e: (String, V)| (e.0@, e.1));
                assert(new_entries =~= old_entries.push((new_entries.last().0, v)));
                let ghost old_keys = old_entries.map_values(|e: (Seq<char>, V)| e.0);
                assert(new_entries.map_values(|e: (Seq<char>, V)| e.0) =~= old_keys.push(k@));
                assert(!old_keys.contains(k@)) by {
                    if old_keys.contains(k@) {
                        let j = choose|j: int| 0 <= j < old_keys.len() && old_keys[j] == k@;
                        assert(old_entries[j].0 == k@);
                    }
                }
            },
        }
        self.entries = entries;
        proof {
            let ne = self.spec_entries();
            match pos {
                Some(i) => {
                    lemma_assoc_lookup_last(ne, i as int);
                    assert forall|k2: Seq<char>| k2 != k@ implies assoc_lookup(ne, k2) == assoc_lookup(old_entries, k2) by {
                        lemma_assoc_update_other(old_entries, i as int, (k@, v), k2);
                    }
                },
                None => {
                    lemma_assoc_lookup_last(ne, ne.len() - 1);
                    assert forall|k2: Seq<char>| k2 != k@ implies assoc_lookup(ne, k2) == assoc_lookup(old_entries, k2) by {
                        assert(ne.drop_last() =~= old_entries);
                    }
                },
            }
        }
    }

    /// Index of the last entry with key `k`, if any.
    pub open spec fn spec_entries_position(&self, k: Seq<char>) -> Option<int> {
        last_index_of_key(self.spec_entries(), k)
    }
}

proof fn lemma_assoc_update_other<V>(s: Seq<(Seq<char>, V)>, i: int, e: (Seq<char>, V), k: Seq<char>)
    requires
        0 <= i < s.len(),
        s[i].0 == e.0,
        k != e.0,
    ensures
        assoc_lookup(s.update(i, e), k) == assoc_lookup(s, k),
    decreases s.len(),
{
    let u = s.update(i, e);
    if i == s.len() - 1 {
        assert(u.drop_last() =~= s.drop_last());
    } else {
        assert(u.drop_last() =~= s.drop_last().update(i, e));
        lemma_assoc_update_other(s.drop_last(), i, e, k);
    }
}

/// Index of the last entry with key `k`, if any.
pub open spec fn last_index_of_key<V>(s: Seq<(Seq<char>, V)>, k: Seq<char>) -> Option<int>
    decreases s.len(),
{
    if s.len() == 0 {
        None
    } else if s.last().0 == k {
        Some(s.len() - 1)
    } else {
        last_index_of_key(s.drop_last(), k)
    }
}

proof fn lemma_position_last<V>(s: Seq<(Seq<char>, V)>, i: int, k: Seq<char>)
    requires
        0 <= i < s.len(),
        s[i].0 == k,
        forall|j: int| i < j < s.len() ==> s[j].0 != k,
    ensures
        last_index_of_key(s, k) == Some(i),
    decreases s.len(),
{
    if i != s.len() - 1 {
        let t = s.drop_last();
        assert(t[i] == s[i]);
        lemma_position_last(t, i, k);
    }
}

proof fn lemma_position_none<V>(s: Seq<(Seq<char>, V)>, k: Seq<char>)
    requires
        forall|i: int| 0 <= i < s.len() ==> s[i].0 != k,
    ensures
        last_index_of_key(s, k) is None,
    decreases s.len(),
{
    if s.len() > 0 {
        let t = s.drop_last();
        assert forall|i: int| 0 <= i < t.len() implies t[i].0 != k by {
            assert(t[i] == s[i]);
        }
        lemma_position_none(t, k);
    }
}

/// The last entry with key `s[i].0` is at `i`, so the lookup finds it.
pub proof fn lemma_assoc_lookup_last<V>(s: Seq<(Seq<char>, V)>, i: int)
    requires
        0 <= i < s.len(),
        forall|j: int| i < j < s.len() ==> s[j].0 != s[i].0,
    ensures
        assoc_lookup(s, s[i].0) == Some(s[i].1),
    decreases s.len(),
{
    if i != s.len() - 1 {
        let t = s.drop_last();
        assert(t[i] == s[i]);
        assert forall|j: int| i < j < t.len() implies t[j].0 != t[i].0 by {
            assert(t[j] == s[j]);
        }
        lemma_assoc_lookup_last(t, i);
    }
}

/// The entries of a string-to-string table, keys and values by view.
pub open spec fn string_entries(m: StrMap<String>) -> Seq<(Seq<char>, Seq<char>)> {
    m.spec_entries().map_values(|e: (Seq<char>, String)| (e.0, e.1@))
}

impl StrMap<String> {
    /// A copy with the same keys and values.
    pub fn duplicate(&self) -> (r: StrMap<String>)
        ensures
            string_entries(r) == string_entries(*self),
            r.spec_keys().no_duplicates(),
    {
        let mut entries: Vec<(String, String)> = Vec::new();
        let mut i: usize = 0;
        while i < self.entries.len()
            invariant
                i <= self.entries@.len(),
                entries@.len() == i,
                forall|j: int| 0 <= j < i ==> entries@[j].0@ == self.entries@[j].0@
                    && entries@[j].1@ == self.entries@[j].1@,
            decreases self.entries@.len() - i,
        {
            let k = self.entries[i].0.clone();
            let v = self.entries[i].1.clone();
            entries.push((k, v));
            i = i + 1;
        }
        proof {
            use_type_invariant(self);
            let ghost rk = entries@.map_values(|e: (String, String)| (e.0@, e.1)).map_values(|e: (Seq<char>, String)| e.0);
            assert(rk =~= self.spec_keys());
        }
        let r = StrMap { entries };
        assert(string_entries(r) =~= string_entries(*self));
        r
    }
}

impl<V: Clone> Clone for StrMap<V> {
    /// A copy with the same keys, each value cloned.
    fn clone(&self) -> (r: Self)
        ensures
            r.spec_keys() == self.spec_keys(),
            r.spec_keys().no_duplicates(),
    {
        proof {
            use_type_invariant(self);
        }
        let mut entries: Vec<(String, V)> = Vec::new();
        let mut i: usize = 0;
        while i < self.entries.len()
            invariant
                i <= self.entries@.len(),
                entries@.len() == i,
                forall|j: int| 0 <= j < i ==> entries@[j].0@ == self.entries@[j].0@,
            decreases self.entries@.len() - i,
        {
            let k = self.entries[i].0.clone();
            let v = self.entries[i].1.clone();
            entries.push((k, v));
            i = i + 1;
        }
        proof {
            let ghost rk = entries@.map_values(|e: (String, V)| (e.0@, e.1)).map_values(|e: (Seq<char>, V)| e.0);
            assert(rk =~= self.spec_keys());
        }
        StrMap { entries }
    }
}

} // verus!
