//! A map keyed by names, kept as a list of entries in which every name occurs once.
use vstd::prelude::*;

use crate::text::str_equal;

verus! {

/// What the first entry with name `key` holds.
pub open spec fn lookup_entry<V>(entries: Seq<(String, V)>, key: Seq<char>) -> Option<V>
    decreases entries.len(),
{
    if entries.len() == 0 {
        None
    } else if entries[0].0@ == key {
        Some(entries[0].1)
    } else {
        lookup_entry(entries.drop_first(), key)
    }
}

/// A map from names to values.
#[derive(Debug, Clone)]
pub struct NameMap<V> {
    entries: Vec<(String, V)>,
}

/// Replacing the first entry with a name by another entry with that name changes what the
/// name looks up, and nothing else.
proof fn lemma_lookup_update<V>(entries: Seq<(String, V)>, i: int, e: (String, V))
    requires
        0 <= i < entries.len(),
        e.0@ == entries[i].0@,
        forall|j: int| 0 <= j < i ==> entries[j].0@ != entries[i].0@,
    ensures
        forall|k: Seq<char>|
            #![trigger lookup_entry(entries.update(i, e), k)]
            lookup_entry(entries.update(i, e), k) == if k == e.0@ {
                Some(e.1)
            } else {
                lookup_entry(entries, k)
            },
    decreases i,
{
    let updated = entries.update(i, e);
    if i > 0 {
        let rest = entries.drop_first();
        lemma_lookup_update(rest, i - 1, e);
        assert(updated.drop_first() =~= rest.update(i - 1, e));
        assert forall|k: Seq<char>|
            #[trigger] lookup_entry(updated, k) == if k == e.0@ {
                Some(e.1)
            } else {
                lookup_entry(entries, k)
            } by {
            assert(updated[0] == entries[0]);
            assert(lookup_entry(rest.update(i - 1, e), k) == lookup_entry(updated.drop_first(), k));
        }
    } else {
        assert(updated.drop_first() =~= entries.drop_first());
        assert forall|k: Seq<char>|
            #[trigger] lookup_entry(updated, k) == if k == e.0@ {
                Some(e.1)
            } else {
                lookup_entry(entries, k)
            } by {
            assert(updated[0] == e);
        }
    }
}

/// An entry added at the end counts for its name only when no earlier entry has that name.
proof fn lemma_lookup_push<V>(entries: Seq<(String, V)>, e: (String, V))
    ensures
        forall|k: Seq<char>|
            #![trigger lookup_entry(entries.push(e), k)]
            lookup_entry(entries.push(e), k) == if lookup_entry(entries, k) is Some {
                lookup_entry(entries, k)
            } else if e.0@ == k {
                Some(e.1)
            } else {
                None
            },
    decreases entries.len(),
{
    if entries.len() > 0 {
        lemma_lookup_push(entries.drop_first(), e);
        assert(entries.push(e).drop_first() =~= entries.drop_first().push(e));
        assert forall|k: Seq<char>|
            #[trigger] lookup_entry(entries.push(e), k) == if lookup_entry(entries, k) is Some {
                lookup_entry(entries, k)
            } else if e.0@ == k {
                Some(e.1)
            } else {
                None
            } by {
            assert(entries.push(e)[0] == entries[0]);
            assert(lookup_entry(entries.drop_first().push(e), k) == lookup_entry(entries.push(e).drop_first(), k));
        }
    } else {
        assert(entries.push(e).drop_first() =~= Seq::<(String, V)>::empty());
        assert forall|k: Seq<char>|
            #[trigger] lookup_entry(entries.push(e), k) == if lookup_entry(entries, k) is Some {
                lookup_entry(entries, k)
            } else if e.0@ == k {
                Some(e.1)
            } else {
                None
            } by {
            assert(entries.push(e)[0] == e);
            assert(lookup_entry(entries.push(e).drop_first(), k) is None);
            assert(lookup_entry(entries, k) is None);
        }
    }
}

impl<V> NameMap<V> {
    /// The value under `key`.
    pub closed spec fn get_spec(&self, key: Seq<char>) -> Option<V> {
        lookup_entry(self.entries@, key)
    }

    /// The entries, in the order in which their names were first inserted.
    pub closed spec fn entries_spec(&self) -> Seq<(String, V)> {
        self.entries@
    }

    /// An empty map.
    pub fn new() -> (m: Self)
        ensures
            forall|k: Seq<char>| m.get_spec(k) is None,
            m.entries_spec().len() == 0,
    {
        NameMap { entries: Vec::new() }
    }

    /// The position of the first entry named `key`.
    fn find(&self, key: &str) -> (r: Option<usize>)
        ensures
            match r {
                Some(i) => i < self.entries@.len() && self.entries@[i as int].0@ == key@ && forall|j: int|
                    0 <= j < i ==> self.entries@[j].0@ != key@,
                None => forall|j: int| 0 <= j < self.entries@.len() ==> self.entries@[j].0@ != key@,
            },
            r matches Some(i) ==> self.get_spec(key@) == Some(self.entries@[i as int].1),
            r is None ==> self.get_spec(key@) is None,
    {
        let mut i: usize = 0;
        proof {
            assert(self.entries@.skip(0) =~= self.entries@);
        }
        while i < self.entries.len()
            invariant
                i <= self.entries@.len(),
                forall|j: int| 0 <= j < i ==> self.entries@[j].0@ != key@,
                lookup_entry(self.entries@.skip(i as int), key@) == lookup_entry(self.entries@, key@),
            decreases self.entries@.len() - i,
        {
            proof {
                assert(self.entries@.skip(i as int).drop_first() =~= self.entries@.skip(i + 1));
            }
            if str_equal(self.entries[i].0.as_str(), key) {
                return Some(i);
            }
            i = i + 1;
        }
        None
    }

    /// The value under `key`.
    pub fn get(&self, key: &str) -> (r: Option<&V>)
        ensures
            match self.get_spec(key@) {
                Some(v) => r == Some(&v),
                None => r is None,
            },
    {
        match self.find(key) {
            Some(i) => Some(&self.entries[i].1),
            None => None,
        }
    }

    /// Whether `key` has a value.
    pub fn contains_key(&self, key: &str) -> (r: bool)
        ensures
            r == self.get_spec(key@) is Some,
    {
        self.find(key).is_some()
    }

    /// Gives `key` the value `value`, and returns the value that it had.
    pub fn insert(&mut self, key: String, value: V) -> (previous: Option<V>)
        ensures
            previous == old(self).get_spec(key@),
            final(self).get_spec(key@) == Some(value),
            forall|k: Seq<char>| k != key@ ==> final(self).get_spec(k) == old(self).get_spec(k),
            old(self).get_spec(key@) is None ==> final(self).entries_spec() == old(self).entries_spec().push(
                (key, value),
            ),
    {
        match self.find(key.as_str()) {
            Some(i) => {
                let ghost entries = self.entries@;
                let mut pair = (key, value);
                std::mem::swap(&mut self.entries[i], &mut pair);
                proof {
                    lemma_lookup_update(entries, i as int, self.entries@[i as int]);
                    assert(self.entries@ =~= entries.update(i as int, self.entries@[i as int]));
                }
                Some(pair.1)
            },
            None => {
                let ghost entries = self.entries@;
                self.entries.push((key, value));
                proof {
                    lemma_lookup_push(entries, (key, value));
                }
                None
            },
        }
    }

    /// The entries, in the order in which their names were first inserted.
    pub fn entries(&self) -> (r: &Vec<(String, V)>)
        ensures
            r@ == self.entries_spec(),
    {
        &self.entries
    }
}

/// A name with a value has an entry.
pub proof fn lemma_get_has_entry<V>(m: &NameMap<V>, key: Seq<char>)
    requires
        m.get_spec(key) is Some,
    ensures
        exists|j: int| 0 <= j < m.entries_spec().len() && (#[trigger] m.entries_spec()[j]).0@ == key,
{
    lemma_lookup_has_entry(m.entries@, key);
    let j = choose|j: int| 0 <= j < m.entries@.len() && (#[trigger] m.entries@[j]).0@ == key;
    assert(m.entries_spec()[j] == m.entries@[j]);
}

proof fn lemma_lookup_has_entry<V>(entries: Seq<(String, V)>, key: Seq<char>)
    requires
        lookup_entry(entries, key) is Some,
    ensures
        exists|j: int| 0 <= j < entries.len() && (#[trigger] entries[j]).0@ == key,
    decreases entries.len(),
{
    if entries[0].0@ != key {
        lemma_lookup_has_entry(entries.drop_first(), key);
        let j = choose|j: int| 0 <= j < entries.drop_first().len() && (#[trigger] entries.drop_first()[j]).0@ == key;
        assert(entries[j + 1] == entries.drop_first()[j]);
    }
}

} // verus!
