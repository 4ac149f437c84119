//! A map from texts to values.

use vstd::prelude::*;

use crate::text;

verus! {

/// A value that is valid up to a point in time.
pub trait Expires {
    /// The first instant, in milliseconds, at which the value is not valid any
    /// more.
    spec fn deadline(&self) -> i64;

    /// The first instant, in milliseconds, at which the value is not valid any
    /// more.
    fn expires_at(&self) -> (deadline: i64)
        ensures
            deadline == self.deadline(),
    ;
}

/// A map from texts to values. Each key occurs once.
pub struct Registry<T> {
    entries: Vec<(String, T)>,
}

/// The position of a key.
spec fn position<T>(entries: Seq<(String, T)>, key: Seq<char>) -> int {
    choose|i: int| 0 <= i < entries.len() && (#[trigger] entries[i]).0@ == key
}

/// The key is among the entries.
spec fn has_key<T>(entries: Seq<(String, T)>, key: Seq<char>) -> bool {
    exists|i: int| 0 <= i < entries.len() && (#[trigger] entries[i]).0@ == key
}

/// No key occurs twice.
spec fn distinct_keys<T>(entries: Seq<(String, T)>) -> bool {
    forall|i: int, j: int|
        0 <= i < j < entries.len() ==> (#[trigger] entries[i]).0@ != (#[trigger] entries[j]).0@
}

impl<T> View for Registry<T> {
    type V = Map<Seq<char>, T>;

    closed spec fn view(&self) -> Map<Seq<char>, T> {
        Map::new(
            |key: Seq<char>| has_key(self.entries@, key),
            |key: Seq<char>| self.entries@[position(self.entries@, key)].1,
        )
    }
}

proof fn lemma_entry<T>(entries: Seq<(String, T)>, i: int)
    requires
        distinct_keys(entries),
        0 <= i < entries.len(),
    ensures
        has_key(entries, entries[i].0@),
        position(entries, entries[i].0@) == i,
{
    let key = entries[i].0@;
    assert(entries[i].0@ == key);
    let p = position(entries, key);
    assert(0 <= p < entries.len() && entries[p].0@ == key);
}

impl<T> Registry<T> {
    /// No key occurs twice.
    pub closed spec fn well_formed(self) -> bool {
        distinct_keys(self.entries@)
    }

    /// How many keys the map has.
    pub closed spec fn spec_len(self) -> nat {
        self.entries@.len()
    }

    /// The key of the entry at the given position.
    pub closed spec fn key_at(self, index: int) -> Seq<char> {
        self.entries@[index].0@
    }

    /// Every position holds an entry of the map, and every entry has one.
    pub proof fn lemma_positions(self)
        requires
            self.well_formed(),
        ensures
            forall|i: int|
                0 <= i < self.spec_len() ==> self@.dom().contains(#[trigger] self.key_at(i)),
            forall|key: Seq<char>| #[trigger]
                self@.dom().contains(key) ==> exists|i: int|
                    0 <= i < self.spec_len() && #[trigger] self.key_at(i) == key,
            forall|i: int, j: int|
                0 <= i < j < self.spec_len() ==> #[trigger] self.key_at(i) != #[trigger] self.key_at(
                    j,
                ),
    {
        assert forall|i: int| 0 <= i < self.spec_len() implies self@.dom().contains(
            #[trigger] self.key_at(i),
        ) by {
            lemma_entry(self.entries@, i);
        }
        assert forall|key: Seq<char>| #[trigger] self@.dom().contains(key) implies exists|i: int|
            0 <= i < self.spec_len() && #[trigger] self.key_at(i) == key by {
            let i = position(self.entries@, key);
            assert(self.key_at(i) == key);
        }
    }

    /// The map has as many keys as it tells.
    pub proof fn lemma_len(self)
        requires
            self.well_formed(),
        ensures
            self@.dom().len() == self.spec_len(),
    {
        let keys = Seq::new(self.entries@.len(), |i: int| self.entries@[i].0@);
        assert(keys.no_duplicates()) by {
            assert forall|i: int, j: int|
                0 <= i < keys.len() && 0 <= j < keys.len() && i != j implies keys[i] != keys[j] by {
                assert(self.entries@[i].0@ == keys[i]);
                assert(self.entries@[j].0@ == keys[j]);
            }
        }
        keys.unique_seq_to_set();
        assert forall|key: Seq<char>| self@.dom().contains(key) == #[trigger] keys.to_set().contains(
            key,
        ) by {
            if self@.dom().contains(key) {
                let i = position(self.entries@, key);
                assert(keys[i] == key);
            }
            if keys.to_set().contains(key) {
                let i = keys.index_of(key);
                lemma_entry(self.entries@, i);
            }
        }
        assert(self@.dom() =~= keys.to_set());
    }

    /// The empty map.
    pub fn new() -> (registry: Self)
        ensures
            registry.well_formed(),
            registry@ == Map::<Seq<char>, T>::empty(),
            registry.spec_len() == 0,
    {
        let registry = Registry { entries: Vec::new() };
        assert(registry@ =~= Map::<Seq<char>, T>::empty());
        registry
    }

    /// How many keys the map has.
    pub fn len(&self) -> (count: usize)
        ensures
            count == self.spec_len(),
    {
        self.entries.len()
    }

    /// The entry at the given position.
    pub fn entry_at(&self, index: usize) -> (entry: (&String, &T))
        requires
            self.well_formed(),
            index < self.spec_len(),
        ensures
            entry.0@ == self.key_at(index as int),
            self@.dom().contains(entry.0@),
            *entry.1 == self@[entry.0@],
    {
        proof {
            lemma_entry(self.entries@, index as int);
        }
        (&self.entries[index].0, &self.entries[index].1)
    }

    fn find(&self, key: &str) -> (found: Option<usize>)
        requires
            self.well_formed(),
        ensures
            match found {
                Some(i) => i < self.entries@.len() && self.entries@[i as int].0@ == key@
                    && self@.dom().contains(key@) && self@[key@] == self.entries@[i as int].1,
                None => !self@.dom().contains(key@),
            },
    {
        let mut i: usize = 0;
        while i < self.entries.len()
            invariant
                i <= self.entries@.len(),
                self.well_formed(),
                forall|j: int| 0 <= j < i ==> (#[trigger] self.entries@[j]).0@ != key@,
            decreases self.entries.len() - i,
        {
            if text::same(self.entries[i].0.as_str(), key) {
                proof {
                    lemma_entry(self.entries@, i as int);
                }
                return Some(i);
            }
            i = i + 1;
        }
        None
    }

    /// The value of a key.
    pub fn get(&self, key: &str) -> (value: Option<&T>)
        requires
            self.well_formed(),
        ensures
            match value {
                Some(held) => self@.dom().contains(key@) && *held == self@[key@],
                None => !self@.dom().contains(key@),
            },
    {
        match self.find(key) {
            Some(i) => Some(&self.entries[i].1),
            None => None,
        }
    }

    /// Takes a key and its value out of the map.
    pub fn remove(&mut self, key: &str) -> (value: Option<T>)
        requires
            old(self).well_formed(),
        ensures
            final(self).well_formed(),
            final(self)@ == old(self)@.remove(key@),
            final(self).spec_len() <= old(self).spec_len(),
            old(self)@.dom().contains(key@) ==> final(self).spec_len() + 1 == old(self).spec_len(),
            match value {
                Some(held) => old(self)@.dom().contains(key@) && held == old(self)@[key@],
                None => !old(self)@.dom().contains(key@),
            },
    {
        match self.find(key) {
            Some(i) => {
                let ghost before = self.entries@;
                let (_, value) = self.entries.remove(i);
                proof {
                    lemma_without(before, i as int);
                    assert(self.entries@ =~= before.remove(i as int));
                    assert(self@ =~= old(self)@.remove(key@));
                }
                Some(value)
            },
            None => {
                assert(self@ =~= old(self)@.remove(key@));
                None
            },
        }
    }

    /// Gives a key a value, in place of the one that it had.
    pub fn insert(&mut self, key: String, value: T)
        requires
            old(self).well_formed(),
        ensures
            final(self).well_formed(),
            final(self)@ == old(self)@.insert(key@, value),
            final(self).spec_len() <= old(self).spec_len() + 1,
    {
        let ghost text = key@;
        let _ = self.remove(key.as_str());
        let ghost before = self.entries@;
        let ghost without = self@;
        self.entries.push((key, value));
        proof {
            let after = self.entries@;
            let n = before.len() as int;
            assert(after[n].0@ == text);
            assert forall|i: int, j: int| 0 <= i < j < after.len() implies (#[trigger] after[i]).0@
                != (#[trigger] after[j]).0@ by {
                assert(after[i] == before[i]);
                if j == n {
                    assert(without.dom().contains(before[i].0@)) by {
                        lemma_entry(before, i);
                    }
                } else {
                    assert(after[j] == before[j]);
                }
            }
            let goal = old(self)@.insert(text, value);
            assert(without == old(self)@.remove(text));
            assert forall|k: Seq<char>| #[trigger] self@.dom().contains(k) implies goal.dom().contains(
                k,
            ) && self@[k] == goal[k] by {
                let i = position(after, k);
                assert(after[i].0@ == k);
                lemma_entry(after, i);
                if k != text {
                    assert(i < n);
                    assert(before[i] == after[i]);
                    lemma_entry(before, i);
                    assert(without.dom().contains(k));
                    assert(without[k] == before[i].1);
                    assert(goal[k] == without[k]);
                    assert(self@[k] == after[i].1);
                } else {
                    lemma_entry(after, n);
                    assert(self@[k] == after[n].1);
                    assert(goal[k] == value);
                }
            }
            assert forall|k: Seq<char>| goal.dom().contains(k) implies #[trigger] self@.dom().contains(
                k,
            ) by {
                if k == text {
                    lemma_entry(after, n);
                } else {
                    assert(without.dom().contains(k));
                    let i = position(before, k);
                    assert(before[i].0@ == k);
                    assert(after[i] == before[i]);
                    lemma_entry(after, i);
                }
            }
            assert(self@ =~= old(self)@.insert(text, value));
        }
    }
}

proof fn lemma_without<T>(entries: Seq<(String, T)>, i: int)
    requires
        distinct_keys(entries),
        0 <= i < entries.len(),
    ensures
        distinct_keys(entries.remove(i)),
        forall|key: Seq<char>| #[trigger]
            has_key(entries.remove(i), key) <==> has_key(entries, key) && key != entries[i].0@,
        forall|key: Seq<char>| #[trigger]
            has_key(entries.remove(i), key) ==> entries.remove(i)[position(
                entries.remove(i),
                key,
            )].1 == entries[position(entries, key)].1,
{
    let rest = entries.remove(i);
    assert forall|a: int, b: int| 0 <= a < b < rest.len() implies (#[trigger] rest[a]).0@ != (
    #[trigger] rest[b]).0@ by {
        let x = if a < i { a } else { a + 1 };
        let y = if b < i { b } else { b + 1 };
        assert(rest[a] == entries[x] && rest[b] == entries[y]);
    }
    assert forall|key: Seq<char>| #[trigger]
        has_key(rest, key) <==> has_key(entries, key) && key != entries[i].0@ by {
        if has_key(rest, key) {
            let a = position(rest, key);
            assert(rest[a].0@ == key);
            let x = if a < i { a } else { a + 1 };
            assert(entries[x] == rest[a]);
        }
        if has_key(entries, key) && key != entries[i].0@ {
            let x = position(entries, key);
            assert(entries[x].0@ == key);
            let a = if x < i { x } else { x - 1 };
            assert(rest[a] == entries[x]);
        }
    }
    assert forall|key: Seq<char>| #[trigger] has_key(rest, key) implies rest[position(
        rest,
        key,
    )].1 == entries[position(entries, key)].1 by {
        let a = position(rest, key);
        assert(rest[a].0@ == key);
        let x = if a < i { a } else { a + 1 };
        assert(entries[x] == rest[a]);
        lemma_entry(entries, x);
    }
}

impl<T: Expires> Registry<T> {
    /// Drops every entry that is not valid any more at `now`.
    pub fn retain_unexpired(&mut self, now: i64)
        requires
            old(self).well_formed(),
        ensures
            final(self).well_formed(),
            final(self).spec_len() <= old(self).spec_len(),
            forall|key: Seq<char>| #[trigger]
                final(self)@.dom().contains(key) <==> old(self)@.dom().contains(key) && old(
                    self,
                )@[key].deadline() > now,
            forall|key: Seq<char>| #[trigger]
                final(self)@.dom().contains(key) ==> final(self)@[key] == old(self)@[key],
    {
        let ghost before = self.entries@;
        let mut i: usize = 0;
        proof {
            assert forall|key: Seq<char>| self@.dom().contains(key) implies #[trigger] has_key(
                before,
                key,
            ) by {}
        }
        while i < self.entries.len()
            invariant
                self.well_formed(),
                i <= self.entries@.len(),
                self.entries@.len() <= old(self).entries@.len(),
                forall|j: int| 0 <= j < i ==> (#[trigger] self.entries@[j]).1.deadline() > now,
                forall|key: Seq<char>| #[trigger]
                    self@.dom().contains(key) ==> old(self)@.dom().contains(key) && self@[key]
                        == old(self)@[key],
                forall|key: Seq<char>|
                    old(self)@.dom().contains(key) && #[trigger] old(self)@[key].deadline() > now
                        ==> self@.dom().contains(key),
            decreases self.entries.len() - i,
        {
            if self.entries[i].1.expires_at() <= now {
                let ghost start = self.entries@;
                let ghost start_map = self@;
                let _ = self.entries.remove(i);
                proof {
                    lemma_without(start, i as int);
                    lemma_entry(start, i as int);
                    assert(self.entries@ =~= start.remove(i as int));
                    assert forall|key: Seq<char>| #[trigger] self@.dom().contains(
                        key,
                    ) implies start_map.dom().contains(key) && self@[key] == start_map[key] by {
                        assert(has_key(start.remove(i as int), key));
                    }
                    assert forall|key: Seq<char>|
                        start_map.dom().contains(key) && key != start[i as int].0@ implies
                        #[trigger] self@.dom().contains(key) by {
                        assert(has_key(start.remove(i as int), key));
                    }
                    assert(start_map[start[i as int].0@] == start[i as int].1);
                }
            } else {
                i = i + 1;
            }
        }
        proof {
            assert forall|key: Seq<char>| #[trigger] self@.dom().contains(key) implies self@[key].deadline()
                > now by {
                let p = position(self.entries@, key);
                assert(self.entries@[p].0@ == key);
                assert(self.entries@[p].1.deadline() > now);
            }
        }
    }
}

} // verus!
