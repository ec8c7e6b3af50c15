//! A map keyed by text.

use vstd::prelude::*;

use crate::text::same_text;

verus! {

/// Whether a list of entries has an entry for `key`.
pub open spec fn has_key<V>(entries: Seq<(String, V)>, key: Seq<char>) -> bool {
    exists|i: int| 0 <= i < entries.len() && (#[trigger] entries[i]).0@ == key
}

/// Where the entry for `key` is.
pub open spec fn place_of<V>(entries: Seq<(String, V)>, key: Seq<char>) -> int {
    choose|i: int| 0 <= i < entries.len() && (#[trigger] entries[i]).0@ == key
}

/// Whether no key occurs twice.
pub open spec fn keys_distinct<V>(entries: Seq<(String, V)>) -> bool {
    forall|i: int, j: int|
        0 <= i < entries.len() && 0 <= j < entries.len() && (#[trigger] entries[i]).0@ == (
        #[trigger] entries[j]).0@ ==> i == j
}

/// The map that a list of entries stands for.
pub open spec fn as_map<V>(entries: Seq<(String, V)>) -> Map<Seq<char>, V> {
    Map::new(|key: Seq<char>| has_key(entries, key), |key: Seq<char>| entries[place_of(entries, key)].1)
}

/// A map from text to values.
#[derive(Debug)]
pub struct StringMap<V> {
    entries: Vec<(String, V)>,
}

impl<V> View for StringMap<V> {
    type V = Map<Seq<char>, V>;

    closed spec fn view(&self) -> Map<Seq<char>, V> {
        as_map(self.entries@)
    }
}

proof fn lemma_entry<V>(entries: Seq<(String, V)>, i: int)
    requires
        keys_distinct(entries),
        0 <= i < entries.len(),
    ensures
        as_map(entries).contains_key(entries[i].0@),
        as_map(entries)[entries[i].0@] == entries[i].1,
{
    let key = entries[i].0@;
    assert(has_key(entries, key));
    let p = place_of(entries, key);
    assert(0 <= p < entries.len() && entries[p].0@ == key);
    assert(p == i);
}

impl<V> StringMap<V> {
    /// No key occurs twice.
    pub closed spec fn wf(&self) -> bool {
        keys_distinct(self.entries@)
    }

    /// A map without entries.
    pub fn new() -> (r: Self)
        ensures
            r.wf(),
            r@ == Map::<Seq<char>, V>::empty(),
    {
        let r = StringMap { entries: Vec::new() };
        assert(r@ =~= Map::<Seq<char>, V>::empty());
        r
    }

    /// Where the entry for a key is.
    fn find(&self, key: &str) -> (r: Option<usize>)
        ensures
            match r {
                Some(i) => i < self.entries@.len() && self.entries@[i as int].0@ == key@,
                None => !has_key(self.entries@, key@),
            },
    {
        let mut i: usize = 0;
        while i < self.entries.len()
            invariant
                i <= self.entries@.len(),
                forall|j: int| 0 <= j < i ==> (#[trigger] self.entries@[j]).0@ != key@,
            decreases self.entries@.len() - i,
        {
            if same_text(self.entries[i].0.as_str(), key) {
                return Some(i);
            }
            i = i + 1;
        }
        None
    }

    /// Whether the map has an entry for a key.
    pub fn contains_key(&self, key: &str) -> (r: bool)
        requires
            self.wf(),
        ensures
            r == self@.contains_key(key@),
    {
        match self.find(key) {
            Some(i) => {
                proof {
                    lemma_entry(self.entries@, i as int);
                }
                true
            },
            None => false,
        }
    }

    /// The value under a key.
    pub fn get(&self, key: &str) -> (r: Option<&V>)
        requires
            self.wf(),
        ensures
            match r {
                Some(v) => self@.contains_key(key@) && *v == self@[key@],
                None => !self@.contains_key(key@),
            },
    {
        match self.find(key) {
            Some(i) => {
                proof {
                    lemma_entry(self.entries@, i as int);
                }
                Some(&self.entries[i].1)
            },
            None => None,
        }
    }

    /// Takes the entry of a key out and hands back its value.
    pub fn remove(&mut self, key: &str) -> (r: Option<V>)
        requires
            old(self).wf(),
        ensures
            final(self).wf(),
            final(self)@ == old(self)@.remove(key@),
            match r {
                Some(v) => old(self)@.contains_key(key@) && v == old(self)@[key@],
                None => !old(self)@.contains_key(key@),
            },
    {
        match self.find(key) {
            Some(i) => {
                let ghost before = self.entries@;
                let (_, v) = self.entries.remove(i);
                proof {
                    lemma_entry(before, i as int);
                    lemma_removed(before, i as int);
                }
                Some(v)
            },
            None => {
                assert(self@ =~= self@.remove(key@));
                None
            },
        }
    }

    /// Sets the value under a key and hands back the one that was there.
    pub fn insert(&mut self, key: String, value: V) -> (r: Option<V>)
        requires
            old(self).wf(),
        ensures
            final(self).wf(),
            final(self)@ == old(self)@.insert(key@, value),
            match r {
                Some(v) => old(self)@.contains_key(key@) && v == old(self)@[key@],
                None => !old(self)@.contains_key(key@),
            },
    {
        match self.find(key.as_str()) {
            Some(i) => {
                let ghost before = self.entries@;
                let (k, v) = self.entries.remove(i);
                self.entries.insert(i, (k, value));
                proof {
                    lemma_entry(before, i as int);
                    assert(self.entries@ =~= before.update(i as int, (k, value)));
                    lemma_replaced(before, i as int, (k, value));
                }
                Some(v)
            },
            None => {
                let ghost before = self.entries@;
                self.entries.push((key, value));
                proof {
                    lemma_pushed(before, (key, value));
                }
                None
            },
        }
    }

    /// The entries, one for each key.
    pub fn entries(&self) -> (r: &Vec<(String, V)>)
        requires
            self.wf(),
        ensures
            keys_distinct(r@),
            as_map(r@) == self@,
    {
        &self.entries
    }

    /// How many entries there are.
    pub fn len(&self) -> (r: usize)
        requires
            self.wf(),
        ensures
            r == self@.dom().len(),
            self@.dom().finite(),
    {
        proof {
            lemma_size(self.entries@);
        }
        self.entries.len()
    }
}

proof fn lemma_removed<V>(entries: Seq<(String, V)>, i: int)
    requires
        keys_distinct(entries),
        0 <= i < entries.len(),
    ensures
        keys_distinct(entries.remove(i)),
        as_map(entries.remove(i)) == as_map(entries).remove(entries[i].0@),
{
    let after = entries.remove(i);
    assert forall|a: int, b: int|
        0 <= a < after.len() && 0 <= b < after.len() && (#[trigger] after[a]).0@ == (
        #[trigger] after[b]).0@ implies a == b by {
        let oa = if a < i { a } else { a + 1 };
        let ob = if b < i { b } else { b + 1 };
        assert(entries[oa].0@ == entries[ob].0@);
    }
    let m = as_map(entries).remove(entries[i].0@);
    assert forall|key: Seq<char>| as_map(after).contains_key(key) == m.contains_key(key) by {
        if has_key(after, key) {
            let p = place_of(after, key);
            let o = if p < i { p } else { p + 1 };
            assert(entries[o].0@ == key);
            assert(has_key(entries, key));
        }
        if has_key(entries, key) && key != entries[i].0@ {
            let p = place_of(entries, key);
            let n = if p < i { p } else { p - 1 };
            assert(after[n].0@ == key);
        }
    }
    assert forall|key: Seq<char>| m.contains_key(key) implies as_map(after)[key] == m[key] by {
        assert(has_key(after, key));
        let p = place_of(after, key);
        let o = if p < i { p } else { p + 1 };
        assert(entries[o] == after[p]);
        lemma_entry(entries, o);
    }
    assert(as_map(after) =~= m);
}

proof fn lemma_replaced<V>(entries: Seq<(String, V)>, i: int, entry: (String, V))
    requires
        keys_distinct(entries),
        0 <= i < entries.len(),
        entry.0@ == entries[i].0@,
    ensures
        keys_distinct(entries.update(i, entry)),
        as_map(entries.update(i, entry)) == as_map(entries).insert(entry.0@, entry.1),
{
    let after = entries.update(i, entry);
    assert forall|a: int, b: int|
        0 <= a < after.len() && 0 <= b < after.len() && (#[trigger] after[a]).0@ == (
        #[trigger] after[b]).0@ implies a == b by {
        assert(entries[a].0@ == entries[b].0@);
    }
    let m = as_map(entries).insert(entry.0@, entry.1);
    assert forall|key: Seq<char>| as_map(after).contains_key(key) == m.contains_key(key) by {
        if has_key(after, key) {
            let p = place_of(after, key);
            assert(entries[p].0@ == key);
        }
        if has_key(entries, key) {
            let p = place_of(entries, key);
            assert(after[p].0@ == key);
        }
        if key == entry.0@ {
            assert(after[i].0@ == key);
        }
    }
    assert forall|key: Seq<char>| m.contains_key(key) implies as_map(after)[key] == m[key] by {
        assert(has_key(after, key));
        let p = place_of(after, key);
        lemma_entry(after, p);
        if p == i {
        } else {
            assert(entries[p].0@ == key);
            lemma_entry(entries, p);
            if key == entry.0@ {
                assert(entries[i].0@ == key);
            }
        }
    }
    assert(as_map(after) =~= m);
}

proof fn lemma_pushed<V>(entries: Seq<(String, V)>, entry: (String, V))
    requires
        keys_distinct(entries),
        !has_key(entries, entry.0@),
    ensures
        keys_distinct(entries.push(entry)),
        as_map(entries.push(entry)) == as_map(entries).insert(entry.0@, entry.1),
{
    let after = entries.push(entry);
    let n = entries.len() as int;
    assert forall|a: int, b: int|
        0 <= a < after.len() && 0 <= b < after.len() && (#[trigger] after[a]).0@ == (
        #[trigger] after[b]).0@ implies a == b by {
        if a < n && b < n {
            assert(entries[a].0@ == entries[b].0@);
        } else if a < n {
            assert(entries[a].0@ == entry.0@);
        } else if b < n {
            assert(entries[b].0@ == entry.0@);
        }
    }
    let m = as_map(entries).insert(entry.0@, entry.1);
    assert(after[n].0@ == entry.0@);
    assert forall|key: Seq<char>| as_map(after).contains_key(key) == m.contains_key(key) by {
        if has_key(after, key) {
            let p = place_of(after, key);
            if p < n {
                assert(entries[p].0@ == key);
            }
        }
        if has_key(entries, key) {
            let p = place_of(entries, key);
            assert(after[p].0@ == key);
        }
    }
    assert forall|key: Seq<char>| m.contains_key(key) implies as_map(after)[key] == m[key] by {
        assert(has_key(after, key));
        let p = place_of(after, key);
        lemma_entry(after, p);
        if p < n {
            assert(entries[p].0@ == key);
            lemma_entry(entries, p);
        }
    }
    assert(as_map(after) =~= m);
}

proof fn lemma_size<V>(entries: Seq<(String, V)>)
    requires
        keys_distinct(entries),
    ensures
        as_map(entries).dom().finite(),
        as_map(entries).dom().len() == entries.len(),
    decreases entries.len(),
{
    if entries.len() == 0 {
        assert(as_map(entries).dom() =~= Set::<Seq<char>>::empty());
    } else {
        let rest = entries.drop_last();
        let last = entries.last();
        assert forall|a: int, b: int|
            0 <= a < rest.len() && 0 <= b < rest.len() && (#[trigger] rest[a]).0@ == (
            #[trigger] rest[b]).0@ implies a == b by {
            assert(entries[a].0@ == entries[b].0@);
        }
        if has_key(rest, last.0@) {
            let p = place_of(rest, last.0@);
            assert(entries[p].0@ == entries[entries.len() - 1].0@);
        }
        lemma_size(rest);
        lemma_pushed(rest, last);
        assert(rest.push(last) =~= entries);
        assert(as_map(entries).dom() =~= as_map(rest).dom().insert(last.0@));
    }
}

/// The entries of a map are its keys with their values: each entry's value stands
/// under its key, every key has an entry, and no key has two.
pub proof fn law_entries<V>(entries: Seq<(String, V)>, i: int, key: Seq<char>)
    requires
        keys_distinct(entries),
        0 <= i < entries.len(),
    ensures
        as_map(entries).contains_key(entries[i].0@),
        as_map(entries)[entries[i].0@] == entries[i].1,
        as_map(entries).contains_key(key) ==> exists|j: int|
            0 <= j < entries.len() && (#[trigger] entries[j]).0@ == key,
        forall|j: int, k: int|
            0 <= j < entries.len() && 0 <= k < entries.len() && (#[trigger] entries[j]).0@ == (
            #[trigger] entries[k]).0@ ==> j == k,
{
    lemma_entry(entries, i);
}

} // verus!
