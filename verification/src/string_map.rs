//! A mapping from strings to strings, used for header fields and query
//! parameters.
//!
//! The map is a vector of key/value entries whose view is the mathematical
//! `Map<Seq<char>, Seq<char>>` it denotes; a well-formed map holds at most
//! one entry per key, so insertion overwrites in place.

use vstd::prelude::*;

use crate::text::str_eq;

verus! {

/// The map an entry sequence denotes: a later entry with the same key
/// overrides an earlier one.
pub open spec fn assoc_map(entries: Seq<(String, String)>) -> Map<Seq<char>, Seq<char>>
    decreases entries.len(),
{
    if entries.len() == 0 {
        Map::empty()
    } else {
        assoc_map(entries.drop_last()).insert(entries.last().0@, entries.last().1@)
    }
}

/// Whether no two entries share a key.
pub open spec fn unique_keys(entries: Seq<(String, String)>) -> bool {
    forall|i: int, j: int|
        0 <= i < j < entries.len() ==> entries[i].0@ != entries[j].0@
}

/// Every key in the denoted map comes from an entry, and every entry's key
/// is in the denoted map.
proof fn lemma_assoc_dom(entries: Seq<(String, String)>)
    ensures
        forall|k: Seq<char>|
            assoc_map(entries).dom().contains(k) ==> exists|i: int|
                0 <= i < entries.len() && entries[i].0@ == k,
        forall|i: int|
            0 <= i < entries.len() ==> assoc_map(entries).dom().contains(#[trigger] entries[i].0@),
    decreases entries.len(),
{
    if entries.len() > 0 {
        lemma_assoc_dom(entries.drop_last());
        assert forall|i: int| 0 <= i < entries.len() implies assoc_map(entries).dom().contains(
            #[trigger] entries[i].0@,
        ) by {
            if i < entries.len() - 1 {
                assert(entries.drop_last()[i] == entries[i]);
            }
        }
        assert forall|k: Seq<char>| assoc_map(entries).dom().contains(k) implies exists|i: int|
            0 <= i < entries.len() && entries[i].0@ == k by {
            if k != entries.last().0@ {
                assert(assoc_map(entries.drop_last()).dom().contains(k));
                let i = choose|i: int|
                    0 <= i < entries.drop_last().len() && entries.drop_last()[i].0@ == k;
                assert(entries.drop_last()[i] == entries[i]);
                assert(entries[i].0@ == k);
            } else {
                assert(entries[entries.len() - 1].0@ == k);
            }
        }
    }
}

/// With unique keys, each entry is a pair of the denoted map.
proof fn lemma_assoc_value(entries: Seq<(String, String)>, i: int)
    requires
        unique_keys(entries),
        0 <= i < entries.len(),
    ensures
        assoc_map(entries).dom().contains(entries[i].0@),
        assoc_map(entries)[entries[i].0@] == entries[i].1@,
    decreases entries.len(),
{
    if i == entries.len() - 1 {
        lemma_assoc_dom(entries);
    } else {
        assert(unique_keys(entries.drop_last()));
        assert(entries.drop_last()[i] == entries[i]);
        lemma_assoc_value(entries.drop_last(), i);
        assert(entries[i].0@ != entries.last().0@);
    }
}

/// With unique keys, replacing the entry that holds a key denotes the same
/// map as inserting that key.
proof fn lemma_assoc_update(entries: Seq<(String, String)>, i: int, key: String, value: String)
    requires
        unique_keys(entries),
        0 <= i < entries.len(),
        entries[i].0@ == key@,
    ensures
        assoc_map(entries.update(i, (key, value))) == assoc_map(entries).insert(key@, value@),
    decreases entries.len(),
{
    let updated = entries.update(i, (key, value));
    if i == entries.len() - 1 {
        assert(updated.drop_last() =~= entries.drop_last());
        assert(updated.last() == (key, value));
        assert(assoc_map(entries.drop_last()).insert(entries.last().0@, entries.last().1@).insert(
            key@,
            value@,
        ) =~= assoc_map(entries.drop_last()).insert(key@, value@));
    } else {
        assert(unique_keys(entries.drop_last()));
        assert(entries.drop_last()[i] == entries[i]);
        lemma_assoc_update(entries.drop_last(), i, key, value);
        assert(updated.drop_last() =~= entries.drop_last().update(i, (key, value)));
        assert(updated.last() == entries.last());
        assert(entries.last().0@ != key@);
        assert(assoc_map(entries.drop_last()).insert(key@, value@).insert(
            entries.last().0@,
            entries.last().1@,
        ) =~= assoc_map(entries.drop_last()).insert(entries.last().0@, entries.last().1@).insert(
            key@,
            value@,
        ));
    }
}

/// With unique keys, the denoted map has exactly one key per entry.
proof fn lemma_assoc_len(entries: Seq<(String, String)>)
    requires
        unique_keys(entries),
    ensures
        assoc_map(entries).dom().finite(),
        assoc_map(entries).dom().len() == entries.len(),
    decreases entries.len(),
{
    if entries.len() > 0 {
        assert(unique_keys(entries.drop_last()));
        lemma_assoc_len(entries.drop_last());
        lemma_assoc_dom(entries.drop_last());
        assert(!assoc_map(entries.drop_last()).dom().contains(entries.last().0@));
    }
}

/// A mapping from strings to strings. Insertion overwrites the value held
/// for a key that is already present; lookup finds the value inserted last.
#[derive(Debug, PartialEq)]
pub struct StringMap {
    entries: Vec<(String, String)>,
}

impl View for StringMap {
    type V = Map<Seq<char>, Seq<char>>;

    closed spec fn view(&self) -> Map<Seq<char>, Seq<char>> {
        assoc_map(self.entries@)
    }
}

impl StringMap {
    /// Each key appears in at most one entry.
    pub closed spec fn wf(&self) -> bool {
        unique_keys(self.entries@)
    }

    /// An empty map.
    pub fn new() -> (r: StringMap)
        ensures
            r@ == Map::<Seq<char>, Seq<char>>::empty(),
            r.wf(),
    {
        StringMap { entries: Vec::new() }
    }

    /// Binds `key` to `value`, overwriting any value `key` was bound to.
    pub fn insert(&mut self, key: String, value: String)
        requires
            old(self).wf(),
        ensures
            final(self).wf(),
            final(self)@ == old(self)@.insert(key@, value@),
    {
        let n = self.entries.len();
        let mut i: usize = 0;
        while i < n
            invariant
                *self == *old(self),
                self.wf(),
                n == self.entries@.len(),
                0 <= i <= n,
                forall|k: int| 0 <= k < i ==> self.entries@[k].0@ != key@,
            decreases n - i,
        {
            if str_eq(self.entries[i].0.as_str(), key.as_str()) {
                proof {
                    lemma_assoc_update(self.entries@, i as int, key, value);
                }
                self.entries.set(i, (key, value));
                proof {
                    assert forall|a: int, b: int|
                        0 <= a < b < self.entries@.len() implies self.entries@[a].0@
                        != self.entries@[b].0@ by {
                        assert(old(self).entries@[a].0@ != old(self).entries@[b].0@);
                    }
                }
                return ;
            }
            i = i + 1;
        }
        self.entries.push((key, value));
        proof {
            assert(self.entries@.drop_last() =~= old(self).entries@);
            assert forall|a: int, b: int|
                0 <= a < b < self.entries@.len() implies self.entries@[a].0@
                != self.entries@[b].0@ by {
                if b < self.entries@.len() - 1 {
                    assert(old(self).entries@[a].0@ != old(self).entries@[b].0@);
                }
            }
        }
    }

    /// The value bound to `key`, if any.
    pub fn get(&self, key: &str) -> (r: Option<&String>)
        requires
            self.wf(),
        ensures
            match r {
                Some(v) => self@.dom().contains(key@) && v@ == self@[key@],
                None => !self@.dom().contains(key@),
            },
    {
        let n = self.entries.len();
        let mut i: usize = 0;
        while i < n
            invariant
                self.wf(),
                n == self.entries@.len(),
                0 <= i <= n,
                forall|k: int| 0 <= k < i ==> self.entries@[k].0@ != key@,
            decreases n - i,
        {
            if str_eq(self.entries[i].0.as_str(), key) {
                proof {
                    lemma_assoc_value(self.entries@, i as int);
                }
                return Some(&self.entries[i].1);
            }
            i = i + 1;
        }
        proof {
            lemma_assoc_dom(self.entries@);
        }
        None
    }

    /// How many keys the map holds.
    pub fn len(&self) -> (r: usize)
        requires
            self.wf(),
        ensures
            self@.dom().finite(),
            r == self@.dom().len(),
    {
        proof {
            lemma_assoc_len(self.entries@);
        }
        self.entries.len()
    }

    /// Whether the map holds no keys.
    pub fn is_empty(&self) -> (r: bool)
        requires
            self.wf(),
        ensures
            r == (self@ == Map::<Seq<char>, Seq<char>>::empty()),
    {
        if self.entries.len() == 0 {
            true
        } else {
            proof {
                lemma_assoc_dom(self.entries@);
                assert(self@.dom().contains(self.entries@[0].0@));
            }
            false
        }
    }
}

} // verus!
