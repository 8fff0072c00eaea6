//! A small map from strings to strings that remembers the order in which its
//! keys were first inserted.

use crate::text::same_text;
use vstd::prelude::*;

verus! {

/// The mathematical value of a [`StringMap`]: its entries in order.
pub type Pairs = Seq<(Seq<char>, Seq<char>)>;

/// The views of a run of stored entries.
pub open spec fn pair_views(entries: Seq<(String, String)>) -> Pairs {
    Seq::new(entries.len(), |i: int| (entries[i].0@, entries[i].1@))
}

/// No key occurs twice.
pub open spec fn distinct_keys(pairs: Pairs) -> bool {
    forall|i: int, j: int| 0 <= i < j < pairs.len() ==> pairs[i].0 != pairs[j].0
}

/// Whether some entry has the key `key`.
pub open spec fn has_key(pairs: Pairs, key: Seq<char>) -> bool {
    exists|i: int| 0 <= i < pairs.len() && pairs[i].0 == key
}

/// The position of the entry with the key `key`.
pub open spec fn position(pairs: Pairs, key: Seq<char>) -> int {
    choose|i: int| 0 <= i < pairs.len() && pairs[i].0 == key
}

/// `pairs` with `key` bound to `value`: in place where the key is present,
/// at the end where it is not.
pub open spec fn put(pairs: Pairs, key: Seq<char>, value: Seq<char>) -> Pairs {
    if has_key(pairs, key) {
        pairs.update(position(pairs, key), (key, value))
    } else {
        pairs.push((key, value))
    }
}

/// `pairs` without the entry for `key`.
pub open spec fn without(pairs: Pairs, key: Seq<char>) -> Pairs {
    if has_key(pairs, key) {
        pairs.remove(position(pairs, key))
    } else {
        pairs
    }
}

/// The finite map that `pairs` stands for.
pub open spec fn map_of(pairs: Pairs) -> Map<Seq<char>, Seq<char>>
    decreases pairs.len(),
{
    if pairs.len() == 0 {
        Map::empty()
    } else {
        map_of(pairs.drop_last()).insert(pairs.last().0, pairs.last().1)
    }
}

/// A map from strings to strings, in insertion order.
pub struct StringMap {
    entries: Vec<(String, String)>,
}

impl View for StringMap {
    type V = Pairs;

    closed spec fn view(&self) -> Pairs {
        pair_views(self.entries@)
    }
}

impl StringMap {
    #[verifier::type_invariant]
    spec fn inv(&self) -> bool {
        distinct_keys(pair_views(self.entries@))
    }

    /// The map as a function from keys to values.
    pub open spec fn as_map(&self) -> Map<Seq<char>, Seq<char>> {
        map_of(self@)
    }

    /// A map without entries.
    pub fn new() -> (m: Self)
        ensures
            m@ == Pairs::empty(),
    {
        let m = StringMap { entries: Vec::new() };
        assert(m@ =~= Pairs::empty());
        m
    }

    /// The number of entries.
    pub fn len(&self) -> (n: usize)
        ensures
            n == self@.len(),
            distinct_keys(self@),
    {
        proof {
            use_type_invariant(self);
        }
        self.entries.len()
    }

    /// Where the entry for `key` stands, if there is one.
    fn find(&self, key: &str) -> (r: Option<usize>)
        ensures
            distinct_keys(self@),
            match r {
                Some(i) => i < self@.len() && self@[i as int].0 == key@ && has_key(self@, key@)
                    && position(self@, key@) == i,
                None => !has_key(self@, key@),
            },
    {
        proof {
            use_type_invariant(self);
        }
        let mut i: usize = 0;
        while i < self.entries.len()
            invariant
                i <= self.entries.len(),
                distinct_keys(self@),
                forall|j: int| 0 <= j < i ==> self@[j].0 != key@,
            decreases self.entries.len() - i,
        {
            if same_text(self.entries[i].0.as_str(), key) {
                assert(self@[i as int].0 == key@);
                return Some(i);
            }
            i += 1;
        }
        None
    }

    /// The value bound to `key`.
    pub fn get(&self, key: &str) -> (r: Option<&String>)
        ensures
            distinct_keys(self@),
            match r {
                Some(v) => has_key(self@, key@) && v@ == self@[position(self@, key@)].1,
                None => !has_key(self@, key@),
            },
    {
        match self.find(key) {
            Some(i) => Some(&self.entries[i].1),
            None => None,
        }
    }

    /// The key and the value of the `i`-th entry.
    pub fn entry(&self, i: usize) -> (r: (&String, &String))
        requires
            i < self@.len(),
        ensures
            r.0@ == self@[i as int].0,
            r.1@ == self@[i as int].1,
    {
        (&self.entries[i].0, &self.entries[i].1)
    }

    /// Binds `key` to `value`. A key that is present keeps its place.
    pub fn insert(&mut self, key: String, value: String)
        ensures
            final(self)@ == put(old(self)@, key@, value@),
    {
        let found = self.find(key.as_str());
        let ghost before = self@;
        let mut entries: Vec<(String, String)> = Vec::new();
        core::mem::swap(&mut self.entries, &mut entries);
        match found {
            Some(i) => {
                entries.set(i, (key, value));
            },
            None => {
                entries.push((key, value));
            },
        }
        assert(pair_views(entries@) =~= put(before, key@, value@));
        self.entries = entries;
    }

    /// Removes the entry for `key`, if there is one.
    pub fn remove(&mut self, key: &str)
        ensures
            final(self)@ == without(old(self)@, key@),
    {
        let found = self.find(key);
        let ghost before = self@;
        match found {
            Some(i) => {
                let mut entries: Vec<(String, String)> = Vec::new();
                core::mem::swap(&mut self.entries, &mut entries);
                entries.remove(i);
                assert(pair_views(entries@) =~= without(before, key@));
                self.entries = entries;
            },
            None => {},
        }
    }
}

} // verus!
