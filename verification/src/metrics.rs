//! Glyph metrics and the cache that memoizes them.
//!
//! Lengths are integers in units of 1/64 pixel, so that layout is exact.

use crate::style::{Style, Weight};
use crate::text::same_text;
use vstd::prelude::*;

verus! {

/// The measured extent of a piece of text, in 1/64 pixel.
#[derive(Clone, Copy, Debug, PartialEq, Eq, Structural)]
pub struct Dimensions {
    pub width: u32,
    pub height: u32,
}

/// What a measurement is asked of: the text and the style it is set in.
#[derive(Debug)]
pub struct MeasureKey {
    pub style: Style,
    pub weight: Weight,
    pub text: String,
    pub font_size: u16,
}

/// The mathematical value of a [`MeasureKey`].
pub ghost struct MeasureKeyView {
    pub style: Style,
    pub weight: Weight,
    pub text: Seq<char>,
    pub font_size: u16,
}

impl View for MeasureKey {
    type V = MeasureKeyView;

    open spec fn view(&self) -> MeasureKeyView {
        MeasureKeyView {
            style: self.style,
            weight: self.weight,
            text: self.text@,
            font_size: self.font_size,
        }
    }
}

impl Clone for MeasureKey {
    fn clone(&self) -> (k: Self)
        ensures
            k@ == self@,
    {
        MeasureKey {
            style: self.style,
            weight: self.weight,
            text: self.text.clone(),
            font_size: self.font_size,
        }
    }
}

impl MeasureKey {
    /// The key for `text` set in the given style and size.
    pub fn new(style: Style, weight: Weight, text: &str, font_size: u16) -> (k: Self)
        ensures
            k@ == (MeasureKeyView { style, weight, text: text@, font_size }),
    {
        MeasureKey { style, weight, text: text.to_owned(), font_size }
    }

    /// Whether two keys ask for the same measurement.
    pub fn same(&self, other: &MeasureKey) -> (r: bool)
        ensures
            r == (self@ == other@),
    {
        self.font_size == other.font_size && self.style == other.style && self.weight
            == other.weight && same_text(self.text.as_str(), other.text.as_str())
    }
}

/// The map that a run of cache entries stands for. Where a key occurs more
/// than once, its first entry counts.
pub open spec fn entries_map(entries: Seq<(MeasureKey, Dimensions)>) -> Map<
    MeasureKeyView,
    Dimensions,
>
    decreases entries.len(),
{
    if entries.len() == 0 {
        Map::empty()
    } else {
        let front = entries_map(entries.drop_last());
        if front.dom().contains(entries.last().0@) {
            front
        } else {
            front.insert(entries.last().0@, entries.last().1)
        }
    }
}

/// Memoized measurements. Entries are only ever added: a key, once measured,
/// keeps its dimensions for the life of the cache.
pub struct MeasureCache {
    entries: Vec<(MeasureKey, Dimensions)>,
}

impl View for MeasureCache {
    type V = Map<MeasureKeyView, Dimensions>;

    closed spec fn view(&self) -> Map<MeasureKeyView, Dimensions> {
        entries_map(self.entries@)
    }
}

/// A key that no entry has is not in the map.
proof fn lemma_entries_map_miss(entries: Seq<(MeasureKey, Dimensions)>, k: MeasureKeyView)
    requires
        forall|j: int| 0 <= j < entries.len() ==> entries[j].0@ != k,
    ensures
        !entries_map(entries).dom().contains(k),
    decreases entries.len(),
{
    if entries.len() > 0 {
        let front = entries.drop_last();
        assert forall|j: int| 0 <= j < front.len() implies front[j].0@ != k by {
            assert(front[j] == entries[j]);
        }
        lemma_entries_map_miss(front, k);
    }
}

/// A key is bound to what its first entry holds.
proof fn lemma_entries_map_hit(entries: Seq<(MeasureKey, Dimensions)>, k: MeasureKeyView, i: int)
    requires
        0 <= i < entries.len(),
        entries[i].0@ == k,
        forall|j: int| 0 <= j < i ==> entries[j].0@ != k,
    ensures
        entries_map(entries).dom().contains(k),
        entries_map(entries)[k] == entries[i].1,
    decreases entries.len(),
{
    let front = entries.drop_last();
    if i == entries.len() - 1 {
        assert forall|j: int| 0 <= j < front.len() implies front[j].0@ != k by {
            assert(front[j] == entries[j]);
        }
        lemma_entries_map_miss(front, k);
    } else {
        assert(front[i] == entries[i]);
        assert forall|j: int| 0 <= j < i implies front[j].0@ != k by {
            assert(front[j] == entries[j]);
        }
        lemma_entries_map_hit(front, k, i);
    }
}

impl MeasureCache {
    /// A cache without measurements.
    pub fn new() -> (cache: Self)
        ensures
            cache@ == Map::<MeasureKeyView, Dimensions>::empty(),
    {
        MeasureCache { entries: Vec::new() }
    }

    /// The memoized dimensions of `key`, if it was measured before.
    pub fn get(&self, key: &MeasureKey) -> (r: Option<Dimensions>)
        ensures
            r == (if self@.dom().contains(key@) {
                Some(self@[key@])
            } else {
                None
            }),
    {
        let mut i: usize = 0;
        while i < self.entries.len()
            invariant
                i <= self.entries.len(),
                forall|j: int| 0 <= j < i ==> self.entries@[j].0@ != key@,
            decreases self.entries.len() - i,
        {
            if self.entries[i].0.same(key) {
                proof {
                    lemma_entries_map_hit(self.entries@, key@, i as int);
                }
                return Some(self.entries[i].1);
            }
            i += 1;
        }
        proof {
            lemma_entries_map_miss(self.entries@, key@);
        }
        None
    }

    /// Memoizes `dimensions` for `key` and returns what the cache now holds
    /// for it. Nothing is evicted or overwritten: an earlier measurement of
    /// the same key stays.
    pub fn insert(&mut self, key: MeasureKey, dimensions: Dimensions) -> (r: Dimensions)
        ensures
            final(self)@ == (if old(self)@.dom().contains(key@) {
                old(self)@
            } else {
                old(self)@.insert(key@, dimensions)
            }),
            r == final(self)@[key@],
    {
        match self.get(&key) {
            Some(kept) => kept,
            None => {
                let ghost before = self.entries@;
                self.entries.push((key, dimensions));
                assert(self.entries@.drop_last() =~= before);
                dimensions
            },
        }
    }
}

} // verus!
