//! A RangeMap whose entries, kept in order of offset, answer queries over a range of offsets.
use crate::range_map::{Bound, RangeMapEntry, in_bounds, selects, splits_at, starts_entry};
use vstd::prelude::*;

verus! {

/// A RangeMap is a fixed-length vector optimized for long stretches of equal values. It is
/// partitioned into contiguous RangeMapEntries, kept in order of offset; neighboring entries may
/// hold the same value.
#[derive(Clone, Debug)]
pub struct RangeMap<T> {
    values: crate::range_map::RangeMap<T>,
}

impl<T> RangeMap<T> {
    /// The entries, in order of offset.
    pub closed spec fn entries(&self) -> Seq<RangeMapEntry<T>> {
        self.values.entries()
    }

    /// The length of the whole range.
    pub closed spec fn size(&self) -> nat {
        self.values.size()
    }

    /// The entries partition `[0, size)`.
    pub closed spec fn wf(&self) -> bool {
        self.values.wf()
    }
}

impl<T: Clone> RangeMap<T> {
    /// Creates a new RangeMap with the given size and initial value. It contains a single entry
    /// spanning the entire range.
    pub fn new(size: usize, value: T) -> (r: Self)
        requires
            size > 0,
        ensures
            r.wf(),
            r.size() == size,
            r.entries() == seq![RangeMapEntry { offset: 0, len: size, value }],
    {
        RangeMap { values: crate::range_map::RangeMap::new(size, value) }
    }

    /// Returns the length of the entire range.
    pub fn len(&self) -> (r: usize)
        requires
            self.wf(),
        ensures
            r == self.size(),
    {
        self.values.len()
    }

    /// Returns the entries, in order of offset.
    pub fn ranges(&self) -> (r: &[RangeMapEntry<T>])
        ensures
            r@ == self.entries(),
    {
        self.values.ranges()
    }

    /// Replaces the value of every entry by `f` applied to the entry.
    pub fn ranges_mut<F: Fn(&RangeMapEntry<T>) -> T>(&mut self, f: F)
        requires
            old(self).wf(),
            forall|k: int|
                0 <= k < old(self).entries().len() ==> f.requires((&old(self).entries()[k],)),
        ensures
            final(self).wf(),
            final(self).size() == old(self).size(),
            final(self).entries().len() == old(self).entries().len(),
            forall|k: int|
                0 <= k < old(self).entries().len() ==> {
                    &&& (#[trigger] final(self).entries()[k]).offset == old(self).entries()[k].offset
                    &&& final(self).entries()[k].len == old(self).entries()[k].len
                    &&& f.ensures((&old(self).entries()[k],), final(self).entries()[k].value)
                },
    {
        proof {
            assert(self.entries() == self.values.entries());
            assert(old(self).entries() == self.entries());
            assert(forall|k: int|
                0 <= k < self.values.entries().len() ==> f.requires((&self.values.entries()[k],)));
        }
        self.values.ranges_mut(f)
    }

    /// Returns the entry containing the given index.
    pub fn range_for_index(&self, index: usize) -> (r: &RangeMapEntry<T>)
        requires
            self.wf(),
            index < self.size(),
        ensures
            self.entries().contains(*r),
            r.offset <= index < r.offset + r.len,
    {
        self.values.range_for_index(index)
    }

    /// Ensures that `index - 1` and `index` are in different entries: the entry holding `index`
    /// strictly inside is cut in two there, and nothing else changes.
    pub fn split(&mut self, index: usize)
        requires
            old(self).wf(),
            index <= old(self).size(),
        ensures
            final(self).wf(),
            final(self).size() == old(self).size(),
            starts_entry(final(self).entries(), index as int) || index == final(self).size(),
            index == old(self).size() || starts_entry(old(self).entries(), index as int)
                ==> final(self).entries() == old(self).entries(),
            !(index == old(self).size() || starts_entry(old(self).entries(), index as int))
                ==> exists|k: int| splits_at(old(self).entries(), final(self).entries(), k, index as int),
    {
        let r = self.values.split(index);
        proof {
            if index < self.values.size() {
                assert(self.values.entries()[r as int].offset == index);
            }
        }
    }

    /// Returns the entries whose offsets lie within `range`, in order of offset.
    pub fn range(&self, range: (Bound, Bound)) -> (r: &[RangeMapEntry<T>])
        requires
            self.wf(),
        ensures
            selects(self.entries(), range, r@),
    {
        let r = self.values.entries_in(range);
        proof {
            assert(self.entries() == self.values.entries());
        }
        r
    }

    /// Replaces the value of every entry whose offset lies within `range` by `f` applied to the
    /// entry; the other entries stay as they are.
    pub fn range_mut<F: Fn(&RangeMapEntry<T>) -> T>(&mut self, range: (Bound, Bound), f: F)
        requires
            old(self).wf(),
            forall|k: int|
                0 <= k < old(self).entries().len() ==> f.requires((&old(self).entries()[k],)),
        ensures
            final(self).wf(),
            final(self).size() == old(self).size(),
            final(self).entries().len() == old(self).entries().len(),
            forall|k: int|
                0 <= k < old(self).entries().len() ==> {
                    &&& (#[trigger] final(self).entries()[k]).offset == old(self).entries()[k].offset
                    &&& final(self).entries()[k].len == old(self).entries()[k].len
                    &&& in_bounds(range, old(self).entries()[k].offset as int) ==> f.ensures(
                        (&old(self).entries()[k],),
                        final(self).entries()[k].value,
                    )
                    &&& !in_bounds(range, old(self).entries()[k].offset as int)
                        ==> final(self).entries()[k] == old(self).entries()[k]
                },
    {
        proof {
            assert(self.entries() == self.values.entries());
            assert(old(self).entries() == self.entries());
            assert(forall|k: int|
                0 <= k < self.values.entries().len() ==> f.requires((&self.values.entries()[k],)));
        }
        self.values.update_in(range, f)
    }
}

} // verus!
