//! A RangeMap that keeps few entries in a small map and moves them to a larger one as they grow.
use crate::range_map::{Bound, RangeMapEntry, in_bounds, selects, splits_at, starts_entry};
use vstd::prelude::*;

verus! {

/// A RangeMap for few entries: a vector of RangeMapEntries in order of offset, searched by
/// bisection.
#[derive(Clone, Debug)]
pub struct LittleRangeMap<T> {
    values: crate::range_map::RangeMap<T>,
}

impl<T> LittleRangeMap<T> {
    /// The entries, in order of offset.
    pub closed spec fn entries(&self) -> Seq<RangeMapEntry<T>> {
        self.values.entries()
    }

    /// The length of the whole range.
    pub closed spec fn size(&self) -> nat {
        self.values.size()
    }

    /// The entries partition `[0, size)`.
    pub closed spec fn wf(&self) -> bool {
        self.values.wf()
    }
}

impl<T: Clone> LittleRangeMap<T> {
    /// Creates a new RangeMap with the given size and initial value. It contains a single entry
    /// spanning the entire range.
    pub fn new(size: usize, value: T) -> (r: Self)
        requires
            size > 0,
        ensures
            r.wf(),
            r.size() == size,
            r.entries() == seq![RangeMapEntry { offset: 0, len: size, value }],
    {
        LittleRangeMap { values: crate::range_map::RangeMap::new(size, value) }
    }

    /// Returns the length of the entire range.
    pub fn len(&self) -> (r: usize)
        requires
            self.wf(),
        ensures
            r == self.size(),
    {
        self.values.len()
    }

    /// Returns the entries, in order of offset.
    pub fn ranges(&self) -> (r: &[RangeMapEntry<T>])
        ensures
            r@ == self.entries(),
    {
        self.values.ranges()
    }

    /// Replaces the value of every entry by `f` applied to the entry.
    pub fn ranges_mut<F: Fn(&RangeMapEntry<T>) -> T>(&mut self, f: F)
        requires
            old(self).wf(),
            forall|k: int|
                0 <= k < old(self).entries().len() ==> f.requires((&old(self).entries()[k],)),
        ensures
            final(self).wf(),
            final(self).size() == old(self).size(),
            final(self).entries().len() == old(self).entries().len(),
            forall|k: int|
                0 <= k < old(self).entries().len() ==> {
                    &&& (#[trigger] final(self).entries()[k]).offset == old(self).entries()[k].offset
                    &&& final(self).entries()[k].len == old(self).entries()[k].len
                    &&& f.ensures((&old(self).entries()[k],), final(self).entries()[k].value)
                },
    {
        proof {
            assert(self.entries() == self.values.entries());
            assert(old(self).entries() == self.entries());
            assert(forall|k: int|
                0 <= k < self.values.entries().len() ==> f.requires((&self.values.entries()[k],)));
        }
        self.values.ranges_mut(f)
    }

    /// Returns the entry containing the given index.
    pub fn range_for_index(&self, index: usize) -> (r: &RangeMapEntry<T>)
        requires
            self.wf(),
            index < self.size(),
        ensures
            self.entries().contains(*r),
            r.offset <= index < r.offset + r.len,
    {
        self.values.range_for_index(index)
    }

    /// Ensures that `index - 1` and `index` are in different entries: the entry holding `index`
    /// strictly inside is cut in two there, and nothing else changes.
    pub fn split(&mut self, index: usize)
        requires
            old(self).wf(),
            index <= old(self).size(),
        ensures
            final(self).wf(),
            final(self).size() == old(self).size(),
            starts_entry(final(self).entries(), index as int) || index == final(self).size(),
            index == old(self).size() || starts_entry(old(self).entries(), index as int)
                ==> final(self).entries() == old(self).entries(),
            !(index == old(self).size() || starts_entry(old(self).entries(), index as int))
                ==> exists|k: int| splits_at(old(self).entries(), final(self).entries(), k, index as int),
    {
        let r = self.values.split(index);
        proof {
            if index < self.values.size() {
                assert(self.values.entries()[r as int].offset == index);
            }
        }
    }

    /// Returns the entries whose offsets lie within `range`, in order of offset.
    pub fn range(&self, range: (Bound, Bound)) -> (r: &[RangeMapEntry<T>])
        requires
            self.wf(),
        ensures
            selects(self.entries(), range, r@),
    {
        let r = self.values.entries_in(range);
        proof {
            assert(self.entries() == self.values.entries());
        }
        r
    }

    /// Replaces the value of every entry whose offset lies within `range` by `f` applied to the
    /// entry; the other entries stay as they are.
    pub fn range_mut<F: Fn(&RangeMapEntry<T>) -> T>(&mut self, range: (Bound, Bound), f: F)
        requires
            old(self).wf(),
            forall|k: int|
                0 <= k < old(self).entries().len() ==> f.requires((&old(self).entries()[k],)),
        ensures
            final(self).wf(),
            final(self).size() == old(self).size(),
            final(self).entries().len() == old(self).entries().len(),
            forall|k: int|
                0 <= k < old(self).entries().len() ==> {
                    &&& (#[trigger] final(self).entries()[k]).offset == old(self).entries()[k].offset
                    &&& final(self).entries()[k].len == old(self).entries()[k].len
                    &&& in_bounds(range, old(self).entries()[k].offset as int) ==> f.ensures(
                        (&old(self).entries()[k],),
                        final(self).entries()[k].value,
                    )
                    &&& !in_bounds(range, old(self).entries()[k].offset as int)
                        ==> final(self).entries()[k] == old(self).entries()[k]
                },
    {
        proof {
            assert(self.entries() == self.values.entries());
            assert(old(self).entries() == self.entries());
            assert(forall|k: int|
                0 <= k < self.values.entries().len() ==> f.requires((&self.values.entries()[k],)));
        }
        self.values.update_in(range, f)
    }
}

/// A RangeMap for many entries, which a RangeMap switches to once it has grown past its
/// threshold: a vector of RangeMapEntries in order of offset, searched by bisection.
#[derive(Clone, Debug)]
pub struct BigRangeMap<T> {
    values: crate::range_map::RangeMap<T>,
}

impl<T> BigRangeMap<T> {
    /// The entries, in order of offset.
    pub closed spec fn entries(&self) -> Seq<RangeMapEntry<T>> {
        self.values.entries()
    }

    /// The length of the whole range.
    pub closed spec fn size(&self) -> nat {
        self.values.size()
    }

    /// The entries partition `[0, size)`.
    pub closed spec fn wf(&self) -> bool {
        self.values.wf()
    }
}

impl<T: Clone> BigRangeMap<T> {
    /// Creates a new RangeMap with the given size and initial value. It contains a single entry
    /// spanning the entire range.
    pub fn new(size: usize, value: T) -> (r: Self)
        requires
            size > 0,
        ensures
            r.wf(),
            r.size() == size,
            r.entries() == seq![RangeMapEntry { offset: 0, len: size, value }],
    {
        BigRangeMap { values: crate::range_map::RangeMap::new(size, value) }
    }

    /// Returns the length of the entire range.
    pub fn len(&self) -> (r: usize)
        requires
            self.wf(),
        ensures
            r == self.size(),
    {
        self.values.len()
    }

    /// Returns the entries, in order of offset.
    pub fn ranges(&self) -> (r: &[RangeMapEntry<T>])
        ensures
            r@ == self.entries(),
    {
        self.values.ranges()
    }

    /// Replaces the value of every entry by `f` applied to the entry.
    pub fn ranges_mut<F: Fn(&RangeMapEntry<T>) -> T>(&mut self, f: F)
        requires
            old(self).wf(),
            forall|k: int|
                0 <= k < old(self).entries().len() ==> f.requires((&old(self).entries()[k],)),
        ensures
            final(self).wf(),
            final(self).size() == old(self).size(),
            final(self).entries().len() == old(self).entries().len(),
            forall|k: int|
                0 <= k < old(self).entries().len() ==> {
                    &&& (#[trigger] final(self).entries()[k]).offset == old(self).entries()[k].offset
                    &&& final(self).entries()[k].len == old(self).entries()[k].len
                    &&& f.ensures((&old(self).entries()[k],), final(self).entries()[k].value)
                },
    {
        proof {
            assert(self.entries() == self.values.entries());
            assert(old(self).entries() == self.entries());
            assert(forall|k: int|
                0 <= k < self.values.entries().len() ==> f.requires((&self.values.entries()[k],)));
        }
        self.values.ranges_mut(f)
    }

    /// Returns the entry containing the given index.
    pub fn range_for_index(&self, index: usize) -> (r: &RangeMapEntry<T>)
        requires
            self.wf(),
            index < self.size(),
        ensures
            self.entries().contains(*r),
            r.offset <= index < r.offset + r.len,
    {
        self.values.range_for_index(index)
    }

    /// Ensures that `index - 1` and `index` are in different entries: the entry holding `index`
    /// strictly inside is cut in two there, and nothing else changes.
    pub fn split(&mut self, index: usize)
        requires
            old(self).wf(),
            index <= old(self).size(),
        ensures
            final(self).wf(),
            final(self).size() == old(self).size(),
            starts_entry(final(self).entries(), index as int) || index == final(self).size(),
            index == old(self).size() || starts_entry(old(self).entries(), index as int)
                ==> final(self).entries() == old(self).entries(),
            !(index == old(self).size() || starts_entry(old(self).entries(), index as int))
                ==> exists|k: int| splits_at(old(self).entries(), final(self).entries(), k, index as int),
    {
        let r = self.values.split(index);
        proof {
            if index < self.values.size() {
                assert(self.values.entries()[r as int].offset == index);
            }
        }
    }

    /// Returns the entries whose offsets lie within `range`, in order of offset.
    pub fn range(&self, range: (Bound, Bound)) -> (r: &[RangeMapEntry<T>])
        requires
            self.wf(),
        ensures
            selects(self.entries(), range, r@),
    {
        let r = self.values.entries_in(range);
        proof {
            assert(self.entries() == self.values.entries());
            let (lo, hi) = choose|lo: int, hi: int|
                #![trigger self.values.entries().subrange(lo, hi)]
                0 <= lo <= hi <= self.values.entries().len() && r@ == self.values.entries().subrange(lo, hi)
                    && forall|j: int|
                    0 <= j < self.values.entries().len() ==> (in_bounds(
                        range,
                        #[trigger] self.values.entries()[j].offset as int,
                    ) <==> lo <= j < hi);
            assert(forall|j: int|
                0 <= j < self.entries().len() ==> (in_bounds(
                    range,
                    #[trigger] self.entries()[j].offset as int,
                ) <==> lo <= j < hi));
            assert(r@ == self.entries().subrange(lo, hi));
        }
        r
    }

    /// Replaces the value of every entry whose offset lies within `range` by `f` applied to the
    /// entry; the other entries stay as they are.
    pub fn range_mut<F: Fn(&RangeMapEntry<T>) -> T>(&mut self, range: (Bound, Bound), f: F)
        requires
            old(self).wf(),
            forall|k: int|
                0 <= k < old(self).entries().len() ==> f.requires((&old(self).entries()[k],)),
        ensures
            final(self).wf(),
            final(self).size() == old(self).size(),
            final(self).entries().len() == old(self).entries().len(),
            forall|k: int|
                0 <= k < old(self).entries().len() ==> {
                    &&& (#[trigger] final(self).entries()[k]).offset == old(self).entries()[k].offset
                    &&& final(self).entries()[k].len == old(self).entries()[k].len
                    &&& in_bounds(range, old(self).entries()[k].offset as int) ==> f.ensures(
                        (&old(self).entries()[k],),
                        final(self).entries()[k].value,
                    )
                    &&& !in_bounds(range, old(self).entries()[k].offset as int)
                        ==> final(self).entries()[k] == old(self).entries()[k]
                },
    {
        proof {
            assert(self.entries() == self.values.entries());
            assert(old(self).entries() == self.entries());
            assert(forall|k: int|
                0 <= k < self.values.entries().len() ==> f.requires((&self.values.entries()[k],)));
        }
        self.values.update_in(range, f)
    }
}


#[derive(Clone, Debug)]
enum Inner<T> {
    Little(LittleRangeMap<T>),
    Big(BigRangeMap<T>),
}

/// A RangeMap is a fixed-length vector optimized for long stretches of equal values. It is
/// partitioned into contiguous RangeMapEntries; neighboring entries may hold the same value. It
/// starts as a LittleRangeMap and becomes a BigRangeMap when a split finds it holding at least
/// `threshold` entries.
#[derive(Clone, Debug)]
pub struct RangeMap<T> {
    inner: Inner<T>,
    len: usize,
    threshold: usize,
}

impl<T> RangeMap<T> {
    /// The entries, in order of offset.
    pub closed spec fn entries(&self) -> Seq<RangeMapEntry<T>> {
        match self.inner {
            Inner::Little(m) => m.entries(),
            Inner::Big(m) => m.entries(),
        }
    }

    /// The length of the whole range.
    pub closed spec fn size(&self) -> nat {
        self.len as nat
    }

    /// The number of entries at which the map switches to a BigRangeMap.
    pub closed spec fn spec_threshold(&self) -> nat {
        self.threshold as nat
    }

    /// Whether the map has switched to a BigRangeMap.
    pub closed spec fn is_big(&self) -> bool {
        self.inner is Big
    }

    /// The inner map is consistent and has the recorded size.
    pub closed spec fn wf(&self) -> bool {
        match self.inner {
            Inner::Little(m) => m.wf() && m.size() == self.len,
            Inner::Big(m) => m.wf() && m.size() == self.len,
        }
    }
}

impl<T: Clone> RangeMap<T> {
    /// Creates a new RangeMap with the given size and initial value. It contains a single entry
    /// spanning the entire range.
    pub fn new(size: usize, value: T) -> (r: Self)
        requires
            size > 0,
        ensures
            r.wf(),
            r.size() == size,
            r.spec_threshold() == 101,
            !r.is_big(),
            r.entries() == seq![RangeMapEntry { offset: 0, len: size, value }],
    {
        RangeMap { inner: Inner::Little(LittleRangeMap::new(size, value)), len: size, threshold: 101 }
    }

    /// Creates a new RangeMap with the given size, initial value and threshold.
    pub fn new2(size: usize, value: T, threshold: usize) -> (r: Self)
        requires
            size > 0,
        ensures
            r.wf(),
            r.size() == size,
            r.spec_threshold() == threshold,
            !r.is_big(),
            r.entries() == seq![RangeMapEntry { offset: 0, len: size, value }],
    {
        RangeMap { inner: Inner::Little(LittleRangeMap::new(size, value)), len: size, threshold }
    }

    /// Returns the length of the entire range.
    pub fn len(&self) -> (r: usize)
        ensures
            r == self.size(),
    {
        self.len
    }

    /// Returns the entries, in order of offset.
    pub fn ranges(&self) -> (r: &[RangeMapEntry<T>])
        ensures
            r@ == self.entries(),
    {
        match &self.inner {
            Inner::Little(m) => m.ranges(),
            Inner::Big(m) => m.ranges(),
        }
    }

    /// Replaces the value of every entry by `f` applied to the entry.
    pub fn ranges_mut<F: Fn(&RangeMapEntry<T>) -> T>(&mut self, f: F)
        requires
            old(self).wf(),
            forall|k: int|
                0 <= k < old(self).entries().len() ==> f.requires((&old(self).entries()[k],)),
        ensures
            final(self).wf(),
            final(self).size() == old(self).size(),
            final(self).spec_threshold() == old(self).spec_threshold(),
            final(self).is_big() == old(self).is_big(),
            final(self).entries().len() == old(self).entries().len(),
            forall|k: int|
                0 <= k < old(self).entries().len() ==> {
                    &&& (#[trigger] final(self).entries()[k]).offset == old(self).entries()[k].offset
                    &&& final(self).entries()[k].len == old(self).entries()[k].len
                    &&& f.ensures((&old(self).entries()[k],), final(self).entries()[k].value)
                },
    {
        proof {
            if self.inner is Little {
                let m = self.inner->Little_0;
                assert(self.entries() == m.entries());
                assert(forall|k: int| 0 <= k < m.entries().len() ==> f.requires((&m.entries()[k],)));
            } else {
                let m = self.inner->Big_0;
                assert(self.entries() == m.entries());
                assert(forall|k: int| 0 <= k < m.entries().len() ==> f.requires((&m.entries()[k],)));
            }
        }
        match &mut self.inner {
            Inner::Little(m) => m.ranges_mut(f),
            Inner::Big(m) => m.ranges_mut(f),
        }
    }

    /// Returns the entry containing the given index.
    pub fn range_for_index(&self, index: usize) -> (r: &RangeMapEntry<T>)
        requires
            self.wf(),
            index < self.size(),
        ensures
            self.entries().contains(*r),
            r.offset <= index < r.offset + r.len,
    {
        match &self.inner {
            Inner::Little(m) => m.range_for_index(index),
            Inner::Big(m) => m.range_for_index(index),
        }
    }

    /// Ensures that `index - 1` and `index` are in different entries: the entry holding `index`
    /// strictly inside is cut in two there, and nothing else changes. A LittleRangeMap holding at
    /// least `threshold` entries becomes a BigRangeMap first.
    pub fn split(&mut self, index: usize)
        requires
            old(self).wf(),
            index <= old(self).size(),
        ensures
            final(self).wf(),
            final(self).size() == old(self).size(),
            final(self).spec_threshold() == old(self).spec_threshold(),
            starts_entry(final(self).entries(), index as int) || index == final(self).size(),
            index == old(self).size() || starts_entry(old(self).entries(), index as int)
                ==> final(self).entries() == old(self).entries(),
            !(index == old(self).size() || starts_entry(old(self).entries(), index as int))
                ==> exists|k: int| splits_at(old(self).entries(), final(self).entries(), k, index as int),
    {
        let threshold = self.threshold;
        match &mut self.inner {
            Inner::Little(m) => {
                if m.values.entry_count() >= threshold {
                    let first = m.values.ranges()[0].value.clone();
                    let mut values = crate::range_map::RangeMap::new(1, first);
                    core::mem::swap(&mut values, &mut m.values);
                    let mut big = BigRangeMap { values };
                    big.split(index);
                    self.inner = Inner::Big(big);
                } else {
                    m.split(index);
                }
            },
            Inner::Big(m) => m.split(index),
        }
    }

    /// Returns the entries whose offsets lie within `range`, in order of offset.
    pub fn range(&self, range: (Bound, Bound)) -> (r: &[RangeMapEntry<T>])
        requires
            self.wf(),
        ensures
            selects(self.entries(), range, r@),
    {
        match &self.inner {
            Inner::Little(m) => m.range(range),
            Inner::Big(m) => m.range(range),
        }
    }

    /// Replaces the value of every entry whose offset lies within `range` by `f` applied to the
    /// entry; the other entries stay as they are.
    pub fn range_mut<F: Fn(&RangeMapEntry<T>) -> T>(&mut self, range: (Bound, Bound), f: F)
        requires
            old(self).wf(),
            forall|k: int|
                0 <= k < old(self).entries().len() ==> f.requires((&old(self).entries()[k],)),
        ensures
            final(self).wf(),
            final(self).size() == old(self).size(),
            final(self).spec_threshold() == old(self).spec_threshold(),
            final(self).is_big() == old(self).is_big(),
            final(self).entries().len() == old(self).entries().len(),
            forall|k: int|
                0 <= k < old(self).entries().len() ==> {
                    &&& (#[trigger] final(self).entries()[k]).offset == old(self).entries()[k].offset
                    &&& final(self).entries()[k].len == old(self).entries()[k].len
                    &&& in_bounds(range, old(self).entries()[k].offset as int) ==> f.ensures(
                        (&old(self).entries()[k],),
                        final(self).entries()[k].value,
                    )
                    &&& !in_bounds(range, old(self).entries()[k].offset as int)
                        ==> final(self).entries()[k] == old(self).entries()[k]
                },
    {
        proof {
            if self.inner is Little {
                let m = self.inner->Little_0;
                assert(self.entries() == m.entries());
                assert(forall|k: int| 0 <= k < m.entries().len() ==> f.requires((&m.entries()[k],)));
            } else {
                let m = self.inner->Big_0;
                assert(self.entries() == m.entries());
                assert(forall|k: int| 0 <= k < m.entries().len() ==> f.requires((&m.entries()[k],)));
            }
        }
        match &mut self.inner {
            Inner::Little(m) => m.range_mut(range, f),
            Inner::Big(m) => m.range_mut(range, f),
        }
    }
}

} // verus!
