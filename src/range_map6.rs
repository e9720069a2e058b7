//! A RangeMap whose entries are held in nodes of at most a chosen number of entries.
use crate::range_map::{RangeMapEntry, covers, splits_at, starts_entry};
use crate::range_map3::derefs;
use vstd::prelude::*;

verus! {

/// A RangeMap is a fixed-length vector optimized for long stretches of equal values. It is
/// partitioned into contiguous RangeMapEntries, held in order in nodes; a node that reaches
/// `branching` entries is cut in two.
#[derive(Clone, Debug)]
pub struct RangeMap<T> {
    nodes: crate::range_map3::RangeMap<T>,
    len: usize,
    branching: usize,
}

impl<T> RangeMap<T> {
    /// The entries, in order of offset.
    pub closed spec fn entries(&self) -> Seq<RangeMapEntry<T>> {
        self.nodes.entries()
    }

    /// The length of the whole range.
    pub closed spec fn size(&self) -> nat {
        self.len as nat
    }

    /// The number of entries at which a node is cut in two.
    pub closed spec fn spec_branching(&self) -> nat {
        self.branching as nat
    }

    /// The entries partition `[0, size)`.
    pub closed spec fn wf(&self) -> bool {
        &&& self.nodes.wf()
        &&& self.nodes.size() == self.len
    }
}

impl<T: Clone> RangeMap<T> {
    /// Creates a new RangeMap with the given size and initial value. It contains a single entry
    /// spanning the entire range.
    pub fn new(size: usize, value: T, branching: usize) -> (r: Self)
        requires
            size > 0,
        ensures
            r.wf(),
            r.size() == size,
            r.spec_branching() == branching,
            r.entries() == seq![RangeMapEntry { offset: 0, len: size, value }],
    {
        let capacity = if branching > 0 {
            branching - 1
        } else {
            0
        };
        RangeMap {
            nodes: crate::range_map3::RangeMap::with_node_capacity(size, value, capacity),
            len: size,
            branching,
        }
    }

    /// Returns the length of the entire range.
    pub fn len(&self) -> (r: usize)
        ensures
            r == self.size(),
    {
        self.len
    }

    /// Returns the entries, in order of offset.
    pub fn ranges(&self) -> (r: Vec<&RangeMapEntry<T>>)
        requires
            self.wf(),
        ensures
            derefs(r@) == self.entries(),
    {
        self.nodes.ranges()
    }

    /// Replaces the value of every entry by `f` applied to the entry.
    pub fn ranges_mut<F: Fn(&RangeMapEntry<T>) -> T>(&mut self, f: F)
        requires
            old(self).wf(),
            forall|k: int|
                0 <= k < old(self).entries().len() ==> f.requires((&old(self).entries()[k],)),
        ensures
            final(self).wf(),
            final(self).size() == old(self).size(),
            final(self).spec_branching() == old(self).spec_branching(),
            final(self).entries().len() == old(self).entries().len(),
            forall|k: int|
                0 <= k < old(self).entries().len() ==> {
                    &&& (#[trigger] final(self).entries()[k]).offset == old(self).entries()[k].offset
                    &&& final(self).entries()[k].len == old(self).entries()[k].len
                    &&& f.ensures((&old(self).entries()[k],), final(self).entries()[k].value)
                },
    {
        proof {
            assert(self.entries() == self.nodes.entries());
            assert(old(self).entries() == self.entries());
            assert(forall|k: int|
                0 <= k < self.nodes.entries().len() ==> f.requires((&self.nodes.entries()[k],)));
        }
        self.nodes.ranges_mut(f);
    }

    /// Returns the entry containing the given index.
    pub fn range_for_index(&self, index: usize) -> (r: &RangeMapEntry<T>)
        requires
            self.wf(),
            index < self.size(),
        ensures
            self.entries().contains(*r),
            covers(*r, index as int),
    {
        self.nodes.range_for_index(index)
    }

    /// Ensures that `index - 1` and `index` are in different entries: the entry holding `index`
    /// strictly inside is cut in two there, and nothing else changes.
    pub fn split(&mut self, index: usize)
        requires
            old(self).wf(),
            index <= old(self).size(),
        ensures
            final(self).wf(),
            final(self).size() == old(self).size(),
            final(self).spec_branching() == old(self).spec_branching(),
            index == old(self).size() || starts_entry(old(self).entries(), index as int)
                ==> final(self).entries() == old(self).entries(),
            !(index == old(self).size() || starts_entry(old(self).entries(), index as int))
                ==> exists|k: int| splits_at(old(self).entries(), final(self).entries(), k, index as int),
    {
        let ghost old_entries = self.nodes.entries();
        self.nodes.split(index);
        proof {
            assert(self.entries() == self.nodes.entries());
            if !(index == old(self).size() || starts_entry(old_entries, index as int)) {
                let k = choose|k: int| splits_at(old_entries, self.nodes.entries(), k, index as int);
                assert(splits_at(old(self).entries(), self.entries(), k, index as int));
            }
        }
    }
}

} // verus!
