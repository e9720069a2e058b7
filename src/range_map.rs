//! A fixed-length vector stored as runs of equal values.
use vstd::prelude::*;

verus! {

/// A single entry in a RangeMap: `len` consecutive indices starting at `offset`, all holding
/// `value`.
#[derive(Copy, Clone, Debug, PartialEq, Eq)]
pub struct RangeMapEntry<T> {
    /// Beginning index of the range within the conceptual vector of individual values.
    pub offset: usize,
    /// Number of indices captured by the range.
    pub len: usize,
    /// Value of all individual values within the range.
    pub value: T,
}

/// One end of a range of indices.
#[derive(Clone, Copy, Debug, PartialEq, Eq)]
pub enum Bound {
    /// The end is in the range.
    Included(usize),
    /// The end is just outside the range.
    Excluded(usize),
    /// The range is open on this side.
    Unbounded,
}

/// `x` is at or after the start bound.
pub open spec fn above_start(b: Bound, x: int) -> bool {
    match b {
        Bound::Included(s) => s <= x,
        Bound::Excluded(s) => s < x,
        Bound::Unbounded => true,
    }
}

/// `x` is at or before the end bound.
pub open spec fn below_end(b: Bound, x: int) -> bool {
    match b {
        Bound::Included(e) => x <= e,
        Bound::Excluded(e) => x < e,
        Bound::Unbounded => true,
    }
}

/// `x` lies within the range given by a start and an end bound.
pub open spec fn in_bounds(range: (Bound, Bound), x: int) -> bool {
    above_start(range.0, x) && below_end(range.1, x)
}

/// `r` is the run of entries of `s` whose offsets lie within `range`.
pub open spec fn selects<T>(s: Seq<RangeMapEntry<T>>, range: (Bound, Bound), r: Seq<RangeMapEntry<T>>) -> bool {
    exists|lo: int, hi: int|
        #![trigger s.subrange(lo, hi)]
        0 <= lo <= hi <= s.len() && r == s.subrange(lo, hi) && forall|j: int|
            0 <= j < s.len() ==> (in_bounds(range, #[trigger] s[j].offset as int) <==> lo <= j < hi)
}

/// Whether `x` is at or after the start bound.
pub fn is_above_start(b: Bound, x: usize) -> (r: bool)
    ensures
        r == above_start(b, x as int),
{
    match b {
        Bound::Included(s) => s <= x,
        Bound::Excluded(s) => s < x,
        Bound::Unbounded => true,
    }
}

/// Whether `x` is at or before the end bound.
pub fn is_below_end(b: Bound, x: usize) -> (r: bool)
    ensures
        r == below_end(b, x as int),
{
    match b {
        Bound::Included(e) => x <= e,
        Bound::Excluded(e) => x < e,
        Bound::Unbounded => true,
    }
}

/// One past the last index of an entry.
pub open spec fn entry_end<T>(e: RangeMapEntry<T>) -> int {
    e.offset + e.len
}

/// The entry holds index `i`.
pub open spec fn covers<T>(e: RangeMapEntry<T>, i: int) -> bool {
    e.offset <= i < entry_end(e)
}

/// `s` partitions `[0, n)`: it is nonempty, starts at 0, each entry is nonempty and ends where
/// the next one begins, and the last one ends at `n`.
pub open spec fn tiles<T>(s: Seq<RangeMapEntry<T>>, n: nat) -> bool {
    &&& s.len() > 0
    &&& s[0].offset == 0
    &&& forall|k: int| 0 <= k < s.len() ==> #[trigger] s[k].len > 0
    &&& forall|k: int| 0 <= k < s.len() - 1 ==> #[trigger] entry_end(s[k]) == s[k + 1].offset
    &&& entry_end(s.last()) == n
}

/// Some entry of `s` begins at `i`.
pub open spec fn starts_entry<T>(s: Seq<RangeMapEntry<T>>, i: int) -> bool {
    exists|k: int| 0 <= k < s.len() && #[trigger] s[k].offset == i
}

/// The sum of the lengths of the entries.
pub open spec fn total_len<T>(s: Seq<RangeMapEntry<T>>) -> nat
    decreases s.len(),
{
    if s.len() == 0 {
        0
    } else {
        total_len(s.drop_last()) + s.last().len as nat
    }
}

/// `new` is `old` with entry `k`, which holds `i` strictly inside, cut in two at `i`; the
/// right part holds a clone of the value.
pub open spec fn splits_at<T: Clone>(
    old: Seq<RangeMapEntry<T>>,
    new: Seq<RangeMapEntry<T>>,
    k: int,
    i: int,
) -> bool {
    &&& 0 <= k < old.len()
    &&& old[k].offset < i < entry_end(old[k])
    &&& new.len() == old.len() + 1
    &&& new.take(k) == old.take(k)
    &&& new.skip(k + 2) == old.skip(k + 1)
    &&& new[k].offset == old[k].offset
    &&& new[k].len == i - old[k].offset
    &&& new[k].value == old[k].value
    &&& new[k + 1].offset == i
    &&& new[k + 1].len == entry_end(old[k]) - i
    &&& cloned(old[k].value, new[k + 1].value)
}

/// In a partition, entries are ordered: each one ends before any later one begins, and all of
/// them lie below `n`.
pub proof fn lemma_tiles_ordered<T>(s: Seq<RangeMapEntry<T>>, n: nat)
    requires
        tiles(s, n),
    ensures
        forall|j: int, k: int|
            #![trigger entry_end(s[j]), s[k].offset]
            0 <= j < k < s.len() ==> entry_end(s[j]) <= s[k].offset,
        forall|k: int| 0 <= k < s.len() ==> #[trigger] entry_end(s[k]) <= n,
{
    assert forall|j: int, k: int|
        #![trigger entry_end(s[j]), s[k].offset]
        0 <= j < k < s.len() implies entry_end(s[j]) <= s[k].offset by {
        lemma_tiles_ordered_from(s, n, j, k);
    }
    assert forall|k: int| 0 <= k < s.len() implies #[trigger] entry_end(s[k]) <= n by {
        if k < s.len() - 1 {
            lemma_tiles_ordered_from(s, n, k, s.len() - 1);
        }
    }
}

proof fn lemma_tiles_ordered_from<T>(s: Seq<RangeMapEntry<T>>, n: nat, j: int, k: int)
    requires
        tiles(s, n),
        0 <= j < k < s.len(),
    ensures
        entry_end(s[j]) <= s[k].offset,
    decreases k - j,
{
    if j + 1 < k {
        lemma_tiles_ordered_from(s, n, j + 1, k);
        assert(entry_end(s[j]) == s[j + 1].offset);
        assert(s[j + 1].len > 0);
    } else {
        assert(entry_end(s[j]) == s[j + 1].offset);
    }
}

/// In a partition of `[0, n)` the entry holding an index is unique.
pub proof fn lemma_cover_unique<T>(s: Seq<RangeMapEntry<T>>, n: nat, j: int, k: int, i: int)
    requires
        tiles(s, n),
        0 <= j < s.len(),
        0 <= k < s.len(),
        covers(s[j], i),
        covers(s[k], i),
    ensures
        j == k,
{
    lemma_tiles_ordered(s, n);
    if j < k {
        assert(entry_end(s[j]) <= s[k].offset);
    } else if k < j {
        assert(entry_end(s[k]) <= s[j].offset);
    }
}

proof fn lemma_total_len_prefix<T>(s: Seq<RangeMapEntry<T>>, n: nat, k: int)
    requires
        tiles(s, n),
        1 <= k <= s.len(),
    ensures
        total_len(s.take(k)) == entry_end(s[k - 1]),
    decreases k,
{
    let t = s.take(k);
    assert(t.drop_last() =~= s.take(k - 1));
    assert(t.last() == s[k - 1]);
    assert(total_len(t) == total_len(t.drop_last()) + t.last().len);
    if k > 1 {
        lemma_total_len_prefix(s, n, k - 1);
        assert(entry_end(s[k - 2]) == s[k - 1].offset);
    } else {
        assert(s.take(0).len() == 0);
        assert(total_len(s.take(0)) == 0);
    }
}

/// The lengths of the entries of a partition of `[0, n)` add up to `n`.
pub proof fn lemma_total_len<T>(s: Seq<RangeMapEntry<T>>, n: nat)
    requires
        tiles(s, n),
    ensures
        total_len(s) == n,
{
    lemma_total_len_prefix(s, n, s.len() as int);
    assert(s.take(s.len() as int) =~= s);
}

/// Entries with the same offsets and lengths as those of a partition form the same partition.
pub proof fn lemma_tiles_same_shape<T>(s: Seq<RangeMapEntry<T>>, t: Seq<RangeMapEntry<T>>, n: nat)
    requires
        tiles(s, n),
        t.len() == s.len(),
        forall|k: int|
            0 <= k < s.len() ==> (#[trigger] t[k]).offset == s[k].offset && t[k].len == s[k].len,
    ensures
        tiles(t, n),
{
    assert(t[0].offset == s[0].offset);
    assert(t.last().offset == s.last().offset && t.last().len == s.last().len);
    assert forall|k: int| 0 <= k < t.len() - 1 implies #[trigger] entry_end(t[k]) == t[k
        + 1].offset by {
        assert(entry_end(s[k]) == s[k + 1].offset);
        assert(t[k + 1].offset == s[k + 1].offset);
    }
    assert forall|k: int| 0 <= k < t.len() implies #[trigger] t[k].len > 0 by {
        assert(s[k].len > 0);
    }
}

/// Every index of a partitioned range lies in some entry.
pub proof fn lemma_exists_cover<T>(s: Seq<RangeMapEntry<T>>, n: nat, i: int)
    requires
        tiles(s, n),
        0 <= i < n,
    ensures
        exists|k: int| 0 <= k < s.len() && covers(#[trigger] s[k], i),
    decreases s.len(),
{
    let last = s.len() - 1;
    if s[last].offset <= i {
        assert(covers(s[last], i));
    } else {
        let p = s.drop_last();
        assert(entry_end(s[last - 1]) == s[last].offset);
        assert(tiles(p, s[last].offset as nat)) by {
            assert forall|k: int| 0 <= k < p.len() - 1 implies #[trigger] entry_end(p[k])
                == p[k + 1].offset by {
                assert(entry_end(s[k]) == s[k + 1].offset);
            }
        }
        lemma_exists_cover(p, s[last].offset as nat, i);
        let k = choose|k: int| 0 <= k < p.len() && covers(#[trigger] p[k], i);
        assert(s[k] == p[k]);
    }
}

/// Cutting the entry `k` of a partition at an index strictly inside it gives a partition of
/// the same range, with the cut as a boundary.
pub proof fn lemma_split_tiles<T>(
    s: Seq<RangeMapEntry<T>>,
    n: nat,
    k: int,
    i: int,
    left: RangeMapEntry<T>,
    right: RangeMapEntry<T>,
)
    requires
        tiles(s, n),
        0 <= k < s.len(),
        s[k].offset < i < entry_end(s[k]),
        left.offset == s[k].offset,
        left.len == i - s[k].offset,
        right.offset == i,
        right.len == entry_end(s[k]) - i,
    ensures
        ({
            let t = s.take(k) + seq![left, right] + s.skip(k + 1);
            &&& tiles(t, n)
            &&& t.last().offset + t.last().len == n
            &&& forall|j: int| 0 <= j < k + 1 ==> #[trigger] entry_end(t[j]) <= i
            &&& forall|j: int| k + 1 <= j < t.len() ==> i <= #[trigger] t[j].offset
        }),
{
    let t = s.take(k) + seq![left, right] + s.skip(k + 1);
    assert(t.len() == s.len() + 1);
    assert forall|j: int| 0 <= j < k implies #[trigger] t[j] == s[j] by {}
    assert forall|j: int| k + 1 < j < t.len() implies #[trigger] t[j] == s[j - 1] by {}
    assert(t[k] == left);
    assert(t[k + 1] == right);
    assert forall|j: int| 0 <= j < t.len() implies #[trigger] t[j].len > 0 by {
        if j < k {
            assert(t[j] == s[j]);
        } else if j > k + 1 {
            assert(t[j] == s[j - 1]);
        }
    }
    assert forall|j: int| 0 <= j < t.len() - 1 implies #[trigger] entry_end(t[j]) == t[j
        + 1].offset by {
        if j < k - 1 {
            assert(t[j] == s[j]);
            assert(t[j + 1] == s[j + 1]);
        } else if j == k - 1 {
            assert(t[j] == s[j]);
        } else if j == k + 1 {
            assert(t[j + 1] == s[j]);
        } else if j > k + 1 {
            assert(t[j] == s[j - 1]);
            assert(t[j + 1] == s[j]);
        }
    }
    if k + 1 < s.len() {
        assert(t.last() == s.last());
    }
    assert(t[0].offset == 0) by {
        if k > 0 {
            assert(t[0] == s[0]);
        }
    }
    assert forall|j: int| 0 <= j < k + 1 implies #[trigger] entry_end(t[j]) <= i by {
        if j < k {
            assert(t[j] == s[j]);
            lemma_tiles_ordered_from(s, n, j, k);
        }
    }
    assert forall|j: int| k + 1 <= j < t.len() implies i <= #[trigger] t[j].offset by {
        if j > k + 1 {
            assert(t[j] == s[j - 1]);
            lemma_tiles_ordered_from(s, n, k, j - 1);
        }
    }
}

/// Around the entry `k` that holds `i`: entries before it end at or before its offset, later
/// ones begin at or after it, and `i` begins an entry exactly when it is the offset of `k`.
proof fn lemma_boundary_at<T>(s: Seq<RangeMapEntry<T>>, n: nat, k: int, i: int)
    requires
        tiles(s, n),
        0 <= k < s.len(),
        covers(s[k], i),
    ensures
        forall|j: int| 0 <= j < k ==> #[trigger] entry_end(s[j]) <= s[k].offset,
        forall|j: int| k <= j < s.len() ==> s[k].offset <= #[trigger] s[j].offset,
        starts_entry(s, i) <==> s[k].offset == i,
{
    assert forall|j: int| 0 <= j < k implies #[trigger] entry_end(s[j]) <= s[k].offset by {
        lemma_tiles_ordered_from(s, n, j, k);
    }
    assert forall|j: int| k < j < s.len() implies entry_end(s[k]) <= #[trigger] s[j].offset by {
        lemma_tiles_ordered_from(s, n, k, j);
    }
    if starts_entry(s, i) {
        let j = choose|j: int| 0 <= j < s.len() && #[trigger] s[j].offset == i;
        if j < k {
            assert(entry_end(s[j]) <= s[k].offset);
            assert(s[j].len > 0);
        } else if j > k {
            assert(entry_end(s[k]) <= s[j].offset);
        }
    }
}

impl<T> RangeMapEntry<T> {
    /// Returns the index of the first individual value in the range.
    pub fn offset(&self) -> (r: usize)
        ensures
            r == self.offset,
    {
        self.offset
    }

    /// Returns the length of the range.
    pub fn len(&self) -> (r: usize)
        ensures
            r == self.len,
    {
        self.len
    }

    /// Returns offset() + len().
    pub fn end(&self) -> (r: usize)
        requires
            entry_end(*self) <= usize::MAX,
        ensures
            r == entry_end(*self),
    {
        self.offset + self.len
    }

    /// Returns the value of the range.
    pub fn value(&self) -> (r: &T)
        ensures
            *r == self.value,
    {
        &self.value
    }

    /// Returns the value of the range, for mutation in place.
    pub fn value_mut(&mut self) -> (r: &mut T)
        ensures
            *r == old(self).value,
            final(self).offset == old(self).offset,
            final(self).len == old(self).len,
            final(self).value == *final(r),
    {
        &mut self.value
    }
}

/// A RangeMap is a fixed-length vector optimized for long stretches of equal values. It is
/// partitioned into contiguous RangeMapEntries; neighboring entries may hold the same value.
#[derive(Clone, Debug)]
pub struct RangeMap<T> {
    values: Vec<RangeMapEntry<T>>,
}

impl<T> RangeMap<T> {
    /// The entries, left to right.
    pub closed spec fn entries(&self) -> Seq<RangeMapEntry<T>> {
        self.values@
    }

    /// The length of the whole range.
    pub open spec fn size(&self) -> nat {
        entry_end(self.entries().last()) as nat
    }

    /// The entries partition `[0, size)`, and the size fits in a `usize`.
    pub open spec fn wf(&self) -> bool {
        &&& tiles(self.entries(), self.size())
        &&& self.size() <= usize::MAX
    }
}

/// However a map has been split since it was made (every split keeps it well formed and keeps
/// its size), the lengths of its entries add up to its size and every index within the size
/// lies in exactly one entry.
pub proof fn lemma_partition_law<T>(m: &RangeMap<T>, i: int)
    requires
        m.wf(),
        0 <= i < m.size(),
    ensures
        total_len(m.entries()) == m.size(),
        exists|k: int| 0 <= k < m.entries().len() && covers(#[trigger] m.entries()[k], i),
        forall|j: int, k: int|
            0 <= j < m.entries().len() && 0 <= k < m.entries().len() && covers(m.entries()[j], i)
                && covers(m.entries()[k], i) ==> j == k,
{
    lemma_total_len(m.entries(), m.size());
    lemma_exists_cover(m.entries(), m.size(), i);
    assert forall|j: int, k: int|
        0 <= j < m.entries().len() && 0 <= k < m.entries().len() && covers(m.entries()[j], i)
            && covers(m.entries()[k], i) implies j == k by {
        lemma_cover_unique(m.entries(), m.size(), j, k, i);
    }
}

impl<T: Clone> RangeMap<T> {
    /// Creates a new RangeMap with the given size and initial value. It contains a single entry
    /// spanning the entire range.
    pub fn new(size: usize, value: T) -> (r: Self)
        requires
            size > 0,
        ensures
            r.wf(),
            r.size() == size,
            r.entries() == seq![RangeMapEntry { offset: 0, len: size, value }],
    {
        let r = RangeMap { values: vec![RangeMapEntry { offset: 0, len: size, value }] };
        assert(r.entries().last() == RangeMapEntry { offset: 0, len: size, value });
        r
    }

    /// Returns the length of the entire range.
    pub fn len(&self) -> (r: usize)
        requires
            self.wf(),
        ensures
            r == self.size(),
    {
        self.values[self.values.len() - 1].end()
    }

    /// Takes an individual element index and returns the index of the entry holding it.
    fn range_index(&self, index: usize) -> (r: usize)
        requires
            self.wf(),
            index < self.size(),
        ensures
            r < self.entries().len(),
            covers(self.entries()[r as int], index as int),
    {
        proof {
            lemma_tiles_ordered(self.entries(), self.size());
        }
        let mut lo: usize = 0;
        let mut hi: usize = self.values.len();
        while hi - lo > 1
            invariant
                self.wf(),
                index < self.size(),
                0 <= lo < hi <= self.entries().len(),
                self.entries()[lo as int].offset <= index,
                hi < self.entries().len() ==> index < self.entries()[hi as int].offset,
                forall|j: int, k: int|
                    #![trigger entry_end(self.entries()[j]), self.entries()[k].offset]
                    0 <= j < k < self.entries().len() ==> entry_end(self.entries()[j])
                        <= self.entries()[k].offset,
            decreases hi - lo,
        {
            let mid = lo + (hi - lo) / 2;
            if self.values[mid].offset <= index {
                lo = mid;
            } else {
                hi = mid;
            }
        }
        lo
    }

    /// Returns an iterator over entries.
    pub fn ranges(&self) -> (r: &[RangeMapEntry<T>])
        ensures
            r@ == self.entries(),
    {
        self.values.as_slice()
    }

    /// Replaces the value of every entry, left to right, by `f` applied to the entry.
    pub fn ranges_mut<F: Fn(&RangeMapEntry<T>) -> T>(&mut self, f: F)
        requires
            old(self).wf(),
            forall|k: int|
                0 <= k < old(self).entries().len() ==> f.requires((&old(self).entries()[k],)),
        ensures
            final(self).wf(),
            final(self).size() == old(self).size(),
            final(self).entries().len() == old(self).entries().len(),
            forall|k: int|
                0 <= k < old(self).entries().len() ==> {
                    &&& (#[trigger] final(self).entries()[k]).offset == old(self).entries()[k].offset
                    &&& final(self).entries()[k].len == old(self).entries()[k].len
                    &&& f.ensures((&old(self).entries()[k],), final(self).entries()[k].value)
                },
    {
        let n = self.values.len();
        let ghost old_entries = self.entries();
        for k in 0..n
            invariant
                n == old_entries.len(),
                self.entries().len() == n,
                forall|j: int| 0 <= j < n ==> f.requires((&old_entries[j],)),
                forall|j: int|
                    0 <= j < n ==> {
                        &&& (#[trigger] self.entries()[j]).offset == old_entries[j].offset
                        &&& self.entries()[j].len == old_entries[j].len
                    },
                forall|j: int|
                    0 <= j < k ==> f.ensures((&old_entries[j],), (#[trigger] self.entries()[j]).value),
                forall|j: int| k <= j < n ==> #[trigger] self.entries()[j] == old_entries[j],
        {
            let offset = self.values[k].offset;
            let len = self.values[k].len;
            let v = f(&self.values[k]);
            self.values.set(k, RangeMapEntry { offset, len, value: v });
        }
        proof {
            let s = self.entries();
            assert(s.last().offset == old_entries.last().offset);
            assert forall|j: int| 0 <= j < s.len() - 1 implies #[trigger] entry_end(s[j])
                == s[j + 1].offset by {
                assert(entry_end(old_entries[j]) == old_entries[j + 1].offset);
            }
            assert forall|j: int| 0 <= j < s.len() implies #[trigger] s[j].len > 0 by {
                assert(old_entries[j].len > 0);
            }
        }
    }

    /// Returns the entry containing the given index.
    pub fn range_for_index(&self, index: usize) -> (r: &RangeMapEntry<T>)
        requires
            self.wf(),
            index < self.size(),
        ensures
            self.entries().contains(*r),
            covers(*r, index as int),
    {
        let k = self.range_index(index);
        &self.values[k]
    }

    /// The first entry whose offset is at or after the start bound `b` (when `start`), or past
    /// the end bound `b` (otherwise); the entry count if there is none. Since offsets increase,
    /// every later entry is so too.
    fn first_entry_where(&self, b: Bound, start: bool) -> (r: usize)
        requires
            self.wf(),
        ensures
            r <= self.entries().len(),
            forall|j: int|
                0 <= j < self.entries().len() ==> (j >= r <==> (if start {
                    above_start(b, #[trigger] self.entries()[j].offset as int)
                } else {
                    !below_end(b, self.entries()[j].offset as int)
                })),
    {
        let ghost s = self.entries();
        proof {
            lemma_tiles_ordered(s, self.size());
            assert forall|j: int, k: int| 0 <= j < k < s.len() implies #[trigger] s[j].offset
                < #[trigger] s[k].offset by {
                assert(entry_end(s[j]) <= s[k].offset);
                assert(s[j].len > 0);
            }
        }
        let mut lo: usize = 0;
        let mut hi: usize = self.values.len();
        while lo < hi
            invariant
                s == self.entries(),
                0 <= lo <= hi <= s.len(),
                forall|j: int, k: int|
                    0 <= j < k < s.len() ==> #[trigger] s[j].offset < #[trigger] s[k].offset,
                forall|j: int|
                    0 <= j < lo ==> !(if start {
                        above_start(b, #[trigger] s[j].offset as int)
                    } else {
                        !below_end(b, s[j].offset as int)
                    }),
                forall|j: int|
                    hi <= j < s.len() ==> (if start {
                        above_start(b, #[trigger] s[j].offset as int)
                    } else {
                        !below_end(b, s[j].offset as int)
                    }),
            decreases hi - lo,
        {
            let mid = lo + (hi - lo) / 2;
            let offset = self.values[mid].offset;
            let holds = if start {
                is_above_start(b, offset)
            } else {
                !is_below_end(b, offset)
            };
            if holds {
                hi = mid;
            } else {
                lo = mid + 1;
            }
        }
        lo
    }

    /// The entries whose offsets lie within `range`, left to right.
    pub fn entries_in(&self, range: (Bound, Bound)) -> (r: &[RangeMapEntry<T>])
        requires
            self.wf(),
        ensures
            selects(self.entries(), range, r@),
    {
        let lo = self.first_entry_where(range.0, true);
        let mut hi = self.first_entry_where(range.1, false);
        if hi < lo {
            hi = lo;
        }
        let all = self.values.as_slice();
        let (_, right) = all.split_at(lo);
        let (mid, _) = right.split_at(hi - lo);
        proof {
            assert(mid@ =~= self.entries().subrange(lo as int, hi as int));
            assert(forall|j: int|
                0 <= j < self.entries().len() ==> (in_bounds(range, #[trigger] self.entries()[j].offset as int)
                    <==> lo <= j < hi));
        }
        mid
    }

    /// Replaces the value of every entry whose offset lies within `range` by `f` applied to the
    /// entry; the other entries stay as they are.
    pub fn update_in<F: Fn(&RangeMapEntry<T>) -> T>(&mut self, range: (Bound, Bound), f: F)
        requires
            old(self).wf(),
            forall|k: int|
                0 <= k < old(self).entries().len() ==> f.requires((&old(self).entries()[k],)),
        ensures
            final(self).wf(),
            final(self).size() == old(self).size(),
            final(self).entries().len() == old(self).entries().len(),
            forall|k: int|
                0 <= k < old(self).entries().len() ==> {
                    &&& (#[trigger] final(self).entries()[k]).offset == old(self).entries()[k].offset
                    &&& final(self).entries()[k].len == old(self).entries()[k].len
                    &&& in_bounds(range, old(self).entries()[k].offset as int) ==> f.ensures(
                        (&old(self).entries()[k],),
                        final(self).entries()[k].value,
                    )
                    &&& !in_bounds(range, old(self).entries()[k].offset as int)
                        ==> final(self).entries()[k] == old(self).entries()[k]
                },
    {
        let n = self.values.len();
        let ghost old_entries = self.entries();
        for k in 0..n
            invariant
                n == old_entries.len(),
                self.entries().len() == n,
                forall|j: int| 0 <= j < n ==> f.requires((&old_entries[j],)),
                forall|j: int|
                    0 <= j < n ==> {
                        &&& (#[trigger] self.entries()[j]).offset == old_entries[j].offset
                        &&& self.entries()[j].len == old_entries[j].len
                    },
                forall|j: int|
                    0 <= j < k ==> {
                        &&& in_bounds(range, old_entries[j].offset as int) ==> f.ensures(
                            (&old_entries[j],),
                            (#[trigger] self.entries()[j]).value,
                        )
                        &&& !in_bounds(range, old_entries[j].offset as int) ==> self.entries()[j]
                            == old_entries[j]
                    },
                forall|j: int| k <= j < n ==> #[trigger] self.entries()[j] == old_entries[j],
        {
            let offset = self.values[k].offset;
            let len = self.values[k].len;
            if is_above_start(range.0, offset) && is_below_end(range.1, offset) {
                let v = f(&self.values[k]);
                self.values.set(k, RangeMapEntry { offset, len, value: v });
            }
        }
        proof {
            let s = self.entries();
            assert(s.last().offset == old_entries.last().offset);
            assert forall|j: int| 0 <= j < s.len() - 1 implies #[trigger] entry_end(s[j])
                == s[j + 1].offset by {
                assert(entry_end(old_entries[j]) == old_entries[j + 1].offset);
            }
            assert forall|j: int| 0 <= j < s.len() implies #[trigger] s[j].len > 0 by {
                assert(old_entries[j].len > 0);
            }
        }
    }

    /// The number of entries.
    pub fn entry_count(&self) -> (r: usize)
        ensures
            r == self.entries().len(),
    {
        self.values.len()
    }

    /// Ensures that `index - 1` and `index` are in different entries. Returns the number of
    /// entries left of `index`: those before it end at or before `index`, the others begin at or
    /// after it.
    #[verifier::rlimit(30)]
    pub fn split(&mut self, index: usize) -> (r: usize)
        requires
            old(self).wf(),
            index <= old(self).size(),
        ensures
            final(self).wf(),
            final(self).size() == old(self).size(),
            r <= final(self).entries().len(),
            forall|j: int| 0 <= j < r ==> #[trigger] entry_end(final(self).entries()[j]) <= index,
            forall|j: int|
                r <= j < final(self).entries().len() ==> index
                    <= #[trigger] final(self).entries()[j].offset,
            index == old(self).size() || starts_entry(old(self).entries(), index as int)
                ==> final(self).entries() == old(self).entries(),
            !(index == old(self).size() || starts_entry(old(self).entries(), index as int))
                ==> splits_at(old(self).entries(), final(self).entries(), r - 1, index as int),
            index < old(self).size() ==> r < final(self).entries().len()
                && final(self).entries()[r as int].offset == index,
    {
        let ghost old_entries = self.entries();
        let ghost n = self.size();
        if index == self.len() {
            proof {
                lemma_tiles_ordered(old_entries, n);
            }
            return self.values.len();
        }
        let k = self.range_index(index);
        proof {
            lemma_boundary_at(old_entries, n, k as int, index as int);
        }
        if self.values[k].offset == index {
            return k;
        }
        let ghost kk = k as int;
        let count = self.values.len();
        let next = k + 1;
        let mut left = self.values.remove(k);
        let end = left.offset + left.len;
        let right = RangeMapEntry { offset: index, len: end - index, value: left.value.clone() };
        left.len = index - left.offset;
        self.values.insert(k, left);
        self.values.insert(next, right);
        proof {
            let t = old_entries.take(k as int) + seq![left, right] + old_entries.skip(k + 1);
            assert(self.entries() =~= t);
            lemma_split_tiles(old_entries, n, k as int, index as int, left, right);
            assert(t.last().offset + t.last().len == n);
            assert(t.take(k as int) =~= old_entries.take(k as int));
            assert(t.skip(k + 2) =~= old_entries.skip(k + 1));
            assert(t[k as int] == left);
            assert(t[k + 1] == right);
            assert(self.entries()[kk + 1].offset == index);
        }
        next
    }
}

} // verus!
