//! A RangeMap whose entries are held in a row of nodes of bounded size.
use crate::range_map::{
    Bound,
    RangeMapEntry,
    above_start,
    below_end,
    covers,
    entry_end,
    in_bounds,
    is_above_start,
    is_below_end,
    lemma_cover_unique,
    lemma_exists_cover,
    lemma_split_tiles,
    lemma_tiles_same_shape,
    splits_at,
    starts_entry,
    tiles,
};
use vstd::prelude::*;
use vstd::seq_lib::lemma_flatten_alt_concat;

verus! {

/// The most entries a node holds; a node that grows past it is cut in two.
const MAX_RANGE_SIZE: usize = 1000;

/// A run of consecutive entries of a RangeMap.
#[derive(Clone, Debug)]
pub struct Node<T> {
    /// The entries, in order of offset.
    pub values: Vec<RangeMapEntry<T>>,
}

/// The values of each node.
pub open spec fn node_values<T>(nodes: Seq<Node<T>>) -> Seq<Seq<RangeMapEntry<T>>> {
    nodes.map_values(|n: Node<T>| n.values@)
}

/// The referenced entries.
pub open spec fn derefs<T>(r: Seq<&RangeMapEntry<T>>) -> Seq<RangeMapEntry<T>> {
    r.map_values(|e: &RangeMapEntry<T>| *e)
}

/// `b` is `a` with its value replaced by `f` applied to it if its offset lies within `range`,
/// and `a` itself otherwise.
pub open spec fn entry_updated<T, F: Fn(&RangeMapEntry<T>) -> T>(
    range: (Bound, Bound),
    f: F,
    a: RangeMapEntry<T>,
    b: RangeMapEntry<T>,
) -> bool {
    &&& b.offset == a.offset
    &&& b.len == a.len
    &&& in_bounds(range, a.offset as int) ==> f.ensures((&a,), b.value)
    &&& !in_bounds(range, a.offset as int) ==> b == a
}

/// The entry's offset lies within `range`.
pub open spec fn offset_within<T>(range: (Bound, Bound)) -> spec_fn(RangeMapEntry<T>) -> bool {
    |e: RangeMapEntry<T>| in_bounds(range, e.offset as int)
}

proof fn lemma_flatten_single<A>(x: Seq<A>)
    ensures
        seq![x].flatten_alt() == x,
{
    assert(seq![x].drop_last() =~= Seq::<Seq<A>>::empty());
    assert(Seq::<Seq<A>>::empty().flatten_alt() =~= Seq::<A>::empty());
    assert(seq![x].last() == x);
    assert(Seq::<A>::empty() + x =~= x);
}

/// Flattening around member `k`.
proof fn lemma_flatten_around<A>(v: Seq<Seq<A>>, k: int)
    requires
        0 <= k < v.len(),
    ensures
        v.flatten_alt() == v.take(k).flatten_alt() + v[k] + v.skip(k + 1).flatten_alt(),
{
    assert(v =~= v.take(k) + (seq![v[k]] + v.skip(k + 1)));
    lemma_flatten_alt_concat(v.take(k), seq![v[k]] + v.skip(k + 1));
    lemma_flatten_alt_concat(seq![v[k]], v.skip(k + 1));
    lemma_flatten_single(v[k]);
    assert(v.take(k).flatten_alt() + (v[k] + v.skip(k + 1).flatten_alt()) =~= v.take(k).flatten_alt()
        + v[k] + v.skip(k + 1).flatten_alt());
}

/// Replacing member `k` replaces its part of the flattening.
proof fn lemma_flatten_replace<A>(v: Seq<Seq<A>>, k: int, x: Seq<A>)
    requires
        0 <= k < v.len(),
    ensures
        (v.take(k) + seq![x] + v.skip(k + 1)).flatten_alt() == v.take(k).flatten_alt() + x + v.skip(
            k + 1,
        ).flatten_alt(),
{
    let w = v.take(k) + seq![x] + v.skip(k + 1);
    lemma_flatten_around(w, k);
    assert(w.take(k) =~= v.take(k));
    assert(w.skip(k + 1) =~= v.skip(k + 1));
}

/// Putting the two halves of `x` in place of member `k` replaces its part of the flattening
/// by `x`.
proof fn lemma_flatten_halves<A>(v: Seq<Seq<A>>, k: int, x: Seq<A>, h: int)
    requires
        0 <= k < v.len(),
        0 <= h <= x.len(),
    ensures
        (v.take(k) + seq![x.take(h), x.skip(h)] + v.skip(k + 1)).flatten_alt() == v.take(k).flatten_alt()
            + x + v.skip(k + 1).flatten_alt(),
{
    let halves = seq![x.take(h), x.skip(h)];
    lemma_flatten_alt_concat(v.take(k) + halves, v.skip(k + 1));
    lemma_flatten_alt_concat(v.take(k), halves);
    assert(halves =~= seq![x.take(h)] + seq![x.skip(h)]);
    lemma_flatten_alt_concat(seq![x.take(h)], seq![x.skip(h)]);
    lemma_flatten_single(x.take(h));
    lemma_flatten_single(x.skip(h));
    assert(x.take(h) + x.skip(h) =~= x);
}

/// Flattening the first `k + 1` members adds member `k` to the flattening of the first `k`.
proof fn lemma_flatten_take_next<A>(v: Seq<Seq<A>>, k: int)
    requires
        0 <= k < v.len(),
    ensures
        v.take(k + 1).flatten_alt() == v.take(k).flatten_alt() + v[k],
{
    assert(v.take(k + 1).drop_last() =~= v.take(k));
}

/// Flattening keeps a relation that holds member by member.
proof fn lemma_flatten_pointwise<A>(v: Seq<Seq<A>>, w: Seq<Seq<A>>, rel: spec_fn(A, A) -> bool)
    requires
        v.len() == w.len(),
        forall|k: int| 0 <= k < v.len() ==> (#[trigger] v[k]).len() == w[k].len(),
        forall|k: int, j: int| 0 <= k < v.len() && 0 <= j < v[k].len() ==> #[trigger] rel(v[k][j], w[k][j]),
    ensures
        v.flatten_alt().len() == w.flatten_alt().len(),
        forall|i: int| 0 <= i < v.flatten_alt().len() ==> #[trigger] rel(v.flatten_alt()[i], w.flatten_alt()[i]),
    decreases v.len(),
{
    if v.len() > 0 {
        let k = v.len() - 1;
        assert forall|k2: int| 0 <= k2 < v.drop_last().len() implies (#[trigger] v.drop_last()[k2]).len() == w.drop_last()[k2].len() by {
            assert(v.drop_last()[k2] == v[k2]);
            assert(w.drop_last()[k2] == w[k2]);
        }
        assert forall|k2: int, j: int| 0 <= k2 < v.drop_last().len() && 0 <= j < v.drop_last()[k2].len() implies #[trigger] rel(v.drop_last()[k2][j], w.drop_last()[k2][j]) by {
            assert(v.drop_last()[k2] == v[k2]);
            assert(w.drop_last()[k2] == w[k2]);
        }
        lemma_flatten_pointwise(v.drop_last(), w.drop_last(), rel);
        let a = v.drop_last().flatten_alt();
        let b = w.drop_last().flatten_alt();
        assert forall|i: int| 0 <= i < v.flatten_alt().len() implies #[trigger] rel(v.flatten_alt()[i], w.flatten_alt()[i]) by {
            if i >= a.len() {
                assert(v.flatten_alt()[i] == v[k][i - a.len()]);
                assert(w.flatten_alt()[i] == w[k][i - a.len()]);
            } else {
                assert(v.flatten_alt()[i] == a[i]);
                assert(w.flatten_alt()[i] == b[i]);
            }
        }
    }
}

impl<T> Node<T> {
    /// The first index the node covers.
    pub open spec fn start(&self) -> int {
        self.values@[0].offset as int
    }

    /// One past the last index the node covers.
    pub open spec fn end(&self) -> int {
        entry_end(self.values@.last())
    }

    /// Whether the node covers `index`.
    pub fn contains(&self, index: usize) -> (r: bool)
        requires
            self.values@.len() > 0,
            self.end() <= usize::MAX,
        ensures
            r == (self.start() <= index < self.end()),
    {
        let start = self.values[0].offset;
        let end = self.values[self.values.len() - 1].end();
        start <= index && index < end
    }

    /// Whether some index the node covers is past the start bound of `range`, and some index it
    /// covers is before the end bound.
    pub fn intersects_range(&self, range: &(Bound, Bound)) -> (r: bool)
        requires
            self.values@.len() > 0,
            self.start() < self.end() <= usize::MAX,
        ensures
            r == (above_start(range.0, self.end() - 1) && below_end(range.1, self.start())),
    {
        let start = self.values[0].offset;
        let end = self.values[self.values.len() - 1].end();
        is_above_start(range.0, end - 1) && is_below_end(range.1, start)
    }

    /// Takes an individual element index and returns the index of the entry holding it, if any.
    fn range_index(&self, index: usize) -> (r: Option<usize>)
        ensures
            match r {
                Some(i) => i < self.values@.len() && covers(self.values@[i as int], index as int),
                None => forall|i: int| 0 <= i < self.values@.len() ==> !covers(#[trigger] self.values@[i], index as int),
            },
    {
        for i in 0..self.values.len()
            invariant
                forall|j: int| 0 <= j < i ==> !covers(#[trigger] self.values@[j], index as int),
        {
            let w = &self.values[i];
            if index >= w.offset && index - w.offset < w.len {
                return Some(i);
            }
        }
        None
    }

    /// Returns the entry holding the given index, if the node has it.
    pub fn range_for_index(&self, index: usize) -> (r: Option<&RangeMapEntry<T>>)
        ensures
            match r {
                Some(e) => self.values@.contains(*e) && covers(*e, index as int),
                None => forall|i: int| 0 <= i < self.values@.len() ==> !covers(#[trigger] self.values@[i], index as int),
            },
    {
        match self.range_index(index) {
            Some(i) => Some(&self.values[i]),
            None => None,
        }
    }
}

/// A RangeMap is a fixed-length vector optimized for long stretches of equal values. It is
/// partitioned into contiguous RangeMapEntries, held in order in a row of nodes; neighboring
/// entries may hold the same value.
#[derive(Clone, Debug)]
pub struct RangeMap<T> {
    valueses: Vec<Node<T>>,
    /// A node holding more entries than this after a split is cut in two.
    node_capacity: usize,
}

impl<T> RangeMap<T> {
    /// The entries, in order of offset.
    pub closed spec fn entries(&self) -> Seq<RangeMapEntry<T>> {
        node_values(self.valueses@).flatten_alt()
    }

    /// The length of the whole range.
    pub closed spec fn size(&self) -> nat {
        entry_end(self.entries().last()) as nat
    }

    /// The entries partition `[0, size)`, no node is empty, and the size fits in a `usize`.
    pub closed spec fn wf(&self) -> bool {
        &&& tiles(self.entries(), self.size())
        &&& self.size() <= usize::MAX
        &&& self.valueses@.len() > 0
        &&& forall|k: int| 0 <= k < self.valueses@.len() ==> (#[trigger] self.valueses@[k]).values@.len() > 0
    }
}

impl<T: Clone> RangeMap<T> {
    /// Creates a new RangeMap with the given size and initial value. It contains a single entry
    /// spanning the entire range.
    pub fn new(size: usize, value: T) -> (r: Self)
        requires
            size > 0,
        ensures
            r.wf(),
            r.size() == size,
            r.entries() == seq![RangeMapEntry { offset: 0, len: size, value }],
    {
        Self::with_node_capacity(size, value, MAX_RANGE_SIZE)
    }

    /// Creates a new RangeMap with the given size and initial value, whose nodes are cut in two
    /// when they grow past `node_capacity` entries.
    pub(crate) fn with_node_capacity(size: usize, value: T, node_capacity: usize) -> (r: Self)
        requires
            size > 0,
        ensures
            r.wf(),
            r.size() == size,
            r.entries() == seq![RangeMapEntry { offset: 0, len: size, value }],
    {
        let r = RangeMap {
            valueses: vec![Node { values: vec![RangeMapEntry { offset: 0, len: size, value }] }],
            node_capacity,
        };
        proof {
            assert(r.valueses@.len() == 1);
            assert(r.valueses@[0].values@ == seq![RangeMapEntry { offset: 0, len: size, value }]);
            assert(node_values(r.valueses@) =~= seq![seq![RangeMapEntry { offset: 0, len: size, value }]]);
            lemma_flatten_single(seq![RangeMapEntry { offset: 0, len: size, value }]);
        }
        r
    }

    /// Returns the length of the entire range.
    pub fn len(&self) -> (r: usize)
        requires
            self.wf(),
        ensures
            r == self.size(),
    {
        let last = &self.valueses[self.valueses.len() - 1];
        proof {
            let v = node_values(self.valueses@);
            assert(v.last() == last.values@);
            assert(self.entries().last() == last.values@.last());
        }
        last.values[last.values.len() - 1].end()
    }

    /// Returns the entries, in order of offset.
    pub fn ranges(&self) -> (r: Vec<&RangeMapEntry<T>>)
        requires
            self.wf(),
        ensures
            derefs(r@) == self.entries(),
    {
        let ghost v = node_values(self.valueses@);
        let mut r: Vec<&RangeMapEntry<T>> = Vec::new();
        for k in 0..self.valueses.len()
            invariant
                v == node_values(self.valueses@),
                derefs(r@) == v.take(k as int).flatten_alt(),
        {
            let node = &self.valueses[k];
            proof {
                assert(v[k as int] == node.values@);
            }
            for j in 0..node.values.len()
                invariant
                    v == node_values(self.valueses@),
                    v[k as int] == node.values@,
                    derefs(r@) == v.take(k as int).flatten_alt() + node.values@.take(j as int),
            {
                let ghost before = r@;
                r.push(&node.values[j]);
                proof {
                    assert(derefs(r@) =~= derefs(before).push(node.values@[j as int]));
                    assert(node.values@.take(j + 1) =~= node.values@.take(j as int).push(node.values@[j as int]));
                }
            }
            proof {
                assert(node.values@.take(node.values@.len() as int) =~= node.values@);
                lemma_flatten_take_next(v, k as int);
            }
        }
        proof {
            assert(v.take(v.len() as int) =~= v);
        }
        r
    }

    /// Replaces the value of every entry by `f` applied to the entry.
    pub fn ranges_mut<F: Fn(&RangeMapEntry<T>) -> T>(&mut self, f: F)
        requires
            old(self).wf(),
            forall|k: int|
                0 <= k < old(self).entries().len() ==> f.requires((&old(self).entries()[k],)),
        ensures
            final(self).wf(),
            final(self).size() == old(self).size(),
            final(self).entries().len() == old(self).entries().len(),
            forall|k: int|
                0 <= k < old(self).entries().len() ==> {
                    &&& (#[trigger] final(self).entries()[k]).offset == old(self).entries()[k].offset
                    &&& final(self).entries()[k].len == old(self).entries()[k].len
                    &&& f.ensures((&old(self).entries()[k],), final(self).entries()[k].value)
                },
    {
        self.range_mut((Bound::Unbounded, Bound::Unbounded), f);
    }

    /// Returns the entry containing the given index.
    pub fn range_for_index(&self, index: usize) -> (r: &RangeMapEntry<T>)
        requires
            self.wf(),
            index < self.size(),
        ensures
            self.entries().contains(*r),
            covers(*r, index as int),
    {
        let (k, j) = self.locate(index);
        &self.valueses[k].values[j]
    }

    /// The node and the place in it of the entry holding `index`; that entry stands at
    /// `flat_index` in the entries.
    fn locate(&self, index: usize) -> (r: (usize, usize))
        requires
            self.wf(),
            index < self.size(),
        ensures
            r.0 < self.valueses@.len(),
            r.1 < self.valueses@[r.0 as int].values@.len(),
            ({
                let v = node_values(self.valueses@);
                let p = v.take(r.0 as int).flatten_alt().len() + r.1;
                &&& p < self.entries().len()
                &&& self.entries()[p] == self.valueses@[r.0 as int].values@[r.1 as int]
                &&& covers(self.entries()[p], index as int)
            }),
    {
        let ghost v = node_values(self.valueses@);
        let n = self.valueses.len();
        let mut k: usize = 0;
        while k < n
            invariant
                0 <= k <= n,
                n == self.valueses@.len(),
                v == node_values(self.valueses@),
                self.wf(),
                index < self.size(),
                forall|i: int| 0 <= i < v.take(k as int).flatten_alt().len() ==> !covers(#[trigger] v.take(k as int).flatten_alt()[i], index as int),
            decreases n - k,
        {
            let node = &self.valueses[k];
            proof {
                assert(v[k as int] == node.values@);
                lemma_flatten_take_next(v, k as int);
            }
            let found = node.range_index(index);
            match found {
                Some(j) => {
                    proof {
                        lemma_flatten_around(v, k as int);
                        let a = v.take(k as int).flatten_alt();
                        assert(self.entries()[a.len() + j] == node.values@[j as int]);
                    }
                    return (k, j);
                },
                None => {
                    proof {
                        let a = v.take(k as int).flatten_alt();
                        let b = v.take(k + 1).flatten_alt();
                        assert(b == a + node.values@);
                        assert forall|i: int| 0 <= i < b.len() implies !covers(#[trigger] b[i], index as int) by {
                            if i >= a.len() {
                                let t = i - a.len();
                                assert(b[i] == node.values@[t]);
                                assert(!covers(node.values@[t], index as int));
                            } else {
                                assert(b[i] == a[i]);
                                assert(!covers(a[i], index as int));
                            }
                        }
                    }
                },
            }
            k = k + 1;
        }
        proof {
            assert(v.take(n as int) =~= v);
            lemma_exists_cover(self.entries(), self.size(), index as int);
        }
        // Every index below the size lies in some entry, so the search above has returned.
        proof {
            let i = choose|i: int| 0 <= i < self.entries().len() && covers(#[trigger] self.entries()[i], index as int);
            assert(!covers(self.entries()[i], index as int));
        }
        (0, 0)
    }

    /// Ensures that `index - 1` and `index` are in different entries: the entry holding `index`
    /// strictly inside is cut in two there, and nothing else changes. A node that grows past
    /// its bound is cut in two.
    #[verifier::rlimit(50)]
    pub fn split(&mut self, index: usize)
        requires
            old(self).wf(),
            index <= old(self).size(),
        ensures
            final(self).wf(),
            final(self).size() == old(self).size(),
            index == old(self).size() || starts_entry(old(self).entries(), index as int)
                ==> final(self).entries() == old(self).entries(),
            !(index == old(self).size() || starts_entry(old(self).entries(), index as int))
                ==> exists|k: int| splits_at(old(self).entries(), final(self).entries(), k, index as int),
    {
        if index == self.len() {
            return;
        }
        let ghost old_nodes = self.valueses@;
        let ghost v = node_values(old_nodes);
        let ghost e = self.entries();
        let ghost n = self.size();
        let (k, j) = self.locate(index);
        let ghost p = v.take(k as int).flatten_alt().len() + j;
        if self.valueses[k].values[j].offset == index {
            return;
        }
        proof {
            assert forall|q: int| 0 <= q < e.len() implies #[trigger] e[q].offset != index by {
                if e[q].offset == index {
                    assert(covers(e[q], index as int));
                    lemma_cover_unique(e, n, q, p, index as int);
                }
            }
        }
        let node_count = self.valueses.len();
        let next_node = k + 1;
        let mut node = self.valueses.remove(k);
        let entry_count = node.values.len();
        let next = j + 1;
        let mut left = node.values.remove(j);
        let end = left.offset + left.len;
        let right = RangeMapEntry { offset: index, len: end - index, value: left.value.clone() };
        left.len = index - left.offset;
        node.values.insert(j, left);
        node.values.insert(next, right);
        let ghost new_values = node.values@;
        proof {
            assert(new_values =~= v[k as int].take(j as int) + seq![left, right] + v[k as int].skip(j + 1));
            lemma_flatten_around(v, k as int);
            lemma_split_tiles(e, n, p, index as int, left, right);
        }
        if node.values.len() > self.node_capacity {
            let half = node.values.len() / 2;
            let second = node.values.split_off(half);
            self.valueses.insert(k, node);
            self.valueses.insert(next_node, Node { values: second });
            proof {
                let w = node_values(self.valueses@);
                assert(w =~= v.take(k as int) + seq![new_values.take(half as int), new_values.skip(half as int)] + v.skip(k + 1));
                lemma_flatten_halves(v, k as int, new_values, half as int);
                self.lemma_split_result(e, n, p, index as int, left, right, v.take(k as int).flatten_alt(), new_values, v.skip(k + 1).flatten_alt(), v[k as int], j as int);
                assert forall|t: int| 0 <= t < self.valueses@.len() implies (#[trigger] self.valueses@[t]).values@.len() > 0 by {
                    if t < k {
                        assert(self.valueses@[t] == old_nodes[t]);
                    } else if t > k + 1 {
                        assert(self.valueses@[t] == old_nodes[t - 1]);
                    }
                }
            }
        } else {
            self.valueses.insert(k, node);
            proof {
                let w = node_values(self.valueses@);
                assert(w =~= v.take(k as int) + seq![new_values] + v.skip(k + 1));
                lemma_flatten_replace(v, k as int, new_values);
                self.lemma_split_result(e, n, p, index as int, left, right, v.take(k as int).flatten_alt(), new_values, v.skip(k + 1).flatten_alt(), v[k as int], j as int);
                assert forall|t: int| 0 <= t < self.valueses@.len() implies (#[trigger] self.valueses@[t]).values@.len() > 0 by {
                    if t != k {
                        assert(self.valueses@[t] == old_nodes[t]);
                    }
                }
            }
        }
    }

    /// The entries after a split are those before it with entry `p` cut in two.
    proof fn lemma_split_result(
        &self,
        e: Seq<RangeMapEntry<T>>,
        n: nat,
        p: int,
        i: int,
        left: RangeMapEntry<T>,
        right: RangeMapEntry<T>,
        before: Seq<RangeMapEntry<T>>,
        new_values: Seq<RangeMapEntry<T>>,
        after: Seq<RangeMapEntry<T>>,
        old_values: Seq<RangeMapEntry<T>>,
        j: int,
    )
        requires
            tiles(e, n),
            e == before + old_values + after,
            p == before.len() + j,
            0 <= j < old_values.len(),
            new_values == old_values.take(j) + seq![left, right] + old_values.skip(j + 1),
            self.entries() == before + new_values + after,
            e[p].offset < i < entry_end(e[p]),
            left.offset == e[p].offset,
            left.len == i - e[p].offset,
            left.value == e[p].value,
            right.offset == i,
            right.len == entry_end(e[p]) - i,
            cloned(e[p].value, right.value),
            n <= usize::MAX,
            ({
                let t = e.take(p) + seq![left, right] + e.skip(p + 1);
                &&& tiles(t, n)
                &&& t.last().offset + t.last().len == n
            }),
        ensures
            self.entries() == e.take(p) + seq![left, right] + e.skip(p + 1),
            tiles(self.entries(), self.size()),
            self.size() == n,
            splits_at(e, self.entries(), p, i),
    {
        assert(self.entries() =~= e.take(p) + seq![left, right] + e.skip(p + 1));
        let t = self.entries();
        assert(t.take(p) =~= e.take(p));
        assert(t.skip(p + 2) =~= e.skip(p + 1));
    }

    /// Returns the entries whose offsets lie within `range`, in order of offset.
    pub fn range(&self, range: (Bound, Bound)) -> (r: Vec<&RangeMapEntry<T>>)
        requires
            self.wf(),
        ensures
            derefs(r@) == self.entries().filter(offset_within(range)),
    {
        let ghost v = node_values(self.valueses@);
        let mut r: Vec<&RangeMapEntry<T>> = Vec::new();
        for k in 0..self.valueses.len()
            invariant
                v == node_values(self.valueses@),
                derefs(r@) == v.take(k as int).flatten_alt().filter(offset_within(range)),
        {
            let node = &self.valueses[k];
            proof {
                assert(v[k as int] == node.values@);
            }
            for j in 0..node.values.len()
                invariant
                    v == node_values(self.valueses@),
                    v[k as int] == node.values@,
                    derefs(r@) == (v.take(k as int).flatten_alt() + node.values@.take(j as int)).filter(
                        offset_within(range),
                    ),
            {
                let ghost before = r@;
                let ghost s = v.take(k as int).flatten_alt() + node.values@.take(j as int);
                let entry = &node.values[j];
                proof {
                    reveal(Seq::filter);
                    assert(s.push(*entry) =~= v.take(k as int).flatten_alt() + node.values@.take(j + 1));
                    assert(s.push(*entry).drop_last() =~= s);
                    assert(s.push(*entry).last() == *entry);
                }
                if is_above_start(range.0, entry.offset) && is_below_end(range.1, entry.offset) {
                    r.push(entry);
                    proof {
                        assert(derefs(r@) =~= derefs(before).push(*entry));
                    }
                }
            }
            proof {
                assert(node.values@.take(node.values@.len() as int) =~= node.values@);
                lemma_flatten_take_next(v, k as int);
            }
        }
        proof {
            assert(v.take(v.len() as int) =~= v);
        }
        r
    }

    /// Replaces the value of every entry whose offset lies within `range` by `f` applied to the
    /// entry; the other entries stay as they are.
    pub fn range_mut<F: Fn(&RangeMapEntry<T>) -> T>(&mut self, range: (Bound, Bound), f: F)
        requires
            old(self).wf(),
            forall|k: int|
                0 <= k < old(self).entries().len() ==> f.requires((&old(self).entries()[k],)),
        ensures
            final(self).wf(),
            final(self).size() == old(self).size(),
            final(self).entries().len() == old(self).entries().len(),
            forall|k: int|
                0 <= k < old(self).entries().len() ==> {
                    &&& (#[trigger] final(self).entries()[k]).offset == old(self).entries()[k].offset
                    &&& final(self).entries()[k].len == old(self).entries()[k].len
                    &&& in_bounds(range, old(self).entries()[k].offset as int) ==> f.ensures(
                        (&old(self).entries()[k],),
                        final(self).entries()[k].value,
                    )
                    &&& !in_bounds(range, old(self).entries()[k].offset as int)
                        ==> final(self).entries()[k] == old(self).entries()[k]
                },
    {
        let ghost old_nodes = self.valueses@;
        let ghost v = node_values(old_nodes);
        let ghost e = self.entries();
        let ghost rel = |a: RangeMapEntry<T>, b: RangeMapEntry<T>| entry_updated(range, f, a, b);
        proof {
            assert forall|k: int, j: int| 0 <= k < v.len() && 0 <= j < v[k].len() implies f.requires((&#[trigger] v[k][j],)) by {
                lemma_flatten_around(v, k);
                assert(e[v.take(k).flatten_alt().len() + j] == v[k][j]);
            }
        }
        let n = self.valueses.len();
        for k in 0..n
            invariant
                n == old_nodes.len(),
                v == node_values(old_nodes),
                self.valueses@.len() == n,
                forall|t: int, j: int| 0 <= t < v.len() && 0 <= j < v[t].len() ==> f.requires((&#[trigger] v[t][j],)),
                forall|t: int| k <= t < n ==> #[trigger] self.valueses@[t] == old_nodes[t],
                forall|t: int| 0 <= t < k ==> (#[trigger] self.valueses@[t]).values@.len() == v[t].len(),
                forall|t: int, j: int| 0 <= t < k && 0 <= j < v[t].len() ==> #[trigger] entry_updated(range, f, v[t][j], self.valueses@[t].values@[j]),
        {
            let mut node = self.valueses.remove(k);
            let ghost before = node.values@;
            proof {
                assert(before == v[k as int]);
            }
            let m = node.values.len();
            proof {
                assert forall|j2: int| 0 <= j2 < m implies f.requires((&#[trigger] before[j2],)) by {
                    assert(before[j2] == v[k as int][j2]);
                }
            }
            for j in 0..m
                invariant
                    m == before.len(),
                    node.values@.len() == before.len(),
                    forall|j2: int| 0 <= j2 < m ==> f.requires((&#[trigger] before[j2],)),
                    forall|j2: int| 0 <= j2 < j ==> #[trigger] entry_updated(range, f, before[j2], node.values@[j2]),
                    forall|j2: int| j <= j2 < before.len() ==> #[trigger] node.values@[j2] == before[j2],
            {
                let ghost current = node.values@;
                proof {
                    assert(node.values@[j as int] == before[j as int]);
                }
                let offset = node.values[j].offset;
                let len = node.values[j].len;
                if is_above_start(range.0, offset) && is_below_end(range.1, offset) {
                    let value = f(&node.values[j]);
                    node.values.set(j, RangeMapEntry { offset, len, value });
                }
                proof {
                    assert(entry_updated(range, f, before[j as int], node.values@[j as int]));
                    assert forall|j2: int| 0 <= j2 < j implies #[trigger] entry_updated(range, f, before[j2], node.values@[j2]) by {
                        assert(node.values@[j2] == current[j2]);
                    }
                    assert forall|j2: int| j + 1 <= j2 < before.len() implies #[trigger] node.values@[j2] == before[j2] by {
                        assert(node.values@[j2] == current[j2]);
                    }
                }
            }
            self.valueses.insert(k, node);
            proof {
                assert forall|t: int| k + 1 <= t < n implies #[trigger] self.valueses@[t] == old_nodes[t] by {}
                assert forall|t: int, j: int| 0 <= t < k + 1 && 0 <= j < v[t].len() implies #[trigger] entry_updated(range, f, v[t][j], self.valueses@[t].values@[j]) by {
                    if t == k {
                        assert(self.valueses@[t].values@ == node.values@);
                        assert(v[t] == before);
                    }
                }
            }
        }
        proof {
            let w = node_values(self.valueses@);
            assert forall|t: int| 0 <= t < v.len() implies (#[trigger] v[t]).len() == w[t].len() by {}
            assert forall|t: int, j: int| 0 <= t < v.len() && 0 <= j < v[t].len() implies #[trigger] rel(v[t][j], w[t][j]) by {
                assert(w[t] == self.valueses@[t].values@);
                assert(entry_updated(range, f, v[t][j], self.valueses@[t].values@[j]));
            }
            lemma_flatten_pointwise(v, w, rel);
            let t = self.entries();
            assert forall|q: int| 0 <= q < e.len() implies (#[trigger] t[q]).offset == e[q].offset && t[q].len == e[q].len by {
                assert(rel(e[q], t[q]));
            }
            lemma_tiles_same_shape(e, t, entry_end(e.last()) as nat);
            assert forall|q: int| 0 <= q < self.valueses@.len() implies (#[trigger] self.valueses@[q]).values@.len() > 0 by {
                assert(old_nodes[q].values@.len() > 0);
                assert(v[q].len() == w[q].len());
            }
            assert forall|q: int| 0 <= q < e.len() implies {
                &&& (#[trigger] t[q]).offset == e[q].offset
                &&& t[q].len == e[q].len
                &&& in_bounds(range, e[q].offset as int) ==> f.ensures((&e[q],), t[q].value)
                &&& !in_bounds(range, e[q].offset as int) ==> t[q] == e[q]
            } by {
                assert(rel(e[q], t[q]));
            }
        }
    }
}

} // verus!
