//! Topological ordering of segments given by their parents.
use vstd::prelude::*;
use vstd::set_lib::FiniteRange;

verus! {

/// The number of entries of `s` equal to `x`.
pub open spec fn occurrences(s: Seq<usize>, x: usize) -> nat
    decreases s.len(),
{
    if s.len() == 0 {
        0
    } else {
        occurrences(s.drop_last(), x) + if s.last() == x {
            1nat
        } else {
            0nat
        }
    }
}

/// The number of entries of `s` outside `done`.
pub open spec fn pending(s: Seq<usize>, done: Set<usize>) -> nat
    decreases s.len(),
{
    if s.len() == 0 {
        0
    } else {
        pending(s.drop_last(), done) + if done.contains(s.last()) {
            0nat
        } else {
            1nat
        }
    }
}

/// Nothing is pending exactly when every entry is done.
pub proof fn lemma_pending_zero(s: Seq<usize>, done: Set<usize>)
    ensures
        pending(s, done) == 0 <==> forall|k: int| 0 <= k < s.len() ==> done.contains(#[trigger] s[k]),
    decreases s.len(),
{
    if s.len() > 0 {
        lemma_pending_zero(s.drop_last(), done);
        assert forall|k: int| 0 <= k < s.len() - 1 implies s.drop_last()[k] == #[trigger] s[k] by {}
    }
}

/// With nothing done, every entry is pending.
pub proof fn lemma_pending_none(s: Seq<usize>)
    ensures
        pending(s, Set::empty()) == s.len(),
    decreases s.len(),
{
    if s.len() > 0 {
        lemma_pending_none(s.drop_last());
    }
}

/// Finishing `x` leaves pending all but its occurrences, and those were pending.
pub proof fn lemma_pending_insert(s: Seq<usize>, done: Set<usize>, x: usize)
    requires
        !done.contains(x),
    ensures
        occurrences(s, x) <= pending(s, done),
        pending(s, done.insert(x)) == pending(s, done) - occurrences(s, x),
    decreases s.len(),
{
    if s.len() > 0 {
        lemma_pending_insert(s.drop_last(), done, x);
    }
}

/// An entry occurs at least once.
pub proof fn lemma_occurs(s: Seq<usize>, k: int)
    requires
        0 <= k < s.len(),
    ensures
        occurrences(s, s[k]) > 0,
    decreases s.len(),
{
    if k < s.len() - 1 {
        lemma_occurs(s.drop_last(), k);
    }
}

/// Appending an entry adds one occurrence of it.
proof fn lemma_occurrences_push(s: Seq<usize>, y: usize, x: usize)
    ensures
        occurrences(s.push(y), x) == occurrences(s, x) + if y == x {
            1nat
        } else {
            0nat
        },
{
    assert(s.push(y).drop_last() =~= s);
}

/// `x` stands among the first `j` entries of `order`.
pub open spec fn comes_before(order: Seq<usize>, j: int, x: usize) -> bool {
    exists|i: int| 0 <= i < j && order[i] == x
}

/// Orders the segments so that each one comes after all of its parents; `parents[s]` lists the
/// parents of segment `s`, and a parent that is not a segment never comes. No segment comes
/// twice, and a segment is left out only when one of its parents is left out, so when the
/// parents form no cycle, every segment comes.
pub fn sort_segments(parents: &Vec<Vec<usize>>) -> (order: Vec<usize>)
    ensures
        order@.no_duplicates(),
        forall|j: int| 0 <= j < order.len() ==> #[trigger] order@[j] < parents.len(),
        forall|j: int, k: int|
            0 <= j < order.len() && 0 <= k < parents@[order@[j] as int]@.len() ==> comes_before(
                order@,
                j,
                #[trigger] parents@[order@[j] as int]@[k],
            ),
        forall|s: usize|
            #![trigger order@.contains(s)]
            s < parents.len() && !order@.contains(s) ==> exists|k: int|
                0 <= k < parents@[s as int]@.len() && !order@.contains(#[trigger] parents@[s as int]@[k]),
{
    let n = parents.len();
    let ghost ps = parents@.map_values(|p: Vec<usize>| p@);
    let mut children: Vec<Vec<usize>> = Vec::new();
    for s in 0..n
        invariant
            children.len() == s,
            forall|p: int| 0 <= p < s ==> (#[trigger] children@[p])@.len() == 0,
    {
        children.push(Vec::new());
    }
    let mut waiting: Vec<usize> = Vec::new();
    for s in 0..n
        invariant
            n == parents.len(),
            ps == parents@.map_values(|p: Vec<usize>| p@),
            children.len() == n,
            forall|p: int, t: int|
                0 <= p < n && 0 <= t < children@[p]@.len() ==> #[trigger] children@[p]@[t] < n,
            waiting.len() == s,
            forall|c: int| 0 <= c < s ==> waiting@[c] == ps[c].len(),
            forall|p: int, c: usize|
                0 <= p < n && c < n ==> #[trigger] occurrences(children@[p]@, c) == (if c < s {
                    occurrences(ps[c as int], p as usize)
                } else {
                    0
                }),
    {
        let list = &parents[s];
        proof {
            assert(list@ == ps[s as int]);
            assert(list@.take(0) =~= Seq::<usize>::empty());
        }
        for k in 0..list.len()
            invariant
                n == parents.len(),
                ps == parents@.map_values(|p: Vec<usize>| p@),
                list@ == ps[s as int],
                children.len() == n,
                s < n,
                forall|p: int, t: int|
                    0 <= p < n && 0 <= t < children@[p]@.len() ==> #[trigger] children@[p]@[t] < n,

                forall|p: int, c: usize|
                    0 <= p < n && c < n ==> #[trigger] occurrences(children@[p]@, c) == (if c < s {
                        occurrences(ps[c as int], p as usize)
                    } else if c == s {
                        occurrences(list@.take(k as int), p as usize)
                    } else {
                        0
                    }),
        {
            let p = list[k];
            let ghost before = children@;
            if p < n {
                children[p].push(s);
            }
            proof {
                assert(list@.take(k + 1) =~= list@.take(k as int).push(p));
                assert forall|q: int, t: int|
                    0 <= q < n && 0 <= t < children@[q]@.len() implies #[trigger] children@[q]@[t] < n by {
                    if q == p {
                        assert(children@[q]@ == before[q]@.push(s));
                        if t < before[q]@.len() {
                            assert(children@[q]@[t] == before[q]@[t]);
                        }
                    } else {
                        assert(children@[q] == before[q]);
                    }
                }
                assert forall|q: int, c: usize| 0 <= q < n && c < n implies #[trigger] occurrences(
                    children@[q]@,
                    c,
                ) == (if c < s {
                    occurrences(ps[c as int], q as usize)
                } else if c == s {
                    occurrences(list@.take(k + 1), q as usize)
                } else {
                    0
                }) by {
                    lemma_occurrences_push(list@.take(k as int), p, q as usize);
                    assert(occurrences(before[q]@, c) == (if c < s {
                        occurrences(ps[c as int], q as usize)
                    } else if c == s {
                        occurrences(list@.take(k as int), q as usize)
                    } else {
                        0
                    }));
                    if q == p {
                        assert(children@[q]@ == before[q]@.push(s));
                        lemma_occurrences_push(before[q]@, s, c);
                    } else {
                        assert(children@[q] == before[q]);
                    }
                }
            }
        }
        proof {
            assert(list@.take(list@.len() as int) =~= list@);
        }
        waiting.push(list.len());
        proof {
            assert forall|c: int| 0 <= c < s + 1 implies waiting@[c] == ps[c].len() by {
                if c == s {
                    assert(waiting@[c] == list.len());
                }
            }
        }
    }
    let mut ready: Vec<usize> = Vec::new();
    for c in 0..n
        invariant
            n == parents.len(),
            waiting.len() == n,
            ready@.no_duplicates(),
            forall|j: int| 0 <= j < ready.len() ==> #[trigger] ready@[j] < c && waiting@[ready@[j] as int] == 0,
            forall|d: int| 0 <= d < c && waiting@[d] == 0 ==> ready@.contains(d as usize),
    {
        let ghost rb = ready@;
        if waiting[c] == 0 {
            ready.push(c);
            proof {
                assert(ready@[ready@.len() - 1] == c);
            }
        }
        proof {
            assert forall|d: int| 0 <= d < c + 1 && waiting@[d] == 0 implies ready@.contains(d as usize) by {
                if d < c {
                    let t = choose|t: int| 0 <= t < rb.len() && rb[t] == d as usize;
                    assert(ready@[t] == d as usize);
                }
            }
            assert forall|j: int| 0 <= j < ready.len() implies #[trigger] ready@[j] < c + 1 && waiting@[ready@[j] as int] == 0 by {
                if j < rb.len() {
                    assert(ready@[j] == rb[j]);
                }
            }
            assert(ready@.no_duplicates()) by {
                assert forall|i: int, j: int| 0 <= i < j < ready@.len() implies ready@[i] != ready@[j] by {
                    if j == rb.len() {
                        assert(rb[i] < c);
                    } else {
                        assert(ready@[i] == rb[i] && ready@[j] == rb[j]);
                    }
                }
            }
        }
    }
    let mut order: Vec<usize> = Vec::new();
    let ghost mut done: Set<usize> = Set::empty();
    proof {
        <usize as FiniteRange>::range_properties(0, n);
        assert forall|c: int| 0 <= c < n implies #[trigger] waiting@[c] == pending(ps[c], done) by {
            lemma_pending_none(ps[c]);
        }
        assert forall|c: usize| c < n implies #[trigger] occurrences(children@[c as int]@, c) == occurrences(ps[c as int], c) by {}
    }
    while ready.len() > 0
        invariant
            n == parents.len(),
            ps == parents@.map_values(|p: Vec<usize>| p@),
            children.len() == n,
            forall|p: int, t: int|
                0 <= p < n && 0 <= t < children@[p]@.len() ==> #[trigger] children@[p]@[t] < n,
            waiting.len() == n,
            forall|p: int, c: usize|
                0 <= p < n && c < n ==> #[trigger] occurrences(children@[p]@, c) == occurrences(
                    ps[c as int],
                    p as usize,
                ),
            forall|c: usize| done.contains(c) ==> #[trigger] pending(ps[c as int], done) == 0,
            forall|c: int| 0 <= c < n ==> #[trigger] waiting@[c] == pending(ps[c], done),
            order@.no_duplicates(),
            forall|x: usize| #[trigger] order@.contains(x) <==> done.contains(x),
            forall|x: usize| done.contains(x) ==> x < n,
            forall|j: int, k: int|
                0 <= j < order.len() && 0 <= k < ps[order@[j] as int].len() ==> comes_before(
                    order@,
                    j,
                    #[trigger] ps[order@[j] as int][k],
                ),
            ready@.no_duplicates(),
            forall|j: int|
                0 <= j < ready.len() ==> #[trigger] ready@[j] < n && !done.contains(ready@[j])
                    && waiting@[ready@[j] as int] == 0,
            forall|c: int| 0 <= c < n && !done.contains(c as usize) && waiting@[c] == 0 ==> ready@.contains(c as usize),
            Set::<usize>::range(0, n).finite(),
            Set::<usize>::range(0, n).len() == n,
        decreases n - order.len(),
    {
        proof {
            order@.unique_seq_to_set();
            assert(order@.to_set().subset_of(Set::<usize>::range(0, n)));
            vstd::set_lib::lemma_len_subset(order@.to_set(), Set::<usize>::range(0, n));
        }
        let ghost rb = ready@;
        let s = ready.pop().unwrap();
        let ghost old_done = done;
        let ghost old_order = order@;
        proof {
            assert(rb[rb.len() - 1] == s);
            assert(ready@ =~= rb.drop_last());
            assert(waiting@[s as int] == 0);
            lemma_pending_zero(ps[s as int], old_done);
            assert(!old_order.contains(s));
            old_order.unique_seq_to_set();
            assert(old_order.to_set().insert(s).subset_of(Set::<usize>::range(0, n)));
            vstd::set_lib::lemma_len_subset(old_order.to_set().insert(s), Set::<usize>::range(0, n));
            assert(!old_order.to_set().contains(s));
        }
        order.push(s);
        proof {
            done = done.insert(s);
            assert forall|x: usize| #[trigger] order@.contains(x) <==> done.contains(x) by {
                if order@.contains(x) && x != s {
                    let i = choose|i: int| 0 <= i < order@.len() && order@[i] == x;
                    assert(old_order[i] == x);
                }
                if old_order.contains(x) {
                    let i = choose|i: int| 0 <= i < old_order.len() && old_order[i] == x;
                    assert(order@[i] == x);
                }
                if x == s {
                    assert(order@[old_order.len() as int] == s);
                }
            }
            assert(order@.no_duplicates()) by {
                assert forall|i: int, j: int| 0 <= i < j < order@.len() implies order@[i] != order@[j] by {
                    if j == old_order.len() {
                        assert(old_order.contains(order@[i]));
                    }
                }
            }
            assert forall|j: int, k: int|
                0 <= j < order.len() && 0 <= k < ps[order@[j] as int].len() implies comes_before(
                order@,
                j,
                #[trigger] ps[order@[j] as int][k],
            ) by {
                if j < old_order.len() {
                    assert(order@[j] == old_order[j]);
                    assert(comes_before(old_order, j, ps[old_order[j] as int][k]));
                    let i = choose|i: int| 0 <= i < j && old_order[i] == ps[old_order[j] as int][k];
                    assert(order@[i] == old_order[i]);
                } else {
                    assert(order@[old_order.len() as int] == s);
                    let x = ps[s as int][k];
                    assert(old_done.contains(x));
                    assert(old_order.contains(x));
                    let i = choose|i: int| 0 <= i < old_order.len() && old_order[i] == x;
                    assert(order@[i] == x);
                }
            }
            assert forall|c: int| 0 <= c < n implies occurrences(ps[c], s) <= pending(ps[c], old_done)
                && pending(ps[c], done) == pending(ps[c], old_done) - occurrences(ps[c], s) by {
                lemma_pending_insert(ps[c], old_done, s);
            }
            assert forall|c: usize| done.contains(c) implies #[trigger] pending(ps[c as int], done) == 0 by {
                lemma_pending_insert(ps[c as int], old_done, s);
                if c != s {
                    assert(old_done.contains(c));
                }
            }
        }
        let kids = &children[s];
        let ghost w0 = waiting@;
        proof {
            assert forall|t: int| 0 <= t < ready.len() implies #[trigger] ready@[t] < n
                && !done.contains(ready@[t]) && waiting@[ready@[t] as int] == 0 by {
                assert(ready@[t] == rb[t]);
                assert(rb[t] != rb[rb.len() - 1]);
            }
            assert forall|c: int|
                0 <= c < n && !done.contains(c as usize) && waiting@[c] == 0 implies ready@.contains(c as usize) by {
                assert(rb.contains(c as usize));
                let t = choose|t: int| 0 <= t < rb.len() && rb[t] == c as usize;
                assert(t != rb.len() - 1);
                assert(ready@[t] == c as usize);
            }
            assert forall|c: int| 0 <= c < n implies occurrences(kids@, c as usize) == occurrences(
                #[trigger] ps[c],
                s,
            ) by {
                assert(occurrences(children@[s as int]@, c as usize) == occurrences(ps[c], s));
            }
        }
        for j in 0..kids.len()
            invariant
                n == parents.len(),
                waiting.len() == n,
                kids@ == children@[s as int]@,
                forall|t: int| 0 <= t < kids@.len() ==> #[trigger] kids@[t] < n,
                s < n,
                done == old_done.insert(s),
                !old_done.contains(s),
                forall|x: usize| done.contains(x) ==> x < n,
                forall|c: int| 0 <= c < n ==> occurrences(kids@, c as usize) == occurrences(#[trigger] ps[c], s),
                forall|c: int|
                    0 <= c < n ==> occurrences(ps[c], s) <= pending(ps[c], old_done) && pending(ps[c], done)
                        == pending(ps[c], old_done) - occurrences(ps[c], s),
                forall|c: usize| old_done.contains(c) ==> #[trigger] pending(ps[c as int], old_done) == 0,
                w0[s as int] == 0,
                forall|c: int| 0 <= c < n ==> #[trigger] w0[c] == pending(ps[c], old_done),
                forall|c: int|
                    0 <= c < n ==> #[trigger] waiting@[c] + occurrences(kids@.take(j as int), c as usize) == w0[c],
                forall|c: usize| c < n ==> occurrences(kids@.take(j as int), c) <= #[trigger] occurrences(kids@, c),
                ready@.no_duplicates(),
                forall|t: int|
                    0 <= t < ready.len() ==> #[trigger] ready@[t] < n && !done.contains(ready@[t])
                        && waiting@[ready@[t] as int] == 0,
                forall|c: int|
                    0 <= c < n && !done.contains(c as usize) && waiting@[c] == 0 ==> ready@.contains(c as usize),
        {
            let c = kids[j];
            proof {
                lemma_occurs(kids@, j as int);
                lemma_occurrences_push(kids@.take(j as int), c, c);
                assert(kids@.take(j + 1) =~= kids@.take(j as int).push(c));
                lemma_prefix_occurrences(kids@, j + 1, c);
                assert(c < n);
                assert(occurrences(kids@, c) > 0);
                assert(occurrences(kids@, c) == occurrences(ps[c as int], s));
                if old_done.contains(c) {
                    assert(pending(ps[c as int], old_done) == 0);
                }
                assert(c != s) by {
                    if c == s {
                        assert(w0[s as int] == 0);
                    }
                }
                assert(!done.contains(c));
            }
            let ghost wb = waiting@;
            let ghost rj = ready@;
            waiting.set(c, waiting[c] - 1);
            if waiting[c] == 0 {
                proof {
                    assert(!ready@.contains(c)) by {
                        if ready@.contains(c) {
                            let t = choose|t: int| 0 <= t < ready@.len() && ready@[t] == c;
                            assert(wb[c as int] == 0);
                        }
                    }
                }
                ready.push(c);
            }
            proof {
                assert forall|t: int| 0 <= t < rj.len() implies #[trigger] ready@[t] == rj[t] by {}
                assert forall|d: int|
                    0 <= d < n && !done.contains(d as usize) && waiting@[d] == 0 implies ready@.contains(d as usize) by {
                    if d != c {
                        assert(waiting@[d] == wb[d]);
                        let t = choose|t: int| 0 <= t < rj.len() && rj[t] == d as usize;
                        assert(ready@[t] == d as usize);
                    } else {
                        assert(ready@[ready@.len() - 1] == c);
                    }
                }
                assert forall|t: int| 0 <= t < ready.len() implies #[trigger] ready@[t] < n
                    && !done.contains(ready@[t]) && waiting@[ready@[t] as int] == 0 by {
                    if t < rj.len() {
                        assert(ready@[t] == rj[t]);
                        if rj[t] == c {
                            assert(wb[c as int] == 0);
                        }
                    }
                }
                assert(ready@.no_duplicates()) by {
                    assert forall|a: int, b: int| 0 <= a < b < ready@.len() implies ready@[a] != ready@[b] by {
                        if b >= rj.len() {
                            assert(ready@[b] == c);
                            assert(ready@[a] == rj[a]);
                        } else {
                            assert(ready@[a] == rj[a] && ready@[b] == rj[b]);
                        }
                    }
                }
                assert forall|d: int| 0 <= d < n implies #[trigger] waiting@[d] + occurrences(kids@.take(j + 1), d as usize) == w0[d] by {
                    lemma_occurrences_push(kids@.take(j as int), c, d as usize);
                }
                assert forall|d: usize| d < n implies occurrences(kids@.take(j + 1), d) <= #[trigger] occurrences(kids@, d) by {
                    lemma_prefix_occurrences(kids@, j + 1, d);
                }
            }
        }
        proof {
            assert(kids@.take(kids@.len() as int) =~= kids@);
        }
    }
    proof {
        assert forall|c: usize|
            #![trigger order@.contains(c)]
            c < n && !order@.contains(c) implies exists|k: int|
                0 <= k < parents@[c as int]@.len() && !order@.contains(#[trigger] parents@[c as int]@[k]) by {
            assert(!done.contains(c));
            assert(waiting@[c as int] != 0);
            lemma_pending_zero(ps[c as int], done);
            assert(ps[c as int] == parents@[c as int]@);
            let k = choose|k: int| 0 <= k < ps[c as int].len() && !done.contains(#[trigger] ps[c as int][k]);
            assert(!order@.contains(parents@[c as int]@[k]));
        }
        assert forall|j: int, k: int|
            0 <= j < order.len() && 0 <= k < parents@[order@[j] as int]@.len() implies comes_before(
            order@,
            j,
            #[trigger] parents@[order@[j] as int]@[k],
        ) by {
            assert(order@.contains(order@[j]));
            assert(ps[order@[j] as int] == parents@[order@[j] as int]@);
            assert(comes_before(order@, j, ps[order@[j] as int][k]));
        }
        assert forall|j: int| 0 <= j < order.len() implies #[trigger] order@[j] < parents.len() by {
            assert(order@.contains(order@[j]));
        }
    }
    order
}

/// Occurrences in a prefix are at most those in the whole.
proof fn lemma_prefix_occurrences(s: Seq<usize>, j: int, x: usize)
    requires
        0 <= j <= s.len(),
    ensures
        occurrences(s.take(j), x) <= occurrences(s, x),
    decreases s.len(),
{
    if j == s.len() {
        assert(s.take(j) =~= s);
    } else {
        assert(s.take(j) =~= s.drop_last().take(j));
        lemma_prefix_occurrences(s.drop_last(), j, x);
    }
}

} // verus!
