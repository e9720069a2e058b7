//! Vote inversions over a compressed DAG, from which the flakiness of an oracle is estimated.
use crate::dag::{DAGNode, ascending, lemma_remainder_decomposition, node_wf, reaches};
use crate::flakiness_tracker::{
    FlakinessTracker,
    VoteBucket,
    records_vote,
    heads_of,
    inversions_of,
    random_inversions_of,
    sum_by,
    tails_of,
    votes_of,
};
use crate::{CompressedDAG, CompressedDAGNodeRef, CompressedDAGSegment};
use std::rc::Rc;
use vstd::prelude::*;

verus! {

/// `f` of the votes of segment `s`, for every `s`; 0 past the last segment.
pub open spec fn per_segment(v: Seq<Seq<VoteBucket>>, f: spec_fn(VoteBucket) -> nat) -> spec_fn(
    usize,
) -> nat {
    |s: usize|
        if s < v.len() {
            sum_by(v[s as int], f)
        } else {
            0
        }
}

/// The sum of `g` over the members of `set` below `n`.
pub open spec fn set_sum(g: spec_fn(usize) -> nat, set: Set<usize>, n: nat) -> nat
    decreases n,
{
    if n == 0 {
        0
    } else {
        set_sum(g, set, (n - 1) as nat) + if set.contains((n - 1) as usize) {
            g((n - 1) as usize)
        } else {
            0
        }
    }
}

/// The sum of `g` over a list of indices.
pub open spec fn list_sum(g: spec_fn(usize) -> nat, s: Seq<usize>) -> nat
    decreases s.len(),
{
    if s.len() == 0 {
        0
    } else {
        list_sum(g, s.drop_last()) + g(s.last())
    }
}

/// The heads votes cast at the strict ancestors of segment `s`.
pub open spec fn heads_at(
    nodes: Seq<DAGNode<CompressedDAGSegment>>,
    v: Seq<Seq<VoteBucket>>,
    s: int,
) -> nat {
    set_sum(per_segment(v, heads_of()), nodes[s].spec_ancestors(), nodes.len())
}

/// The votes cast at the strict ancestors of segment `s`.
pub open spec fn votes_at(
    nodes: Seq<DAGNode<CompressedDAGSegment>>,
    v: Seq<Seq<VoteBucket>>,
    s: int,
) -> nat {
    set_sum(per_segment(v, votes_of()), nodes[s].spec_ancestors(), nodes.len())
}

/// Inversions over the first `k` segments: within each segment, and between the tails votes of
/// a segment and the heads votes of its ancestors.
pub open spec fn dag_inversions(
    nodes: Seq<DAGNode<CompressedDAGSegment>>,
    v: Seq<Seq<VoteBucket>>,
    k: nat,
) -> nat
    decreases k,
{
    if k == 0 {
        0
    } else {
        let s = k - 1;
        dag_inversions(nodes, v, (k - 1) as nat) + sum_by(v[s], tails_of()) * heads_at(nodes, v, s)
            + inversions_of(v[s])
    }
}

/// Four times the expected random inversions over the first `k` segments, counted as
/// `dag_inversions` counts inversions.
pub open spec fn dag_random_inversions(
    nodes: Seq<DAGNode<CompressedDAGSegment>>,
    v: Seq<Seq<VoteBucket>>,
    k: nat,
) -> nat
    decreases k,
{
    if k == 0 {
        0
    } else {
        let s = k - 1;
        dag_random_inversions(nodes, v, (k - 1) as nat) + sum_by(v[s], votes_of()) * votes_at(
            nodes,
            v,
            s,
        ) + random_inversions_of(v[s])
    }
}

/// The sum over disjoint sets is the sum of the sums.
pub proof fn lemma_set_sum_disjoint(g: spec_fn(usize) -> nat, a: Set<usize>, b: Set<usize>, n: nat)
    requires
        a.disjoint(b),
    ensures
        set_sum(g, a.union(b), n) == set_sum(g, a, n) + set_sum(g, b, n),
    decreases n,
{
    if n > 0 {
        lemma_set_sum_disjoint(g, a, b, (n - 1) as nat);
    }
}

/// The sum over one index below `n` is its value.
pub proof fn lemma_set_sum_single(g: spec_fn(usize) -> nat, x: usize, n: nat)
    requires
        x < n <= usize::MAX,
    ensures
        set_sum(g, Set::empty().insert(x), n) == g(x),
    decreases n,
{
    if n > x + 1 {
        lemma_set_sum_single(g, x, (n - 1) as nat);
        assert(!Set::empty().insert(x).contains(((n - 1) as nat) as usize));
    } else {
        lemma_set_sum_empty(g, x as nat);
        assert(set_sum(g, Set::empty().insert(x), x as nat) == set_sum(g, Set::empty(), x as nat))
            by {
            lemma_set_sum_agree(g, Set::empty().insert(x), Set::empty(), x as nat);
        }
        assert(((n - 1) as nat) == x as nat);
        assert(Set::empty().insert(x).contains(((n - 1) as nat) as usize));
        assert(set_sum(g, Set::empty().insert(x), n) == set_sum(g, Set::empty().insert(x), x as nat)
            + g(x));
    }
}

/// The sum over the empty set is 0.
pub proof fn lemma_set_sum_empty(g: spec_fn(usize) -> nat, n: nat)
    ensures
        set_sum(g, Set::empty(), n) == 0,
    decreases n,
{
    if n > 0 {
        lemma_set_sum_empty(g, (n - 1) as nat);
    }
}

/// Sets that agree below `n` have the same sum.
pub proof fn lemma_set_sum_agree(g: spec_fn(usize) -> nat, a: Set<usize>, b: Set<usize>, n: nat)
    requires
        forall|x: usize| x < n ==> (a.contains(x) <==> b.contains(x)),
    ensures
        set_sum(g, a, n) == set_sum(g, b, n),
    decreases n,
{
    if n > 0 {
        lemma_set_sum_agree(g, a, b, (n - 1) as nat);
    }
}

/// A sum over a subset is at most the sum over the set, and a smaller summand gives a smaller
/// sum.
pub proof fn lemma_set_sum_le(
    g: spec_fn(usize) -> nat,
    h: spec_fn(usize) -> nat,
    a: Set<usize>,
    b: Set<usize>,
    n: nat,
)
    requires
        a.subset_of(b),
        forall|x: usize| #[trigger] g(x) <= h(x),
    ensures
        set_sum(g, a, n) <= set_sum(h, b, n),
    decreases n,
{
    if n > 0 {
        lemma_set_sum_le(g, h, a, b, (n - 1) as nat);
    }
}

/// The sum over a list without repeats, all below `n`, is the sum over its set.
pub proof fn lemma_list_sum_set(g: spec_fn(usize) -> nat, s: Seq<usize>, n: nat)
    requires
        ascending(s),
        n <= usize::MAX,
        forall|j: int| 0 <= j < s.len() ==> #[trigger] s[j] < n,
    ensures
        list_sum(g, s) == set_sum(g, s.to_set(), n),
    decreases s.len(),
{
    if s.len() == 0 {
        assert(s.to_set() =~= Set::empty());
        lemma_set_sum_empty(g, n);
    } else {
        let p = s.drop_last();
        let x = s.last();
        assert(ascending(p));
        lemma_list_sum_set(g, p, n);
        assert(s.to_set() =~= p.to_set().union(Set::empty().insert(x))) by {
            assert forall|y: usize| s.to_set().contains(y) implies p.to_set().union(
                Set::empty().insert(x),
            ).contains(y) by {
                let j = choose|j: int| 0 <= j < s.len() && s[j] == y;
                if j < s.len() - 1 {
                    assert(p[j] == y);
                }
            }
            assert forall|y: usize| p.to_set().contains(y) implies s.to_set().contains(y) by {
                let j = choose|j: int| 0 <= j < p.len() && p[j] == y;
                assert(s[j] == y);
            }
            assert(s[s.len() - 1] == x);
        }
        assert(p.to_set().disjoint(Set::empty().insert(x))) by {
            assert forall|y: usize| p.to_set().contains(y) implies y != x by {
                let j = choose|j: int| 0 <= j < p.len() && p[j] == y;
                assert(s[j] < s[s.len() - 1]);
            }
        }
        lemma_set_sum_disjoint(g, p.to_set(), Set::empty().insert(x), n);
        lemma_set_sum_single(g, x, n);
    }
}

/// Adding one to the summand at a member below `n` adds one to the sum.
pub proof fn lemma_set_sum_bump(
    g: spec_fn(usize) -> nat,
    h: spec_fn(usize) -> nat,
    a: Set<usize>,
    x: usize,
    n: nat,
)
    requires
        a.contains(x),
        x < n <= usize::MAX,
        h(x) == g(x) + 1,
        forall|y: usize| y != x ==> #[trigger] h(y) == g(y),
    ensures
        set_sum(h, a, n) == set_sum(g, a, n) + 1,
    decreases n,
{
    if n > x + 1 {
        lemma_set_sum_bump(g, h, a, x, (n - 1) as nat);
        assert(((n - 1) as nat) as usize != x);
    } else {
        lemma_set_sum_agree_fn(g, h, a, x as nat);
        assert(((n - 1) as nat) as usize == x);
    }
}

/// Summands that agree below `n` give the same sum.
pub proof fn lemma_set_sum_agree_fn(g: spec_fn(usize) -> nat, h: spec_fn(usize) -> nat, a: Set<usize>, n: nat)
    requires
        n <= usize::MAX + 1,
        forall|y: usize| y < n ==> #[trigger] h(y) == g(y),
    ensures
        set_sum(h, a, n) == set_sum(g, a, n),
    decreases n,
{
    if n > 0 {
        lemma_set_sum_agree_fn(g, h, a, (n - 1) as nat);
        assert(((n - 1) as nat) as usize == n - 1);
    }
}

/// A member's summand is at most the sum.
pub proof fn lemma_set_sum_member(g: spec_fn(usize) -> nat, a: Set<usize>, x: usize, n: nat)
    requires
        a.contains(x),
        x < n <= usize::MAX,
    ensures
        g(x) <= set_sum(g, a, n),
{
    lemma_set_sum_single(g, x, n);
    assert forall|y: usize| #[trigger] g(y) <= g(y) by {}
    lemma_set_sum_le(g, g, Set::empty().insert(x), a, n);
}

/// A prefix of a list sums to at most the list.
pub proof fn lemma_list_sum_prefix_le(g: spec_fn(usize) -> nat, s: Seq<usize>, j: int)
    requires
        0 <= j <= s.len(),
    ensures
        list_sum(g, s.take(j)) <= list_sum(g, s),
    decreases s.len(),
{
    if j == s.len() {
        assert(s.take(j) =~= s);
    } else {
        assert(s.take(j) =~= s.drop_last().take(j));
        lemma_list_sum_prefix_le(g, s.drop_last(), j);
    }
}

/// The totals over a prefix of the segments are at most those over more of them.
pub proof fn lemma_dag_prefix_le(
    nodes: Seq<DAGNode<CompressedDAGSegment>>,
    v: Seq<Seq<VoteBucket>>,
    j: nat,
    k: nat,
)
    requires
        j <= k,
    ensures
        dag_inversions(nodes, v, j) <= dag_inversions(nodes, v, k),
        dag_random_inversions(nodes, v, j) <= dag_random_inversions(nodes, v, k),
    decreases k,
{
    if j < k {
        lemma_dag_prefix_le(nodes, v, j, (k - 1) as nat);
    }
}

/// Calculates vote inversions over a graph, which can be used to estimate flakiness.
#[derive(Clone, Debug)]
pub struct CompressedDAGFlakinessTracker {
    graph: Rc<CompressedDAG>,
    votes: Vec<FlakinessTracker>,
}

impl CompressedDAGFlakinessTracker {
    /// The graph.
    pub closed spec fn graph(&self) -> CompressedDAG {
        *self.graph
    }

    /// The buckets of votes of each segment.
    pub closed spec fn segment_votes(&self) -> Seq<Seq<VoteBucket>> {
        self.votes@.map_values(|t: FlakinessTracker| t.buckets())
    }

    /// The number of votes cast.
    pub open spec fn spec_total_votes(&self) -> nat {
        set_sum(
            per_segment(self.segment_votes(), votes_of()),
            Set::full(),
            self.segment_votes().len(),
        )
    }

    /// The graph is consistent, each segment has a consistent tracker, and the vote count fits
    /// in a `usize`.
    pub closed spec fn wf(&self) -> bool {
        &&& self.graph().wf()
        &&& self.votes.len() == self.graph().spec_nodes().len()
        &&& forall|s: int| 0 <= s < self.votes.len() ==> (#[trigger] self.votes[s]).wf()
        &&& self.spec_total_votes() <= usize::MAX
    }

    /// Creates a CompressedDAGFlakinessTracker for the given graph.
    pub fn new(graph: Rc<CompressedDAG>) -> (r: Self)
        requires
            graph.wf(),
        ensures
            r.wf(),
            r.graph() == *graph,
            r.segment_votes().len() == graph.spec_nodes().len(),
            forall|s: int| 0 <= s < r.segment_votes().len() ==> #[trigger] r.segment_votes()[s].len() == 0,
    {
        let n = graph.nodes().len();
        let mut votes: Vec<FlakinessTracker> = Vec::new();
        for s in 0..n
            invariant
                votes.len() == s,
                forall|j: int| 0 <= j < s ==> (#[trigger] votes[j]).wf() && votes[j].buckets().len() == 0,
        {
            votes.push(FlakinessTracker::default());
        }
        let r = CompressedDAGFlakinessTracker { graph, votes };
        proof {
            let v = r.segment_votes();
            assert forall|s: int| 0 <= s < v.len() implies #[trigger] v[s].len() == 0 by {
                assert(v[s] == r.votes[s].buckets());
            }
            assert forall|x: usize| #[trigger] per_segment(v, votes_of())(x) <= 0nat by {
                if x < v.len() {
                    assert(v[x as int].len() == 0);
                }
            }
            lemma_set_sum_le(per_segment(v, votes_of()), |x: usize| 0nat, Set::full(), Set::full(), v.len());
            lemma_set_sum_zero(v.len());
        }
        r
    }

    /// Adds a vote to the internal statistics. With low flakiness, true votes are expected not
    /// to appear in the ancestors of false votes.
    pub fn report(&mut self, node: CompressedDAGNodeRef, heads: bool)
        requires
            old(self).wf(),
            node.segment < old(self).segment_votes().len(),
            old(self).spec_total_votes() < usize::MAX,
        ensures
            final(self).wf(),
            final(self).graph() == old(self).graph(),
            final(self).segment_votes().len() == old(self).segment_votes().len(),
            forall|s: int|
                0 <= s < old(self).segment_votes().len() && s != node.segment
                    ==> #[trigger] final(self).segment_votes()[s] == old(self).segment_votes()[s],
            records_vote(
                old(self).segment_votes()[node.segment as int],
                final(self).segment_votes()[node.segment as int],
                node.index,
                heads,
            ),
            final(self).spec_total_votes() == old(self).spec_total_votes() + 1,
    {
        let ghost old_votes = self.votes@;
        let ghost v = self.segment_votes();
        let seg = node.segment;
        proof {
            assert(v[seg as int] == old_votes[seg as int].buckets());
            assert(Set::<usize>::full().contains(seg));
            lemma_set_sum_member(per_segment(v, votes_of()), Set::full(), seg, v.len());
        }
        self.votes[seg].report(node.index, heads);
        proof {
            let tracker = self.votes@[seg as int];
            assert(self.votes@ =~= old_votes.update(seg as int, tracker));
            let w = self.segment_votes();
            assert forall|s: int| 0 <= s < w.len() implies #[trigger] w[s] == (if s == seg {
                tracker.buckets()
            } else {
                v[s]
            }) by {}
            assert forall|s: int| 0 <= s < self.votes.len() implies (#[trigger] self.votes[s]).wf() by {
                if s != seg {
                    assert(self.votes[s] == old_votes[s]);
                }
            }
            lemma_set_sum_bump(
                per_segment(v, votes_of()),
                per_segment(w, votes_of()),
                Set::full(),
                seg,
                v.len(),
            );
        }
    }

    /// Returns the number of inversions and four times the number of "random" inversions. The
    /// "random" inversions are those that would be expected if the votes were cast at the same
    /// nodes but were randomly half heads and half tails; scaling by four keeps them integral.
    pub fn inversions(&self) -> (r: (usize, usize))
        requires
            self.wf(),
            dag_inversions(self.graph().spec_nodes(), self.segment_votes(), self.segment_votes().len())
                <= usize::MAX,
            dag_random_inversions(
                self.graph().spec_nodes(),
                self.segment_votes(),
                self.segment_votes().len(),
            ) <= usize::MAX,
        ensures
            r.0 == dag_inversions(self.graph().spec_nodes(), self.segment_votes(), self.segment_votes().len()),
            r.1 == dag_random_inversions(
                self.graph().spec_nodes(),
                self.segment_votes(),
                self.segment_votes().len(),
            ),
    {
        let graph: &CompressedDAG = &*self.graph;
        let ghost nodes = graph.spec_nodes();
        let ghost v = self.segment_votes();
        let ghost hs = per_segment(v, heads_of());
        let ghost vs = per_segment(v, votes_of());
        let n = self.votes.len();
        proof {
            assert forall|x: usize| #[trigger] hs(x) <= vs(x) by {
                if x < v.len() {
                    FlakinessTracker::lemma_votes_split(v[x as int]);
                }
            }
            assert forall|s: int| 0 <= s < n implies #[trigger] v[s] == self.votes[s].buckets() by {}
        }
        let mut at: Vec<(usize, usize)> = Vec::new();
        let mut inversions: usize = 0;
        let mut random_inversions: usize = 0;
        for s in 0..n
            invariant
                self.wf(),
                graph == &*self.graph,
                nodes == graph.spec_nodes(),
                v == self.segment_votes(),
                hs == per_segment(v, heads_of()),
                vs == per_segment(v, votes_of()),
                n == v.len(),
                n == nodes.len(),
                forall|x: usize| #[trigger] hs(x) <= vs(x),
                forall|j: int| 0 <= j < n ==> #[trigger] v[j] == self.votes[j].buckets(),
                dag_inversions(nodes, v, n as nat) <= usize::MAX,
                dag_random_inversions(nodes, v, n as nat) <= usize::MAX,
                at.len() == s,
                forall|j: int|
                    0 <= j < s ==> (#[trigger] at[j]).0 == heads_at(nodes, v, j) && at[j].1
                        == votes_at(nodes, v, j),
                inversions == dag_inversions(nodes, v, s as nat),
                random_inversions == dag_random_inversions(nodes, v, s as nat),
        {
            let node = graph.node(s);
            let inputs = node.inputs();
            let mut h: usize = 0;
            let mut w: usize = 0;
            proof {
                assert(self.graph() == *graph);
                assert(node_wf(nodes, s as int));
                lemma_set_sum_le(hs, vs, nodes[s as int].spec_ancestors(), Set::full(), n as nat);
                lemma_set_sum_le(vs, vs, nodes[s as int].spec_ancestors(), Set::full(), n as nat);
            }
            if inputs.len() > 0 {
                let first = inputs[0];
                let rem = node.remainder_ancestors();
                let ghost anc_first = nodes[first as int].spec_ancestors();
                let ghost base = anc_first.insert(first);
                let ghost rem_set = rem@.to_set();
                proof {
                    lemma_remainder_decomposition(graph, s as int);
                    assert(base =~= anc_first.union(Set::empty().insert(first)));
                    assert(!anc_first.contains(first));
                    assert(anc_first.disjoint(Set::empty().insert(first)));
                    lemma_set_sum_disjoint(hs, anc_first, Set::empty().insert(first), n as nat);
                    lemma_set_sum_disjoint(vs, anc_first, Set::empty().insert(first), n as nat);
                    lemma_set_sum_single(hs, first, n as nat);
                    lemma_set_sum_single(vs, first, n as nat);
                    assert(base.disjoint(rem_set));
                    lemma_set_sum_disjoint(hs, base, rem_set, n as nat);
                    lemma_set_sum_disjoint(vs, base, rem_set, n as nat);
                    assert forall|j: int| 0 <= j < rem@.len() implies #[trigger] rem@[j] < n by {
                        assert(rem@.contains(rem@[j]));
                    }
                    lemma_list_sum_set(hs, rem@, n as nat);
                    lemma_list_sum_set(vs, rem@, n as nat);
                    assert(hs(first) == self.votes[first as int].spec_total_heads());
                    assert(vs(first) == self.votes[first as int].spec_total_votes());
                }
                h = at[first].0 + self.votes[first].total_heads();
                w = at[first].1 + self.votes[first].total_votes();
                for j in 0..rem.len()
                    invariant
                        self.wf(),
                        v == self.segment_votes(),
                        hs == per_segment(v, heads_of()),
                        vs == per_segment(v, votes_of()),
                        n == v.len(),
                        forall|x: usize| #[trigger] hs(x) <= vs(x),
                        forall|t: int| 0 <= t < n ==> #[trigger] v[t] == self.votes[t].buckets(),
                        forall|t: int| 0 <= t < rem@.len() ==> #[trigger] rem@[t] < n,
                        h == set_sum(hs, base, n as nat) + list_sum(hs, rem@.take(j as int)),
                        w == set_sum(vs, base, n as nat) + list_sum(vs, rem@.take(j as int)),
                        set_sum(hs, base, n as nat) + list_sum(hs, rem@) <= usize::MAX,
                        set_sum(vs, base, n as nat) + list_sum(vs, rem@) <= usize::MAX,
                {
                    let a = rem[j];
                    proof {
                        let t = rem@.take(j + 1);
                        assert(t.drop_last() =~= rem@.take(j as int));
                        assert(t.last() == a);
                        lemma_list_sum_prefix_le(hs, rem@, j + 1);
                        lemma_list_sum_prefix_le(vs, rem@, j + 1);
                        assert(hs(a) == self.votes[a as int].spec_total_heads());
                        assert(vs(a) == self.votes[a as int].spec_total_votes());
                    }
                    h = h + self.votes[a].total_heads();
                    w = w + self.votes[a].total_votes();
                }
                proof {
                    assert(rem@.take(rem@.len() as int) =~= rem@);
                }
            } else {
                proof {
                    assert(nodes[s as int].spec_ancestors() =~= Set::empty()) by {
                        assert forall|a: usize| !nodes[s as int].spec_ancestors().contains(a) by {
                            assert(!reaches(nodes, nodes[s as int].spec_inputs(), a));
                        }
                    }
                    lemma_set_sum_empty(hs, n as nat);
                    lemma_set_sum_empty(vs, n as nat);
                }
            }
            at.push((h, w));
            let tracker = &self.votes[s];
            proof {
                lemma_dag_prefix_le(nodes, v, (s + 1) as nat, n as nat);
                assert(v[s as int] == tracker.buckets());
            }
            let (i, r) = tracker.inversions();
            inversions = inversions + tracker.total_tails() * h + i;
            random_inversions = random_inversions + tracker.total_votes() * w + r;
        }
        (inversions, random_inversions)
    }
}

/// A sum of zeros is 0.
proof fn lemma_set_sum_zero(n: nat)
    ensures
        set_sum(|x: usize| 0nat, Set::full(), n) == 0,
    decreases n,
{
    if n > 0 {
        lemma_set_sum_zero((n - 1) as nat);
    }
}

} // verus!
