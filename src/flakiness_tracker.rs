//! Vote inversions over a linear range, from which the flakiness of an oracle is estimated.
use vstd::prelude::*;

verus! {

/// The votes cast at one index.
#[derive(Clone, Copy, Debug, PartialEq, Eq)]
pub struct VoteBucket {
    /// The index the votes were cast at.
    pub index: usize,
    /// Number of tails (false) votes.
    pub tails: usize,
    /// Number of heads (true) votes.
    pub heads: usize,
}

/// The sum of `f` over the buckets.
pub open spec fn sum_by(s: Seq<VoteBucket>, f: spec_fn(VoteBucket) -> nat) -> nat
    decreases s.len(),
{
    if s.len() == 0 {
        0
    } else {
        sum_by(s.drop_last(), f) + f(s.last())
    }
}

/// Heads votes of a bucket.
pub open spec fn heads_of() -> spec_fn(VoteBucket) -> nat {
    |b: VoteBucket| b.heads as nat
}

/// Tails votes of a bucket.
pub open spec fn tails_of() -> spec_fn(VoteBucket) -> nat {
    |b: VoteBucket| b.tails as nat
}

/// All votes of a bucket.
pub open spec fn votes_of() -> spec_fn(VoteBucket) -> nat {
    |b: VoteBucket| (b.heads + b.tails) as nat
}

/// Pairs of votes `(a, b)` with `a` at or before `b`, `a` heads and `b` tails, the buckets
/// being taken in order.
pub open spec fn inversions_of(s: Seq<VoteBucket>) -> nat
    decreases s.len(),
{
    if s.len() == 0 {
        0
    } else {
        let p = s.drop_last();
        let b = s.last();
        (inversions_of(p) + b.tails * sum_by(p, heads_of()) + b.tails * b.heads) as nat
    }
}

/// Four times the number of inversions expected if every vote were heads or tails with
/// probability one half, the buckets being taken in order.
pub open spec fn random_inversions_of(s: Seq<VoteBucket>) -> nat
    decreases s.len(),
{
    if s.len() == 0 {
        0
    } else {
        let p = s.drop_last();
        let v = s.last().heads + s.last().tails;
        (random_inversions_of(p) + v * v + v * sum_by(p, votes_of())) as nat
    }
}

/// The buckets are in strictly increasing order of index.
pub open spec fn strictly_sorted(s: Seq<VoteBucket>) -> bool {
    forall|j: int, k: int| 0 <= j < k < s.len() ==> #[trigger] s[j].index < #[trigger] s[k].index
}

/// The bucket a vote at `index` lands in, with the vote counted.
pub open spec fn bucket_with_vote(b: VoteBucket, heads: bool) -> VoteBucket {
    VoteBucket {
        index: b.index,
        tails: (b.tails + if heads {
            0int
        } else {
            1int
        }) as usize,
        heads: (b.heads + if heads {
            1int
        } else {
            0int
        }) as usize,
    }
}

/// `new` is `old` with one more vote at `index`: the bucket of `index` counts it, or a new
/// bucket holding only that vote stands in its place in the order.
pub open spec fn records_vote(
    old: Seq<VoteBucket>,
    new: Seq<VoteBucket>,
    index: usize,
    heads: bool,
) -> bool {
    ||| exists|k: int|
        0 <= k < old.len() && #[trigger] old[k].index == index && new == old.update(
            k,
            bucket_with_vote(old[k], heads),
        )
    ||| (forall|k: int| 0 <= k < old.len() ==> #[trigger] old[k].index != index) && exists|p: int|
        0 <= p <= old.len() && new == #[trigger] old.insert(
            p,
            bucket_with_vote(VoteBucket { index, tails: 0, heads: 0 }, heads),
        )
}

/// Recording a vote is deterministic: from the same sorted buckets, the same vote gives the
/// same sorted buckets, so trackers built by the same reports hold the same votes and report
/// the same inversions.
pub proof fn lemma_records_vote_deterministic(
    old: Seq<VoteBucket>,
    a: Seq<VoteBucket>,
    b: Seq<VoteBucket>,
    index: usize,
    heads: bool,
)
    requires
        strictly_sorted(old),
        strictly_sorted(a),
        strictly_sorted(b),
        records_vote(old, a, index, heads),
        records_vote(old, b, index, heads),
    ensures
        a == b,
{
    if exists|k: int| 0 <= k < old.len() && #[trigger] old[k].index == index {
        let ka = choose|k: int|
            0 <= k < old.len() && #[trigger] old[k].index == index && a == old.update(
                k,
                bucket_with_vote(old[k], heads),
            );
        let kb = choose|k: int|
            0 <= k < old.len() && #[trigger] old[k].index == index && b == old.update(
                k,
                bucket_with_vote(old[k], heads),
            );
        if ka < kb {
            assert(old[ka].index < old[kb].index);
        } else if kb < ka {
            assert(old[kb].index < old[ka].index);
        }
    } else {
        let nb = bucket_with_vote(VoteBucket { index, tails: 0, heads: 0 }, heads);
        let pa = choose|p: int| 0 <= p <= old.len() && a == #[trigger] old.insert(p, nb);
        let pb = choose|p: int| 0 <= p <= old.len() && b == #[trigger] old.insert(p, nb);
        if pa < pb {
            assert(a[pa].index == index);
            assert(b[pa] == old[pa]);
            assert(b[pb].index == index);
            assert(a[pa + 1] == old[pa]);
            assert(old[pa].index < index);
        } else if pb < pa {
            assert(b[pb].index == index);
            assert(a[pb] == old[pb]);
            assert(a[pa].index == index);
            assert(b[pb + 1] == old[pb]);
            assert(old[pb].index < index);
        }
    }
}

/// A bucket's share is at most the sum.
pub proof fn lemma_sum_ge_elem(s: Seq<VoteBucket>, f: spec_fn(VoteBucket) -> nat, k: int)
    requires
        0 <= k < s.len(),
    ensures
        f(s[k]) <= sum_by(s, f),
    decreases s.len(),
{
    if k < s.len() - 1 {
        lemma_sum_ge_elem(s.drop_last(), f, k);
    }
}

/// Replacing a bucket changes the sum by the difference.
pub proof fn lemma_sum_update(
    s: Seq<VoteBucket>,
    f: spec_fn(VoteBucket) -> nat,
    k: int,
    b: VoteBucket,
)
    requires
        0 <= k < s.len(),
    ensures
        sum_by(s.update(k, b), f) == sum_by(s, f) - f(s[k]) + f(b),
    decreases s.len(),
{
    let t = s.update(k, b);
    if k == s.len() - 1 {
        assert(t.drop_last() =~= s.drop_last());
    } else {
        assert(t.drop_last() =~= s.drop_last().update(k, b));
        lemma_sum_update(s.drop_last(), f, k, b);
    }
}

/// Inserting a bucket adds its share to the sum.
pub proof fn lemma_sum_insert(
    s: Seq<VoteBucket>,
    f: spec_fn(VoteBucket) -> nat,
    p: int,
    b: VoteBucket,
)
    requires
        0 <= p <= s.len(),
    ensures
        sum_by(s.insert(p, b), f) == sum_by(s, f) + f(b),
    decreases s.len(),
{
    let t = s.insert(p, b);
    if p == s.len() {
        assert(t.drop_last() =~= s);
    } else {
        assert(t.drop_last() =~= s.drop_last().insert(p, b));
        assert(t.last() == s.last());
        lemma_sum_insert(s.drop_last(), f, p, b);
    }
}

/// The counts over a prefix are at most those over the whole.
pub proof fn lemma_prefix_le(s: Seq<VoteBucket>, k: int)
    requires
        0 <= k <= s.len(),
    ensures
        inversions_of(s.take(k)) <= inversions_of(s),
        random_inversions_of(s.take(k)) <= random_inversions_of(s),
        sum_by(s.take(k), heads_of()) <= sum_by(s, heads_of()),
        sum_by(s.take(k), votes_of()) <= sum_by(s, votes_of()),
    decreases s.len(),
{
    if k == s.len() {
        assert(s.take(k) =~= s);
    } else {
        assert(s.take(k) =~= s.drop_last().take(k));
        lemma_prefix_le(s.drop_last(), k);
    }
}

/// INTERNAL ONLY.
///
/// Calculates vote inversions in a linear range, which can be used to estimate flakiness.
#[derive(Clone, Debug)]
pub struct FlakinessTracker {
    /// Buckets of votes, in increasing order of index.
    votes: Vec<VoteBucket>,
    total_heads: usize,
    total_tails: usize,
}

impl Default for FlakinessTracker {
    /// A tracker with no votes.
    fn default() -> (r: Self)
        ensures
            r.wf(),
            r.buckets() == Seq::<VoteBucket>::empty(),
            strictly_sorted(r.buckets()),
    {
        FlakinessTracker { votes: Vec::new(), total_heads: 0, total_tails: 0 }
    }
}

impl FlakinessTracker {
    /// The buckets of votes, in increasing order of index.
    pub closed spec fn buckets(&self) -> Seq<VoteBucket> {
        self.votes@
    }

    /// The number of heads votes.
    pub open spec fn spec_total_heads(&self) -> nat {
        sum_by(self.buckets(), heads_of())
    }

    /// The number of tails votes.
    pub open spec fn spec_total_tails(&self) -> nat {
        sum_by(self.buckets(), tails_of())
    }

    /// The number of votes.
    pub open spec fn spec_total_votes(&self) -> nat {
        sum_by(self.buckets(), votes_of())
    }

    /// The buckets are sorted, the totals are kept, and the vote count fits in a `usize`.
    pub closed spec fn wf(&self) -> bool {
        &&& strictly_sorted(self.votes@)
        &&& self.total_heads == sum_by(self.votes@, heads_of())
        &&& self.total_tails == sum_by(self.votes@, tails_of())
        &&& self.total_heads + self.total_tails <= usize::MAX
    }

    /// A consistent tracker keeps its buckets in increasing order of index.
    pub proof fn lemma_wf_sorted(&self)
        requires
            self.wf(),
        ensures
            strictly_sorted(self.buckets()),
    {
    }

    /// The vote totals agree: all votes are heads or tails.
    pub proof fn lemma_votes_split(s: Seq<VoteBucket>)
        ensures
            sum_by(s, votes_of()) == sum_by(s, heads_of()) + sum_by(s, tails_of()),
        decreases s.len(),
    {
        if s.len() > 0 {
            Self::lemma_votes_split(s.drop_last());
        }
    }

    /// Adds a vote to the internal statistics. With low flakiness, false votes are expected to
    /// have smaller indices than true votes.
    pub fn report(&mut self, index: usize, heads: bool)
        requires
            old(self).wf(),
            old(self).spec_total_votes() < usize::MAX,
        ensures
            final(self).wf(),
            strictly_sorted(final(self).buckets()),
            records_vote(old(self).buckets(), final(self).buckets(), index, heads),
            final(self).spec_total_heads() == old(self).spec_total_heads() + if heads {
                1int
            } else {
                0int
            },
            final(self).spec_total_tails() == old(self).spec_total_tails() + if heads {
                0int
            } else {
                1int
            },
            final(self).spec_total_votes() == old(self).spec_total_votes() + 1,
    {
        let ghost s = self.votes@;
        proof {
            Self::lemma_votes_split(s);
        }
        let mut lo: usize = 0;
        let mut hi: usize = self.votes.len();
        while lo < hi
            invariant
                s == self.votes@,
                strictly_sorted(s),
                0 <= lo <= hi <= s.len(),
                forall|j: int| 0 <= j < lo ==> #[trigger] s[j].index < index,
                forall|j: int| hi <= j < s.len() ==> #[trigger] s[j].index >= index,
            decreases hi - lo,
        {
            let mid = lo + (hi - lo) / 2;
            if self.votes[mid].index < index {
                lo = mid + 1;
            } else {
                hi = mid;
            }
        }
        let p = lo;
        let dh: usize = if heads {
            1
        } else {
            0
        };
        let dt: usize = if heads {
            0
        } else {
            1
        };
        if p < self.votes.len() && self.votes[p].index == index {
            let b = self.votes[p];
            proof {
                lemma_sum_ge_elem(s, heads_of(), p as int);
                lemma_sum_ge_elem(s, tails_of(), p as int);
            }
            let nb = VoteBucket { index, tails: b.tails + dt, heads: b.heads + dh };
            self.votes.set(p, nb);
            proof {
                assert(nb == bucket_with_vote(s[p as int], heads));
                assert(self.votes@ == s.update(p as int, nb));
                lemma_sum_update(s, heads_of(), p as int, nb);
                lemma_sum_update(s, tails_of(), p as int, nb);
                lemma_sum_update(s, votes_of(), p as int, nb);
                assert(strictly_sorted(self.votes@)) by {
                    assert forall|j: int, k: int|
                        0 <= j < k < self.votes@.len() implies #[trigger] self.votes@[j].index
                        < #[trigger] self.votes@[k].index by {
                        assert(self.votes@[j].index == s[j].index);
                        assert(self.votes@[k].index == s[k].index);
                    }
                }
            }
        } else {
            let nb = VoteBucket { index, tails: dt, heads: dh };
            self.votes.insert(p, nb);
            proof {
                assert(nb == bucket_with_vote(VoteBucket { index, tails: 0, heads: 0 }, heads));
                assert forall|k: int| 0 <= k < s.len() implies #[trigger] s[k].index != index by {
                    if k >= p {
                        assert(s[k].index >= index);
                        if k > p {
                            assert(s[p as int].index < s[k].index);
                        }
                    }
                }
                lemma_sum_insert(s, heads_of(), p as int, nb);
                lemma_sum_insert(s, tails_of(), p as int, nb);
                lemma_sum_insert(s, votes_of(), p as int, nb);
                let t = self.votes@;
                assert(t == s.insert(p as int, nb));
                assert(strictly_sorted(t)) by {
                    assert forall|j: int, k: int| 0 <= j < k < t.len() implies #[trigger] t[j].index
                        < #[trigger] t[k].index by {
                        if j < p && k < p {
                            assert(t[j] == s[j] && t[k] == s[k]);
                        } else if j < p && k == p {
                            assert(t[j] == s[j]);
                        } else if j < p && k > p {
                            assert(t[j] == s[j] && t[k] == s[k - 1]);
                        } else if j == p {
                            assert(t[k] == s[k - 1]);
                        } else {
                            assert(t[j] == s[j - 1] && t[k] == s[k - 1]);
                        }
                    }
                }
            }
        }
        if heads {
            self.total_heads = self.total_heads + 1;
        } else {
            self.total_tails = self.total_tails + 1;
        }
    }

    /// Returns the number of inversions and four times the number of "random" inversions. The
    /// "random" inversions are those that would be expected if the votes were cast at the same
    /// indices but were randomly half heads and half tails; scaling by four keeps them integral.
    pub fn inversions(&self) -> (r: (usize, usize))
        requires
            self.wf(),
            inversions_of(self.buckets()) <= usize::MAX,
            random_inversions_of(self.buckets()) <= usize::MAX,
        ensures
            r.0 == inversions_of(self.buckets()),
            r.1 == random_inversions_of(self.buckets()),
    {
        let ghost s = self.votes@;
        proof {
            Self::lemma_votes_split(s);
        }
        let mut headstotal: usize = 0;
        let mut inverted: usize = 0;
        let mut random_inversions: usize = 0;
        let mut total_votes: usize = 0;
        let n = self.votes.len();
        for k in 0..n
            invariant
                s == self.votes@,
                n == s.len(),
                inversions_of(s) <= usize::MAX,
                random_inversions_of(s) <= usize::MAX,
                sum_by(s, votes_of()) <= usize::MAX,
                sum_by(s, heads_of()) <= usize::MAX,
                headstotal == sum_by(s.take(k as int), heads_of()),
                total_votes == sum_by(s.take(k as int), votes_of()),
                inverted == inversions_of(s.take(k as int)),
                random_inversions == random_inversions_of(s.take(k as int)),
        {
            let b = self.votes[k];
            proof {
                let t = s.take(k + 1);
                assert(t.drop_last() =~= s.take(k as int));
                assert(t.last() == b);
                lemma_prefix_le(s, k + 1);
                lemma_sum_ge_elem(s, votes_of(), k as int);
                assert(sum_by(t, heads_of()) == headstotal + b.heads);
                assert(sum_by(t, votes_of()) == total_votes + b.heads + b.tails);
            }
            let votes = b.heads + b.tails;
            random_inversions = random_inversions + votes * votes + votes * total_votes;
            inverted = inverted + b.tails * headstotal + b.tails * b.heads;
            headstotal = headstotal + b.heads;
            total_votes = total_votes + votes;
        }
        proof {
            assert(s.take(n as int) =~= s);
        }
        (inverted, random_inversions)
    }

    /// Returns the number of true votes.
    pub fn total_heads(&self) -> (r: usize)
        requires
            self.wf(),
        ensures
            r == self.spec_total_heads(),
    {
        self.total_heads
    }

    /// Returns the number of false votes.
    pub fn total_tails(&self) -> (r: usize)
        requires
            self.wf(),
        ensures
            r == self.spec_total_tails(),
    {
        self.total_tails
    }

    /// Returns the total number of votes.
    pub fn total_votes(&self) -> (r: usize)
        requires
            self.wf(),
        ensures
            r == self.spec_total_votes(),
    {
        proof {
            Self::lemma_votes_split(self.votes@);
        }
        self.total_heads + self.total_tails
    }
}

} // verus!
