//! A topologically sorted DAG whose nodes record their ancestor sets.
use im_rc::OrdSet;
use vstd::prelude::*;
use vstd::set_lib::FiniteRange;

verus! {

#[verifier::external_type_specification]
#[verifier::external_body]
#[verifier::reject_recursive_types(A)]
pub struct ExOrdSet<A>(OrdSet<A>);

/// The indices an ordered set holds.
pub uninterp spec fn index_set_contents(s: OrdSet<usize>) -> Set<usize>;

/// Relies on im_rc::OrdSet::new: the set it builds is empty.
#[verifier::external_body]
fn empty_index_set() -> (r: OrdSet<usize>)
    ensures
        index_set_contents(r) == Set::<usize>::empty(),
{
    OrdSet::new()
}

/// Relies on im_rc::OrdSet::clone: the clone holds the same values.
#[verifier::external_body]
fn clone_index_set(s: &OrdSet<usize>) -> (r: OrdSet<usize>)
    ensures
        index_set_contents(r) == index_set_contents(*s),
{
    s.clone()
}

/// Relies on im_rc::OrdSet::insert: the value is in the set afterwards, nothing else changes,
/// and the result is `None` exactly when the value was not there before.
#[verifier::external_body]
fn insert_index(s: &mut OrdSet<usize>, a: usize) -> (r: Option<usize>)
    ensures
        index_set_contents(*final(s)) == index_set_contents(*old(s)).insert(a),
        r is None <==> !index_set_contents(*old(s)).contains(a),
{
    s.insert(a)
}

/// Relies on im_rc::OrdSet::contains: whether the value is in the set.
#[verifier::external_body]
fn index_set_contains(s: &OrdSet<usize>, a: usize) -> (r: bool)
    ensures
        r == index_set_contents(*s).contains(a),
{
    s.contains(&a)
}

/// A node in a DAG.
#[derive(Debug)]
pub struct DAGNode<T> {
    value: T,
    inputs: Vec<usize>,
    ancestors: OrdSet<usize>,
    remainder_ancestors: Vec<usize>,
}

impl<T> DAGNode<T> {
    /// The value in the node.
    pub closed spec fn spec_value(&self) -> T {
        self.value
    }

    /// The indices of the node's inputs.
    pub closed spec fn spec_inputs(&self) -> Seq<usize> {
        self.inputs@
    }

    /// The indices of the node's ancestors.
    pub closed spec fn spec_ancestors(&self) -> Set<usize> {
        index_set_contents(self.ancestors)
    }

    /// The ancestors that are neither the first input nor among its ancestors, ascending.
    pub closed spec fn spec_remainder(&self) -> Seq<usize> {
        self.remainder_ancestors@
    }

    /// Returns the value in the node.
    pub fn value(&self) -> (r: &T)
        ensures
            *r == self.spec_value(),
    {
        &self.value
    }

    /// Returns indices within the DAG of the node's input nodes.
    pub fn inputs(&self) -> (r: &[usize])
        ensures
            r@ == self.spec_inputs(),
    {
        self.inputs.as_slice()
    }

    /// Returns indices within the DAG of the transitive closure of the node's inputs. Includes
    /// the inputs but excludes the node itself.
    pub fn ancestors(&self) -> (r: &OrdSet<usize>)
        ensures
            index_set_contents(*r) == self.spec_ancestors(),
    {
        &self.ancestors
    }

    /// Returns indices within the DAG of ancestors which are not the first input or its
    /// ancestors, in ascending order. The sets `remainder_ancestors()`, `{inputs()[0]}` and
    /// `inputs()[0].ancestors()` are disjoint, and their union equals `ancestors()`.
    pub fn remainder_ancestors(&self) -> (r: &[usize])
        ensures
            r@ == self.spec_remainder(),
    {
        self.remainder_ancestors.as_slice()
    }
}

/// `a` is the input `k` or one of its ancestors.
pub open spec fn via<T>(nodes: Seq<DAGNode<T>>, ins: Seq<usize>, k: int, a: usize) -> bool {
    a == ins[k] || nodes[ins[k] as int].spec_ancestors().contains(a)
}

/// `a` is an input or an ancestor of one.
pub open spec fn reaches<T>(nodes: Seq<DAGNode<T>>, ins: Seq<usize>, a: usize) -> bool {
    exists|k: int| 0 <= k < ins.len() && #[trigger] via(nodes, ins, k, a)
}

/// The inputs together with their ancestors.
pub open spec fn closure_of<T>(nodes: Seq<DAGNode<T>>, ins: Seq<usize>) -> Set<usize> {
    Set::new(|a: usize| reaches(nodes, ins, a))
}

/// The first input together with its ancestors.
pub open spec fn first_input_closure<T>(nodes: Seq<DAGNode<T>>, ins: Seq<usize>) -> Set<usize> {
    nodes[ins[0] as int].spec_ancestors().insert(ins[0])
}

/// Strictly increasing.
pub open spec fn ascending(s: Seq<usize>) -> bool {
    forall|j: int, k: int| 0 <= j < k < s.len() ==> #[trigger] s[j] < #[trigger] s[k]
}

/// Node `i` of `nodes` is consistent: its inputs come before it, its ancestors are the closure
/// of its inputs and are closed themselves, and its remainder ancestors are, in ascending
/// order, the ancestors outside the closure of its first input.
pub open spec fn node_wf<T>(nodes: Seq<DAGNode<T>>, i: int) -> bool {
    let n = nodes[i];
    &&& forall|k: int| 0 <= k < n.spec_inputs().len() ==> #[trigger] n.spec_inputs()[k] < i
    &&& n.spec_ancestors() == closure_of(nodes, n.spec_inputs())
    &&& forall|a: usize| #[trigger]
        n.spec_ancestors().contains(a) ==> a < i && nodes[a as int].spec_ancestors().subset_of(
            n.spec_ancestors(),
        )
    &&& ascending(n.spec_remainder())
    &&& n.spec_inputs().len() == 0 ==> n.spec_remainder().len() == 0
    &&& n.spec_inputs().len() > 0 ==> forall|a: usize| #[trigger]
        n.spec_remainder().contains(a) <==> (n.spec_ancestors().contains(a)
            && !first_input_closure(nodes, n.spec_inputs()).contains(a))
}

/// A node's consistency depends only on the nodes up to it.
proof fn lemma_node_wf_prefix<T>(nodes: Seq<DAGNode<T>>, more: Seq<DAGNode<T>>, i: int)
    requires
        0 <= i < nodes.len() <= more.len(),
        forall|j: int| 0 <= j < nodes.len() ==> #[trigger] more[j] == nodes[j],
        node_wf(nodes, i),
    ensures
        node_wf(more, i),
{
    let n = nodes[i];
    assert(more[i] == n);
    assert(closure_of(more, n.spec_inputs()) =~= closure_of(nodes, n.spec_inputs())) by {
        assert forall|a: usize| closure_of(more, n.spec_inputs()).contains(a) implies closure_of(
            nodes,
            n.spec_inputs(),
        ).contains(a) by {
            let k = choose|k: int| 0 <= k < n.spec_inputs().len() && #[trigger] via(more, n.spec_inputs(), k, a);
            assert(more[n.spec_inputs()[k] as int] == nodes[n.spec_inputs()[k] as int]);
            assert(via(nodes, n.spec_inputs(), k, a));
        }
        assert forall|a: usize| closure_of(nodes, n.spec_inputs()).contains(a) implies closure_of(
            more,
            n.spec_inputs(),
        ).contains(a) by {
            let k = choose|k: int| 0 <= k < n.spec_inputs().len() && #[trigger] via(nodes, n.spec_inputs(), k, a);
            assert(more[n.spec_inputs()[k] as int] == nodes[n.spec_inputs()[k] as int]);
            assert(via(more, n.spec_inputs(), k, a));
        }
    }
    assert forall|a: usize| #[trigger] n.spec_ancestors().contains(a) implies more[a as int].spec_ancestors().subset_of(
        n.spec_ancestors(),
    ) by {
        assert(more[a as int] == nodes[a as int]);
    }
    if n.spec_inputs().len() > 0 {
        assert(more[n.spec_inputs()[0] as int] == nodes[n.spec_inputs()[0] as int]);
        assert(first_input_closure(more, n.spec_inputs()) == first_input_closure(
            nodes,
            n.spec_inputs(),
        ));
    }
}

/// In a set that holds a closed base and, with every other member, that member's inputs, every
/// member's ancestors are members too.
proof fn lemma_closed_set<T>(nodes: Seq<DAGNode<T>>, base: Set<usize>, c: Set<usize>, x: usize)
    requires
        forall|i: int| 0 <= i < nodes.len() ==> #[trigger] node_wf(nodes, i),
        base.subset_of(c),
        forall|b: usize| #[trigger]
            base.contains(b) ==> b < nodes.len() && nodes[b as int].spec_ancestors().subset_of(
                base,
            ),
        forall|y: usize| #[trigger]
            c.contains(y) ==> y < nodes.len() && (base.contains(y) || forall|k: int|
                0 <= k < nodes[y as int].spec_inputs().len() ==> c.contains(
                    #[trigger] nodes[y as int].spec_inputs()[k],
                )),
        c.contains(x),
    ensures
        nodes[x as int].spec_ancestors().subset_of(c),
    decreases x,
{
    if !base.contains(x) {
        let n = nodes[x as int];
        assert(node_wf(nodes, x as int));
        assert forall|a: usize| n.spec_ancestors().contains(a) implies c.contains(a) by {
            assert(closure_of(nodes, n.spec_inputs()).contains(a));
            let k = choose|k: int| 0 <= k < n.spec_inputs().len() && #[trigger] via(nodes, n.spec_inputs(), k, a);
            let y = n.spec_inputs()[k];
            assert(c.contains(y));
            assert(y < x);
            if a != y {
                lemma_closed_set(nodes, base, c, y);
            }
        }
    }
}

/// A Directed Acyclic Graph with the nodes sorted topologically.
#[derive(Debug)]
pub struct DAG<T> {
    nodes: Vec<DAGNode<T>>,
}

impl<T> Default for DAG<T> {
    /// An empty DAG.
    fn default() -> (r: Self)
        ensures
            r.wf(),
            r.spec_nodes().len() == 0,
    {
        DAG { nodes: Vec::new() }
    }
}

impl<T> DAG<T> {
    /// The nodes, in topological order.
    pub closed spec fn spec_nodes(&self) -> Seq<DAGNode<T>> {
        self.nodes@
    }

    /// Every node is consistent.
    pub open spec fn wf(&self) -> bool {
        forall|i: int| 0 <= i < self.spec_nodes().len() ==> #[trigger] node_wf(self.spec_nodes(), i)
    }

    /// Creates an empty DAG.
    pub fn new() -> (r: Self)
        ensures
            r.wf(),
            r.spec_nodes().len() == 0,
    {
        DAG { nodes: Vec::new() }
    }

    /// Returns the nodes in the DAG.
    pub fn nodes(&self) -> (r: &[DAGNode<T>])
        ensures
            r@ == self.spec_nodes(),
    {
        self.nodes.as_slice()
    }

    /// Convenience method for nodes()[index].
    pub fn node(&self, index: usize) -> (r: &DAGNode<T>)
        requires
            index < self.spec_nodes().len(),
        ensures
            *r == self.spec_nodes()[index as int],
    {
        &self.nodes[index]
    }

    /// The ancestors of a node with the given inputs, and those of them outside the closure of
    /// the first input, in ascending order.
    fn collect_ancestors(&self, inputs: &Vec<usize>) -> (r: (OrdSet<usize>, Vec<usize>))
        requires
            self.wf(),
            forall|k: int| 0 <= k < inputs.len() ==> #[trigger] inputs[k] < self.spec_nodes().len(),
        ensures
            index_set_contents(r.0) == closure_of(self.spec_nodes(), inputs@),
            ascending(r.1@),
            inputs.len() == 0 ==> r.1@.len() == 0,
            inputs.len() > 0 ==> forall|a: usize| #[trigger]
                r.1@.contains(a) <==> (index_set_contents(r.0).contains(a)
                    && !first_input_closure(self.spec_nodes(), inputs@).contains(a)),
    {
        let ghost nodes = self.nodes@;
        let count = self.nodes.len();
        let ghost i = nodes.len() as int;
        let ghost target = closure_of(nodes, inputs@);
        let mut remainder: Vec<usize> = Vec::new();
        if inputs.len() == 0 {
            let ancestors = empty_index_set();
            proof {
                assert(index_set_contents(ancestors) =~= target);
            }
            return (ancestors, remainder);
        }
        let first = inputs[0];
        let mut ancestors = clone_index_set(&self.nodes[first].ancestors);
        let _ = insert_index(&mut ancestors, first);
        let ghost base = first_input_closure(nodes, inputs@);
        proof {
            assert(node_wf(nodes, first as int));
            assert(index_set_contents(ancestors) == base);
            assert forall|a: usize| base.contains(a) implies target.contains(a) by {
                assert(via(nodes, inputs@, 0, a));
            }
            assert forall|b: usize| #[trigger] base.contains(b) implies b < nodes.len()
                && nodes[b as int].spec_ancestors().subset_of(base) by {
                if b != first {
                    assert(nodes[first as int].spec_ancestors().contains(b));
                }
            }
            assert forall|a: usize| target.contains(a) implies a < i by {
                let k = choose|k: int| 0 <= k < inputs@.len() && #[trigger] via(nodes, inputs@, k, a);
                assert(node_wf(nodes, inputs@[k] as int));
            }
            <usize as FiniteRange>::range_properties(0, count);
        }
        let mut queue: Vec<usize> = Vec::new();
        for k in 1..inputs.len()
            invariant
                queue@.len() == k - 1,
                forall|j: int| 0 <= j < k - 1 ==> #[trigger] queue@[j] == inputs@[j + 1],
        {
            queue.push(inputs[k]);
        }
        proof {
            assert forall|k: int| 1 <= k < inputs.len() implies queue@.contains(
                #[trigger] inputs@[k],
            ) by {
                assert(queue@[k - 1] == inputs@[k]);
            }
            assert forall|j: int| 0 <= j < queue.len() implies target.contains(
                #[trigger] queue@[j],
            ) by {
                assert(queue@[j] == inputs@[j + 1]);
                assert(via(nodes, inputs@, j + 1, queue@[j]));
            }
        }
        while queue.len() > 0
            invariant
                nodes == self.nodes@,
                i == nodes.len(),
                count == i,
                forall|j: int| 0 <= j < i ==> #[trigger] node_wf(nodes, j),
                inputs@.len() > 0,
                forall|k: int| 0 <= k < inputs.len() ==> #[trigger] inputs[k] < i,
                target == closure_of(nodes, inputs@),
                base == first_input_closure(nodes, inputs@),
                base.subset_of(index_set_contents(ancestors)),
                index_set_contents(ancestors).subset_of(target),
                forall|a: usize| target.contains(a) ==> a < i,
                forall|j: int| 0 <= j < queue.len() ==> target.contains(#[trigger] queue@[j]),
                forall|k: int|
                    1 <= k < inputs.len() ==> index_set_contents(ancestors).contains(
                        #[trigger] inputs@[k],
                    ) || queue@.contains(inputs@[k]),
                forall|y: usize, k: int|
                    index_set_contents(ancestors).contains(y) && !base.contains(y) && 0 <= k
                        < nodes[y as int].spec_inputs().len() ==> index_set_contents(
                        ancestors,
                    ).contains(#[trigger] nodes[y as int].spec_inputs()[k]) || queue@.contains(
                        nodes[y as int].spec_inputs()[k],
                    ),
                ascending(remainder@),
                forall|a: usize| #[trigger]
                    remainder@.contains(a) <==> (index_set_contents(ancestors).contains(a)
                        && !base.contains(a)),
                Set::<usize>::range(0, count).finite(),
                Set::<usize>::range(0, count).len() == i,
            decreases i - index_set_contents(ancestors).len(), queue.len(),
        {
            proof {
                vstd::set_lib::lemma_len_subset(target, Set::<usize>::range(0, count));
                vstd::set_lib::lemma_len_subset(index_set_contents(ancestors), target);
            }
            let ghost qb = queue@;
            let a = queue.pop().unwrap();
            let ghost qp = queue@;
            let ghost before = index_set_contents(ancestors);
            proof {
                assert(qp =~= qb.drop_last());
                assert(a == qb.last());
                assert(target.contains(a)) by {
                    assert(target.contains(qb[qb.len() - 1]));
                }
            }
            if insert_index(&mut ancestors, a).is_none() {
                insert_ascending(&mut remainder, a);
                let ghost k0 = choose|k: int| 0 <= k < inputs@.len() && #[trigger] via(nodes, inputs@, k, a);
                proof {
                    assert(node_wf(nodes, inputs@[k0] as int));
                    assert(node_wf(nodes, a as int));
                }
                let node_inputs = &self.nodes[a].inputs;
                for j in 0..node_inputs.len()
                    invariant
                        queue@.len() == qp.len() + j,
                        forall|t: int| 0 <= t < qp.len() ==> #[trigger] queue@[t] == qp[t],
                        forall|t: int|
                            0 <= t < j ==> #[trigger] queue@[qp.len() + t] == node_inputs@[t],
                {
                    queue.push(node_inputs[j]);
                }
                proof {
                    let na = nodes[a as int];
                    assert(node_inputs@ == na.spec_inputs());
                    assert forall|t: int| 0 <= t < queue.len() implies target.contains(
                        #[trigger] queue@[t],
                    ) by {
                        if t >= qp.len() {
                            let y = na.spec_inputs()[t - qp.len()];
                            assert(queue@[qp.len() + (t - qp.len())] == node_inputs@[t - qp.len()]);
                            assert(queue@[t] == y);
                            assert(via(nodes, na.spec_inputs(), t - qp.len(), y));
                            assert(na.spec_ancestors().contains(y));
                            assert(nodes[inputs@[k0] as int].spec_ancestors().contains(y));
                            assert(via(nodes, inputs@, k0, y));
                        } else {
                            assert(queue@[t] == qp[t]);
                            assert(qb[t] == qp[t]);
                        }
                    }
                    assert forall|t: int| 0 <= t < na.spec_inputs().len() implies queue@.contains(
                        #[trigger] na.spec_inputs()[t],
                    ) by {
                        assert(queue@[qp.len() + t] == node_inputs@[t]);
                    }
                }
            } else {
                proof {
                    assert(index_set_contents(ancestors) == before);
                    assert forall|t: int| 0 <= t < queue.len() implies target.contains(
                        #[trigger] queue@[t],
                    ) by {
                        assert(qb[t] == qp[t]);
                    }
                }
            }
            proof {
                let c = index_set_contents(ancestors);
                assert(c == before.insert(a));
                assert forall|x: usize| qb.contains(x) implies c.contains(x) || queue@.contains(x) by {
                    let t = choose|t: int| 0 <= t < qb.len() && qb[t] == x;
                    if t < qb.len() - 1 {
                        assert(qp[t] == x);
                        assert(queue@[t] == x);
                    }
                }
                assert forall|k: int| 1 <= k < inputs.len() implies c.contains(
                    #[trigger] inputs@[k],
                ) || queue@.contains(inputs@[k]) by {
                    if !before.contains(inputs@[k]) {
                        assert(qb.contains(inputs@[k]));
                    }
                }
                assert forall|y: usize, k: int|
                    c.contains(y) && !base.contains(y) && 0 <= k
                        < nodes[y as int].spec_inputs().len() implies c.contains(
                    #[trigger] nodes[y as int].spec_inputs()[k],
                ) || queue@.contains(nodes[y as int].spec_inputs()[k]) by {
                    let x = nodes[y as int].spec_inputs()[k];
                    if before.contains(y) {
                        if !before.contains(x) {
                            assert(qb.contains(x));
                        }
                    }
                }
                vstd::set_lib::lemma_len_subset(c, Set::<usize>::range(0, count));
            }
        }
        proof {
            let c = index_set_contents(ancestors);
            assert forall|y: usize| #[trigger] c.contains(y) implies y < nodes.len() && (
            base.contains(y) || forall|k: int|
                0 <= k < nodes[y as int].spec_inputs().len() ==> c.contains(
                    #[trigger] nodes[y as int].spec_inputs()[k],
                )) by {
                assert(target.contains(y));
                if !base.contains(y) {
                    assert forall|k: int| 0 <= k < nodes[y as int].spec_inputs().len() implies c.contains(
                        #[trigger] nodes[y as int].spec_inputs()[k],
                    ) by {
                        assert(!queue@.contains(nodes[y as int].spec_inputs()[k]));
                    }
                }
            }
            assert forall|a: usize| target.contains(a) implies c.contains(a) by {
                let k = choose|k: int| 0 <= k < inputs@.len() && #[trigger] via(nodes, inputs@, k, a);
                if k == 0 {
                    assert(base.contains(a));
                } else {
                    assert(!queue@.contains(inputs@[k]));
                    assert(c.contains(inputs@[k]));
                    if a != inputs@[k] {
                        lemma_closed_set(nodes, base, c, inputs@[k]);
                    }
                }
            }
            assert(c =~= target);
        }
        (ancestors, remainder)
    }

    /// The nodes on which a vote at `node` bears: with heads, its ancestors; with tails, the
    /// nodes that are neither it nor its ancestors. Entry `s` of the result tells about node `s`.
    pub fn evidence_targets(&self, node: usize, heads: bool) -> (r: Vec<bool>)
        requires
            node < self.spec_nodes().len(),
        ensures
            r@.len() == self.spec_nodes().len(),
            forall|s: int|
                0 <= s < r@.len() ==> #[trigger] r@[s] == if heads {
                    self.spec_nodes()[node as int].spec_ancestors().contains(s as usize)
                } else {
                    !self.spec_nodes()[node as int].spec_ancestors().contains(s as usize) && s != node
                },
    {
        let ancestors = &self.nodes[node].ancestors;
        let n = self.nodes.len();
        let mut r: Vec<bool> = Vec::new();
        for s in 0..n
            invariant
                n == self.spec_nodes().len(),
                index_set_contents(*ancestors) == self.spec_nodes()[node as int].spec_ancestors(),
                r@.len() == s,
                forall|t: int|
                    0 <= t < s ==> #[trigger] r@[t] == if heads {
                        self.spec_nodes()[node as int].spec_ancestors().contains(t as usize)
                    } else {
                        !self.spec_nodes()[node as int].spec_ancestors().contains(t as usize)
                            && t != node
                    },
        {
            let is_ancestor = index_set_contains(ancestors, s);
            r.push(
                if heads {
                    is_ancestor
                } else {
                    !is_ancestor && s != node
                },
            );
        }
        r
    }

    /// Adds a node to the DAG. Each input must be less than the number of nodes currently in the
    /// DAG. The first input is treated specially by DAGNode::remainder_ancestors.
    pub fn add_node(&mut self, value: T, inputs: Vec<usize>)
        requires
            old(self).wf(),
            forall|k: int| 0 <= k < inputs.len() ==> #[trigger] inputs[k] < old(self).spec_nodes().len(),
        ensures
            final(self).wf(),
            final(self).spec_nodes().len() == old(self).spec_nodes().len() + 1,
            forall|j: int|
                0 <= j < old(self).spec_nodes().len() ==> #[trigger] final(self).spec_nodes()[j]
                    == old(self).spec_nodes()[j],
            final(self).spec_nodes().last().spec_value() == value,
            final(self).spec_nodes().last().spec_inputs() == inputs@,
    {
        let ghost nodes = self.nodes@;
        let (ancestors, remainder) = self.collect_ancestors(&inputs);
        self.nodes.push(DAGNode { value, inputs, ancestors, remainder_ancestors: remainder });
        proof {
            let more = self.nodes@;
            assert forall|t: int| 0 <= t < nodes.len() implies #[trigger] more[t] == nodes[t] by {}
            assert forall|j: int| 0 <= j < more.len() implies #[trigger] node_wf(more, j) by {
                if j < nodes.len() {
                    lemma_node_wf_prefix(nodes, more, j);
                } else {
                    lemma_new_node_wf(nodes, more);
                }
            }
        }
    }
}

/// Inserts `a` into an ascending vector that does not hold it, keeping it ascending.
fn insert_ascending(v: &mut Vec<usize>, a: usize)
    requires
        ascending(old(v)@),
        !old(v)@.contains(a),
    ensures
        ascending(final(v)@),
        forall|x: usize| #[trigger] final(v)@.contains(x) <==> (old(v)@.contains(x) || x == a),
{
    let ghost s = v@;
    let mut lo: usize = 0;
    let mut hi: usize = v.len();
    while lo < hi
        invariant
            s == v@,
            ascending(s),
            0 <= lo <= hi <= s.len(),
            forall|j: int| 0 <= j < lo ==> #[trigger] s[j] < a,
            forall|j: int| hi <= j < s.len() ==> #[trigger] s[j] >= a,
        decreases hi - lo,
    {
        let mid = lo + (hi - lo) / 2;
        if v[mid] < a {
            lo = mid + 1;
        } else {
            hi = mid;
        }
    }
    v.insert(lo, a);
    proof {
        let t = v@;
        assert(t == s.insert(lo as int, a));
        assert forall|j: int| lo <= j < s.len() implies #[trigger] s[j] > a by {
            assert(s[j] >= a);
            assert(s[j] != a);
        }
        assert forall|j: int, k: int| 0 <= j < k < t.len() implies #[trigger] t[j] < #[trigger] t[k] by {
            if k < lo {
                assert(t[j] == s[j] && t[k] == s[k]);
            } else if k == lo {
                assert(t[j] == s[j]);
            } else if j < lo {
                assert(t[j] == s[j] && t[k] == s[k - 1]);
            } else if j == lo {
                assert(t[k] == s[k - 1]);
            } else {
                assert(t[j] == s[j - 1] && t[k] == s[k - 1]);
            }
        }
        assert forall|x: usize| #[trigger] t.contains(x) <==> (s.contains(x) || x == a) by {
            if t.contains(x) {
                let j = choose|j: int| 0 <= j < t.len() && t[j] == x;
                if j < lo {
                    assert(s[j] == x);
                } else if j > lo {
                    assert(s[j - 1] == x);
                }
            }
            if s.contains(x) {
                let j = choose|j: int| 0 <= j < s.len() && s[j] == x;
                if j < lo {
                    assert(t[j] == x);
                } else {
                    assert(t[j + 1] == x);
                }
            }
            if x == a {
                assert(t[lo as int] == a);
            }
        }
    }
}

/// The node appended to a consistent DAG, with the ancestors and remainder that
/// `collect_ancestors` gives, is consistent.
proof fn lemma_new_node_wf<T>(nodes: Seq<DAGNode<T>>, more: Seq<DAGNode<T>>)
    requires
        forall|j: int| 0 <= j < nodes.len() ==> #[trigger] node_wf(nodes, j),
        more.len() == nodes.len() + 1,
        forall|t: int| 0 <= t < nodes.len() ==> #[trigger] more[t] == nodes[t],
        ({
            let n = more.last();
            &&& forall|k: int| 0 <= k < n.spec_inputs().len() ==> #[trigger] n.spec_inputs()[k] < nodes.len()
            &&& n.spec_ancestors() == closure_of(nodes, n.spec_inputs())
            &&& ascending(n.spec_remainder())
            &&& n.spec_inputs().len() == 0 ==> n.spec_remainder().len() == 0
            &&& n.spec_inputs().len() > 0 ==> forall|a: usize| #[trigger]
                n.spec_remainder().contains(a) <==> (n.spec_ancestors().contains(a)
                    && !first_input_closure(nodes, n.spec_inputs()).contains(a))
        }),
    ensures
        node_wf(more, nodes.len() as int),
{
    let i = nodes.len() as int;
    let n = more[i];
    let ins = n.spec_inputs();
    assert(closure_of(more, ins) =~= closure_of(nodes, ins)) by {
        assert forall|a: usize| closure_of(more, ins).contains(a) implies closure_of(nodes, ins).contains(a) by {
            let k = choose|k: int| 0 <= k < ins.len() && #[trigger] via(more, ins, k, a);
            assert(more[ins[k] as int] == nodes[ins[k] as int]);
            assert(via(nodes, ins, k, a));
        }
        assert forall|a: usize| closure_of(nodes, ins).contains(a) implies closure_of(more, ins).contains(a) by {
            let k = choose|k: int| 0 <= k < ins.len() && #[trigger] via(nodes, ins, k, a);
            assert(more[ins[k] as int] == nodes[ins[k] as int]);
            assert(via(more, ins, k, a));
        }
    }
    assert forall|a: usize| #[trigger] n.spec_ancestors().contains(a) implies a < i
        && more[a as int].spec_ancestors().subset_of(n.spec_ancestors()) by {
        let k = choose|k: int| 0 <= k < ins.len() && #[trigger] via(nodes, ins, k, a);
        assert(node_wf(nodes, ins[k] as int));
        assert(a < i);
        assert(more[a as int] == nodes[a as int]);
        assert forall|b: usize| nodes[a as int].spec_ancestors().contains(b) implies n.spec_ancestors().contains(b) by {
            assert(nodes[ins[k] as int].spec_ancestors().contains(b));
            assert(via(nodes, ins, k, b));
        }
    }
    if ins.len() > 0 {
        assert(more[ins[0] as int] == nodes[ins[0] as int]);
        assert(first_input_closure(more, ins) == first_input_closure(nodes, ins));
    }
}

/// For every node with an input, its first input, the first input's ancestors and its
/// remainder ancestors are pairwise disjoint, and together they are its ancestors.
pub proof fn lemma_remainder_decomposition<T>(dag: &DAG<T>, i: int)
    requires
        dag.wf(),
        0 <= i < dag.spec_nodes().len(),
        dag.spec_nodes()[i].spec_inputs().len() > 0,
    ensures
        ({
            let nodes = dag.spec_nodes();
            let n = nodes[i];
            let first = n.spec_inputs()[0];
            let first_anc = nodes[first as int].spec_ancestors();
            let rem = n.spec_remainder().to_set();
            &&& first_anc.insert(first).union(rem) == n.spec_ancestors()
            &&& !first_anc.contains(first)
            &&& !rem.contains(first)
            &&& first_anc.disjoint(rem)
        }),
{
    let nodes = dag.spec_nodes();
    let n = nodes[i];
    let ins = n.spec_inputs();
    let first = ins[0];
    let first_anc = nodes[first as int].spec_ancestors();
    let rem = n.spec_remainder().to_set();
    assert(node_wf(nodes, i));
    assert(node_wf(nodes, first as int));
    assert forall|a: usize| first_anc.insert(first).contains(a) implies n.spec_ancestors().contains(a) by {
        assert(via(nodes, ins, 0, a));
    }
    assert forall|a: usize| #[trigger] rem.contains(a) <==> n.spec_remainder().contains(a) by {}
    assert(first_anc.insert(first).union(rem) =~= n.spec_ancestors());
    assert(first_anc.disjoint(rem));
}

} // verus!
