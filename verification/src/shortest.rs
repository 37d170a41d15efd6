//! Single-source single-target shortest paths over edge costs.
//!
//! Edge payloads of type `u64` are read as non-negative costs. A *walk* is a
//! non-empty sequence of node identifiers together with, for each step, the
//! index of a chosen edge out of the step's source node; its cost is the sum
//! of the chosen edges' payloads. `shortest_path` returns a walk of minimal
//! cost between two nodes, or `None` when no walk connects them.

use crate::container::ids;
use crate::container::Edge;
use crate::container::Graph;
use crate::container::NodeIdentifier;
use vstd::pervasive::VecAdditionalExecFns;
use vstd::prelude::*;

verus! {

/// `p` lists nodes of `g` and `e` picks, for each consecutive pair, an edge
/// of `g` leading from the earlier node to the later one.
pub open spec fn is_walk<T>(g: &Graph<T, u64>, p: Seq<int>, e: Seq<int>) -> bool {
    &&& p.len() >= 1
    &&& e.len() == p.len() - 1
    &&& forall|i: int| 0 <= i < p.len() ==> 0 <= #[trigger] p[i] < g.spec_nodes().len()
    &&& forall|k: int| 0 <= k < e.len() ==> 0 <= #[trigger] e[k] < g.spec_edges()[p[k]].len()
    &&& forall|k: int|
        0 <= k < e.len() ==> (#[trigger] g.spec_edges()[p[k]][e[k]]).dest == p[k + 1]
}

/// The cost of a walk: the sum of the payloads of its chosen edges.
pub open spec fn walk_cost<T>(g: &Graph<T, u64>, p: Seq<int>, e: Seq<int>) -> int
    decreases e.len(),
{
    if e.len() <= 0 {
        0
    } else {
        walk_cost(g, p.drop_last(), e.drop_last()) + g.spec_edges()[p[p.len() - 2]][e.last()].data
    }
}

/// A walk from `from` to `to`.
pub open spec fn is_walk_between<T>(
    g: &Graph<T, u64>,
    from: int,
    to: int,
    p: Seq<int>,
    e: Seq<int>,
) -> bool {
    &&& is_walk(g, p, e)
    &&& p[0] == from
    &&& p.last() == to
}

/// `to` can be reached from `from` along edges whose summed cost stays within
/// the cost type's range.
pub open spec fn reachable_within_budget<T>(g: &Graph<T, u64>, from: int, to: int) -> bool {
    exists|p: Seq<int>, e: Seq<int>|
        is_walk_between(g, from, to, p, e) && walk_cost(g, p, e) <= u64::MAX
}

/// A walk costs nothing or more: every edge payload is non-negative.
pub proof fn lemma_walk_cost_nonneg<T>(g: &Graph<T, u64>, p: Seq<int>, e: Seq<int>)
    requires
        is_walk(g, p, e),
    ensures
        walk_cost(g, p, e) >= 0,
    decreases e.len(),
{
    if e.len() > 0 {
        assert(is_walk(g, p.drop_last(), e.drop_last()));
        lemma_walk_cost_nonneg(g, p.drop_last(), e.drop_last());
    }
}

/// Extending a walk at the front by one edge adds that edge's payload to the
/// cost.
pub proof fn lemma_walk_prepend<T>(g: &Graph<T, u64>, u: int, j: int, p: Seq<int>, e: Seq<int>)
    requires
        is_walk(g, p, e),
        0 <= u < g.spec_nodes().len(),
        0 <= j < g.spec_edges()[u].len(),
        g.spec_edges()[u][j].dest == p[0],
    ensures
        is_walk(g, seq![u] + p, seq![j] + e),
        walk_cost(g, seq![u] + p, seq![j] + e) == g.spec_edges()[u][j].data + walk_cost(g, p, e),
    decreases e.len(),
{
    let p2 = seq![u] + p;
    let e2 = seq![j] + e;
    assert forall|k: int| 0 <= k < e2.len() implies 0 <= #[trigger] e2[k]
        < g.spec_edges()[p2[k]].len() && g.spec_edges()[p2[k]][e2[k]].dest == p2[k + 1] by {
        if k > 0 {
            assert(e2[k] == e[k - 1]);
            assert(p2[k] == p[k - 1]);
            assert(p2[k + 1] == p[k]);
        }
    }
    assert(is_walk(g, p2, e2));
    if e.len() == 0 {
        assert(p2.len() == 2);
        assert(p2[p2.len() - 2] == u);
        assert(e2.last() == j);
        assert(walk_cost(g, p2, e2) == walk_cost(g, p2.drop_last(), e2.drop_last())
            + g.spec_edges()[u][j].data);
        assert(e2.drop_last().len() == 0);
    } else {
        lemma_walk_prepend(g, u, j, p.drop_last(), e.drop_last());
        assert(p2.drop_last() =~= seq![u] + p.drop_last());
        assert(e2.drop_last() =~= seq![j] + e.drop_last());
        assert(p2[p2.len() - 2] == p[p.len() - 2]);
        assert(e2.last() == e.last());
    }
}

/// Distances recorded so far, one optional cost per node.
pub open spec fn dist_inv<T>(g: &Graph<T, u64>, d: Seq<Option<u64>>) -> bool {
    d.len() == g.spec_nodes().len()
}

/// Edge `j` out of node `u` offers no improvement over the recorded
/// distances: either following it would overflow the cost type, or the
/// destination's recorded distance is already at least as good.
pub open spec fn edge_relaxed<T>(g: &Graph<T, u64>, d: Seq<Option<u64>>, u: int, j: int) -> bool {
    {
        let v = g.spec_edges()[u][j].dest as int;
        let w = g.spec_edges()[u][j].data as int;
        d[u].unwrap() + w > u64::MAX || (d[v] is Some && d[v].unwrap() <= d[u].unwrap() + w)
    }
}

/// No edge out of node `u` offers an improvement.
pub open spec fn node_relaxed<T>(g: &Graph<T, u64>, d: Seq<Option<u64>>, u: int) -> bool {
    forall|j: int| 0 <= j < g.spec_edges()[u].len() ==> #[trigger] edge_relaxed(g, d, u, j)
}

/// Every node with a recorded distance is fully relaxed: the recorded
/// distances are a fixpoint of edge relaxation.
pub open spec fn all_relaxed<T>(g: &Graph<T, u64>, d: Seq<Option<u64>>) -> bool {
    forall|u: int|
        0 <= u < d.len() && (#[trigger] d[u]) is Some ==> node_relaxed(g, d, u)
}

/// At a relaxation fixpoint seeded with distance zero at `from`, the recorded
/// distance of a walk's endpoint never exceeds the walk's cost. In
/// particular, every recorded distance is minimal over all walks that fit the
/// cost type.
pub proof fn lemma_fixpoint_bounds_walks<T>(
    g: &Graph<T, u64>,
    d: Seq<Option<u64>>,
    from: int,
    p: Seq<int>,
    e: Seq<int>,
)
    requires
        g.wf(),
        dist_inv(g, d),
        0 <= from < d.len(),
        d[from] == Some(0u64),
        all_relaxed(g, d),
        is_walk(g, p, e),
        p[0] == from,
        walk_cost(g, p, e) <= u64::MAX,
    ensures
        d[p.last()] is Some,
        d[p.last()].unwrap() <= walk_cost(g, p, e),
    decreases e.len(),
{
    if e.len() == 0 {
        assert(p.last() == from);
    } else {
        let p1 = p.drop_last();
        let e1 = e.drop_last();
        assert(is_walk(g, p1, e1));
        assert(p1[0] == from);
        let u = p[p.len() - 2];
        let j = e.last();
        let w = g.spec_edges()[u][j].data as int;
        lemma_walk_cost_nonneg(g, p1, e1);
        assert(walk_cost(g, p, e) == walk_cost(g, p1, e1) + w);
        lemma_fixpoint_bounds_walks(g, d, from, p1, e1);
        assert(p1.last() == u);
        assert(d[u] is Some && d[u].unwrap() <= walk_cost(g, p1, e1));
        assert(edge_relaxed(g, d, u, j));
        assert(g.spec_edges()[u][j].dest == p.last());
        assert(d[u].unwrap() + w <= walk_cost(g, p1, e1) + w <= u64::MAX);
    }
}

/// The outcome of a successful shortest-path computation.
pub struct ShortestPathResult<V> {
    /// The node identifiers of each node on the computed walk, from the
    /// start node to the target node.
    pub path: Vec<NodeIdentifier>,
    /// The cost of the walk: the sum of the edge payloads along it.
    pub cost: V,
}

/// The weight that node `x` contributes to the termination measure: its
/// recorded distance, or one past the largest cost when none is recorded yet.
spec fn dval(o: Option<u64>) -> int {
    if o is Some {
        o.unwrap() as int
    } else {
        u64::MAX as int + 1
    }
}

/// Termination measure over all recorded distances: every relaxation strictly
/// shrinks it.
spec fn dsum(d: Seq<Option<u64>>) -> int
    decreases d.len(),
{
    if d.len() == 0 {
        0
    } else {
        dsum(d.drop_last()) + dval(d.last())
    }
}

proof fn lemma_dsum_nonneg(d: Seq<Option<u64>>)
    ensures
        dsum(d) >= 0,
    decreases d.len(),
{
    if d.len() > 0 {
        lemma_dsum_nonneg(d.drop_last());
    }
}

proof fn lemma_dsum_update(d: Seq<Option<u64>>, i: int, x: Option<u64>)
    requires
        0 <= i < d.len(),
    ensures
        dsum(d.update(i, x)) == dsum(d) - dval(d[i]) + dval(x),
    decreases d.len(),
{
    let d2 = d.update(i, x);
    if i == d.len() - 1 {
        assert(d2.drop_last() =~= d.drop_last());
        assert(d2.last() == x);
    } else {
        assert(d2.drop_last() =~= d.drop_last().update(i, x));
        assert(d2.last() == d.last());
        lemma_dsum_update(d.drop_last(), i, x);
    }
}

/// The predecessor records form a tree hanging from `from`: every node with a
/// recorded distance other than `from` names a predecessor that reaches it by
/// an edge within the recorded distance, and the pair of recorded distance
/// and discovery depth strictly shrinks towards the predecessor, so following
/// the records always terminates at `from`.
spec fn prev_ok<T>(
    g: &Graph<T, u64>,
    d: Seq<Option<u64>>,
    pv: Seq<Option<NodeIdentifier>>,
    dep: Seq<nat>,
    from: int,
    x: int,
) -> bool {
    (0 <= x < d.len() && d[x] is Some && x != from) ==> {
        let u = pv[x].unwrap() as int;
        &&& pv[x] is Some
        &&& 0 <= u < g.spec_nodes().len()
        &&& d[u] is Some
        &&& exists|j: int|
            0 <= j < g.spec_edges()[u].len() && (#[trigger] g.spec_edges()[u][j]).dest == x
                && d[u].unwrap() + g.spec_edges()[u][j].data <= d[x].unwrap()
        &&& d[u].unwrap() <= d[x].unwrap()
        &&& (d[u].unwrap() == d[x].unwrap() ==> dep[u] < dep[x])
    }
}

/// Node `x` is either fully relaxed or still waits in the work queue.
spec fn covered<T>(
    g: &Graph<T, u64>,
    d: Seq<Option<u64>>,
    q: Seq<(NodeIdentifier, u64)>,
    x: int,
) -> bool {
    d[x] is Some ==> ((exists|i: int| 0 <= i < q.len() && (#[trigger] q[i]).0 == x)
        || node_relaxed(g, d, x))
}

impl<T> Graph<T, u64> {
    /// Finds a cheapest path between two nodes.
    ///
    /// Edge payloads are used as the cost metric, where a greater value
    /// incurs more cost. Tentative distances are relaxed from `from_node`
    /// outward, cheapest frontier node first, until no recorded distance can
    /// be improved.
    ///
    /// The result is `Some` exactly when some walk leads from `from_node` to
    /// `to_node` whose total cost fits the cost type; it then carries a walk
    /// of minimal cost over all walks between the two nodes, together with
    /// that cost. Asking for a path from a node to itself yields the
    /// single-node path of cost zero.
    #[verifier::rlimit(100)]
    #[verifier::spinoff_prover]
    pub fn shortest_path(&self, from_node: NodeIdentifier, to_node: NodeIdentifier) -> (r: Option<
        ShortestPathResult<u64>,
    >)
        requires
            self.wf(),
            from_node < self.spec_nodes().len(),
            to_node < self.spec_nodes().len(),
        ensures
            r is Some <==> reachable_within_budget(self, from_node as int, to_node as int),
            from_node == to_node ==> r is Some,
            match r {
                Some(res) => {
                    &&& res.path@.len() >= 1
                    &&& res.path@[0] == from_node
                    &&& res.path@.last() == to_node
                    &&& exists|e: Seq<int>|
                        is_walk_between(self, from_node as int, to_node as int, ids(res.path@), e)
                            && walk_cost(self, ids(res.path@), e) == res.cost
                    &&& forall|p: Seq<int>, e: Seq<int>|
                        is_walk_between(self, from_node as int, to_node as int, p, e) ==> res.cost
                            <= walk_cost(self, p, e)
                    &&& (from_node == to_node ==> res.path@ =~= seq![from_node] && res.cost == 0)
                },
                None => true,
            },
    {
        let n = self.node_count();

        // Tentative distance and predecessor records, one per node.
        let mut dist: Vec<Option<u64>> = Vec::new();
        let mut prev: Vec<Option<NodeIdentifier>> = Vec::new();
        let mut k: usize = 0;
        while k < n
            invariant
                k <= n,
                dist@.len() == k,
                prev@.len() == k,
                forall|i: int| 0 <= i < k ==> (#[trigger] dist@[i]) is None,
                forall|i: int| 0 <= i < k ==> (#[trigger] prev@[i]) is None,
            decreases n - k,
        {
            dist.push(None);
            prev.push(None);
            k = k + 1;
        }
        // Discovery depths for the predecessor records, ghost only.
        let ghost mut dep: Seq<nat> = Seq::new(n as nat, |i: int| 0nat);

        dist.set(from_node, Some(0u64));

        // Frontier of nodes whose outgoing edges may still allow improvements.
        let mut queue: Vec<(NodeIdentifier, u64)> = Vec::new();
        queue.push((from_node, 0u64));
        proof {
            assert(queue@[0].0 == from_node);
            assert forall|x: int| 0 <= x < n implies covered(self, dist@, queue@, x) by {
                if x == from_node as int {
                    assert(queue@[0].0 == x);
                }
            }
        }

        while queue.len() > 0
            invariant
                self.wf(),
                n == self.spec_nodes().len(),
                from_node < n,
                to_node < n,
                dist@.len() == n,
                prev@.len() == n,
                dep.len() == n,
                dist@[from_node as int] == Some(0u64),
                forall|i: int|
                    0 <= i < queue@.len() ==> (#[trigger] queue@[i]).0 < n
                        && dist@[queue@[i].0 as int] is Some,
                forall|x: int| 0 <= x < n ==> #[trigger] covered(self, dist@, queue@, x),
                forall|x: int|
                    0 <= x < n ==> #[trigger] prev_ok(
                        self,
                        dist@,
                        prev@,
                        dep,
                        from_node as int,
                        x,
                    ),
            decreases queue@.len() + 2 * dsum(dist@),
        {
            proof {
                lemma_dsum_nonneg(dist@);
            }
            let ghost q_start = queue@;
            let ghost dsum_start = dsum(dist@);

            // Extract the entry with the lowest tentative cost (ties go to
            // the oldest entry).
            let mut m: usize = 0;
            let mut i: usize = 1;
            while i < queue.len()
                invariant
                    queue@.len() > 0,
                    m < queue@.len(),
                    i <= queue@.len(),
                    forall|k2: int| 0 <= k2 < i ==> queue@[m as int].1 <= (#[trigger] queue@[k2]).1,
                decreases queue@.len() - i,
            {
                if queue[i].1 < queue[m].1 {
                    m = i;
                }
                i = i + 1;
            }
            let entry = queue.remove(m);
            let u = entry.0;

            proof {
                // Removing one entry of `u` keeps every other node covered.
                assert forall|x: int| 0 <= x < n && x != u as int implies covered(
                    self,
                    dist@,
                    queue@,
                    x,
                ) by {
                    assert(covered(self, dist@, q_start, x));
                    if dist@[x] is Some && !node_relaxed(self, dist@, x) {
                        let i0 = choose|i0: int|
                            0 <= i0 < q_start.len() && (#[trigger] q_start[i0]).0 == x;
                        if i0 < m {
                            assert(queue@[i0].0 == x);
                        } else {
                            assert(queue@[i0 - 1].0 == x);
                        }
                    }
                }
            }

            let du = dist[u].unwrap();
            let ghost mid_measure = queue@.len() + 2 * dsum(dist@);

            // Try to improve every destination reachable over one edge of `u`.
            let es = self.connections(u);
            let mut j: usize = 0;
            while j < es.len()
                invariant
                    self.wf(),
                    n == self.spec_nodes().len(),
                    from_node < n,
                    to_node < n,
                    u < n,
                    es@ == self.spec_edges()[u as int],
                    j <= es@.len(),
                    dist@.len() == n,
                    prev@.len() == n,
                    dep.len() == n,
                    dist@[from_node as int] == Some(0u64),
                    dist@[u as int] == Some(du),
                    forall|i2: int|
                        0 <= i2 < queue@.len() ==> (#[trigger] queue@[i2]).0 < n
                            && dist@[queue@[i2].0 as int] is Some,
                    forall|x: int|
                        0 <= x < n && x != u as int ==> #[trigger] covered(self, dist@, queue@, x),
                    forall|j2: int| 0 <= j2 < j ==> #[trigger] edge_relaxed(
                        self,
                        dist@,
                        u as int,
                        j2,
                    ),
                    forall|x: int|
                        0 <= x < n ==> #[trigger] prev_ok(
                            self,
                            dist@,
                            prev@,
                            dep,
                            from_node as int,
                            x,
                        ),
                    queue@.len() + 2 * dsum(dist@) <= mid_measure,
                decreases es@.len() - j,
            {
                let dest = es[j].dest;
                let w = es[j].data;
                if w <= u64::MAX - du {
                    let cand = du + w;
                    let improve = match dist[dest] {
                        None => true,
                        Some(c) => cand < c,
                    };
                    if improve {
                        let ghost d_old = dist@;
                        let ghost dep_old = dep;
                        let ghost prev_old = prev@;
                        let ghost q_old = queue@;
                        proof {
                            lemma_dsum_update(dist@, dest as int, Some(cand));
                            // The source of the improvement keeps its
                            // distance: improving it over itself would need a
                            // negative edge payload.
                            assert(dest != u);
                            assert(dest != from_node);
                        }
                        dist.set(dest, Some(cand));
                        prev.set(dest, Some(u));
                        proof {
                            dep = dep.update(dest as int, dep[u as int] + 1);
                        }
                        queue.push((dest, cand));
                        proof {
                            assert forall|x: int| 0 <= x < n && x != u as int implies covered(
                                self,
                                dist@,
                                queue@,
                                x,
                            ) by {
                                if dist@[x] is Some {
                                    if x == dest as int {
                                        assert(queue@[queue@.len() - 1].0 == dest);
                                    } else {
                                        assert(covered(self, d_old, q_old, x));
                                        assert(d_old[x] == dist@[x]);
                                        if exists|i2: int|
                                            0 <= i2 < q_old.len() && (#[trigger] q_old[i2]).0
                                                == x {
                                            let i2 = choose|i2: int|
                                                0 <= i2 < q_old.len() && (#[trigger] q_old[i2]).0
                                                    == x;
                                            assert(queue@[i2].0 == x);
                                        } else {
                                            assert(node_relaxed(self, d_old, x));
                                            assert forall|j2: int|
                                                0 <= j2 < self.spec_edges()[x].len()
                                                    implies #[trigger] edge_relaxed(
                                                self,
                                                dist@,
                                                x,
                                                j2,
                                            ) by {
                                                assert(edge_relaxed(self, d_old, x, j2));
                                            }
                                        }
                                    }
                                }
                            }
                            assert forall|j2: int| 0 <= j2 < j + 1 implies #[trigger] edge_relaxed(
                                self,
                                dist@,
                                u as int,
                                j2,
                            ) by {
                                if j2 < j {
                                    assert(edge_relaxed(self, d_old, u as int, j2));
                                }
                            }
                            assert forall|x: int| 0 <= x < n implies #[trigger] prev_ok(
                                self,
                                dist@,
                                prev@,
                                dep,
                                from_node as int,
                                x,
                            ) by {
                                assert(prev_ok(
                                    self,
                                    d_old,
                                    prev_old,
                                    dep_old,
                                    from_node as int,
                                    x,
                                ));
                                if x == dest as int {
                                    assert(self.spec_edges()[u as int][j as int].dest == x);
                                    assert(dist@[u as int].unwrap()
                                        + self.spec_edges()[u as int][j as int].data
                                        <= dist@[x].unwrap());
                                } else if dist@[x] is Some && x != from_node as int {
                                    assert(d_old[x] == dist@[x]);
                                    assert(prev@[x] == prev_old[x]);
                                    assert(dep[x] == dep_old[x]);
                                    let pu = prev_old[x].unwrap() as int;
                                    let j0 = choose|j0: int|
                                        0 <= j0 < self.spec_edges()[pu].len() && (
                                        #[trigger] self.spec_edges()[pu][j0]).dest == x
                                            && d_old[pu].unwrap()
                                            + self.spec_edges()[pu][j0].data
                                            <= d_old[x].unwrap();
                                    if pu == dest as int {
                                        assert(dist@[pu].unwrap() < d_old[pu].unwrap());
                                        assert(dist@[pu].unwrap()
                                            + self.spec_edges()[pu][j0].data <= dist@[x].unwrap());
                                        assert(dist@[pu].unwrap() < dist@[x].unwrap());
                                    } else {
                                        assert(dist@[pu] == d_old[pu]);
                                        assert(dep[pu] == dep_old[pu]);
                                        assert(dist@[pu].unwrap()
                                            + self.spec_edges()[pu][j0].data <= dist@[x].unwrap());
                                    }
                                }
                            }
                        }
                    }
                }
                j = j + 1;
            }
            proof {
                // All edges of `u` are relaxed now, so `u` is covered again.
                assert(node_relaxed(self, dist@, u as int));
                assert forall|x: int| 0 <= x < n implies #[trigger] covered(
                    self,
                    dist@,
                    queue@,
                    x,
                ) by {
                    if x == u as int {
                        assert(node_relaxed(self, dist@, x));
                    }
                }
                lemma_dsum_nonneg(dist@);
            }
        }

        proof {
            // The queue is empty: the recorded distances are a relaxation
            // fixpoint.
            assert forall|x: int|
                0 <= x < n && (#[trigger] dist@[x]) is Some implies node_relaxed(
                self,
                dist@,
                x,
            ) by {
                assert(covered(self, dist@, queue@, x));
            }
            assert(all_relaxed(self, dist@));
        }

        if dist[to_node].is_some() {
            // Trace the predecessor records back from the target and reverse
            // them into a path; the ghost walk certifies validity and cost.
            let mut rpath: Vec<NodeIdentifier> = Vec::new();
            let mut current: NodeIdentifier = to_node;
            let ghost mut wp: Seq<int> = seq![to_node as int];
            let ghost mut we: Seq<int> = Seq::<int>::empty();
            proof {
                assert(is_walk(self, wp, we));
            }
            while current != from_node
                invariant
                    self.wf(),
                    n == self.spec_nodes().len(),
                    from_node < n,
                    to_node < n,
                    dist@.len() == n,
                    prev@.len() == n,
                    dep.len() == n,
                    dist@[from_node as int] == Some(0u64),
                    all_relaxed(self, dist@),
                    forall|x: int|
                        0 <= x < n ==> #[trigger] prev_ok(
                            self,
                            dist@,
                            prev@,
                            dep,
                            from_node as int,
                            x,
                        ),
                    current < n,
                    dist@[current as int] is Some,
                    dist@[to_node as int] is Some,
                    is_walk(self, wp, we),
                    wp[0] == current as int,
                    wp.last() == to_node as int,
                    walk_cost(self, wp, we) == dist@[to_node as int].unwrap()
                        - dist@[current as int].unwrap(),
                    rpath@.len() + 1 == wp.len(),
                    forall|i2: int|
                        0 <= i2 < rpath@.len() ==> rpath@[i2] as int == wp[wp.len() - 1 - i2],
                    from_node == to_node ==> wp =~= seq![to_node as int],
                decreases dist@[current as int].unwrap(), dep[current as int],
            {
                rpath.push(current);
                proof {
                    assert(prev_ok(self, dist@, prev@, dep, from_node as int, current as int));
                }
                let nxt = prev[current].unwrap();
                proof {
                    let j = choose|j: int|
                        0 <= j < self.spec_edges()[nxt as int].len() && (
                        #[trigger] self.spec_edges()[nxt as int][j]).dest == current as int
                            && dist@[nxt as int].unwrap() + self.spec_edges()[nxt as int][j].data
                            <= dist@[current as int].unwrap();
                    // At the fixpoint the predecessor edge is tight.
                    assert(edge_relaxed(self, dist@, nxt as int, j));
                    assert(dist@[current as int].unwrap() == dist@[nxt as int].unwrap()
                        + self.spec_edges()[nxt as int][j].data);
                    lemma_walk_prepend(self, nxt as int, j, wp, we);
                    wp = seq![nxt as int] + wp;
                    we = seq![j] + we;
                }
                current = nxt;
            }
            rpath.push(from_node);

            // Reverse the collected identifiers into start-to-target order.
            let mut path: Vec<NodeIdentifier> = Vec::new();
            let mut t: usize = rpath.len();
            while t > 0
                invariant
                    t <= rpath@.len(),
                    path@.len() == rpath@.len() - t,
                    forall|i2: int|
                        0 <= i2 < path@.len() ==> path@[i2] == rpath@[rpath@.len() - 1 - i2],
                decreases t,
            {
                t = t - 1;
                path.push(rpath[t]);
            }

            let cost = dist[to_node].unwrap();
            proof {
                assert(ids(path@) =~= wp);
                if from_node == to_node {
                    assert(path@.len() == 1 && path@[0] as int == wp[0]);
                    assert(path@ =~= seq![from_node]);
                }
                lemma_walk_cost_nonneg(self, wp, we);
                assert(walk_cost(self, wp, we) == cost);
                assert(is_walk_between(self, from_node as int, to_node as int, wp, we));
                assert(is_walk_between(self, from_node as int, to_node as int, ids(path@), we)
                    && walk_cost(self, ids(path@), we) == cost);
                assert(reachable_within_budget(self, from_node as int, to_node as int));
                assert(path@.len() >= 1 && path@[0] == from_node && path@.last() == to_node);
                assert forall|p: Seq<int>, e: Seq<int>|
                    is_walk_between(self, from_node as int, to_node as int, p, e) implies cost
                    <= walk_cost(self, p, e) by {
                    if walk_cost(self, p, e) <= u64::MAX {
                        lemma_fixpoint_bounds_walks(self, dist@, from_node as int, p, e);
                    }
                }
            }
            Some(ShortestPathResult { path, cost })
        } else {
            proof {
                // An affordable walk to the target would have forced a
                // recorded distance at the fixpoint.
                if reachable_within_budget(self, from_node as int, to_node as int) {
                    let (p, e): (Seq<int>, Seq<int>) = choose|p: Seq<int>, e: Seq<int>|
                        is_walk_between(self, from_node as int, to_node as int, p, e)
                            && walk_cost(self, p, e) <= u64::MAX;
                    lemma_fixpoint_bounds_walks(self, dist@, from_node as int, p, e);
                }
            }
            None
        }
    }
}

} // verus!
