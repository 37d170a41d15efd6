//! Breadth-first traversal over the graph container.
//!
//! The visitation order is pinned down by a specification function:
//! starting from one node, nodes are taken off a first-in-first-out queue,
//! and each newly dequeued node appends its not-yet-seen edge destinations,
//! in the edge list's stored order. A node is marked as seen when it is
//! enqueued, so each node enters the order at most once and the walk
//! terminates on cyclic graphs.

use crate::container::ids;
use crate::container::Edge;
use crate::container::Graph;
use crate::container::NodeIdentifier;
use vstd::pervasive::VecAdditionalExecFns;
use vstd::prelude::*;
use vstd::set_lib::lemma_int_range;
use vstd::set_lib::lemma_len_subset;
use vstd::set_lib::set_int_range;
use vstd::std_specs::cmp::PartialEqSpec;

verus! {

/// Appends to `queue` the destination of each edge of `es`, in order, that
/// `seen` does not yet hold, marking each appended destination as seen.
pub open spec fn bfs_enqueue<V>(es: Seq<Edge<V>>, queue: Seq<int>, seen: Set<int>) -> (Seq<
    int,
>, Set<int>)
    decreases es.len(),
{
    if es.len() == 0 {
        (queue, seen)
    } else {
        let d = es[0].dest as int;
        if seen.contains(d) {
            bfs_enqueue(es.drop_first(), queue, seen)
        } else {
            bfs_enqueue(es.drop_first(), queue.push(d), seen.insert(d))
        }
    }
}

/// The queue and seen set of a breadth-first walk in progress: everything
/// queued has been seen, and everything seen is a valid node.
pub open spec fn bfs_state_ok<T, V>(g: &Graph<T, V>, queue: Seq<int>, seen: Set<int>) -> bool {
    &&& g.wf()
    &&& seen.finite()
    &&& forall|i: int| 0 <= i < queue.len() ==> seen.contains(#[trigger] queue[i])
    &&& forall|x: int| seen.contains(x) ==> 0 <= x < g.spec_nodes().len()
}

/// What `bfs_enqueue` does to the queue and the seen set, in the terms the
/// walk's invariants need.
pub proof fn lemma_bfs_enqueue<V>(es: Seq<Edge<V>>, queue: Seq<int>, seen: Set<int>)
    requires
        seen.finite(),
        forall|i: int| 0 <= i < queue.len() ==> seen.contains(#[trigger] queue[i]),
    ensures
        ({
            let (q2, s2) = bfs_enqueue(es, queue, seen);
            &&& s2.finite()
            &&& seen.subset_of(s2)
            &&& s2.len() >= seen.len()
            &&& (s2.len() == seen.len() ==> q2 == queue)
            &&& q2.len() >= queue.len()
            &&& (forall|i: int| 0 <= i < queue.len() ==> q2[i] == queue[i])
            &&& (forall|i: int| 0 <= i < q2.len() ==> s2.contains(#[trigger] q2[i]))
            &&& (forall|x: int|
                s2.contains(x) ==> seen.contains(x) || exists|k: int|
                    0 <= k < es.len() && (#[trigger] es[k]).dest == x)
            &&& (forall|i: int|
                queue.len() <= i < q2.len() ==> !seen.contains(#[trigger] q2[i]))
            &&& (forall|k: int| 0 <= k < es.len() ==> s2.contains((#[trigger] es[k]).dest as int))
            &&& (forall|x: int| s2.contains(x) && !seen.contains(x) ==> q2.contains(x))
            &&& (forall|i: int, j: int| 0 <= i < j < q2.len() && !(exists|i2: int, j2: int|
                0 <= i2 < j2 < queue.len() && queue[i2] == queue[j2]) ==> q2[i] != q2[j])
        }),
    decreases es.len(),
{
    if es.len() > 0 {
        let d = es[0].dest as int;
        if seen.contains(d) {
            lemma_bfs_enqueue(es.drop_first(), queue, seen);
            assert forall|k: int| 0 <= k < es.len() implies bfs_enqueue(es, queue, seen).1.contains(
                (#[trigger] es[k]).dest as int,
            ) by {
                if k > 0 {
                    assert(es.drop_first()[k - 1] == es[k]);
                }
            }
            assert forall|x: int|
                bfs_enqueue(es, queue, seen).1.contains(x) implies seen.contains(x) || exists|
                k: int,
            | 0 <= k < es.len() && (#[trigger] es[k]).dest == x by {
                if !seen.contains(x) {
                    let k0 = choose|k0: int|
                        0 <= k0 < es.drop_first().len() && (#[trigger] es.drop_first()[k0]).dest
                            == x;
                    assert(es[k0 + 1].dest == x);
                }
            }
        } else {
            lemma_bfs_enqueue(es.drop_first(), queue.push(d), seen.insert(d));
            assert forall|k: int| 0 <= k < es.len() implies bfs_enqueue(es, queue, seen).1.contains(
                (#[trigger] es[k]).dest as int,
            ) by {
                if k > 0 {
                    assert(es.drop_first()[k - 1] == es[k]);
                }
            }
            assert forall|x: int|
                bfs_enqueue(es, queue, seen).1.contains(x) && !seen.contains(x) implies bfs_enqueue(
                es,
                queue,
                seen,
            ).0.contains(x) by {
                let (q2, s2) = bfs_enqueue(es, queue, seen);
                if x == d {
                    assert(queue.push(d)[queue.len() as int] == d);
                    assert(q2[queue.len() as int] == d);
                } else {
                    assert(s2.contains(x) && !seen.insert(d).contains(x));
                }
            }
            assert forall|x: int|
                bfs_enqueue(es, queue, seen).1.contains(x) implies seen.contains(x) || exists|
                k: int,
            | 0 <= k < es.len() && (#[trigger] es[k]).dest == x by {
                if !seen.contains(x) {
                    if x == d {
                        assert(es[0].dest == x);
                    } else {
                        let k0 = choose|k0: int|
                            0 <= k0 < es.drop_first().len()
                                && (#[trigger] es.drop_first()[k0]).dest == x;
                        assert(es[k0 + 1].dest == x);
                    }
                }
            }
        }
    }
}

/// The rest of a breadth-first walk: the nodes of `queue`, oldest first, each
/// followed by its newly discovered edge destinations appended to the queue.
pub open spec fn bfs_rec<T, V>(g: &Graph<T, V>, queue: Seq<int>, seen: Set<int>) -> Seq<int>
    decreases g.spec_nodes().len() - seen.len(), queue.len(),
        when bfs_state_ok(g, queue, seen)
        via bfs_rec_decreases::<T, V>
{
    if queue.len() == 0 {
        Seq::empty()
    } else {
        let cur = queue[0];
        let (q2, s2) = bfs_enqueue(g.spec_edges()[cur], queue.drop_first(), seen);
        seq![cur] + bfs_rec(g, q2, s2)
    }
}

#[via_fn]
proof fn bfs_rec_decreases<T, V>(g: &Graph<T, V>, queue: Seq<int>, seen: Set<int>) {
    if queue.len() > 0 {
        let cur = queue[0];
        let (q2, s2) = bfs_enqueue(g.spec_edges()[cur], queue.drop_first(), seen);
        lemma_bfs_enqueue(g.spec_edges()[cur], queue.drop_first(), seen);
        lemma_int_range(0, g.spec_nodes().len() as int);
        lemma_len_subset(s2, set_int_range(0, g.spec_nodes().len() as int));
        lemma_len_subset(seen, s2);
    }
}

/// The breadth-first visitation order of the graph, starting at `from`: a
/// function of the graph's insertion history and the start node alone.
pub open spec fn bfs_order<T, V>(g: &Graph<T, V>, from: int) -> Seq<int> {
    bfs_rec(g, seq![from], Set::empty().insert(from))
}

/// The seen markers of an in-progress walk, as a set of node identifiers.
pub open spec fn seen_of(s: Seq<bool>) -> Set<int> {
    Set::new(|x: int| 0 <= x < s.len() && s[x])
}

proof fn lemma_seen_of_finite(s: Seq<bool>)
    ensures
        seen_of(s).finite(),
        seen_of(s).len() <= s.len(),
{
    lemma_int_range(0, s.len() as int);
    lemma_len_subset(seen_of(s), set_int_range(0, s.len() as int));
}

impl<T, V> Graph<T, V> {
    /// The identifiers of every node visited by a full breadth-first walk
    /// from `from_index`, in visitation order: nearer nodes first, and among
    /// nodes discovered from the same node, in edge-insertion order. Each
    /// identifier appears at most once, also on cyclic graphs.
    pub fn breadth_first_order(&self, from_index: NodeIdentifier) -> (r: Vec<NodeIdentifier>)
        requires
            self.wf(),
            from_index < self.spec_nodes().len(),
        ensures
            ids(r@) == bfs_order(self, from_index as int),
            forall|i: int| 0 <= i < r@.len() ==> (#[trigger] r@[i]) < self.spec_nodes().len(),
    {
        let n = self.node_count();
        let mut seen: Vec<bool> = Vec::new();
        let mut k: usize = 0;
        while k < n
            invariant
                k <= n,
                seen@.len() == k,
                forall|i: int| 0 <= i < k ==> !(#[trigger] seen@[i]),
            decreases n - k,
        {
            seen.push(false);
            k = k + 1;
        }
        let mut queue: Vec<NodeIdentifier> = Vec::new();
        let mut order: Vec<NodeIdentifier> = Vec::new();
        queue.push(from_index);
        seen.set(from_index, true);
        proof {
            assert(seen_of(seen@) =~= Set::empty().insert(from_index as int));
            assert(ids(queue@) =~= seq![from_index as int]);
            lemma_seen_of_finite(seen@);
        }

        while queue.len() > 0
            invariant
                self.wf(),
                n == self.spec_nodes().len(),
                seen@.len() == n,
                bfs_state_ok(self, ids(queue@), seen_of(seen@)),
                forall|i: int| 0 <= i < order@.len() ==> (#[trigger] order@[i]) < n,
                ids(order@) + bfs_rec(self, ids(queue@), seen_of(seen@)) == bfs_order(
                    self,
                    from_index as int,
                ),
            decreases n - seen_of(seen@).len(), queue@.len(),
        {
            let ghost q0 = ids(queue@);
            let ghost s0 = seen_of(seen@);
            let current = queue.remove(0);
            proof {
                assert(q0[0] == current as int);
                assert(s0.contains(current as int));
                assert(ids(queue@) =~= q0.drop_first());
            }
            order.push(current);
            let es = self.connections(current);
            let ghost q1 = ids(queue@);
            proof {
                assert(es@.skip(0) =~= es@);
            }
            let mut j: usize = 0;
            while j < es.len()
                invariant
                    self.wf(),
                    n == self.spec_nodes().len(),
                    seen@.len() == n,
                    current < n,
                    es@ == self.spec_edges()[current as int],
                    j <= es@.len(),
                    seen_of(seen@).finite(),
                    forall|i: int|
                        0 <= i < queue@.len() ==> seen_of(seen@).contains(ids(queue@)[i]),
                    forall|x: int| seen_of(seen@).contains(x) ==> 0 <= x < n,
                    bfs_enqueue(es@.skip(j as int), ids(queue@), seen_of(seen@)) == bfs_enqueue(
                        es@,
                        q1,
                        s0,
                    ),
                decreases es@.len() - j,
            {
                let dst = es[j].dest;
                let ghost qa = ids(queue@);
                let ghost sa = seen_of(seen@);
                proof {
                    assert(es@.skip(j as int)[0] == es@[j as int]);
                    assert(es@.skip(j as int).drop_first() =~= es@.skip(j as int + 1));
                }
                if !seen[dst] {
                    queue.push(dst);
                    seen.set(dst, true);
                    proof {
                        assert(!sa.contains(dst as int));
                        assert(ids(queue@) =~= qa.push(dst as int));
                        assert(seen_of(seen@) =~= sa.insert(dst as int));
                    }
                } else {
                    proof {
                        assert(sa.contains(dst as int));
                    }
                }
                j = j + 1;
            }
            proof {
                assert(es@.skip(es@.len() as int) =~= Seq::<Edge<V>>::empty());
                assert(bfs_enqueue(es@.skip(es@.len() as int), ids(queue@), seen_of(seen@)) == (
                ids(queue@),
                seen_of(seen@),
                ));
                lemma_bfs_enqueue(es@, q1, s0);
                // One step of the walk: the dequeued node heads the rest of
                // the order.
                assert(bfs_rec(self, q0, s0) == seq![current as int] + bfs_rec(
                    self,
                    ids(queue@),
                    seen_of(seen@),
                ));
                assert(ids(order@) =~= ids(order@.drop_last()) + seq![current as int]);
                assert(ids(order@) + bfs_rec(self, ids(queue@), seen_of(seen@)) =~= (ids(
                    order@.drop_last(),
                ) + bfs_rec(self, q0, s0)));
                lemma_len_subset(s0, seen_of(seen@));
                lemma_int_range(0, n as int);
                lemma_len_subset(seen_of(seen@), set_int_range(0, n as int));
            }
        }
        proof {
            assert(bfs_rec(self, ids(queue@), seen_of(seen@)) =~= Seq::<int>::empty());
            assert(ids(order@) + bfs_rec(self, ids(queue@), seen_of(seen@)) =~= ids(order@));
        }
        order
    }
}

proof fn lemma_bfs_rec_distinct<T, V>(g: &Graph<T, V>, queue: Seq<int>, seen: Set<int>)
    requires
        bfs_state_ok(g, queue, seen),
        forall|i: int, j: int| 0 <= i < j < queue.len() ==> queue[i] != queue[j],
    ensures
        ({
            let r = bfs_rec(g, queue, seen);
            &&& forall|i: int, j: int| 0 <= i < j < r.len() ==> r[i] != r[j]
            &&& forall|i: int|
                0 <= i < r.len() ==> queue.contains(#[trigger] r[i]) || !seen.contains(r[i])
        }),
    decreases g.spec_nodes().len() - seen.len(), queue.len(),
{
    if queue.len() > 0 {
        let cur = queue[0];
        let es = g.spec_edges()[cur];
        let (q2, s2) = bfs_enqueue(es, queue.drop_first(), seen);
        lemma_bfs_enqueue(es, queue.drop_first(), seen);
        lemma_int_range(0, g.spec_nodes().len() as int);
        lemma_len_subset(s2, set_int_range(0, g.spec_nodes().len() as int));
        lemma_len_subset(seen, s2);
        assert(forall|i: int, j: int|
            0 <= i < j < queue.drop_first().len() ==> queue.drop_first()[i]
                != queue.drop_first()[j]);
        assert(!(exists|i2: int, j2: int|
            0 <= i2 < j2 < queue.drop_first().len() && queue.drop_first()[i2]
                == queue.drop_first()[j2]));
        lemma_bfs_rec_distinct(g, q2, s2);
        let r1 = bfs_rec(g, q2, s2);
        let r = bfs_rec(g, queue, seen);
        assert(r == seq![cur] + r1);
        // The dequeued node never reappears: later entries are either other
        // queue entries or nodes unseen when it was dequeued.
        assert forall|i: int| 0 <= i < r1.len() implies r1[i] != cur by {
            if q2.contains(r1[i]) {
                let k = choose|k: int| 0 <= k < q2.len() && q2[k] == r1[i];
                if k < queue.drop_first().len() {
                    assert(queue[k + 1] == r1[i]);
                } else {
                    assert(!seen.contains(q2[k]));
                }
            } else {
                assert(!s2.contains(r1[i]));
            }
        }
        assert forall|i: int|
            0 <= i < r.len() implies queue.contains(#[trigger] r[i]) || !seen.contains(r[i]) by {
            if i == 0 {
                assert(queue[0] == r[i]);
            } else {
                let e = r1[i - 1];
                assert(r[i] == e);
                if q2.contains(e) {
                    let k = choose|k: int| 0 <= k < q2.len() && q2[k] == e;
                    if k < queue.drop_first().len() {
                        assert(queue[k + 1] == e);
                    } else {
                        assert(!seen.contains(e));
                    }
                } else {
                    assert(!s2.contains(e));
                }
            }
        }
    }
}

proof fn lemma_bfs_rec_closed<T, V>(g: &Graph<T, V>, queue: Seq<int>, seen: Set<int>)
    requires
        bfs_state_ok(g, queue, seen),
    ensures
        ({
            let r = bfs_rec(g, queue, seen);
            &&& forall|i: int| 0 <= i < r.len() ==> 0 <= #[trigger] r[i] < g.spec_nodes().len()
            &&& forall|i: int| 0 <= i < queue.len() ==> r.contains(#[trigger] queue[i])
            &&& forall|i: int, j: int|
                0 <= i < r.len() && 0 <= j < g.spec_edges()[r[i]].len() ==> r.contains(
                    (#[trigger] g.spec_edges()[r[i]][j]).dest as int,
                ) || seen.contains(g.spec_edges()[r[i]][j].dest as int)
        }),
    decreases g.spec_nodes().len() - seen.len(), queue.len(),
{
    if queue.len() > 0 {
        let cur = queue[0];
        let es = g.spec_edges()[cur];
        let (q2, s2) = bfs_enqueue(es, queue.drop_first(), seen);
        lemma_bfs_enqueue(es, queue.drop_first(), seen);
        lemma_int_range(0, g.spec_nodes().len() as int);
        lemma_len_subset(s2, set_int_range(0, g.spec_nodes().len() as int));
        lemma_len_subset(seen, s2);
        lemma_bfs_rec_closed(g, q2, s2);
        let r1 = bfs_rec(g, q2, s2);
        let r = bfs_rec(g, queue, seen);
        assert(r == seq![cur] + r1);
        assert forall|x: int| r1.contains(x) implies r.contains(x) by {
            let k = choose|k: int| 0 <= k < r1.len() && r1[k] == x;
            assert(r[k + 1] == x);
        }
        assert forall|i: int| 0 <= i < queue.len() implies r.contains(#[trigger] queue[i]) by {
            if i == 0 {
                assert(r[0] == queue[i]);
            } else {
                assert(q2[i - 1] == queue.drop_first()[i - 1]);
                assert(r1.contains(q2[i - 1]));
            }
        }
        assert forall|i: int, j: int|
            0 <= i < r.len() && 0 <= j < g.spec_edges()[r[i]].len() implies r.contains(
            (#[trigger] g.spec_edges()[r[i]][j]).dest as int,
        ) || seen.contains(g.spec_edges()[r[i]][j].dest as int) by {
            let w = g.spec_edges()[r[i]][j].dest as int;
            if i == 0 {
                // a destination of the dequeued node was enqueued or already
                // seen
                assert(s2.contains(w));
                if !seen.contains(w) {
                    assert(q2.contains(w));
                    let k = choose|k: int| 0 <= k < q2.len() && q2[k] == w;
                    assert(r1.contains(q2[k]));
                }
            } else {
                assert(r[i] == r1[i - 1]);
                if r1.contains(w) {
                    assert(r.contains(w));
                } else if s2.contains(w) && !seen.contains(w) {
                    assert(q2.contains(w));
                    let k = choose|k: int| 0 <= k < q2.len() && q2[k] == w;
                    assert(r1.contains(q2[k]));
                }
            }
        }
    }
}

/// A chain of node identifiers in which every consecutive pair is joined by
/// an edge: the witness that its last node is reachable from its first.
pub open spec fn node_chain<T, V>(g: &Graph<T, V>, p: Seq<int>) -> bool {
    &&& p.len() >= 1
    &&& forall|i: int| 0 <= i < p.len() ==> 0 <= #[trigger] p[i] < g.spec_nodes().len()
    &&& forall|i: int| 0 <= i < p.len() - 1 ==> g.has_edge(#[trigger] p[i], p[i + 1])
}

/// `v` lies at the end of some chain of edges out of `from`. Every node is
/// reachable from itself by the single-node chain.
pub open spec fn reachable_from<T, V>(g: &Graph<T, V>, from: int, v: int) -> bool {
    exists|p: Seq<int>| node_chain(g, p) && p[0] == from && p.last() == v
}

proof fn lemma_bfs_rec_sound<T, V>(g: &Graph<T, V>, queue: Seq<int>, seen: Set<int>, from: int)
    requires
        bfs_state_ok(g, queue, seen),
        forall|x: int| seen.contains(x) ==> reachable_from(g, from, x),
    ensures
        forall|i: int|
            0 <= i < bfs_rec(g, queue, seen).len() ==> reachable_from(
                g,
                from,
                #[trigger] bfs_rec(g, queue, seen)[i],
            ),
    decreases g.spec_nodes().len() - seen.len(), queue.len(),
{
    if queue.len() > 0 {
        let cur = queue[0];
        let es = g.spec_edges()[cur];
        let (q2, s2) = bfs_enqueue(es, queue.drop_first(), seen);
        lemma_bfs_enqueue(es, queue.drop_first(), seen);
        lemma_int_range(0, g.spec_nodes().len() as int);
        lemma_len_subset(s2, set_int_range(0, g.spec_nodes().len() as int));
        lemma_len_subset(seen, s2);
        // Everything newly seen hangs one edge below the dequeued node, which
        // is itself reachable.
        assert forall|x: int| s2.contains(x) implies reachable_from(g, from, x) by {
            if !seen.contains(x) {
                let k = choose|k: int| 0 <= k < es.len() && (#[trigger] es[k]).dest == x;
                let p = choose|p: Seq<int>|
                    node_chain(g, p) && p[0] == from && p.last() == cur;
                let p2 = p.push(x);
                assert(g.has_edge(cur, x));
                assert forall|i: int| 0 <= i < p2.len() - 1 implies g.has_edge(
                    #[trigger] p2[i],
                    p2[i + 1],
                ) by {
                    if i < p.len() - 1 {
                        assert(p2[i] == p[i] && p2[i + 1] == p[i + 1]);
                    } else {
                        assert(p2[i] == cur && p2[i + 1] == x);
                    }
                }
                assert(node_chain(g, p2));
                assert(p2[0] == from && p2.last() == x);
            }
        }
        lemma_bfs_rec_sound(g, q2, s2, from);
        let r1 = bfs_rec(g, q2, s2);
        let r = bfs_rec(g, queue, seen);
        assert(r == seq![cur] + r1);
        assert forall|i: int| 0 <= i < r.len() implies reachable_from(g, from, #[trigger] r[i]) by {
            if i > 0 {
                assert(r[i] == r1[i - 1]);
            }
        }
    }
}

/// Breadth-first traversal reaches everything: every node at the end of a
/// chain of edges out of the start node appears in the breadth-first order.
pub proof fn lemma_bfs_order_complete<T, V>(g: &Graph<T, V>, from: int, p: Seq<int>)
    requires
        g.wf(),
        0 <= from < g.spec_nodes().len(),
        node_chain(g, p),
        p[0] == from,
    ensures
        bfs_order(g, from).contains(p.last()),
    decreases p.len(),
{
    let order = bfs_order(g, from);
    lemma_bfs_rec_closed(g, seq![from], Set::empty().insert(from));
    if p.len() == 1 {
        assert(seq![from][0] == from);
        assert(order.contains(from));
    } else {
        let p1 = p.drop_last();
        assert(node_chain(g, p1));
        lemma_bfs_order_complete(g, from, p1);
        let u = p1.last();
        assert(g.has_edge(p[p.len() - 2], p.last()));
        let j = choose|j: int|
            0 <= j < g.spec_edges()[u].len() && (#[trigger] g.spec_edges()[u][j]).dest
                == p.last();
        let i = choose|i: int| 0 <= i < order.len() && order[i] == u;
        assert(order.contains(g.spec_edges()[order[i]][j].dest as int) || Set::empty().insert(
            from,
        ).contains(g.spec_edges()[order[i]][j].dest as int));
        if !order.contains(p.last()) {
            assert(p.last() == from);
            assert(seq![from][0] == from);
            assert(order.contains(from));
        }
    }
}

/// `v` lies at the end of a chain out of `from` that takes at most `k` edges.
pub open spec fn chain_within<T, V>(g: &Graph<T, V>, from: int, v: int, k: int) -> bool {
    exists|p: Seq<int>| node_chain(g, p) && p[0] == from && p.last() == v && p.len() <= k + 1
}

/// A chain bound is never negative.
proof fn lemma_chain_nonneg<T, V>(g: &Graph<T, V>, from: int, v: int, k: int)
    requires
        chain_within(g, from, v, k),
    ensures
        k >= 0,
{
    let p = choose|p: Seq<int>|
        node_chain(g, p) && p[0] == from && p.last() == v && p.len() <= k + 1;
    assert(p.len() >= 1);
}

/// A chain bound extends along an edge.
proof fn lemma_chain_extend<T, V>(g: &Graph<T, V>, from: int, u: int, v: int, k: int)
    requires
        g.wf(),
        chain_within(g, from, u, k),
        g.has_edge(u, v),
        0 <= v < g.spec_nodes().len(),
    ensures
        chain_within(g, from, v, k + 1),
{
    let p = choose|p: Seq<int>|
        node_chain(g, p) && p[0] == from && p.last() == u && p.len() <= k + 1;
    let p2 = p.push(v);
    assert forall|i: int| 0 <= i < p2.len() - 1 implies g.has_edge(
        #[trigger] p2[i],
        p2[i + 1],
    ) by {
        if i < p.len() - 1 {
            assert(p2[i] == p[i] && p2[i + 1] == p[i + 1]);
        } else {
            assert(p2[i] == u && p2[i + 1] == v);
        }
    }
    assert(node_chain(g, p2));
    assert(p2[0] == from && p2.last() == v && p2.len() <= k + 2);
}

/// A chain to a node other than its start has a next-to-last node one edge
/// short of it.
proof fn lemma_chain_penultimate<T, V>(g: &Graph<T, V>, from: int, v: int, k: int)
    requires
        g.wf(),
        chain_within(g, from, v, k),
        v != from,
    ensures
        exists|u: int|
            0 <= u < g.spec_nodes().len() && #[trigger] chain_within(g, from, u, k - 1)
                && g.has_edge(u, v),
{
    let p = choose|p: Seq<int>|
        node_chain(g, p) && p[0] == from && p.last() == v && p.len() <= k + 1;
    assert(p.len() >= 2);
    let u = p[p.len() - 2];
    let p1 = p.drop_last();
    assert(node_chain(g, p1));
    assert(p1[0] == from && p1.last() == u && p1.len() <= k);
    assert(chain_within(g, from, u, k - 1));
    assert(g.has_edge(p[p.len() - 2], p[p.len() - 2 + 1]));
}

/// The levels of a breadth-first walk in flight. The queue carries, oldest
/// first, nodes whose exact hop distance from the start is its paired level;
/// levels run in non-decreasing order and span at most two consecutive
/// values, and everything not yet seen lies strictly deeper than the head.
spec fn bfs_levels_ok<T, V>(
    g: &Graph<T, V>,
    queue: Seq<int>,
    seen: Set<int>,
    from: int,
    lv: Seq<int>,
) -> bool {
    &&& seen.contains(from)
    &&& lv.len() == queue.len()
    &&& forall|i: int, j: int| #![trigger lv[i], lv[j]] 0 <= i <= j < lv.len() ==> lv[i] <= lv[j]
    &&& forall|i: int| 0 <= i < lv.len() ==> 0 <= #[trigger] lv[i] <= lv[0] + 1
    &&& forall|i: int| 0 <= i < queue.len() ==> chain_within(g, from, queue[i], #[trigger] lv[i])
    &&& forall|i: int, k: int|
        0 <= i < queue.len() && #[trigger] chain_within(g, from, queue[i], k) ==> k >= lv[i]
    &&& (queue.len() > 0 ==> forall|v: int, k: int|
        0 <= v < g.spec_nodes().len() && !seen.contains(v) && #[trigger] chain_within(g, from, v, k)
            ==> k >= lv[0] + 1)
    &&& forall|u: int|
        #[trigger] seen.contains(u) && 0 <= u < g.spec_nodes().len() ==> queue.contains(u) || (
        forall|j: int|
            0 <= j < g.spec_edges()[u].len() ==> seen.contains(
                (#[trigger] g.spec_edges()[u][j]).dest as int,
            ))
}

/// Each node of the rest of the walk comes with its exact hop distance from
/// the start, and those distances never decrease along the output.
proof fn lemma_bfs_rec_levels<T, V>(
    g: &Graph<T, V>,
    queue: Seq<int>,
    seen: Set<int>,
    from: int,
    lv: Seq<int>,
) -> (olv: Seq<int>)
    requires
        bfs_state_ok(g, queue, seen),
        0 <= from < g.spec_nodes().len(),
        bfs_levels_ok(g, queue, seen, from, lv),
    ensures
        olv.len() == bfs_rec(g, queue, seen).len(),
        queue.len() > 0 ==> olv.len() > 0 && olv[0] == lv[0],
        forall|i: int, j: int| #![trigger olv[i], olv[j]] 0 <= i <= j < olv.len() ==> olv[i] <= olv[j],
        forall|i: int|
            0 <= i < olv.len() ==> chain_within(
                g,
                from,
                bfs_rec(g, queue, seen)[i],
                #[trigger] olv[i],
            ),
        forall|i: int, k: int|
            0 <= i < olv.len() && #[trigger] chain_within(g, from, bfs_rec(g, queue, seen)[i], k)
                ==> k >= olv[i],
    decreases g.spec_nodes().len() - seen.len(), queue.len(),
{
    if queue.len() == 0 {
        Seq::empty()
    } else {
        let cur = queue[0];
        let es = g.spec_edges()[cur];
        let (q2, s2) = bfs_enqueue(es, queue.drop_first(), seen);
        lemma_bfs_enqueue(es, queue.drop_first(), seen);
        lemma_int_range(0, g.spec_nodes().len() as int);
        lemma_len_subset(s2, set_int_range(0, g.spec_nodes().len() as int));
        lemma_len_subset(seen, s2);
        let lnew = lv[0] + 1;
        let lv2 = lv.drop_first() + Seq::new((q2.len() - queue.len() + 1) as nat, |i: int| lnew);
        assert(lv2.len() == q2.len());
        // Upper bounds: the newly enqueued nodes hang one edge below the
        // dequeued node.
        assert forall|i: int| 0 <= i < q2.len() implies chain_within(
            g,
            from,
            q2[i],
            #[trigger] lv2[i],
        ) by {
            if i < queue.len() - 1 {
                assert(q2[i] == queue.drop_first()[i]);
                assert(lv2[i] == lv[i + 1]);
            } else {
                assert(lv2[i] == lnew);
                assert(!seen.contains(q2[i]) && s2.contains(q2[i]));
                let k0 = choose|k0: int| 0 <= k0 < es.len() && (#[trigger] es[k0]).dest == q2[i];
                assert(g.has_edge(cur, q2[i]));
                lemma_chain_extend(g, from, cur, q2[i], lv[0]);
            }
        }
        // Lower bounds: a newly enqueued node was unseen, so no chain beats
        // the new level.
        assert forall|i: int, k: int|
            0 <= i < q2.len() && #[trigger] chain_within(g, from, q2[i], k) implies k
            >= lv2[i] by {
            if i < queue.len() - 1 {
                assert(q2[i] == queue[i + 1]);
                assert(lv2[i] == lv[i + 1]);
            } else {
                assert(!seen.contains(q2[i]));
                assert(lv2[i] == lnew);
            }
        }
        // The levels stay ordered and within two consecutive values.
        assert forall|i: int, j: int| #![trigger lv2[i], lv2[j]] 0 <= i <= j < lv2.len() implies lv2[i]
            <= lv2[j] by {
            if j < queue.len() - 1 {
                assert(lv2[i] == lv[i + 1] && lv2[j] == lv[j + 1]);
            } else if i < queue.len() - 1 {
                assert(lv2[i] == lv[i + 1] && lv2[i] <= lv[0] + 1 == lnew);
            }
        }
        assert forall|i: int| 0 <= i < lv2.len() implies 0 <= #[trigger] lv2[i] <= lv2[0] + 1 by {
            if lv2.len() > 0 {
                assert(lv2[0] == lv2[0]);
                if i >= queue.len() - 1 {
                    assert(lv2[i] == lnew);
                    if queue.len() > 1 {
                        assert(lv2[0] == lv[1] >= lv[0]);
                    }
                } else {
                    assert(lv2[i] == lv[i + 1]);
                    if queue.len() > 1 {
                        assert(lv2[0] == lv[1] <= lv[i + 1]);
                    }
                }
            }
        }
        // Everything still unseen lies strictly deeper than the new head.
        assert forall|v: int, k: int|
            q2.len() > 0 && 0 <= v < g.spec_nodes().len() && !s2.contains(v)
                && #[trigger] chain_within(g, from, v, k) implies k >= lv2[0] + 1 by {
            assert(!seen.contains(v));
            assert(k >= lv[0] + 1);
            if lv2[0] > lv[0] {
                assert(lv2[0] == lv[0] + 1);
                if k < lv2[0] + 1 {
                    assert(k == lv[0] + 1);
                    assert(v != from);
                    lemma_chain_penultimate(g, from, v, k);
                    let u = choose|u: int|
                        0 <= u < g.spec_nodes().len() && #[trigger] chain_within(g, from, u, k - 1)
                            && g.has_edge(u, v);
                    if !seen.contains(u) {
                        assert(k - 1 >= lv[0] + 1);
                        assert(false);
                    } else {
                        if queue.contains(u) {
                            let iu = choose|iu: int| 0 <= iu < queue.len() && queue[iu] == u;
                            if iu == 0 {
                                // the dequeued node was just processed, so
                                // its destinations are all seen now
                                let j0 = choose|j0: int|
                                    0 <= j0 < es.len() && (#[trigger] es[j0]).dest == v;
                                assert(s2.contains(v));
                                assert(false);
                            } else {
                                assert(q2[iu - 1] == queue.drop_first()[iu - 1] == u);
                                assert(lv2[iu - 1] == lv[iu]);
                                assert(k - 1 >= lv[iu] >= lv2[0]);
                                assert(false);
                            }
                        } else {
                            // a seen node off the queue is fully processed
                            let j0 = choose|j0: int|
                                0 <= j0 < g.spec_edges()[u].len()
                                    && (#[trigger] g.spec_edges()[u][j0]).dest == v;
                            assert(seen.contains(v));
                            assert(false);
                        }
                    }
                }
            }
        }
        // A seen node is queued or fully processed, still.
        assert forall|u: int|
            #[trigger] s2.contains(u) && 0 <= u < g.spec_nodes().len() implies q2.contains(u) || (
        forall|j: int|
            0 <= j < g.spec_edges()[u].len() ==> s2.contains(
                (#[trigger] g.spec_edges()[u][j]).dest as int,
            )) by {
            if seen.contains(u) {
                if queue.contains(u) {
                    let iu = choose|iu: int| 0 <= iu < queue.len() && queue[iu] == u;
                    if iu == 0 {
                        assert(u == cur);
                        assert forall|j: int| 0 <= j < g.spec_edges()[u].len() implies s2.contains(
                            (#[trigger] g.spec_edges()[u][j]).dest as int,
                        ) by {
                            assert(s2.contains(es[j].dest as int));
                        }
                    } else {
                        assert(q2[iu - 1] == queue.drop_first()[iu - 1] == u);
                    }
                } else {
                    assert forall|j: int| 0 <= j < g.spec_edges()[u].len() implies s2.contains(
                        (#[trigger] g.spec_edges()[u][j]).dest as int,
                    ) by {
                        assert(seen.contains(g.spec_edges()[u][j].dest as int));
                    }
                }
            } else {
                assert(q2.contains(u));
            }
        }
        assert(bfs_levels_ok(g, q2, s2, from, lv2));
        let olv1 = lemma_bfs_rec_levels(g, q2, s2, from, lv2);
        let olv = seq![lv[0]] + olv1;
        let r = bfs_rec(g, queue, seen);
        assert(r == seq![cur] + bfs_rec(g, q2, s2));
        assert forall|i: int, j: int| #![trigger olv[i], olv[j]] 0 <= i <= j < olv.len() implies olv[i]
            <= olv[j] by {
            if i == 0 && j > 0 {
                assert(olv[j] == olv1[j - 1]);
                assert(olv1[0] <= olv1[j - 1]);
                assert(q2.len() > 0 ==> olv1[0] == lv2[0] >= lv[0]);
            } else if i > 0 {
                assert(olv[i] == olv1[i - 1] && olv[j] == olv1[j - 1]);
            }
        }
        assert forall|i: int| 0 <= i < olv.len() implies chain_within(
            g,
            from,
            r[i],
            #[trigger] olv[i],
        ) by {
            if i > 0 {
                assert(r[i] == bfs_rec(g, q2, s2)[i - 1] && olv[i] == olv1[i - 1]);
            }
        }
        assert forall|i: int, k: int|
            0 <= i < olv.len() && #[trigger] chain_within(g, from, r[i], k) implies k
            >= olv[i] by {
            if i > 0 {
                assert(r[i] == bfs_rec(g, q2, s2)[i - 1] && olv[i] == olv1[i - 1]);
            }
        }
        olv
    }
}

/// Breadth-first order is breadth first: nodes nearer the start (in edge
/// hops) are visited before nodes farther from it — siblings before
/// grandchildren.
pub proof fn lemma_bfs_order_level_monotone<T, V>(g: &Graph<T, V>, from: int)
    requires
        g.wf(),
        0 <= from < g.spec_nodes().len(),
    ensures
        forall|i: int, j: int, k: int|
            #![trigger chain_within(g, from, bfs_order(g, from)[j], k), bfs_order(g, from)[i]]
            0 <= i <= j < bfs_order(g, from).len() && chain_within(g, from, bfs_order(g, from)[j], k)
                ==> chain_within(g, from, bfs_order(g, from)[i], k),
{
    let order = bfs_order(g, from);
    let q0: Seq<int> = seq![from];
    let s0: Set<int> = Set::empty().insert(from);
    let lv0: Seq<int> = seq![0];
    assert(node_chain(g, seq![from]) && seq![from][0] == from && seq![from].last() == from);
    assert(chain_within(g, from, from, 0));
    assert forall|v: int, k: int|
        0 <= v < g.spec_nodes().len() && !s0.contains(v) && #[trigger] chain_within(g, from, v, k)
            implies k >= 1 by {
        let p = choose|p: Seq<int>|
            node_chain(g, p) && p[0] == from && p.last() == v && p.len() <= k + 1;
        assert(p.len() >= 2);
    }
    assert forall|i: int, k: int|
        0 <= i < q0.len() && #[trigger] chain_within(g, from, q0[i], k) implies k
        >= lv0[i] by {
        lemma_chain_nonneg(g, from, q0[i], k);
    }
    assert(bfs_levels_ok(g, q0, s0, from, lv0));
    let olv = lemma_bfs_rec_levels(g, q0, s0, from, lv0);
    assert forall|i: int, j: int, k: int|
        #![trigger chain_within(g, from, order[j], k), order[i]]
        0 <= i <= j < order.len() && chain_within(g, from, order[j], k)
            implies chain_within(g, from, order[i], k) by {
        assert(k >= olv[j]);
        assert(olv[i] <= olv[j]);
        assert(chain_within(g, from, order[i], olv[i]));
        let p = choose|p: Seq<int>|
            node_chain(g, p) && p[0] == from && p.last() == order[i] && p.len() <= olv[i] + 1;
        assert(p.len() <= k + 1);
    }
}

/// The breadth-first order from a node holds exactly the nodes reachable
/// from it, each exactly once (no duplicates, by
/// `lemma_bfs_order_distinct`).
pub proof fn lemma_bfs_order_exactly_reachable<T, V>(g: &Graph<T, V>, from: int)
    requires
        g.wf(),
        0 <= from < g.spec_nodes().len(),
    ensures
        forall|v: int| bfs_order(g, from).contains(v) <==> reachable_from(g, from, v),
{
    let order = bfs_order(g, from);
    assert forall|v: int| order.contains(v) <==> reachable_from(g, from, v) by {
        if order.contains(v) {
            assert(seq![from][0] == from);
            assert(reachable_from(g, from, seq![from].last()));
            lemma_bfs_rec_sound(g, seq![from], Set::empty().insert(from), from);
            let i = choose|i: int| 0 <= i < order.len() && order[i] == v;
            assert(reachable_from(g, from, order[i]));
        }
        if reachable_from(g, from, v) {
            let p = choose|p: Seq<int>| node_chain(g, p) && p[0] == from && p.last() == v;
            lemma_bfs_order_complete(g, from, p);
        }
    }
}

/// Breadth-first traversal visits each node at most once: the breadth-first
/// order holds no identifier twice, also on cyclic graphs.
pub proof fn lemma_bfs_order_distinct<T, V>(g: &Graph<T, V>, from: int)
    requires
        g.wf(),
        0 <= from < g.spec_nodes().len(),
    ensures
        forall|i: int, j: int|
            0 <= i < j < bfs_order(g, from).len() ==> bfs_order(g, from)[i] != bfs_order(
                g,
                from,
            )[j],
{
    lemma_bfs_rec_distinct(g, seq![from], Set::empty().insert(from));
}

/// The record a finished traversal leaves behind: `res` holds, in visitation
/// order, what the visitor returned for a prefix of the breadth-first order.
/// Every answer but the last was `true`, and the traversal stopped short of
/// the full order only on a `false` answer, leaving the remaining nodes
/// unvisited.
pub open spec fn visited_prefix<T, V, F: Fn(NodeIdentifier, &T) -> bool>(
    g: &Graph<T, V>,
    from: int,
    visitor: F,
    res: Seq<bool>,
) -> bool {
    let order = bfs_order(g, from);
    &&& res.len() <= order.len()
    &&& forall|i: int|
        0 <= i < res.len() ==> call_ensures(
            visitor,
            ((order[i] as NodeIdentifier), &g.spec_nodes()[order[i]]),
            #[trigger] res[i],
        )
    &&& forall|i: int| 0 <= i < res.len() - 1 ==> res[i] == true
    &&& (res.len() < order.len() ==> res.len() >= 1 && res[res.len() - 1] == false)
}

impl<T, V> Graph<T, V> {
    /// Traverse the graph, visiting each node directly or indirectly
    /// connected to the node identified by `from_index`.
    ///
    /// Calls `visitor` with the identifier and payload of each node on the
    /// trip, visiting sibling nodes before descending deeper into the graph.
    /// In the event of cycles, each node is visited at most once. Should
    /// `visitor` return `false`, no further nodes are visited: nodes already
    /// discovered but not yet visited are abandoned.
    pub fn visit_breadth_first<F: Fn(NodeIdentifier, &T) -> bool>(
        &self,
        from_index: NodeIdentifier,
        visitor: F,
    )
        requires
            self.wf(),
            from_index < self.spec_nodes().len(),
            forall|id: NodeIdentifier, t: &T|
                id < self.spec_nodes().len() && *t == self.spec_nodes()[id as int]
                    ==> call_requires(visitor, (id, t)),
        ensures
            exists|res: Seq<bool>| #[trigger] visited_prefix(self, from_index as int, visitor, res),
    {
        let order = self.breadth_first_order(from_index);
        let mut i: usize = 0;
        let mut proceed: bool = true;
        let ghost mut res: Seq<bool> = Seq::empty();
        while i < order.len() && proceed
            invariant
                self.wf(),
                from_index < self.spec_nodes().len(),
                forall|id: NodeIdentifier, t: &T|
                    id < self.spec_nodes().len() && *t == self.spec_nodes()[id as int]
                        ==> call_requires(visitor, (id, t)),
                ids(order@) == bfs_order(self, from_index as int),
                forall|i2: int|
                    0 <= i2 < order@.len() ==> (#[trigger] order@[i2]) < self.spec_nodes().len(),
                i <= order@.len(),
                res.len() == i,
                forall|i2: int|
                    0 <= i2 < i ==> call_ensures(
                        visitor,
                        (order@[i2], &self.spec_nodes()[order@[i2] as int]),
                        #[trigger] res[i2],
                    ),
                forall|i2: int| 0 <= i2 < i - 1 ==> res[i2] == true,
                proceed ==> (i == 0 || res[i - 1] == true),
                !proceed ==> i >= 1 && res[i - 1] == false,
            decreases order@.len() - i,
        {
            let id = order[i];
            let value = self.get(id);
            let c = visitor(id, value);
            proof {
                res = res.push(c);
            }
            proceed = c;
            i = i + 1;
        }
        proof {
            let order_g = bfs_order(self, from_index as int);
            assert forall|i2: int| 0 <= i2 < res.len() implies call_ensures(
                visitor,
                ((order_g[i2] as NodeIdentifier), &self.spec_nodes()[order_g[i2]]),
                #[trigger] res[i2],
            ) by {
                assert(order_g[i2] == order@[i2] as int);
                assert((order_g[i2] as NodeIdentifier) == order@[i2]);
            }
            assert(visited_prefix(self, from_index as int, visitor, res));
        }
    }
}

impl<T: PartialEq, V> Graph<T, V> {
    /// Search the graph, breadth first, for a node holding the value
    /// `wanted`, starting at `from_node` and considering only nodes reachable
    /// from it.
    ///
    /// Returns the identifier of the first node, in breadth-first visitation
    /// order, whose payload equals `wanted`, or `None` when no reachable node
    /// matches.
    pub fn bfs(&self, from_node: NodeIdentifier, wanted: T) -> (r: Option<NodeIdentifier>)
        requires
            self.wf(),
            from_node < self.spec_nodes().len(),
        ensures
            T::obeys_eq_spec() ==> ({
                let order = bfs_order(self, from_node as int);
                match r {
                    Some(id) => exists|i: int|
                        {
                            &&& 0 <= i < order.len()
                            &&& #[trigger] order[i] == id as int
                            &&& self.spec_nodes()[order[i]].eq_spec(&wanted)
                            &&& forall|i2: int|
                                0 <= i2 < i ==> !self.spec_nodes()[#[trigger] order[i2]].eq_spec(
                                    &wanted,
                                )
                        },
                    None => forall|i: int|
                        0 <= i < order.len() ==> !self.spec_nodes()[#[trigger] order[i]].eq_spec(
                            &wanted,
                        ),
                }
            }),
    {
        let order = self.breadth_first_order(from_node);
        let mut i: usize = 0;
        while i < order.len()
            invariant
                self.wf(),
                ids(order@) == bfs_order(self, from_node as int),
                forall|i2: int|
                    0 <= i2 < order@.len() ==> (#[trigger] order@[i2]) < self.spec_nodes().len(),
                i <= order@.len(),
                T::obeys_eq_spec() ==> forall|i2: int|
                    0 <= i2 < i ==> !self.spec_nodes()[ids(order@)[i2]].eq_spec(&wanted),
            decreases order@.len() - i,
        {
            let id = order[i];
            if *self.get(id) == wanted {
                proof {
                    if T::obeys_eq_spec() {
                        let order_g = bfs_order(self, from_node as int);
                        assert(order_g[i as int] == order@[i as int] as int);
                        assert(self.spec_nodes()[order_g[i as int]].eq_spec(&wanted));
                        assert forall|i2: int| 0 <= i2 < i as int implies !self.spec_nodes()[
                            #[trigger] order_g[i2]
                        ].eq_spec(&wanted) by {
                            assert(ids(order@)[i2] == order@[i2] as int);
                        }
                    }
                }
                return Some(id);
            }
            i = i + 1;
        }
        None
    }
}

} // verus!
