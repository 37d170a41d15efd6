//! The graph container: node and edge storage, insertion and adjacency
//! queries.
//!
//! A `Graph` owns an ordered sequence of node payloads and a parallel
//! sequence of adjacency lists. The identifier of a node is its index into
//! both sequences; identifiers are handed out densely, in insertion order,
//! and are never reused. Every stored edge points at a valid node: `connect`
//! validates both endpoints eagerly, so a well-formed graph can never hold a
//! dangling edge target.

use vstd::prelude::*;
use vstd::std_specs::cmp::PartialEqSpec;

verus! {

/// Identifier for nodes in a `Graph`: the node's index in insertion order.
pub type NodeIdentifier = usize;

/// A sequence of node identifiers as mathematical integers.
pub open spec fn ids(s: Seq<NodeIdentifier>) -> Seq<int> {
    s.map_values(|x: NodeIdentifier| x as int)
}

/// A directed edge within a `Graph`, owned by the adjacency list of its
/// source node (the source is implicit in where the edge is stored).
pub struct Edge<V> {
    /// Payload carried by the edge (a weight, or arbitrary data).
    pub data: V,
    /// Identifier of the destination node.
    pub dest: NodeIdentifier,
}

/// A directed graph holding node payloads of type `T` and edge payloads of
/// type `V`.
pub struct Graph<T, V> {
    nodes: Vec<T>,
    edges: Vec<Vec<Edge<V>>>,
}

impl<T, V> Graph<T, V> {
    /// The node payloads, in identifier order.
    pub closed spec fn spec_nodes(&self) -> Seq<T> {
        self.nodes@
    }

    /// The adjacency lists, in identifier order: `spec_edges()[i]` holds the
    /// outgoing edges of node `i`, in insertion order.
    pub closed spec fn spec_edges(&self) -> Seq<Seq<Edge<V>>> {
        self.edges@.map_values(|ev: Vec<Edge<V>>| ev@)
    }

    /// Well-formedness: one adjacency list per node, and every edge points at
    /// a valid node.
    pub open spec fn wf(&self) -> bool {
        &&& self.spec_edges().len() == self.spec_nodes().len()
        &&& forall|i: int, j: int|
            0 <= i < self.spec_edges().len() && 0 <= j < self.spec_edges()[i].len()
                ==> (#[trigger] self.spec_edges()[i][j]).dest < self.spec_nodes().len()
    }

    /// True iff at least one edge runs from node `from` to node `to`.
    pub open spec fn has_edge(&self, from: int, to: int) -> bool {
        exists|j: int|
            0 <= j < self.spec_edges()[from].len() && (#[trigger] self.spec_edges()[from][j]).dest
                == to
    }

    /// Create a new, empty `Graph`.
    ///
    /// * `T` is the data type to be stored on the nodes.
    /// * `V` is the data type to be stored on the edges.
    pub fn new() -> (g: Graph<T, V>)
        ensures
            g.wf(),
            g.spec_nodes() =~= Seq::<T>::empty(),
            g.spec_edges() =~= Seq::<Seq<Edge<V>>>::empty(),
    {
        Graph { nodes: Vec::new(), edges: Vec::new() }
    }

    /// Get the value stored on the node with the given identifier.
    pub fn get(&self, index: NodeIdentifier) -> (r: &T)
        requires
            index < self.spec_nodes().len(),
        ensures
            *r == self.spec_nodes()[index as int],
    {
        &self.nodes[index]
    }

    /// Insert a value into the graph; returns the new node's identifier,
    /// which equals the node count before the insertion.
    pub fn insert(&mut self, value: T) -> (id: NodeIdentifier)
        requires
            old(self).wf(),
        ensures
            final(self).wf(),
            id == old(self).spec_nodes().len(),
            final(self).spec_nodes() == old(self).spec_nodes().push(value),
            final(self).spec_edges() =~= old(self).spec_edges().push(Seq::<Edge<V>>::empty()),
    {
        let node_index = self.nodes.len();
        // Add the new node
        self.nodes.push(value);
        // And its (empty) adjacency list
        self.edges.push(Vec::new());
        proof {
            assert(self.spec_edges() =~= old(self).spec_edges().push(Seq::<Edge<V>>::empty()));
        }
        node_index
    }

    /// Connect two nodes in the graph.
    ///
    /// This is a directed edge going from `from_index` to `to_index`, with
    /// `data` attached to it. Both identifiers must be valid: the edge target
    /// is validated eagerly, so the graph never stores a dangling edge.
    pub fn connect(&mut self, from_index: NodeIdentifier, to_index: NodeIdentifier, data: V)
        requires
            old(self).wf(),
            from_index < old(self).spec_nodes().len(),
            to_index < old(self).spec_nodes().len(),
        ensures
            final(self).wf(),
            final(self).spec_nodes() == old(self).spec_nodes(),
            final(self).spec_edges() =~= old(self).spec_edges().update(
                from_index as int,
                old(self).spec_edges()[from_index as int].push(
                    Edge { data, dest: to_index },
                ),
            ),
    {
        let edge_list = &mut self.edges[from_index];
        edge_list.push(Edge { data, dest: to_index });
        proof {
            assert(self.spec_edges() =~= old(self).spec_edges().update(
                from_index as int,
                old(self).spec_edges()[from_index as int].push(Edge { data, dest: to_index }),
            ));
        }
    }

    /// Test if two nodes are connected.
    ///
    /// True iff the node identified by `from_index` has an edge from it to
    /// the node identified by `to_index`.
    pub fn connected(&self, from_index: NodeIdentifier, to_index: NodeIdentifier) -> (r: bool)
        requires
            self.wf(),
            from_index < self.spec_nodes().len(),
        ensures
            r == self.has_edge(from_index as int, to_index as int),
    {
        self.connection(from_index, to_index).is_some()
    }

    /// Get the edge between two nodes: the first edge, in insertion order,
    /// running from `from_index` to `to_index`.
    ///
    /// `None` means there is no edge between these nodes.
    pub fn connection(&self, from_index: NodeIdentifier, to_index: NodeIdentifier) -> (r: Option<
        &Edge<V>,
    >)
        requires
            self.wf(),
            from_index < self.spec_nodes().len(),
        ensures
            r is Some <==> self.has_edge(from_index as int, to_index as int),
            match r {
                Some(e) => exists|j: int|
                    {
                        &&& 0 <= j < self.spec_edges()[from_index as int].len()
                        &&& *e == self.spec_edges()[from_index as int][j]
                        &&& (#[trigger] self.spec_edges()[from_index as int][j]).dest
                            == to_index
                        &&& forall|k: int|
                            0 <= k < j ==> (#[trigger] self.spec_edges()[from_index as int][k]).dest
                                != to_index
                    },
                None => !self.has_edge(from_index as int, to_index as int),
            },
    {
        let edge_list = &self.edges[from_index];
        let mut i: usize = 0;
        while i < edge_list.len()
            invariant
                self.wf(),
                from_index < self.spec_nodes().len(),
                edge_list@ == self.spec_edges()[from_index as int],
                0 <= i <= edge_list@.len(),
                forall|k: int|
                    0 <= k < i ==> (#[trigger] self.spec_edges()[from_index as int][k]).dest
                        != to_index,
            decreases edge_list@.len() - i,
        {
            if edge_list[i].dest == to_index {
                return Some(&edge_list[i]);
            }
            i = i + 1;
        }
        None
    }

    /// Get the complete list of outgoing edges of the node identified by
    /// `for_node`, in insertion order.
    pub fn connections(&self, for_node: NodeIdentifier) -> (r: &Vec<Edge<V>>)
        requires
            self.wf(),
            for_node < self.spec_nodes().len(),
        ensures
            r@ == self.spec_edges()[for_node as int],
    {
        &self.edges[for_node]
    }

    /// Get the number of nodes in the graph.
    pub fn node_count(&self) -> (n: usize)
        ensures
            n == self.spec_nodes().len(),
    {
        self.nodes.len()
    }

    /// Iterate over the node payloads, in identifier order.
    pub fn iter(&self) -> (r: std::slice::Iter<'_, T>)
        ensures
            vstd::std_specs::slice::into_iter_elts(r) == self.spec_nodes(),
    {
        self.nodes.as_slice().iter()
    }
}

impl<T: PartialEq, V> Graph<T, V> {
    /// Search the graph for the first node (lowest identifier) holding the
    /// `value` given; a plain linear scan over all nodes, regardless of
    /// connectivity.
    ///
    /// Note that this is different from a breadth-first search, which
    /// concerns itself with connectedness.
    pub fn contains(&self, value: T) -> (r: Option<NodeIdentifier>)
        ensures
            T::obeys_eq_spec() ==> match r {
                Some(id) => {
                    &&& id < self.spec_nodes().len()
                    &&& self.spec_nodes()[id as int].eq_spec(&value)
                    &&& forall|k: int|
                        0 <= k < id ==> !(#[trigger] self.spec_nodes()[k]).eq_spec(&value)
                },
                None => forall|k: int|
                    0 <= k < self.spec_nodes().len() ==> !(#[trigger] self.spec_nodes()[k]).eq_spec(&value),
            },
    {
        self.contains_ref(&value)
    }

    /// As `contains`, taking the wanted value by reference.
    pub fn contains_ref(&self, value: &T) -> (r: Option<NodeIdentifier>)
        ensures
            T::obeys_eq_spec() ==> match r {
                Some(id) => {
                    &&& id < self.spec_nodes().len()
                    &&& self.spec_nodes()[id as int].eq_spec(value)
                    &&& forall|k: int|
                        0 <= k < id ==> !(#[trigger] self.spec_nodes()[k]).eq_spec(value)
                },
                None => forall|k: int|
                    0 <= k < self.spec_nodes().len() ==> !(#[trigger] self.spec_nodes()[k]).eq_spec(value),
            },
    {
        let mut i: usize = 0;
        while i < self.nodes.len()
            invariant
                i <= self.spec_nodes().len(),
                T::obeys_eq_spec() ==> forall|k: int|
                    0 <= k < i ==> !(#[trigger] self.spec_nodes()[k]).eq_spec(value),
            decreases self.spec_nodes().len() - i,
        {
            if &self.nodes[i] == value {
                return Some(i);
            }
            i = i + 1;
        }
        None
    }
}

impl<T: Clone, V> Graph<T, V> {
    /// Insert a slice of values into the graph.
    ///
    /// Inserts a clone of each of the values in the slice given, in order.
    /// Returns the identifiers of the inserted nodes, in the order of the
    /// values that were input.
    pub fn insert_all(&mut self, values: &[T]) -> (r: Vec<NodeIdentifier>)
        requires
            old(self).wf(),
        ensures
            final(self).wf(),
            final(self).spec_nodes().len() == old(self).spec_nodes().len() + values@.len(),
            final(self).spec_edges().len() == final(self).spec_nodes().len(),
            r@.len() == values@.len(),
            forall|i: int|
                0 <= i < values@.len() ==> r@[i] == old(self).spec_nodes().len() + i,
            forall|i: int|
                0 <= i < values@.len() ==> vstd::pervasive::cloned::<T>(
                    values@[i],
                    final(self).spec_nodes()[old(self).spec_nodes().len() + i],
                ),
            forall|i: int|
                0 <= i < old(self).spec_nodes().len() ==> final(self).spec_nodes()[i] == old(
                    self,
                ).spec_nodes()[i],
            forall|i: int|
                0 <= i < old(self).spec_nodes().len() ==> final(self).spec_edges()[i] == old(
                    self,
                ).spec_edges()[i],
            forall|i: int|
                old(self).spec_nodes().len() <= i < final(self).spec_nodes().len() ==> (
                #[trigger] final(self).spec_edges()[i]).len() == 0,
    {
        let mut node_indexes: Vec<NodeIdentifier> = Vec::new();
        let mut i: usize = 0;
        while i < values.len()
            invariant
                self.wf(),
                i <= values@.len(),
                self.spec_nodes().len() == old(self).spec_nodes().len() + i,
                self.spec_edges().len() == self.spec_nodes().len(),
                node_indexes@.len() == i,
                forall|k: int|
                    0 <= k < i ==> node_indexes@[k] == old(self).spec_nodes().len() + k,
                forall|k: int|
                    0 <= k < i ==> vstd::pervasive::cloned::<T>(
                        values@[k],
                        self.spec_nodes()[old(self).spec_nodes().len() + k],
                    ),
                forall|k: int|
                    0 <= k < old(self).spec_nodes().len() ==> self.spec_nodes()[k] == old(
                        self,
                    ).spec_nodes()[k],
                forall|k: int|
                    0 <= k < old(self).spec_nodes().len() ==> self.spec_edges()[k] == old(
                        self,
                    ).spec_edges()[k],
                forall|k: int|
                    old(self).spec_nodes().len() <= k < self.spec_nodes().len() ==> (
                    #[trigger] self.spec_edges()[k]).len() == 0,
            decreases values@.len() - i,
        {
            let id = self.insert(values[i].clone());
            node_indexes.push(id);
            i = i + 1;
        }
        node_indexes
    }
}

/// One `connect` call at the specification level: the new edge appended to
/// its source node's adjacency list.
pub open spec fn connect_step<V>(
    edges: Seq<Seq<Edge<V>>>,
    from: int,
    to: NodeIdentifier,
    data: V,
) -> Seq<Seq<Edge<V>>> {
    edges.update(from, edges[from].push(Edge { data, dest: to }))
}

/// The adjacency lists after applying the connections in `conns`, in order,
/// each carrying the edge payload that `picked` pairs with it.
pub open spec fn connect_all_step<V>(
    edges: Seq<Seq<Edge<V>>>,
    conns: Seq<(NodeIdentifier, NodeIdentifier, V)>,
    picked: Seq<V>,
) -> Seq<Seq<Edge<V>>>
    decreases conns.len(),
{
    if conns.len() == 0 {
        edges
    } else {
        let pre = connect_all_step(edges, conns.drop_last(), picked.drop_last());
        connect_step(pre, conns.last().0 as int, conns.last().1, picked.last())
    }
}

/// Connecting `from` to `to` establishes exactly that connection: the pair is
/// connected right after the call, and no other pair's connectivity changes.
/// A pair is connected only after some `connect` call has joined it.
pub proof fn lemma_connect_changes_connectivity<T, V>(
    g1: &Graph<T, V>,
    g2: &Graph<T, V>,
    from: int,
    to: NodeIdentifier,
    data: V,
    x: int,
    y: int,
)
    requires
        0 <= from < g1.spec_edges().len(),
        0 <= x < g1.spec_edges().len(),
        g2.spec_edges() == connect_step(g1.spec_edges(), from, to, data),
    ensures
        g2.has_edge(from, to as int),
        x != from || y != to as int ==> (g2.has_edge(x, y) <==> g1.has_edge(x, y)),
{
    let es1 = g1.spec_edges()[from];
    assert(g2.spec_edges()[from][es1.len() as int].dest == to);
    assert(g2.has_edge(from, to as int));
    if x != from {
        assert(g2.spec_edges()[x] == g1.spec_edges()[x]);
    } else if y != to as int {
        if g1.has_edge(x, y) {
            let j = choose|j: int|
                0 <= j < g1.spec_edges()[x].len() && (#[trigger] g1.spec_edges()[x][j]).dest == y;
            assert(g2.spec_edges()[x][j].dest == y);
        }
        if g2.has_edge(x, y) {
            let j = choose|j: int|
                0 <= j < g2.spec_edges()[x].len() && (#[trigger] g2.spec_edges()[x][j]).dest == y;
            assert(j < es1.len());
            assert(g1.spec_edges()[x][j].dest == y);
        }
    }
}

impl<T, V: Clone> Graph<T, V> {
    /// Connects many nodes together.
    ///
    /// Each tuple in the input makes a new connection: the first element is
    /// the source node, the second the target node, and the third the data
    /// stored on the created edge. The data is cloned onto the edge.
    pub fn connect_all(&mut self, connections: &[(NodeIdentifier, NodeIdentifier, V)])
        requires
            old(self).wf(),
            forall|i: int|
                0 <= i < connections@.len() ==> (#[trigger] connections@[i]).0 < old(
                    self,
                ).spec_nodes().len() && connections@[i].1 < old(self).spec_nodes().len(),
        ensures
            final(self).wf(),
            final(self).spec_nodes() == old(self).spec_nodes(),
            exists|picked: Seq<V>|
                {
                    &&& picked.len() == connections@.len()
                    &&& (forall|i: int|
                        0 <= i < picked.len() ==> vstd::pervasive::cloned::<V>(
                            connections@[i].2,
                            #[trigger] picked[i],
                        ))
                    &&& final(self).spec_edges() == connect_all_step(
                        old(self).spec_edges(),
                        connections@,
                        picked,
                    )
                },
    {
        let ghost mut picked: Seq<V> = Seq::empty();
        let mut i: usize = 0;
        while i < connections.len()
            invariant
                self.wf(),
                i <= connections@.len(),
                self.spec_nodes() == old(self).spec_nodes(),
                forall|k: int|
                    0 <= k < connections@.len() ==> (#[trigger] connections@[k]).0 < old(
                        self,
                    ).spec_nodes().len() && connections@[k].1 < old(self).spec_nodes().len(),
                picked.len() == i,
                forall|k: int|
                    0 <= k < i ==> vstd::pervasive::cloned::<V>(
                        connections@[k].2,
                        #[trigger] picked[k],
                    ),
                self.spec_edges() == connect_all_step(
                    old(self).spec_edges(),
                    connections@.take(i as int),
                    picked,
                ),
            decreases connections@.len() - i,
        {
            let conn = &connections[i];
            let data = conn.2.clone();
            let ghost picked_old = picked;
            proof {
                picked = picked.push(data);
            }
            self.connect(conn.0, conn.1, data);
            proof {
                assert(connections@.take(i as int + 1).drop_last() =~= connections@.take(
                    i as int,
                ));
                assert(picked.drop_last() =~= picked_old);
                assert(connections@.take(i as int + 1).last() == connections@[i as int]);
            }
            i = i + 1;
        }
        proof {
            assert(connections@.take(connections@.len() as int) =~= connections@);
        }
    }
}

} // verus!
