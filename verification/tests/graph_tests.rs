use graph::Graph;
use std::cell::Cell;
use std::cell::RefCell;
use std::collections::HashSet;

#[test]
fn test_insertion() {
    let mut g: Graph<i64, ()> = Graph::new();
    let n = g.insert(5i64);
    assert!(*g.get(n) == 5i64);
}

#[test]
fn test_connect_nodes() {
    let mut g: Graph<i64, ()> = Graph::new();
    let n1 = g.insert(5i64);
    let n2 = g.insert(2i64);
    assert!(!g.connected(n1, n2));
    g.connect(n1, n2, ());
    assert!(g.connected(n1, n2));
}

#[test]
fn test_connection_data() {
    let mut g: Graph<i64, i64> = Graph::new();
    let n1 = g.insert(1i64);
    let n2 = g.insert(2i64);
    g.connect(n1, n2, 1i64);

    let edge = g.connection(n1, n2);
    assert!(match edge {
        Some(_) => true,
        None => false,
    });
    assert!(match edge {
        Some(edge) => edge.data == 1i64,
        None => false,
    });

    let bad_edge = g.connection(n2, n1);
    assert!(match bad_edge {
        Some(_) => false,
        None => true,
    });
}

#[test]
fn test_bfs_unconnected() {
    let mut g: Graph<i64, ()> = Graph::new();
    let n1 = g.insert(5i64);
    g.insert(2i64);
    let visited: RefCell<Vec<i64>> = RefCell::new(Vec::new());
    g.visit_breadth_first(n1, |_, i: &i64| -> bool {
        visited.borrow_mut().push(*i);
        true
    });
    let visited = visited.into_inner();
    assert!(visited.len() == 1);
    assert!(visited[0] == 5i64);
}

#[test]
fn test_bfs_connected() {
    let mut g: Graph<i64, ()> = Graph::new();
    let n1 = g.insert(1i64);
    let n2 = g.insert(2i64);
    let n3 = g.insert(3i64);
    let n4 = g.insert(4i64);
    g.connect(n1, n2, ());
    g.connect(n2, n3, ());
    g.connect(n1, n4, ());

    let visited: RefCell<Vec<i64>> = RefCell::new(Vec::new());
    g.visit_breadth_first(n1, |_, i: &i64| -> bool {
        visited.borrow_mut().push(*i);
        true
    });
    let visited = visited.into_inner();
    // We should go along sibling nodes before descending
    assert!(visited.len() == 4);
    assert!(visited[0] == 1i64);
    assert!(visited[1] == 2i64);
    assert!(visited[2] == 4i64);
    assert!(visited[3] == 3i64);
}

#[test]
fn test_bfs_loop_protect() {
    let mut g: Graph<i64, ()> = Graph::new();
    let n1 = g.insert(1i64);
    let n2 = g.insert(2i64);
    let n3 = g.insert(3i64);
    g.connect(n1, n2, ());
    g.connect(n2, n3, ());
    g.connect(n3, n1, ());

    let visited: RefCell<HashSet<i64>> = RefCell::new(HashSet::new());
    let already_seen: Cell<bool> = Cell::new(false);
    g.visit_breadth_first(n1, |_, i: &i64| -> bool {
        already_seen.set(visited.borrow().contains(i));
        visited.borrow_mut().insert(*i);
        !already_seen.get()
    });
    assert!(!already_seen.get())
}

#[test]
fn test_bfs_early_exit() {
    let mut g: Graph<i64, ()> = Graph::new();
    let n1 = g.insert(1i64);
    let n2 = g.insert(2i64);
    let n3 = g.insert(3i64);
    let n4 = g.insert(4i64);
    g.connect(n1, n2, ());
    g.connect(n2, n3, ());
    g.connect(n1, n4, ());

    let visited: RefCell<Vec<i64>> = RefCell::new(Vec::new());
    g.visit_breadth_first(n1, |_, i: &i64| -> bool {
        visited.borrow_mut().push(*i);
        !(*i == 2)
    });
    let visited = visited.into_inner();
    assert!(visited.len() == 2);
    assert!(visited[0] == 1i64);
    assert!(visited[1] == 2i64);
}

#[test]
fn test_bfs_search() {
    let mut g: Graph<i64, ()> = Graph::new();
    let nodes = g.insert_all(&[0i64, 1, 2, 3]);
    g.connect_all(&[
        (nodes[0], nodes[1], ()),
        (nodes[1], nodes[2], ()),
        (nodes[0], nodes[3], ()),
    ]);

    assert!(g.bfs(nodes[0], 1i64).is_some());
    assert!(g.bfs(nodes[0], 10i64).is_none());
}

#[test]
fn test_shortest_path() {
    let mut g: Graph<i64, u64> = Graph::new();
    let nodes = g.insert_all(&[0i64, 1, 2, 3]);
    g.connect_all(&[
        (nodes[0], nodes[1], 5u64),
        (nodes[1], nodes[2], 5u64),
        (nodes[0], nodes[3], 10u64),
        (nodes[1], nodes[3], 3u64),
    ]);

    let r1 = g.shortest_path(nodes[0], nodes[0]).unwrap();
    let r2 = g.shortest_path(nodes[0], nodes[3]).unwrap();

    assert!(r1.cost == 0u64);
    assert!(r1.path == vec![0usize]);
    assert!(r2.cost == 8u64);
    assert!(r2.path == vec![0usize, 1, 3]);
}

#[test]
fn test_unconnected_shortest_path() {
    let mut g: Graph<i64, u64> = Graph::new();
    let n1 = g.insert(0i64);
    let n2 = g.insert(1i64);

    assert!(!g.connected(n1, n2));
    assert!(g.shortest_path(n1, n2).is_none());
}

#[test]
fn test_identifiers_dense_in_insertion_order() {
    let mut g: Graph<i64, ()> = Graph::new();
    assert_eq!(g.node_count(), 0);
    let a = g.insert(10i64);
    let b = g.insert(20i64);
    let c = g.insert(30i64);
    assert_eq!(a, 0);
    assert_eq!(b, 1);
    assert_eq!(c, 2);
    assert_eq!(g.node_count(), 3);
    assert_eq!(*g.get(a), 10i64);
    assert_eq!(*g.get(b), 20i64);
    assert_eq!(*g.get(c), 30i64);
}

#[test]
fn test_insert_all_identifiers_in_order() {
    let mut g: Graph<i64, ()> = Graph::new();
    g.insert(7i64);
    let ids = g.insert_all(&[1i64, 2, 3]);
    assert_eq!(ids, vec![1usize, 2, 3]);
    assert_eq!(g.node_count(), 4);
    assert_eq!(*g.get(ids[2]), 3i64);
}

#[test]
fn test_connection_first_match_among_parallel_edges() {
    let mut g: Graph<i64, u64> = Graph::new();
    let n1 = g.insert(1i64);
    let n2 = g.insert(2i64);
    g.connect(n1, n2, 7u64);
    g.connect(n1, n2, 9u64);
    let edge = g.connection(n1, n2).unwrap();
    assert_eq!(edge.data, 7u64);
    assert_eq!(edge.dest, n2);
    assert_eq!(g.connections(n1).len(), 2);
    assert_eq!(g.connections(n1)[1].data, 9u64);
}

#[test]
fn test_connections_in_insertion_order() {
    let mut g: Graph<i64, u64> = Graph::new();
    let n1 = g.insert(1i64);
    let n2 = g.insert(2i64);
    let n3 = g.insert(3i64);
    g.connect_all(&[(n1, n3, 4u64), (n1, n2, 6u64)]);
    let es = g.connections(n1);
    assert_eq!(es.len(), 2);
    assert_eq!(es[0].dest, n3);
    assert_eq!(es[0].data, 4u64);
    assert_eq!(es[1].dest, n2);
    assert_eq!(es[1].data, 6u64);
    assert!(g.connections(n2).is_empty());
}

#[test]
fn test_iter_yields_payloads_in_identifier_order() {
    let mut g: Graph<i64, ()> = Graph::new();
    g.insert_all(&[5i64, 6, 7]);
    let seen: Vec<i64> = g.iter().copied().collect();
    assert_eq!(seen, vec![5i64, 6, 7]);
}

#[test]
fn test_contains_finds_lowest_identifier_regardless_of_connectivity() {
    let mut g: Graph<i64, ()> = Graph::new();
    let n1 = g.insert(1i64);
    let n2 = g.insert(2i64);
    let n2b = g.insert(2i64);
    assert!(n2b > n2);
    // no edges at all: contains still finds values, bfs does not
    assert_eq!(g.contains(2i64), Some(n2));
    assert_eq!(g.contains_ref(&1i64), Some(n1));
    assert_eq!(g.contains(9i64), None);
    assert_eq!(g.bfs(n1, 2i64), None);
}

#[test]
fn test_breadth_first_order_deterministic() {
    let build = || {
        let mut g: Graph<i64, ()> = Graph::new();
        let nodes = g.insert_all(&[0i64, 1, 2, 3, 4]);
        g.connect_all(&[
            (nodes[0], nodes[2], ()),
            (nodes[0], nodes[1], ()),
            (nodes[2], nodes[4], ()),
            (nodes[1], nodes[3], ()),
        ]);
        g
    };
    let order1 = build().breadth_first_order(0);
    let order2 = build().breadth_first_order(0);
    assert_eq!(order1, order2);
    // siblings in edge-insertion order, then one level deeper
    assert_eq!(order1, vec![0usize, 2, 1, 4, 3]);
}

#[test]
fn test_breadth_first_order_visits_cycle_once() {
    let mut g: Graph<i64, ()> = Graph::new();
    let n1 = g.insert(1i64);
    let n2 = g.insert(2i64);
    let n3 = g.insert(3i64);
    g.connect(n1, n2, ());
    g.connect(n2, n3, ());
    g.connect(n3, n1, ());
    g.connect(n2, n1, ());
    let order = g.breadth_first_order(n1);
    assert_eq!(order, vec![n1, n2, n3]);
}

#[test]
fn test_early_exit_stops_visitor_calls_immediately() {
    let mut g: Graph<i64, ()> = Graph::new();
    let nodes = g.insert_all(&[0i64, 1, 2, 3, 4]);
    g.connect_all(&[
        (nodes[0], nodes[1], ()),
        (nodes[0], nodes[2], ()),
        (nodes[1], nodes[3], ()),
        (nodes[2], nodes[4], ()),
    ]);
    let calls: Cell<usize> = Cell::new(0);
    g.visit_breadth_first(nodes[0], |_, _| -> bool {
        calls.set(calls.get() + 1);
        false
    });
    // the start node is visited, everything already enqueued is abandoned
    assert_eq!(calls.get(), 1);
}

#[test]
fn test_bfs_returns_first_match_in_breadth_first_order() {
    let mut g: Graph<i64, ()> = Graph::new();
    let nodes = g.insert_all(&[1i64, 9, 9, 2]);
    g.connect_all(&[
        (nodes[0], nodes[3], ()),
        (nodes[0], nodes[2], ()),
        (nodes[3], nodes[1], ()),
    ]);
    // both nodes 1 and 2 hold the value 9; node 2 is one level nearer
    assert_eq!(g.bfs(nodes[0], 9i64), Some(nodes[2]));
}

#[test]
fn test_shortest_path_to_self_with_self_loop() {
    let mut g: Graph<i64, u64> = Graph::new();
    let n = g.insert(1i64);
    g.connect(n, n, 3u64);
    let r = g.shortest_path(n, n).unwrap();
    assert_eq!(r.cost, 0u64);
    assert_eq!(r.path, vec![n]);
}

#[test]
fn test_shortest_path_with_zero_cost_edges() {
    let mut g: Graph<i64, u64> = Graph::new();
    let nodes = g.insert_all(&[0i64, 1, 2]);
    g.connect_all(&[(nodes[0], nodes[1], 0u64), (nodes[1], nodes[2], 0u64)]);
    let r = g.shortest_path(nodes[0], nodes[2]).unwrap();
    assert_eq!(r.cost, 0u64);
    assert_eq!(r.path, vec![nodes[0], nodes[1], nodes[2]]);
}

#[test]
fn test_shortest_path_ignores_reverse_edges() {
    let mut g: Graph<i64, u64> = Graph::new();
    let n1 = g.insert(0i64);
    let n2 = g.insert(1i64);
    g.connect(n2, n1, 1u64);
    assert!(g.shortest_path(n1, n2).is_none());
    let r = g.shortest_path(n2, n1).unwrap();
    assert_eq!(r.cost, 1u64);
    assert_eq!(r.path, vec![n2, n1]);
}

#[test]
fn test_shortest_path_picks_cheapest_of_parallel_edges() {
    let mut g: Graph<i64, u64> = Graph::new();
    let n1 = g.insert(0i64);
    let n2 = g.insert(1i64);
    g.connect(n1, n2, 9u64);
    g.connect(n1, n2, 4u64);
    g.connect(n1, n2, 6u64);
    let r = g.shortest_path(n1, n2).unwrap();
    assert_eq!(r.cost, 4u64);
    assert_eq!(r.path, vec![n1, n2]);
}

#[test]
fn test_shortest_path_through_cycle_terminates() {
    let mut g: Graph<i64, u64> = Graph::new();
    let nodes = g.insert_all(&[0i64, 1, 2]);
    g.connect_all(&[
        (nodes[0], nodes[1], 1u64),
        (nodes[1], nodes[0], 1u64),
        (nodes[1], nodes[2], 2u64),
    ]);
    let r = g.shortest_path(nodes[0], nodes[2]).unwrap();
    assert_eq!(r.cost, 3u64);
    assert_eq!(r.path, vec![nodes[0], nodes[1], nodes[2]]);
}

#[test]
fn test_two_nodes_without_edge() {
    let mut g: Graph<i64, u64> = Graph::new();
    let n1 = g.insert(4i64);
    let n2 = g.insert(8i64);
    assert!(!g.connected(n1, n2));
    assert!(g.connection(n1, n2).is_none());
    assert!(g.shortest_path(n1, n2).is_none());
    assert_eq!(g.bfs(n1, 8i64), None);
}

#[test]
fn test_connected_iff_connection_matches() {
    let mut g: Graph<i64, u64> = Graph::new();
    let n1 = g.insert(1i64);
    let n2 = g.insert(2i64);
    assert_eq!(g.connected(n1, n2), g.connection(n1, n2).is_some());
    g.connect(n1, n2, 5u64);
    assert_eq!(g.connected(n1, n2), g.connection(n1, n2).is_some());
    assert!(g.connected(n1, n2));
    // the reverse direction stays unconnected
    assert!(!g.connected(n2, n1));
}

#[test]
fn test_connected_to_absent_target_is_false() {
    let mut g: Graph<i64, ()> = Graph::new();
    let n1 = g.insert(1i64);
    assert!(!g.connected(n1, 99));
    assert!(g.connection(n1, 99).is_none());
}

#[test]
fn test_visit_breadth_first_with_self_loop() {
    let mut g: Graph<i64, ()> = Graph::new();
    let n1 = g.insert(1i64);
    let n2 = g.insert(2i64);
    g.connect(n1, n1, ());
    g.connect(n1, n2, ());
    let visited: RefCell<Vec<i64>> = RefCell::new(Vec::new());
    g.visit_breadth_first(n1, |_, i: &i64| -> bool {
        visited.borrow_mut().push(*i);
        true
    });
    assert_eq!(visited.into_inner(), vec![1i64, 2]);
}

#[test]
fn test_shortest_path_competing_routes() {
    let mut g: Graph<i64, u64> = Graph::new();
    let nodes = g.insert_all(&[0i64, 1, 2, 3, 4]);
    g.connect_all(&[
        (nodes[0], nodes[1], 2u64),
        (nodes[0], nodes[2], 1u64),
        (nodes[1], nodes[4], 2u64),
        (nodes[2], nodes[3], 1u64),
        (nodes[3], nodes[4], 1u64),
        (nodes[0], nodes[4], 5u64),
    ]);
    let r = g.shortest_path(nodes[0], nodes[4]).unwrap();
    assert_eq!(r.cost, 3u64);
    assert_eq!(r.path, vec![nodes[0], nodes[2], nodes[3], nodes[4]]);
}
