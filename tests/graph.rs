use algorithms::graph::Graph;

#[test]
fn graph_traverse() {
    let mut graph = Graph::default();

    let a = graph.add_node("A");
    let b = graph.add_node("B");
    let c = graph.add_node("C");
    let d = graph.add_node("D");
    let e = graph.add_node("E");
    let f = graph.add_node("F");

    graph.add_edge(a, b);
    graph.add_edge(a, c);
    graph.add_edge(a, d);

    graph.add_edge(c, e);
    graph.add_edge(c, f);
    graph.add_edge(c, a);

    let mut visited_nodes = Vec::new();
    graph.dfs(a, &mut |&val| visited_nodes.push(val));
    assert_eq!(vec!["A", "B", "C", "E", "F", "D"], visited_nodes);

    let mut visited_nodes = Vec::new();
    graph.bfs(a, &mut |&val| visited_nodes.push(val));
    assert_eq!(vec!["A", "B", "C", "D", "E", "F"], visited_nodes);
}

#[test]
fn traversal_orders_and_successors() {
    let mut graph = Graph::new();
    let n0 = graph.add_node(0u32);
    let n1 = graph.add_node(1);
    let n2 = graph.add_node(2);
    let n3 = graph.add_node(3);
    graph.add_undirected_edge(n0, n1);
    graph.add_edge(n1, n2);
    assert_eq!(*graph.get_value(n2), 2);
    assert_eq!(graph.successor_targets(n1), vec![n2, n0]);
    let mut walk = graph.successors(n0);
    assert_eq!(walk.next(), Some((n1, 0)));
    assert_eq!(walk.next(), None);

    assert_eq!(graph.dfs_order(n0), vec![n0, n1, n2]);
    assert_eq!(graph.bfs_order(n1), vec![n1, n0, n2]);
    // an isolated node reaches only itself
    assert_eq!(graph.dfs_order(n3), vec![n3]);
    assert_eq!(graph.bfs_order(n3), vec![n3]);
}

#[test]
fn graph_dijkstra() {
    let mut graph = Graph::default();

    let a = graph.add_node("A");
    let b = graph.add_node("B");
    let c = graph.add_node("C");
    let d = graph.add_node("D");
    let e = graph.add_node("E");
    let f = graph.add_node("F");
    let g = graph.add_node("G");
    let h = graph.add_node("H");

    let mut weights = Vec::new();
    for (nodes, weight) in vec![
        ((a, b), 8),
        ((a, c), 3),
        ((b, e), 3),
        ((c, e), 4),
        ((c, d), 1),
        ((e, f), 2),
        ((f, h), 1),
        ((f, g), 7),
        ((b, g), 4),
        ((a, h), 5),
    ] {
        graph.add_undirected_edge(nodes.0, nodes.1);
        weights.append(&mut vec![weight, weight]);
    }

    assert_eq!(vec![0, 8, 3, 4, 7, 6, 12, 5], graph.dijkstra(a, &weights))
}

#[test]
fn graph_dijkstra_with_path() {
    let mut graph = Graph::default();

    let a = graph.add_node("A");
    let b = graph.add_node("B");
    let c = graph.add_node("C");
    let d = graph.add_node("D");
    let e = graph.add_node("E");
    let f = graph.add_node("F");
    let g = graph.add_node("G");
    let h = graph.add_node("H");

    let mut weights = Vec::new();
    for (nodes, weight) in vec![
        ((a, b), 1),
        ((b, c), 2),
        ((c, d), 3),
        ((d, e), 4),
        ((f, b), 15),
        ((f, e), 2),
        ((f, g), 3),
        ((g, h), 2),
        ((h, e), 1),
    ] {
        graph.add_undirected_edge(nodes.0, nodes.1);
        weights.append(&mut vec![weight, weight]);
    }

    assert_eq!(
        Some(vec![a, b, c, d, e, h, g]),
        graph.dijkstra_with_path(a, g, &weights)
    )
}

#[test]
fn graph_dijkstra_no_route() {
    let mut graph = Graph::default();

    let a = graph.add_node("A");
    let b = graph.add_node("B");
    let c = graph.add_node("C");
    let d = graph.add_node("D");

    let mut weights = Vec::new();
    for &(nodes, weight) in &[((a, b), 1), ((b, c), 2), ((c, a), 3)] {
        graph.add_undirected_edge(nodes.0, nodes.1);
        weights.append(&mut vec![weight, weight]);
    }

    assert_eq!(None, graph.dijkstra_with_path(a, d, &weights))
}

#[test]
fn dijkstra_edge_cases() {
    let mut graph = Graph::new();
    let a = graph.add_node('a');
    let b = graph.add_node('b');
    let c = graph.add_node('c');
    // a zero-weight cycle and an unreachable node
    graph.add_edge(a, b);
    graph.add_edge(b, a);
    let weights = vec![0u64, 0];
    assert_eq!(graph.dijkstra(a, &weights), vec![0, 0, u64::MAX]);
    assert_eq!(graph.dijkstra_with_path(a, a, &weights), Some(vec![a]));
    assert_eq!(graph.dijkstra_with_path(b, a, &weights), Some(vec![b, a]));
    assert_eq!(graph.dijkstra_with_path(a, c, &weights), None);

    // a sum that would overflow is treated as out of reach
    let mut big = Graph::new();
    let x = big.add_node(0);
    let y = big.add_node(1);
    let z = big.add_node(2);
    big.add_edge(x, y);
    big.add_edge(y, z);
    let heavy = vec![u64::MAX - 1, 5];
    assert_eq!(big.dijkstra(x, &heavy), vec![0, u64::MAX - 1, u64::MAX]);
}
