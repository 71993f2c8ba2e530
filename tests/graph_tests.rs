use graph_algos::graphs::{from_edge_list, Edge, Graph, GraphError, GraphType, NegativeEdgeError, NormalEdge};

fn build(n: usize, t: GraphType, edges: &[(usize, usize, i32)]) -> Graph<NormalEdge> {
    let mut g = Graph::new(n, t);
    for &(s, d, w) in edges {
        g.create_edge(s, d, w).unwrap();
    }
    g
}

fn scenario_graph() -> Graph<NormalEdge> {
    build(
        5,
        GraphType::GraphUndirected,
        &[(0, 1, 1), (0, 2, 4), (1, 2, 2), (1, 3, 5), (2, 3, 1), (3, 4, 3)],
    )
}

#[test]
fn dijkstra_scenario() {
    let g = scenario_graph();
    let (_, dist) = g.dijkstra(0).unwrap();
    assert_eq!(dist, vec![Some(0), Some(1), Some(3), Some(4), Some(7)]);
}

#[test]
fn bfs_scenario() {
    let g = scenario_graph();
    let (prev, dist) = g.bfs(0);
    assert_eq!(dist, vec![0, 1, 1, 2, 3]);
    assert!(prev[0].is_none());
    assert_eq!(prev[4].unwrap().source(), 3);
}

#[test]
fn bellman_ford_scenario() {
    let g = build(3, GraphType::GraphDirected, &[(0, 1, 4), (1, 2, -2), (0, 2, 5)]);
    let (prev, dist) = g.bellman_ford(0).unwrap();
    assert_eq!(dist, vec![Some(0), Some(4), Some(2)]);
    assert_eq!(prev[2].unwrap().source(), 1);
}

#[test]
fn bellman_ford_negative_cycle() {
    let g = build(2, GraphType::GraphDirected, &[(0, 1, 1), (1, 0, -2)]);
    assert!(g.bellman_ford(0).is_none());
}

#[test]
fn dijkstra_negative_edge() {
    let g = build(3, GraphType::GraphDirected, &[(0, 1, 2), (1, 2, -1)]);
    assert_eq!(g.dijkstra(0).err(), Some(NegativeEdgeError));
}

#[test]
fn dijkstra_negative_edge_unreachable_still_fails() {
    let g = build(3, GraphType::GraphDirected, &[(0, 1, 2), (2, 1, -1)]);
    assert!(g.dijkstra(0).is_err());
}

#[test]
fn unreachable_nodes() {
    let g = build(4, GraphType::GraphDirected, &[(0, 1, 3), (2, 3, 1)]);
    let (prev, dist) = g.bfs(0);
    assert_eq!(dist, vec![0, 1, -1, -1]);
    assert!(prev[2].is_none());
    let (_, d) = g.dijkstra(0).unwrap();
    assert_eq!(d, vec![Some(0), Some(3), None, None]);
    let (_, b) = g.bellman_ford(0).unwrap();
    assert_eq!(b, vec![Some(0), Some(3), None, None]);
}

#[test]
fn bfs_equals_dijkstra_on_unit_weights() {
    let g = build(
        6,
        GraphType::GraphDirected,
        &[(0, 1, 1), (1, 2, 1), (0, 3, 1), (3, 2, 1), (2, 4, 1), (5, 0, 1)],
    );
    let (_, b) = g.bfs(0);
    let (_, d) = g.dijkstra(0).unwrap();
    for v in 0..6 {
        match d[v] {
            Some(x) => assert_eq!(b[v], x),
            None => assert_eq!(b[v], -1),
        }
    }
}

#[test]
fn dijkstra_equals_bellman_ford_without_negative_edges() {
    let g = build(
        5,
        GraphType::GraphDirected,
        &[(0, 1, 7), (0, 2, 2), (2, 1, 3), (1, 3, 1), (2, 3, 9), (3, 4, 0)],
    );
    let (_, d) = g.dijkstra(0).unwrap();
    let (_, b) = g.bellman_ford(0).unwrap();
    assert_eq!(d, b);
    assert_eq!(d, vec![Some(0), Some(5), Some(2), Some(6), Some(6)]);
}

#[test]
fn floyd_warshall_rows_match_single_source() {
    let g = build(
        4,
        GraphType::GraphDirected,
        &[(0, 1, 4), (1, 2, -2), (0, 2, 5), (2, 3, 1), (3, 0, 2)],
    );
    let (prevs, dists) = g.floyd_warshall();
    for i in 0..4 {
        let (_, row) = g.bellman_ford(i).unwrap();
        assert_eq!(dists[i], row);
    }
    assert_eq!(dists[0], vec![Some(0), Some(4), Some(2), Some(3)]);
    assert_eq!(prevs[0][2].unwrap().source(), 1);
}

#[test]
fn dfs_intervals_nest_or_are_disjoint() {
    let g = build(
        6,
        GraphType::GraphDirected,
        &[(0, 1, 1), (1, 2, 1), (0, 3, 1), (3, 1, 1), (4, 5, 1)],
    );
    let (prev, d, f) = g.dfs();
    assert_eq!(d, vec![1, 2, 3, 6, 9, 10]);
    assert_eq!(f, vec![8, 5, 4, 7, 12, 11]);
    for u in 0..6 {
        for v in 0..6 {
            if u != v {
                let disjoint = f[u] < d[v] || f[v] < d[u];
                let nested = (d[u] < d[v] && f[v] < f[u]) || (d[v] < d[u] && f[u] < f[v]);
                assert!(disjoint || nested);
            }
        }
    }
    assert_eq!(prev[2].unwrap().source(), 1);
    assert!(prev[4].is_none());
}

#[test]
fn test_approx_vertex_cover() {
    let g = build(
        6,
        GraphType::GraphUndirected,
        &[(0, 1, 1), (0, 2, 1), (1, 3, 1), (2, 3, 1), (3, 4, 1), (4, 5, 1)],
    );
    let cover = g.approx_vertex_cover();
    let mut ends = Vec::new();
    for e in &cover {
        ends.push(e.source());
        ends.push(e.destination());
    }
    for u in 0..6 {
        for e in g.edges(u) {
            assert!(ends.contains(&e.source()) || ends.contains(&e.destination()));
        }
    }
    // a smallest vertex cover here is {0, 3, 4}
    assert!(ends.len() <= 2 * 3);
    let pairs: Vec<(usize, usize)> = cover.iter().map(|e| (e.source(), e.destination())).collect();
    assert_eq!(pairs, vec![(0, 1), (2, 3), (4, 5)]);
}

#[test]
fn create_edge_out_of_bounds() {
    let mut g: Graph<NormalEdge> = Graph::new(2, GraphType::GraphDirected);
    assert_eq!(g.create_edge(0, 2, 1), Err(GraphError::NodeOutOfBounds));
    assert_eq!(g.add_edge(NormalEdge::new(5, 0, 1)), Err(GraphError::NodeOutOfBounds));
    assert!(g.edges(0).is_empty());
}

#[test]
fn undirected_edge_stored_twice() {
    let mut g: Graph<NormalEdge> = Graph::new(3, GraphType::GraphUndirected);
    g.add_edge(NormalEdge::new(0, 2, 7)).unwrap();
    assert_eq!(g.edges(0).len(), 1);
    assert_eq!(g.edges(2).len(), 1);
    assert_eq!(g.edges(2)[0].destination(), 0);
    assert_eq!(g.edges(2)[0].weight(), 7);
    assert_eq!(g.n_nodes(), 3);
}

#[test]
fn bellman_ford_unreachable_negative_cycle_is_fine() {
    let g = build(4, GraphType::GraphDirected, &[(0, 1, 2), (2, 3, -5), (3, 2, 1)]);
    let (_, dist) = g.bellman_ford(0).unwrap();
    assert_eq!(dist, vec![Some(0), Some(2), None, None]);
    assert!(g.bellman_ford(2).is_none());
}

#[test]
fn graph_from_edge_list() {
    let g = from_edge_list(3, 2, 1, &vec![(0, 1, 5), (1, 2, 6)]).unwrap();
    assert_eq!(g.edges(1).len(), 1);
    assert!(g.edges(2).is_empty());
    let u = from_edge_list(3, 2, 0, &vec![(0, 1, 5), (1, 2, 6)]).unwrap();
    assert_eq!(u.edges(2).len(), 1);
    assert_eq!(
        from_edge_list(3, 3, 1, &vec![(0, 1, 5), (1, 2, 6)]).err(),
        Some(GraphError::EdgeCountMismatch)
    );
    assert_eq!(
        from_edge_list(3, 3, 1, &vec![(0, 1, 5), (1, 7, 6)]).err(),
        Some(GraphError::NodeOutOfBounds)
    );
}

#[test]
fn floyd_warshall_unreachable_and_diagonal() {
    let g = build(3, GraphType::GraphDirected, &[(0, 1, 3)]);
    let (prevs, dists) = g.floyd_warshall();
    assert_eq!(dists[0], vec![Some(0), Some(3), None]);
    assert_eq!(dists[2], vec![None, None, Some(0)]);
    assert!(prevs[0][0].is_none());
    assert_eq!(prevs[0][1].unwrap().destination(), 1);
}

#[test]
fn floyd_warshall_self_loop_keeps_zero_diagonal() {
    let g = build(3, GraphType::GraphDirected, &[(0, 0, 5), (0, 1, 4), (1, 2, -2), (0, 2, 5)]);
    let (prevs, dists) = g.floyd_warshall();
    assert_eq!(dists[0], vec![Some(0), Some(4), Some(2)]);
    assert_eq!(dists[1], vec![None, Some(0), Some(-2)]);
    assert_eq!(dists[2], vec![None, None, Some(0)]);
    assert!(prevs[0][0].is_none());
    assert_eq!(prevs[0][2].unwrap().source(), 1);
    assert_eq!(prevs[0][1].unwrap().source(), 0);
}

#[test]
fn quicksort_empty_range_does_nothing() {
    let mut v = vec![3, 1, 2];
    graph_algos::sort::quicksort(&mut v, 5, 1);
    assert_eq!(v, vec![3, 1, 2]);
}
