use offroad::graph::cycles::{build_graph, find_non_intersecting_cycles, CycleGraph, TurnOrders};

fn no_turns() -> TurnOrders {
    TurnOrders { at_from: Vec::new(), at_to: Vec::new() }
}

#[test]
fn find_cycles_test_empty_input() {
    let g = build_graph(0, &vec![]);
    let result = find_non_intersecting_cycles(&g, &no_turns());
    assert!(result.is_empty());
}

#[test]
fn find_cycles_test_single_arc() {
    let g = build_graph(2, &vec![(0, 1)]);
    let result = find_non_intersecting_cycles(&g, &no_turns());
    assert!(result.is_empty());
}

#[test]
fn test_simple_triangle() {
    let g = build_graph(3, &vec![(0, 1), (1, 2), (2, 0)]);
    let result = find_non_intersecting_cycles(&g, &no_turns());
    assert_eq!(result.len(), 1);
    assert_eq!(result[0].len(), 3);
    assert_eq!(result[0], vec![0, 1, 2]);
}

#[test]
fn test_simple_square() {
    let g = build_graph(4, &vec![(0, 1), (1, 2), (2, 3), (3, 0)]);
    let result = find_non_intersecting_cycles(&g, &no_turns());
    assert_eq!(result.len(), 1);
    assert_eq!(result[0].len(), 4);
}

#[test]
fn test_build_graph() {
    let g = build_graph(3, &vec![(0, 1), (1, 2)]);
    assert_eq!(g.vertex_count, 3);
    assert_eq!(g.edges.len(), 2);
    assert_eq!(g.get_adjacent_edges(0), &[0]);
    assert_eq!(g.get_adjacent_edges(1), &[0, 1]);
    assert_eq!(g.get_adjacent_edges(2), &[1]);
    assert_eq!(g.get_adjacent_edges(7), &[] as &[usize]);
}

#[test]
fn test_add_vertex_and_edge() {
    let mut g = CycleGraph::new();
    let v0 = g.add_vertex();
    let v1 = g.add_vertex();
    assert_eq!((v0, v1), (0, 1));
    g.add_edge(v0, v1);
    g.add_edge(v1, v1);
    assert_eq!(g.edges.len(), 2);
    assert_eq!(g.edges[1].id, 1);
    assert_eq!(g.get_adjacent_edges(v1), &[0, 1, 1]);
}

#[test]
fn test_figure_eight() {
    // Two squares sharing the edge between vertices 1 and 2.
    let g = build_graph(6, &vec![(0, 1), (1, 2), (2, 3), (3, 0), (1, 4), (4, 5), (5, 2)]);
    // Arriving at vertex 1 along edge 0 the right-most exit is edge 1 (up),
    // arriving at vertex 2 along edge 1 it is edge 2 (left).
    let mut at_to = vec![Vec::new(); 7];
    at_to[0] = vec![1, 4];
    at_to[1] = vec![2, 6];
    let turns = TurnOrders { at_from: vec![Vec::new(); 7], at_to };
    let result = find_non_intersecting_cycles(&g, &turns);
    assert!(!result.is_empty());
    for cycle in &result {
        assert!(cycle.len() >= 3);
    }
    assert_eq!(result, vec![vec![0, 1, 2, 3]]);
}

#[test]
fn test_turn_order_decides_exit() {
    // Same figure-eight, but the order now prefers going straight on at vertex 1.
    let g = build_graph(6, &vec![(0, 1), (1, 2), (2, 3), (3, 0), (1, 4), (4, 5), (5, 2)]);
    let mut at_to = vec![Vec::new(); 7];
    at_to[0] = vec![4, 1];
    at_to[6] = vec![2, 1];
    let turns = TurnOrders { at_from: vec![Vec::new(); 7], at_to };
    let result = find_non_intersecting_cycles(&g, &turns);
    assert_eq!(result[0], vec![0, 4, 5, 6, 2, 3]);
}

#[test]
fn test_x_intersection() {
    let g = build_graph(5, &vec![(0, 1), (1, 2), (3, 1), (1, 4)]);
    let result = find_non_intersecting_cycles(&g, &no_turns());
    assert!(result.is_empty());
}

#[test]
fn test_double_edges() {
    let g = build_graph(2, &vec![(0, 1), (1, 0)]);
    let result = find_non_intersecting_cycles(&g, &no_turns());
    assert_eq!(result.len(), 1);
    assert_eq!(result[0].len(), 2);
}

#[test]
fn test_multiple_separate_cycles() {
    let g = build_graph(6, &vec![(0, 1), (1, 2), (2, 0), (3, 4), (4, 5), (5, 3)]);
    let result = find_non_intersecting_cycles(&g, &no_turns());
    assert_eq!(result.len(), 2);
    for cycle in &result {
        assert_eq!(cycle.len(), 3);
    }
    assert_eq!(result, vec![vec![0, 1, 2], vec![3, 4, 5]]);
}

#[test]
fn test_mixed_arc_types() {
    let g = build_graph(3, &vec![(0, 1), (1, 2), (2, 0)]);
    let result = find_non_intersecting_cycles(&g, &no_turns());
    assert_eq!(result.len(), 1);
    assert_eq!(result[0].len(), 3);
}

#[test]
fn test_complex_graph_with_branches() {
    // Outer square plus two inner segments whose ends are not square corners.
    let g = build_graph(8, &vec![(0, 1), (1, 2), (2, 3), (3, 0), (4, 5), (6, 7)]);
    let result = find_non_intersecting_cycles(&g, &no_turns());
    assert!(!result.is_empty());
    for cycle in &result {
        assert!(!cycle.is_empty());
    }
}

#[test]
fn test_self_loop_is_a_cycle() {
    let g = build_graph(2, &vec![(0, 0), (0, 1)]);
    let result = find_non_intersecting_cycles(&g, &no_turns());
    assert_eq!(result, vec![vec![0]]);
}

#[test]
fn cycles_share_no_edge_and_close() {
    // Two triangles sharing vertex 0: a bow tie.
    let g = build_graph(5, &vec![(0, 1), (1, 2), (2, 0), (0, 3), (3, 4), (4, 0)]);
    let mut at_to = vec![Vec::new(); 6];
    at_to[2] = vec![0, 3, 5];
    let turns = TurnOrders { at_from: vec![Vec::new(); 6], at_to };
    let result = find_non_intersecting_cycles(&g, &turns);
    assert_eq!(result, vec![vec![0, 1, 2], vec![3, 4, 5]]);
    let mut seen = vec![false; 6];
    for cycle in &result {
        for &e in cycle {
            assert!(!seen[e]);
            seen[e] = true;
        }
        let first = g.edges[cycle[0]];
        let mut v = first.to;
        for &e in &cycle[1..] {
            let edge = g.edges[e];
            assert!(edge.from == v || edge.to == v);
            v = if edge.from == v { edge.to } else { edge.from };
        }
        assert_eq!(v, first.from);
    }
}
