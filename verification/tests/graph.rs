use egui_graphs::{Edge, EdgeID, EdgeRef, EdgeShape, Graph, Direction, Node, NotFound};

fn triangle() -> (Graph, [usize; 3], [usize; 3]) {
    let mut g = Graph::new(true);
    let a = g.add_node(Node::new());
    let b = g.add_node(Node::new());
    let c = g.add_node(Node::new());
    let ab = g.add_edge(a, b, Edge::new()).unwrap();
    let bc = g.add_edge(b, c, Edge::new()).unwrap();
    let ca = g.add_edge(c, a, Edge::new()).unwrap();
    (g, [a, b, c], [ab, bc, ca])
}

fn sorted(mut v: Vec<usize>) -> Vec<usize> {
    v.sort();
    v
}

#[test]
fn new_graph_is_empty() {
    let g = Graph::new(true);
    assert!(g.is_directed());
    assert!(g.nodes_iter().is_empty());
    assert!(g.edges_iter().is_empty());
    assert_eq!(g.node(0), None);
    assert_eq!(g.edge(0), None);
    assert_eq!(g.edge_endpoints(0), None);
    assert!(!Graph::new(false).is_directed());
}

#[test]
fn add_node_gives_distinct_indices() {
    let mut g = Graph::new(true);
    let a = g.add_node(Node::new());
    let b = g.add_node(Node { selected: true, dragged: false, folded: false });
    assert_ne!(a, b);
    assert_eq!(g.node(a), Some(Node::new()));
    assert_eq!(g.node(b), Some(Node { selected: true, dragged: false, folded: false }));
    assert_eq!(g.nodes_iter().len(), 2);
}

#[test]
fn nodes_iter_lists_by_ascending_index() {
    let mut g = Graph::new(true);
    let mut ids = Vec::new();
    for _ in 0..5 {
        ids.push(g.add_node(Node::new()));
    }
    let listed: Vec<usize> = g.nodes_iter().iter().map(|(i, _)| *i).collect();
    assert_eq!(listed, sorted(ids));
    for w in listed.windows(2) {
        assert!(w[0] < w[1]);
    }
}

#[test]
fn add_edge_binds_index_and_order() {
    let (g, [a, b, _], [ab, _, _]) = triangle();
    assert_eq!(g.edge(ab), Some(Edge { id: Some(EdgeID { idx: ab, order: 0 }), selected: false }));
    assert_eq!(g.edge_endpoints(ab), Some((a, b)));
}

#[test]
fn add_edge_without_endpoint_is_refused() {
    let mut g = Graph::new(true);
    let a = g.add_node(Node::new());
    assert_eq!(g.add_edge(a, a + 10, Edge::new()), None);
    assert_eq!(g.add_edge(a + 10, a, Edge::new()), None);
    assert!(g.edges_iter().is_empty());
}

#[test]
fn triangle_edges_have_order_zero_and_are_straight() {
    let (g, _, edges) = triangle();
    for e in edges {
        assert_eq!(g.edge(e).unwrap().order(), 0);
        assert_eq!(g.edge_shape(e), Some(EdgeShape::Straight));
    }
}

#[test]
fn sibling_orders_count_up_from_zero() {
    let mut g = Graph::new(true);
    let a = g.add_node(Node::new());
    let b = g.add_node(Node::new());
    let mut orders = Vec::new();
    for _ in 0..4 {
        let e = g.add_edge(a, b, Edge::new()).unwrap();
        orders.push(g.edge(e).unwrap().order());
    }
    assert_eq!(orders, vec![0, 1, 2, 3]);
    let back = g.add_edge(b, a, Edge::new()).unwrap();
    assert_eq!(g.edge(back).unwrap().order(), 0);
    assert_eq!(g.edges_connecting(a, b), 4);
    assert_eq!(g.edges_connecting(b, a), 1);
    assert_eq!(g.edges_connecting(a, a), 0);
}

#[test]
fn parallel_edges_are_curved_by_their_order() {
    let mut g = Graph::new(true);
    let a = g.add_node(Node::new());
    let b = g.add_node(Node::new());
    let first = g.add_edge(a, b, Edge::new()).unwrap();
    assert_eq!(g.edge_shape(first), Some(EdgeShape::Straight));
    let second = g.add_edge(a, b, Edge::new()).unwrap();
    assert_ne!(first, second);
    assert_eq!(g.edge_shape(first), Some(EdgeShape::Curved { order: 0 }));
    assert_eq!(g.edge_shape(second), Some(EdgeShape::Curved { order: 1 }));
}

#[test]
fn loops_are_loops_with_their_order() {
    let mut g = Graph::new(true);
    let a = g.add_node(Node::new());
    let l0 = g.add_edge(a, a, Edge::new()).unwrap();
    let l1 = g.add_edge(a, a, Edge::new()).unwrap();
    assert_eq!(g.edge_shape(l0), Some(EdgeShape::Loop { order: 0 }));
    assert_eq!(g.edge_shape(l1), Some(EdgeShape::Loop { order: 1 }));
    assert_eq!(g.edge_shape(l1 + 5), None);
}

#[test]
fn edges_num_counts_edges_that_touch_the_node() {
    let (mut g, [a, b, c], _) = triangle();
    assert_eq!(g.edges_num(a), 2);
    assert_eq!(g.edges_num(b), 2);
    g.add_edge(a, a, Edge::new()).unwrap();
    assert_eq!(g.edges_num(a), 3);
    g.add_edge(a, b, Edge::new()).unwrap();
    assert_eq!(g.edges_num(a), 4);
    assert_eq!(g.edges_num(b), 3);
    assert_eq!(g.edges_num(c), 2);
    assert_eq!(g.edges_num(c + 100), 0);
}

#[test]
fn edges_directed_follows_the_direction() {
    let (g, [a, b, c], [ab, _, ca]) = triangle();
    assert_eq!(g.edges_directed(a, Direction::Outgoing), vec![EdgeRef { id: ab, source: a, target: b }]);
    assert_eq!(g.edges_directed(a, Direction::Incoming), vec![EdgeRef { id: ca, source: c, target: a }]);
    assert!(g.edges_directed(c + 100, Direction::Outgoing).is_empty());
}

#[test]
fn edges_directed_without_directions_lists_both_ends() {
    let mut g = Graph::new(false);
    let a = g.add_node(Node::new());
    let b = g.add_node(Node::new());
    let c = g.add_node(Node::new());
    let ab = g.add_edge(a, b, Edge::new()).unwrap();
    let ca = g.add_edge(c, a, Edge::new()).unwrap();
    let aa = g.add_edge(a, a, Edge::new()).unwrap();
    let out = g.edges_directed(a, Direction::Outgoing);
    assert_eq!(out.len(), 3);
    assert!(out.contains(&EdgeRef { id: ab, source: a, target: b }));
    assert!(out.contains(&EdgeRef { id: ca, source: a, target: c }));
    assert!(out.contains(&EdgeRef { id: aa, source: a, target: a }));
    let inc = g.edges_directed(a, Direction::Incoming);
    assert_eq!(inc.len(), 3);
    assert!(inc.contains(&EdgeRef { id: ab, source: b, target: a }));
    assert!(inc.contains(&EdgeRef { id: ca, source: c, target: a }));
    assert!(inc.contains(&EdgeRef { id: aa, source: a, target: a }));
}

#[test]
fn set_node_replaces_state_or_reports_missing() {
    let (mut g, [a, b, _], _) = triangle();
    let n = Node { selected: true, dragged: false, folded: true };
    assert_eq!(g.set_node(a, n), Ok(()));
    assert_eq!(g.node(a), Some(n));
    assert_eq!(g.node(b), Some(Node::new()));
    assert_eq!(g.set_node(99, n), Err(NotFound::Node(99)));
}

#[test]
fn set_edge_selected_keeps_identity() {
    let (mut g, [_, b, c], [_, bc, _]) = triangle();
    assert_eq!(g.set_edge_selected(bc, true), Ok(()));
    assert_eq!(g.edge(bc), Some(Edge { id: Some(EdgeID { idx: bc, order: 0 }), selected: true }));
    assert_eq!(g.edge_endpoints(bc), Some((b, c)));
    assert_eq!(g.set_edge_selected(77, true), Err(NotFound::Edge(77)));
}

#[test]
fn edges_iter_lists_by_ascending_index() {
    let (g, _, edges) = triangle();
    let listed: Vec<usize> = g.edges_iter().iter().map(|(i, _)| *i).collect();
    assert_eq!(listed, sorted(edges.to_vec()));
    for (i, e) in g.edges_iter() {
        assert_eq!(e.id().idx, i);
    }
}

#[test]
fn remove_edge_closes_the_gap_in_the_orders() {
    let mut g = Graph::new(true);
    let a = g.add_node(Node::new());
    let b = g.add_node(Node::new());
    let e0 = g.add_edge(a, b, Edge::new()).unwrap();
    let e1 = g.add_edge(a, b, Edge::new()).unwrap();
    let e2 = g.add_edge(a, b, Edge::new()).unwrap();
    let back = g.add_edge(b, a, Edge::new()).unwrap();
    g.set_edge_selected(e2, true).unwrap();
    let removed = g.remove_edge(e1);
    assert_eq!(removed, Some(Edge { id: Some(EdgeID { idx: e1, order: 1 }), selected: false }));
    assert_eq!(g.edge(e1), None);
    assert_eq!(g.edge(e0).unwrap().order(), 0);
    assert_eq!(g.edge(e2), Some(Edge { id: Some(EdgeID { idx: e2, order: 1 }), selected: true }));
    assert_eq!(g.edge(back).unwrap().order(), 0);
    assert_eq!(g.edges_connecting(a, b), 2);
    let e3 = g.add_edge(a, b, Edge::new()).unwrap();
    assert_eq!(g.edge(e3).unwrap().order(), 2);
    assert_eq!(g.edge(e3).unwrap().id().idx, e3);
    assert_eq!(g.remove_edge(e1 + 100), None);
}

#[test]
fn remove_last_sibling_makes_the_other_straight() {
    let mut g = Graph::new(true);
    let a = g.add_node(Node::new());
    let b = g.add_node(Node::new());
    let e0 = g.add_edge(a, b, Edge::new()).unwrap();
    let e1 = g.add_edge(a, b, Edge::new()).unwrap();
    assert_eq!(g.remove_edge(e0).unwrap().order(), 0);
    assert_eq!(g.edge(e1).unwrap().order(), 0);
    assert_eq!(g.edge_shape(e1), Some(EdgeShape::Straight));
}

#[test]
fn remove_node_takes_its_edges_along() {
    let (mut g, [a, b, c], [ab, bc, ca]) = triangle();
    g.set_node(b, Node { selected: true, dragged: false, folded: false }).unwrap();
    assert_eq!(g.remove_node(b), Some(Node { selected: true, dragged: false, folded: false }));
    assert_eq!(g.node(b), None);
    assert_eq!(g.edge(ab), None);
    assert_eq!(g.edge(bc), None);
    assert_eq!(g.edge_endpoints(ca), Some((c, a)));
    assert_eq!(g.edges_num(a), 1);
    assert_eq!(g.nodes_iter().len(), 2);
    assert_eq!(g.remove_node(b), None);
    let again = g.add_node(Node::new());
    assert_eq!(g.node(again), Some(Node::new()));
    assert_eq!(g.nodes_iter().len(), 3);
}
