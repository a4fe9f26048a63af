use egui_graphs::{Edge, Graph, Direction, Node, SubGraph, SubGraphs};

fn sorted(mut v: Vec<usize>) -> Vec<usize> {
    v.sort();
    v
}

/// a -> b -> c -> d, and d -> b closes a cycle.
fn chain() -> (Graph, [usize; 4], [usize; 4]) {
    let mut g = Graph::new(true);
    let a = g.add_node(Node::new());
    let b = g.add_node(Node::new());
    let c = g.add_node(Node::new());
    let d = g.add_node(Node::new());
    let ab = g.add_edge(a, b, Edge::new()).unwrap();
    let bc = g.add_edge(b, c, Edge::new()).unwrap();
    let cd = g.add_edge(c, d, Edge::new()).unwrap();
    let db = g.add_edge(d, b, Edge::new()).unwrap();
    (g, [a, b, c, d], [ab, bc, cd, db])
}

#[test]
fn walk_of_no_step_reaches_the_root_alone() {
    let (g, [a, ..], _) = chain();
    let (nodes, edges) = g.walk(a, Direction::Outgoing, 0);
    assert_eq!(nodes, vec![a]);
    assert!(edges.is_empty());
}

#[test]
fn walk_stops_at_its_depth() {
    let (g, [a, b, c, _], [ab, bc, _, _]) = chain();
    let (nodes, edges) = g.walk(a, Direction::Outgoing, 1);
    assert_eq!(sorted(nodes), sorted(vec![a, b]));
    assert_eq!(edges, vec![ab]);
    let (nodes, edges) = g.walk(a, Direction::Outgoing, 2);
    assert_eq!(sorted(nodes), sorted(vec![a, b, c]));
    assert_eq!(sorted(edges), sorted(vec![ab, bc]));
}

#[test]
fn walk_survives_a_cycle_and_visits_once() {
    let (g, nodes_all, edges_all) = chain();
    let (nodes, edges) = g.walk(nodes_all[0], Direction::Outgoing, usize::MAX);
    assert_eq!(sorted(nodes), sorted(nodes_all.to_vec()));
    assert_eq!(sorted(edges), sorted(edges_all.to_vec()));
}

#[test]
fn walk_against_the_edges() {
    let (g, [a, b, _, d], [ab, _, _, db]) = chain();
    let (nodes, edges) = g.walk(b, Direction::Incoming, 1);
    assert_eq!(sorted(nodes), sorted(vec![a, b, d]));
    assert_eq!(sorted(edges), sorted(vec![ab, db]));
    let (nodes, _) = g.walk(a, Direction::Incoming, 5);
    assert_eq!(nodes, vec![a]);
}

#[test]
fn walk_without_directions_goes_both_ways() {
    let mut g = Graph::new(false);
    let a = g.add_node(Node::new());
    let b = g.add_node(Node::new());
    let c = g.add_node(Node::new());
    let ab = g.add_edge(a, b, Edge::new()).unwrap();
    let cb = g.add_edge(c, b, Edge::new()).unwrap();
    let (nodes, edges) = g.walk(a, Direction::Outgoing, 2);
    assert_eq!(sorted(nodes), sorted(vec![a, b, c]));
    assert_eq!(sorted(edges), sorted(vec![ab, cb]));
    let (nodes, edges) = g.walk(c, Direction::Outgoing, 1);
    assert_eq!(sorted(nodes), sorted(vec![b, c]));
    assert_eq!(edges, vec![cb]);
}

#[test]
fn walk_takes_an_edge_between_reached_nodes_once() {
    let mut g = Graph::new(true);
    let a = g.add_node(Node::new());
    let b = g.add_node(Node::new());
    let e0 = g.add_edge(a, b, Edge::new()).unwrap();
    let e1 = g.add_edge(a, b, Edge::new()).unwrap();
    let l = g.add_edge(a, a, Edge::new()).unwrap();
    let (nodes, edges) = g.walk(a, Direction::Outgoing, 3);
    assert_eq!(sorted(nodes), sorted(vec![a, b]));
    assert_eq!(sorted(edges), sorted(vec![e0, e1, l]));
}

#[test]
fn walk_from_a_missing_root_finds_nothing_else() {
    let (g, ..) = chain();
    let (nodes, edges) = g.walk(1000, Direction::Outgoing, 3);
    assert_eq!(nodes, vec![1000]);
    assert!(edges.is_empty());
}

#[test]
fn collect_reads_the_sign_of_the_depth() {
    let (g, [a, b, c, d], _) = chain();
    let down = SubGraph::collect(&g, b, 1);
    assert_eq!(down.root, b);
    assert_eq!(sorted(down.nodes), sorted(vec![b, c]));
    let up = SubGraph::collect(&g, b, -1);
    assert_eq!(sorted(up.nodes), sorted(vec![a, b, d]));
    let none = SubGraph::collect(&g, b, 0);
    assert_eq!(none.nodes, vec![b]);
    let all = SubGraph::collect(&g, a, i32::MAX);
    assert_eq!(sorted(all.nodes), sorted(vec![a, b, c, d]));
    let far_up = SubGraph::collect(&g, c, i32::MIN);
    assert_eq!(sorted(far_up.nodes), sorted(vec![a, b, c, d]));
}

#[test]
fn registry_keeps_one_record_for_each_root() {
    let (g, [a, b, c, _], [ab, bc, _, _]) = chain();
    let mut s = SubGraphs::new();
    assert!(s.is_empty());
    assert_eq!(s.elements_by_root(a), None);
    s.add_subgraph(&g, a, 1);
    s.add_subgraph(&g, b, 1);
    assert!(!s.is_empty());
    assert_eq!(s.roots(), vec![a, b]);
    let (nodes, edges) = s.elements_by_root(a).unwrap();
    assert_eq!(sorted(nodes), sorted(vec![a, b]));
    assert_eq!(edges, vec![ab]);
    s.add_subgraph(&g, a, 2);
    assert_eq!(s.roots(), vec![a, b]);
    let (nodes, edges) = s.elements_by_root(a).unwrap();
    assert_eq!(sorted(nodes), sorted(vec![a, b, c]));
    assert_eq!(sorted(edges), sorted(vec![ab, bc]));
    assert_eq!(s.elements_by_root(c), None);
}

#[test]
fn registry_elements_are_the_union_without_repeats() {
    let (g, [a, b, c, _], [ab, bc, _, _]) = chain();
    let mut s = SubGraphs::new();
    let (nodes, edges) = s.elements();
    assert!(nodes.is_empty() && edges.is_empty());
    s.add_subgraph(&g, a, 2);
    s.add_subgraph(&g, b, 1);
    let (nodes, edges) = s.elements();
    assert_eq!(sorted(nodes), sorted(vec![a, b, c]));
    assert_eq!(sorted(edges), sorted(vec![ab, bc]));
}

#[test]
fn walk_lists_the_root_first() {
    let (g, [a, b, c, d], _) = chain();
    for root in [a, b, c, d] {
        let (nodes, _) = g.walk(root, Direction::Outgoing, 4);
        assert_eq!(nodes[0], root);
        let (nodes, _) = g.walk(root, Direction::Incoming, 4);
        assert_eq!(nodes[0], root);
    }
}

#[test]
fn walk_both_ways_in_a_directed_graph() {
    let (g, [a, b, c, d], [ab, bc, _, db]) = chain();
    let (nodes, edges) = g.walk(b, Direction::Both, 1);
    assert_eq!(sorted(nodes), sorted(vec![a, b, c, d]));
    assert_eq!(sorted(edges), sorted(vec![ab, bc, db]));
    let (nodes, _) = g.walk(a, Direction::Both, 1);
    assert_eq!(sorted(nodes), sorted(vec![a, b]));
    let listed = g.edges_directed(b, Direction::Both);
    assert_eq!(listed.len(), 3);
    for r in listed {
        assert_eq!(r.source, b);
    }
}
