use egui_graphs::{
    Edge, Graph, Node, SettingsInteraction, StateComputed, StateComputedEdge, StateComputedNode,
};

fn sorted(mut v: Vec<usize>) -> Vec<usize> {
    v.sort();
    v
}

fn node(selected: bool, dragged: bool, folded: bool) -> Node {
    Node { selected, dragged, folded }
}

/// a -> b -> c -> d
fn chain(flags: [Node; 4]) -> (Graph, [usize; 4], [usize; 3]) {
    let mut g = Graph::new(true);
    let a = g.add_node(flags[0]);
    let b = g.add_node(flags[1]);
    let c = g.add_node(flags[2]);
    let d = g.add_node(flags[3]);
    let ab = g.add_edge(a, b, Edge::new()).unwrap();
    let bc = g.add_edge(b, c, Edge::new()).unwrap();
    let cd = g.add_edge(c, d, Edge::new()).unwrap();
    (g, [a, b, c, d], [ab, bc, cd])
}

#[test]
fn computed_edge_is_subselected_by_either_mark() {
    assert!(!StateComputedEdge::default().subselected());
    assert!(StateComputedEdge { selected_child: true, selected_parent: false }.subselected());
    assert!(StateComputedEdge { selected_child: false, selected_parent: true }.subselected());
}

#[test]
fn computed_node_defaults_are_blank() {
    let c = StateComputedNode::default();
    assert!(!c.subselected());
    assert!(!c.subfolded());
    assert_eq!(c.num_folded, 0);
    assert_eq!(c.num_edges, 0);
}

#[test]
fn frame_without_flags_derives_blank_states_and_edge_counts() {
    let plain = Node::new();
    let (g, nodes, edges) = chain([plain; 4]);
    let c = StateComputed::compute(&g, &SettingsInteraction::new());
    assert_eq!(c.dragged, None);
    assert!(c.selections.is_empty());
    assert!(c.foldings.is_empty());
    assert_eq!(c.nodes.len(), 4);
    assert_eq!(c.edges.len(), 3);
    let counts: Vec<usize> = nodes.iter().map(|i| c.node_state(*i).unwrap().num_edges).collect();
    assert_eq!(counts, vec![1, 2, 2, 1]);
    for i in nodes {
        let s = c.node_state(i).unwrap();
        assert!(!s.subselected() && !s.subfolded());
        assert_eq!(s.num_folded, 0);
    }
    for e in edges {
        assert_eq!(c.edge_state(e), Some(StateComputedEdge::default()));
    }
    assert_eq!(c.node_state(1000), None);
    assert_eq!(c.edge_state(1000), None);
}

#[test]
fn selection_marks_children_along_the_edges() {
    let (g, [a, b, c, d], [ab, bc, cd]) =
        chain([Node::new(), node(true, false, false), Node::new(), Node::new()]);
    let s = SettingsInteraction::new().with_selection_depth(1);
    let comp = StateComputed::compute(&g, &s);
    assert_eq!(comp.selections.roots(), vec![b]);
    let (nodes, edges) = comp.selections.elements_by_root(b).unwrap();
    assert_eq!(sorted(nodes), sorted(vec![b, c]));
    assert_eq!(edges, vec![bc]);
    assert!(comp.node_state(c).unwrap().selected_child);
    assert!(!comp.node_state(c).unwrap().selected_parent);
    assert!(!comp.node_state(b).unwrap().subselected());
    assert!(!comp.node_state(a).unwrap().subselected());
    assert!(!comp.node_state(d).unwrap().subselected());
    assert!(comp.edge_state(bc).unwrap().selected_child);
    assert!(!comp.edge_state(ab).unwrap().subselected());
    assert!(!comp.edge_state(cd).unwrap().subselected());
}

#[test]
fn selection_marks_parents_against_the_edges() {
    let (g, [a, b, c, d], [ab, bc, _]) =
        chain([Node::new(), Node::new(), node(true, false, false), Node::new()]);
    let s = SettingsInteraction::new().with_selection_depth(-2);
    let comp = StateComputed::compute(&g, &s);
    assert!(comp.node_state(a).unwrap().selected_parent);
    assert!(comp.node_state(b).unwrap().selected_parent);
    assert!(!comp.node_state(a).unwrap().selected_child);
    assert!(!comp.node_state(c).unwrap().subselected());
    assert!(!comp.node_state(d).unwrap().subselected());
    assert!(comp.edge_state(ab).unwrap().selected_parent);
    assert!(comp.edge_state(bc).unwrap().selected_parent);
}

#[test]
fn selection_of_depth_zero_marks_nothing() {
    let (g, nodes, edges) = chain([node(true, false, false), Node::new(), Node::new(), Node::new()]);
    let s = SettingsInteraction::new().with_selection_depth(0);
    let comp = StateComputed::compute(&g, &s);
    assert_eq!(comp.selections.roots(), vec![nodes[0]]);
    for i in nodes {
        assert!(!comp.node_state(i).unwrap().subselected());
    }
    for e in edges {
        assert!(!comp.edge_state(e).unwrap().subselected());
    }
}

#[test]
fn two_selected_roots_mark_each_other() {
    let (g, [a, b, c, _], _) =
        chain([node(true, false, false), node(true, false, false), Node::new(), Node::new()]);
    let s = SettingsInteraction::new().with_selection_depth(1);
    let comp = StateComputed::compute(&g, &s);
    assert_eq!(comp.selections.roots(), vec![a, b]);
    assert!(comp.node_state(b).unwrap().selected_child);
    assert!(comp.node_state(c).unwrap().selected_child);
    assert!(!comp.node_state(a).unwrap().subselected());
}

#[test]
fn folded_root_counts_what_it_swallows() {
    let (g, [a, b, c, d], _) =
        chain([Node::new(), node(false, false, true), Node::new(), Node::new()]);
    let comp = StateComputed::compute(&g, &SettingsInteraction::new());
    assert_eq!(comp.foldings.roots(), vec![b]);
    let (nodes, _) = comp.foldings.elements_by_root(b).unwrap();
    assert_eq!(sorted(nodes.clone()), sorted(vec![b, c, d]));
    assert_eq!(comp.node_state(b).unwrap().num_folded, nodes.len() - 1);
    assert_eq!(comp.node_state(b).unwrap().num_folded, 2);
    assert!(comp.node_state(c).unwrap().subfolded());
    assert!(comp.node_state(d).unwrap().subfolded());
    assert!(!comp.node_state(b).unwrap().subfolded());
    assert!(!comp.node_state(a).unwrap().subfolded());
    assert_eq!(comp.node_state(a).unwrap().num_folded, 0);
}

#[test]
fn folding_depth_bounds_the_fold() {
    let (g, [_, b, c, d], _) =
        chain([Node::new(), node(false, false, true), Node::new(), Node::new()]);
    let s = SettingsInteraction::new().with_folding_depth(1);
    let comp = StateComputed::compute(&g, &s);
    assert_eq!(comp.node_state(b).unwrap().num_folded, 1);
    assert!(comp.node_state(c).unwrap().subfolded());
    assert!(!comp.node_state(d).unwrap().subfolded());
    let s = SettingsInteraction::new().with_folding_depth(0);
    let comp = StateComputed::compute(&g, &s);
    assert_eq!(comp.node_state(b).unwrap().num_folded, 0);
    assert!(!comp.node_state(c).unwrap().subfolded());
}

#[test]
fn fold_in_a_cycle_counts_each_node_once() {
    let mut g = Graph::new(true);
    let a = g.add_node(node(false, false, true));
    let b = g.add_node(Node::new());
    let c = g.add_node(Node::new());
    g.add_edge(a, b, Edge::new()).unwrap();
    g.add_edge(b, c, Edge::new()).unwrap();
    g.add_edge(c, a, Edge::new()).unwrap();
    let comp = StateComputed::compute(&g, &SettingsInteraction::new());
    assert_eq!(comp.node_state(a).unwrap().num_folded, 2);
    assert!(!comp.node_state(a).unwrap().subfolded());
}

#[test]
fn last_dragged_node_wins() {
    let (g, [_, b, _, d], _) =
        chain([Node::new(), node(false, true, false), Node::new(), node(false, true, false)]);
    assert!(b < d);
    let comp = StateComputed::compute(&g, &SettingsInteraction::new());
    assert_eq!(comp.dragged, Some(d));
    let (g, [_, b, _, _], _) =
        chain([Node::new(), node(false, true, false), Node::new(), Node::new()]);
    let comp = StateComputed::compute(&g, &SettingsInteraction::new());
    assert_eq!(comp.dragged, Some(b));
}

#[test]
fn frame_state_is_built_anew() {
    let (mut g, [a, b, ..], _) =
        chain([node(true, false, true), Node::new(), Node::new(), Node::new()]);
    let s = SettingsInteraction::new();
    let first = StateComputed::compute(&g, &s);
    assert!(first.node_state(b).unwrap().selected_child);
    assert!(first.node_state(b).unwrap().subfolded());
    g.set_node(a, Node::new()).unwrap();
    let second = StateComputed::compute(&g, &s);
    assert!(second.selections.is_empty());
    assert!(second.foldings.is_empty());
    assert_eq!(second.node_state(b).unwrap(), StateComputedNode { num_edges: 2, ..StateComputedNode::default() });
}

#[test]
fn compute_for_node_and_edge_fill_in_one_step() {
    let (g, [a, b, ..], [ab, ..]) =
        chain([node(true, true, false), Node::new(), Node::new(), Node::new()]);
    let s = SettingsInteraction::new();
    let mut comp = StateComputed::default();
    comp.compute_for_edge(ab);
    assert_eq!(comp.edge_state(ab), Some(StateComputedEdge::default()));
    comp.compute_for_node(&g, a, &g.node(a).unwrap(), &s);
    assert_eq!(comp.dragged, Some(a));
    assert_eq!(comp.node_state(a).unwrap().num_edges, 1);
    assert!(comp.node_state(b).unwrap().selected_child);
    assert!(comp.edge_state(ab).unwrap().selected_child);
    comp.compute_for_edge(ab);
    assert!(comp.edge_state(ab).unwrap().selected_child);
}

#[test]
fn empty_graph_derives_nothing() {
    let g = Graph::new(true);
    let comp = StateComputed::compute(&g, &SettingsInteraction::new());
    assert!(comp.nodes.is_empty());
    assert!(comp.edges.is_empty());
    assert_eq!(comp.dragged, None);
}
