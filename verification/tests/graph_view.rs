use egui_graphs::{
    Change, ChangeNode, ChangeSubgraph, Edge, Graph, GraphView, Node, NotFound,
    SettingsInteraction, StateComputed,
};

fn selected(id: usize, old: bool, new: bool) -> Change {
    Change::Node(ChangeNode::Selected { id, old, new })
}

fn folded(id: usize, old: bool, new: bool) -> Change {
    Change::Node(ChangeNode::Folded { id, old, new })
}

fn dragged(id: usize, old: bool, new: bool) -> Change {
    Change::Node(ChangeNode::Dragged { id, old, new })
}

/// a -> b -> c
fn view(s: SettingsInteraction) -> (GraphView, [usize; 3]) {
    let mut g = Graph::new(true);
    let a = g.add_node(Node::new());
    let b = g.add_node(Node::new());
    let c = g.add_node(Node::new());
    g.add_edge(a, b, Edge::new()).unwrap();
    g.add_edge(b, c, Edge::new()).unwrap();
    (GraphView::new(g).with_interactions(&s), [a, b, c])
}

fn click(v: &mut GraphView, node: Option<usize>) -> Result<(), NotFound> {
    let comp = v.compute_computed();
    v.handle_click(true, false, node, &comp)
}

fn double_click(v: &mut GraphView, node: Option<usize>) -> Result<(), NotFound> {
    let comp = v.compute_computed();
    v.handle_click(false, true, node, &comp)
}

#[test]
fn new_view_has_default_settings_and_empty_log() {
    let (v, _) = view(SettingsInteraction::new());
    assert_eq!(v.settings_interaction, SettingsInteraction::new());
    assert!(v.changes.is_empty());
}

#[test]
fn click_selects_then_deselects() {
    let (mut v, [a, ..]) = view(SettingsInteraction::new().with_selection_enabled(true));
    assert_eq!(click(&mut v, Some(a)), Ok(()));
    assert!(v.g.node(a).unwrap().selected());
    assert_eq!(v.take_changes(), vec![selected(a, false, true)]);
    assert_eq!(click(&mut v, Some(a)), Ok(()));
    assert!(!v.g.node(a).unwrap().selected());
    assert_eq!(v.take_changes(), vec![selected(a, true, false)]);
}

#[test]
fn single_selection_deselects_the_other_first() {
    let (mut v, [a, b, _]) = view(SettingsInteraction::new().with_selection_enabled(true));
    click(&mut v, Some(a)).unwrap();
    v.take_changes();
    click(&mut v, Some(b)).unwrap();
    assert_eq!(v.take_changes(), vec![selected(a, true, false), selected(b, false, true)]);
    assert!(!v.g.node(a).unwrap().selected());
    assert!(v.g.node(b).unwrap().selected());
}

#[test]
fn multi_selection_keeps_the_others() {
    let s = SettingsInteraction::new().with_selection_enabled(true).with_selection_multi_enabled(true);
    let (mut v, [a, b, _]) = view(s);
    click(&mut v, Some(a)).unwrap();
    click(&mut v, Some(b)).unwrap();
    assert_eq!(v.take_changes(), vec![selected(a, false, true), selected(b, false, true)]);
    assert!(v.g.node(a).unwrap().selected());
    assert!(v.g.node(b).unwrap().selected());
}

#[test]
fn click_on_empty_space_deselects_all() {
    let s = SettingsInteraction::new().with_selection_enabled(true).with_selection_multi_enabled(true);
    let (mut v, [a, b, c]) = view(s);
    click(&mut v, Some(c)).unwrap();
    click(&mut v, Some(a)).unwrap();
    v.take_changes();
    click(&mut v, None).unwrap();
    assert_eq!(v.take_changes(), vec![selected(a, true, false), selected(c, true, false)]);
    for i in [a, b, c] {
        assert!(!v.g.node(i).unwrap().selected());
    }
    click(&mut v, None).unwrap();
    assert!(v.take_changes().is_empty());
}

#[test]
fn clicks_are_reported_when_asked_for() {
    let s = SettingsInteraction::new().with_clicking_enabled(true);
    let (mut v, [a, ..]) = view(s);
    click(&mut v, Some(a)).unwrap();
    assert_eq!(v.take_changes(), vec![Change::Node(ChangeNode::Clicked { id: a })]);
    assert!(!v.g.node(a).unwrap().selected());
    double_click(&mut v, Some(a)).unwrap();
    assert_eq!(v.take_changes(), vec![Change::Node(ChangeNode::DoubleClicked { id: a })]);
    let s = s.with_selection_enabled(true);
    let (mut v, [a, ..]) = view(s);
    click(&mut v, Some(a)).unwrap();
    assert_eq!(
        v.take_changes(),
        vec![Change::Node(ChangeNode::Clicked { id: a }), selected(a, false, true)]
    );
}

#[test]
fn nothing_happens_with_everything_switched_off() {
    let (mut v, [a, ..]) = view(SettingsInteraction::new());
    click(&mut v, Some(a)).unwrap();
    double_click(&mut v, Some(a)).unwrap();
    click(&mut v, None).unwrap();
    let comp = v.compute_computed();
    assert_eq!(v.handle_node_drag(true, true, true, Some(a), &comp), Ok(None));
    assert!(v.changes.is_empty());
    assert_eq!(v.g.node(a), Some(Node::new()));
}

#[test]
fn no_click_no_change() {
    let s = SettingsInteraction::new().with_selection_enabled(true).with_clicking_enabled(true);
    let (mut v, [a, ..]) = view(s);
    let comp = v.compute_computed();
    assert_eq!(v.handle_click(false, false, Some(a), &comp), Ok(()));
    assert!(v.changes.is_empty());
}

#[test]
fn double_click_folds_then_unfolds_everything() {
    let s = SettingsInteraction::new().with_folding_enabled(true);
    let (mut v, [a, b, c]) = view(s);
    double_click(&mut v, Some(b)).unwrap();
    assert_eq!(v.take_changes(), vec![folded(b, false, true)]);
    assert!(v.g.node(b).unwrap().folded());
    let comp = v.compute_computed();
    assert_eq!(comp.node_state(b).unwrap().num_folded, 1);
    assert!(comp.node_state(c).unwrap().subfolded());
    double_click(&mut v, Some(a)).unwrap();
    assert_eq!(v.take_changes(), vec![folded(b, true, false)]);
    for i in [a, b, c] {
        assert!(!v.g.node(i).unwrap().folded());
    }
}

#[test]
fn double_click_unfolds_every_root() {
    let s = SettingsInteraction::new().with_folding_enabled(true);
    let (mut v, [a, b, c]) = view(s);
    v.set_node_folded(a, true).unwrap();
    v.set_node_folded(c, true).unwrap();
    v.take_changes();
    double_click(&mut v, Some(b)).unwrap();
    assert_eq!(v.take_changes(), vec![folded(a, true, false), folded(c, true, false)]);
    assert!(!v.g.node(b).unwrap().folded());
}

#[test]
fn click_on_a_missing_node_is_not_found() {
    let s = SettingsInteraction::new().with_selection_enabled(true).with_folding_enabled(true);
    let (mut v, _) = view(s);
    assert_eq!(click(&mut v, Some(500)), Err(NotFound::Node(500)));
    assert_eq!(double_click(&mut v, Some(500)), Err(NotFound::Node(500)));
    assert!(v.changes.is_empty());
}

#[test]
fn stale_frame_state_is_not_found_and_changes_nothing() {
    let s = SettingsInteraction::new().with_selection_enabled(true).with_clicking_enabled(true);
    let mut other = Graph::new(true);
    for _ in 0..6 {
        other.add_node(Node::new());
    }
    let far = other.add_node(Node { selected: true, dragged: true, folded: true });
    let stale = StateComputed::compute(&other, &s.with_folding_enabled(true));
    let (mut v, [a, ..]) = view(s.with_folding_enabled(true).with_dragging_enabled(true));
    assert_eq!(v.handle_click(true, false, Some(a), &stale), Err(NotFound::Node(far)));
    assert_eq!(v.handle_click(true, false, None, &stale), Err(NotFound::Node(far)));
    assert_eq!(v.handle_click(false, true, Some(a), &stale), Err(NotFound::Node(far)));
    assert_eq!(v.handle_node_drag(false, true, false, None, &stale), Err(NotFound::Node(far)));
    assert!(v.changes.is_empty());
    assert_eq!(v.g.node(a), Some(Node::new()));
}

#[test]
fn setters_log_old_and_new() {
    let (mut v, [a, ..]) = view(SettingsInteraction::new());
    assert_eq!(v.set_node_selected(a, true), Ok(()));
    assert_eq!(v.set_node_selected(a, true), Ok(()));
    assert_eq!(v.set_node_folded(a, true), Ok(()));
    assert_eq!(v.set_dragged(a, true), Ok(()));
    assert_eq!(v.move_node(a), Ok(()));
    assert_eq!(
        v.take_changes(),
        vec![
            selected(a, false, true),
            selected(a, true, true),
            folded(a, false, true),
            dragged(a, false, true),
            Change::Node(ChangeNode::Location { id: a }),
        ]
    );
    assert_eq!(v.g.node(a), Some(Node { selected: true, dragged: true, folded: true }));
    assert_eq!(v.set_node_selected(99, true), Err(NotFound::Node(99)));
    assert_eq!(v.set_node_folded(99, true), Err(NotFound::Node(99)));
    assert_eq!(v.set_dragged(99, true), Err(NotFound::Node(99)));
    assert_eq!(v.move_node(99), Err(NotFound::Node(99)));
    assert!(v.changes.is_empty());
}

#[test]
fn drag_picks_moves_and_drops() {
    let s = SettingsInteraction::new().with_dragging_enabled(true);
    let (mut v, [a, b, _]) = view(s);
    let comp = v.compute_computed();
    assert_eq!(v.handle_node_drag(true, true, false, Some(b), &comp), Ok(None));
    assert_eq!(v.take_changes(), vec![dragged(b, false, true)]);
    assert!(v.g.node(b).unwrap().dragged());
    let comp = v.compute_computed();
    assert_eq!(comp.dragged, Some(b));
    assert_eq!(v.handle_node_drag(false, true, false, Some(a), &comp), Ok(Some(b)));
    assert_eq!(v.take_changes(), vec![Change::Node(ChangeNode::Location { id: b })]);
    let comp = v.compute_computed();
    assert_eq!(v.handle_node_drag(false, true, true, None, &comp), Ok(Some(b)));
    assert_eq!(
        v.take_changes(),
        vec![Change::Node(ChangeNode::Location { id: b }), dragged(b, true, false)]
    );
    assert!(!v.g.node(b).unwrap().dragged());
    let comp = v.compute_computed();
    assert_eq!(comp.dragged, None);
    assert_eq!(v.handle_node_drag(false, true, true, None, &comp), Ok(None));
    assert!(v.changes.is_empty());
}

#[test]
fn drag_on_empty_space_picks_nothing() {
    let s = SettingsInteraction::new().with_dragging_enabled(true);
    let (mut v, _) = view(s);
    let comp = v.compute_computed();
    assert_eq!(v.handle_node_drag(true, true, false, None, &comp), Ok(None));
    assert!(v.changes.is_empty());
    assert_eq!(v.handle_node_drag(true, false, false, Some(321), &comp), Err(NotFound::Node(321)));
}

#[test]
fn subgraph_changes_come_last_selection_before_folding() {
    let s = SettingsInteraction::new().with_selection_enabled(true).with_folding_enabled(true);
    let (mut v, [a, b, c]) = view(s);
    v.set_node_folded(b, true).unwrap();
    v.take_changes();
    click(&mut v, Some(a)).unwrap();
    let comp = v.compute_computed();
    v.send_comp_changes(&comp);
    let log = v.take_changes();
    assert_eq!(log.len(), 3);
    assert_eq!(log[0], selected(a, false, true));
    match &log[1] {
        Change::SubGraph(ChangeSubgraph::Selected { root, subgraph }) => {
            assert_eq!(*root, a);
            assert_eq!(subgraph.root, a);
            let mut nodes = subgraph.nodes.clone();
            nodes.sort();
            assert_eq!(nodes, vec![a, b]);
            assert_eq!(subgraph.edges.len(), 1);
        }
        other => panic!("selection entry expected, found {:?}", other),
    }
    match &log[2] {
        Change::SubGraph(ChangeSubgraph::Folded { root, subgraph }) => {
            assert_eq!(*root, b);
            let mut nodes = subgraph.nodes.clone();
            nodes.sort();
            assert_eq!(nodes, vec![b, c]);
        }
        other => panic!("folding entry expected, found {:?}", other),
    }
    let comp = StateComputed::default();
    v.send_comp_changes(&comp);
    assert!(v.changes.is_empty());
}

#[test]
fn deselect_all_clears_every_selected_root() {
    let (mut v, [a, _, c]) = view(SettingsInteraction::new());
    v.set_node_selected(a, true).unwrap();
    v.set_node_selected(c, true).unwrap();
    v.take_changes();
    let comp = v.compute_computed();
    assert_eq!(v.deselect_all(&comp), Ok(()));
    assert_eq!(v.take_changes(), vec![selected(a, true, false), selected(c, true, false)]);
}

#[test]
fn frame_handles_drag_then_click_then_reports_subgraphs() {
    let s = SettingsInteraction::new()
        .with_dragging_enabled(true)
        .with_selection_enabled(true)
        .with_clicking_enabled(true);
    let (mut v, [a, b, _]) = view(s);
    v.set_node_selected(a, true).unwrap();
    v.set_dragged(a, true).unwrap();
    v.take_changes();
    let comp = v.compute_computed();
    let pointer = egui_graphs::Pointer {
        clicked: true,
        double_clicked: false,
        drag_started: false,
        dragged: true,
        drag_released: true,
        hovered: Some(b),
    };
    let handled = v.handle_pointer(&pointer, &comp);
    assert_eq!(handled.drag, Ok(Some(a)));
    assert_eq!(handled.click, Ok(()));
    let log = v.take_changes();
    assert_eq!(log.len(), 6);
    assert_eq!(
        log[..5].to_vec(),
        vec![
            Change::Node(ChangeNode::Location { id: a }),
            dragged(a, true, false),
            Change::Node(ChangeNode::Clicked { id: b }),
            selected(a, true, false),
            selected(b, false, true),
        ]
    );
    assert!(matches!(&log[5], Change::SubGraph(ChangeSubgraph::Selected { root, .. }) if *root == a));
    assert_eq!(v.g.node(a), Some(Node { selected: false, dragged: false, folded: false }));
    assert_eq!(v.g.node(b), Some(Node { selected: true, dragged: false, folded: false }));
}

#[test]
fn frame_goes_on_after_a_handler_missed_a_node() {
    let s = SettingsInteraction::new().with_dragging_enabled(true).with_selection_enabled(true);
    let (mut v, [a, ..]) = view(s);
    let comp = v.compute_computed();
    let pointer = egui_graphs::Pointer {
        clicked: false,
        double_clicked: false,
        drag_started: true,
        dragged: false,
        drag_released: false,
        hovered: Some(900),
    };
    let handled = v.handle_pointer(&pointer, &comp);
    assert_eq!(handled.drag, Err(NotFound::Node(900)));
    assert_eq!(handled.click, Ok(()));
    assert!(v.changes.is_empty());
    let pointer = egui_graphs::Pointer { clicked: true, drag_started: false, hovered: Some(a), ..pointer };
    let handled = v.handle_pointer(&pointer, &comp);
    assert_eq!(handled.drag, Ok(None));
    assert_eq!(handled.click, Ok(()));
    assert_eq!(v.take_changes(), vec![selected(a, false, true)]);
}

#[test]
fn drag_does_not_pick_while_a_node_is_held() {
    let s = SettingsInteraction::new().with_dragging_enabled(true);
    let (mut v, [a, b, _]) = view(s);
    v.set_dragged(a, true).unwrap();
    v.take_changes();
    let comp = v.compute_computed();
    assert_eq!(v.handle_node_drag(true, false, false, Some(b), &comp), Ok(None));
    assert!(v.changes.is_empty());
    assert!(!v.g.node(b).unwrap().dragged());
}

#[test]
fn edge_selection_is_logged() {
    let (mut v, _) = view(SettingsInteraction::new());
    let (e, _) = v.g.edges_iter()[0];
    assert_eq!(v.set_edge_selected(e, true), Ok(()));
    assert!(v.g.edge(e).unwrap().selected());
    assert_eq!(v.set_edge_selected(e, false), Ok(()));
    assert_eq!(
        v.take_changes(),
        vec![
            Change::Edge(egui_graphs::ChangeEdge::Selected { id: e, old: false, new: true }),
            Change::Edge(egui_graphs::ChangeEdge::Selected { id: e, old: true, new: false }),
        ]
    );
    assert_eq!(v.set_edge_selected(e + 50, true), Err(NotFound::Edge(e + 50)));
    assert!(v.changes.is_empty());
}
