use egui_graphs::State;

#[test]
fn state_starts_empty() {
    let s = State::default();
    assert_eq!(s.dragged_node(), None);
    assert!(s.selected_nodes().is_empty());
    assert!(s.selected_edges().is_empty());
}

#[test]
fn state_keeps_the_last_dragged_node() {
    let mut s = State::default();
    s.set_dragged_node(3);
    assert_eq!(s.dragged_node(), Some(3));
    s.set_dragged_node(5);
    assert_eq!(s.dragged_node(), Some(5));
}

#[test]
fn state_selects_nodes_once() {
    let mut s = State::default();
    s.select_node(2);
    s.select_node(7);
    s.select_node(2);
    assert_eq!(s.selected_nodes().len(), 2);
    assert!(s.selected_nodes().contains(&2));
    assert!(s.selected_nodes().contains(&7));
    assert!(!s.selected_nodes().contains(&3));
}

#[test]
fn state_selects_edges_once_in_order() {
    let mut s = State::default();
    s.select_edge((1, 2, 0));
    s.select_edge((1, 2, 1));
    s.select_edge((1, 2, 0));
    s.select_edge((2, 1, 0));
    assert_eq!(s.selected_edges(), &vec![(1, 2, 0), (1, 2, 1), (2, 1, 0)]);
    assert_eq!(s.dragged_node(), None);
}
