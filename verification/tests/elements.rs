use egui_graphs::{Edge, EdgeID, Node};

#[test]
fn node_starts_without_flags() {
    let n = Node::new();
    assert!(!n.selected());
    assert!(!n.dragged());
    assert!(!n.folded());
}

#[test]
fn node_setters_change_one_flag() {
    let mut n = Node::new();
    n.set_selected(true);
    assert_eq!(n, Node { selected: true, dragged: false, folded: false });
    n.set_dragged(true);
    assert_eq!(n, Node { selected: true, dragged: true, folded: false });
    n.set_folded(true);
    n.set_selected(false);
    assert_eq!(n, Node { selected: false, dragged: true, folded: true });
}

#[test]
fn edge_id_starts_at_order_zero() {
    let id = EdgeID::new(7);
    assert_eq!(id.idx, 7);
    assert_eq!(id.order, 0);
    let id = id.with_order(3);
    assert_eq!(id, EdgeID { idx: 7, order: 3 });
}

#[test]
fn edge_bind_gives_identity_and_order() {
    let mut e = Edge::new();
    assert_eq!(e.id, None);
    assert!(!e.selected());
    e.bind(4, 2);
    assert_eq!(e.id(), EdgeID { idx: 4, order: 2 });
    assert_eq!(e.order(), 2);
    e.set_order(5);
    assert_eq!(e.id(), EdgeID { idx: 4, order: 5 });
    e.set_selected(true);
    assert!(e.selected());
    assert_eq!(e.order(), 5);
}
