use vstd::prelude::*;

verus! {

/// The interaction state of one node: what the view may change about it.
#[derive(Debug, Clone, Copy, PartialEq, Eq, Structural)]
pub struct Node {
    pub selected: bool,
    pub dragged: bool,
    pub folded: bool,
}

impl Node {
    /// A node that is neither selected, dragged nor folded.
    pub fn new() -> (n: Self)
        ensures
            n == (Node { selected: false, dragged: false, folded: false }),
    {
        Node { selected: false, dragged: false, folded: false }
    }

    pub fn selected(&self) -> (b: bool)
        ensures
            b == self.selected,
    {
        self.selected
    }

    pub fn set_selected(&mut self, selected: bool)
        ensures
            *final(self) == (Node { selected, ..*old(self) }),
    {
        self.selected = selected;
    }

    pub fn dragged(&self) -> (b: bool)
        ensures
            b == self.dragged,
    {
        self.dragged
    }

    pub fn set_dragged(&mut self, dragged: bool)
        ensures
            *final(self) == (Node { dragged, ..*old(self) }),
    {
        self.dragged = dragged;
    }

    pub fn folded(&self) -> (b: bool)
        ensures
            b == self.folded,
    {
        self.folded
    }

    pub fn set_folded(&mut self, folded: bool)
        ensures
            *final(self) == (Node { folded, ..*old(self) }),
    {
        self.folded = folded;
    }
}

/// Identifies an edge by its index in the graph and by its rank among the
/// edges that share its source and its target.
#[derive(Debug, Clone, Copy, PartialEq, Eq, Structural)]
pub struct EdgeID {
    pub idx: usize,
    /// Rank of the edge among its siblings, counted from zero.
    pub order: usize,
}

impl EdgeID {
    pub fn new(idx: usize) -> (id: Self)
        ensures
            id == (EdgeID { idx, order: 0 }),
    {
        EdgeID { idx, order: 0 }
    }

    pub fn with_order(self, order: usize) -> (id: Self)
        ensures
            id == (EdgeID { idx: self.idx, order }),
    {
        EdgeID { idx: self.idx, order }
    }
}

/// The interaction state of one edge. An edge is unbound until the graph
/// that takes it in gives it its identity.
#[derive(Debug, Clone, Copy, PartialEq, Eq, Structural)]
pub struct Edge {
    pub id: Option<EdgeID>,
    pub selected: bool,
}

impl Edge {
    /// An unbound edge that is not selected.
    pub fn new() -> (e: Self)
        ensures
            e == (Edge { id: None, selected: false }),
    {
        Edge { id: None, selected: false }
    }

    /// Binds the edge to its index in the graph and to its rank among its
    /// siblings.
    pub fn bind(&mut self, idx: usize, order: usize)
        ensures
            *final(self) == (Edge { id: Some(EdgeID { idx, order }), ..*old(self) }),
    {
        let id = EdgeID::new(idx).with_order(order);
        self.id = Some(id);
    }

    pub fn id(&self) -> (id: EdgeID)
        requires
            self.id is Some,
        ensures
            Some(id) == self.id,
    {
        self.id.unwrap()
    }

    pub fn order(&self) -> (order: usize)
        requires
            self.id is Some,
        ensures
            order == self.id->0.order,
    {
        self.id.unwrap().order
    }

    pub fn set_order(&mut self, order: usize)
        requires
            old(self).id is Some,
        ensures
            *final(self) == (Edge {
                id: Some(EdgeID { idx: old(self).id->0.idx, order }),
                ..*old(self)
            }),
    {
        let id = self.id.unwrap();
        self.id = Some(id.with_order(order));
    }

    pub fn set_selected(&mut self, selected: bool)
        ensures
            *final(self) == (Edge { selected, ..*old(self) }),
    {
        self.selected = selected;
    }

    pub fn selected(&self) -> (b: bool)
        ensures
            b == self.selected,
    {
        self.selected
    }
}

} // verus!
