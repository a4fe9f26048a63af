use vstd::prelude::*;
use crate::subgraphs::SubGraph;

verus! {

/// A change of one node.
#[derive(Debug, Clone, Copy, PartialEq, Eq, Structural)]
pub enum ChangeNode {
    /// The node was clicked.
    Clicked { id: usize },
    /// The node was double clicked.
    DoubleClicked { id: usize },
    /// The node was moved by the pointer.
    Location { id: usize },
    /// The selection flag of the node was set.
    Selected { id: usize, old: bool, new: bool },
    /// The drag flag of the node was set.
    Dragged { id: usize, old: bool, new: bool },
    /// The fold flag of the node was set.
    Folded { id: usize, old: bool, new: bool },
}

impl ChangeNode {
    pub fn clicked(id: usize) -> (c: Self)
        ensures
            c == (ChangeNode::Clicked { id }),
    {
        ChangeNode::Clicked { id }
    }

    pub fn double_clicked(id: usize) -> (c: Self)
        ensures
            c == (ChangeNode::DoubleClicked { id }),
    {
        ChangeNode::DoubleClicked { id }
    }

    pub fn change_location(id: usize) -> (c: Self)
        ensures
            c == (ChangeNode::Location { id }),
    {
        ChangeNode::Location { id }
    }

    pub fn change_selected(id: usize, old: bool, new: bool) -> (c: Self)
        ensures
            c == (ChangeNode::Selected { id, old, new }),
    {
        ChangeNode::Selected { id, old, new }
    }

    pub fn change_dragged(id: usize, old: bool, new: bool) -> (c: Self)
        ensures
            c == (ChangeNode::Dragged { id, old, new }),
    {
        ChangeNode::Dragged { id, old, new }
    }

    pub fn change_folded(id: usize, old: bool, new: bool) -> (c: Self)
        ensures
            c == (ChangeNode::Folded { id, old, new }),
    {
        ChangeNode::Folded { id, old, new }
    }
}

/// A change of one edge.
#[derive(Debug, Clone, Copy, PartialEq, Eq, Structural)]
pub enum ChangeEdge {
    /// The selection flag of the edge was set.
    Selected { id: usize, old: bool, new: bool },
}

impl ChangeEdge {
    pub fn change_selected(id: usize, old: bool, new: bool) -> (c: Self)
        ensures
            c == (ChangeEdge::Selected { id, old, new }),
    {
        ChangeEdge::Selected { id, old, new }
    }
}

/// What a selected or a folded root reaches in this frame.
#[derive(Debug, Clone, PartialEq, Eq)]
pub enum ChangeSubgraph {
    Selected { root: usize, subgraph: SubGraph },
    Folded { root: usize, subgraph: SubGraph },
}

impl ChangeSubgraph {
    pub fn change_selected(root: usize, subgraph: SubGraph) -> (c: Self)
        ensures
            c == (ChangeSubgraph::Selected { root, subgraph }),
    {
        ChangeSubgraph::Selected { root, subgraph }
    }

    pub fn change_folded(root: usize, subgraph: SubGraph) -> (c: Self)
        ensures
            c == (ChangeSubgraph::Folded { root, subgraph }),
    {
        ChangeSubgraph::Folded { root, subgraph }
    }
}

/// One entry of the log of a frame.
#[derive(Debug, Clone, PartialEq, Eq)]
pub enum Change {
    Node(ChangeNode),
    Edge(ChangeEdge),
    SubGraph(ChangeSubgraph),
}

impl Change {
    pub fn node(change: ChangeNode) -> (c: Self)
        ensures
            c == Change::Node(change),
    {
        Change::Node(change)
    }

    pub fn edge(change: ChangeEdge) -> (c: Self)
        ensures
            c == Change::Edge(change),
    {
        Change::Edge(change)
    }
}

} // verus!
