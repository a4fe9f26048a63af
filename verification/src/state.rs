use vstd::prelude::*;
use std::collections::HashSet;

verus! {

broadcast use vstd::std_specs::hash::group_hash_axioms;

/// What the pointer holds on to: the dragged node, the selected nodes and
/// the selected edges. An edge is named by its source, its target and its
/// order among its siblings, and is kept once.
pub struct State {
    dragged_node: Option<usize>,
    selected_nodes: HashSet<usize>,
    selected_edges: Vec<(usize, usize, usize)>,
}

impl Default for State {
    fn default() -> (s: Self)
        ensures
            s.dragged() is None,
            s.nodes() == Set::<usize>::empty(),
            s.edges() == Seq::<(usize, usize, usize)>::empty(),
    {
        State { dragged_node: None, selected_nodes: HashSet::new(), selected_edges: Vec::new() }
    }
}

impl State {
    /// The dragged node.
    pub closed spec fn dragged(&self) -> Option<usize> {
        self.dragged_node
    }

    /// The selected nodes.
    pub closed spec fn nodes(&self) -> Set<usize> {
        self.selected_nodes@
    }

    /// The selected edges, in the sequence in which they were selected.
    pub closed spec fn edges(&self) -> Seq<(usize, usize, usize)> {
        self.selected_edges@
    }

    pub fn dragged_node(&self) -> (d: Option<usize>)
        ensures
            d == self.dragged(),
    {
        self.dragged_node
    }

    pub fn set_dragged_node(&mut self, idx: usize)
        ensures
            final(self).dragged() == Some(idx),
            final(self).nodes() == old(self).nodes(),
            final(self).edges() == old(self).edges(),
    {
        self.dragged_node = Some(idx);
    }

    pub fn selected_nodes(&self) -> (s: &HashSet<usize>)
        ensures
            s@ == self.nodes(),
    {
        &self.selected_nodes
    }

    pub fn selected_edges(&self) -> (s: &Vec<(usize, usize, usize)>)
        ensures
            s@ == self.edges(),
    {
        &self.selected_edges
    }

    pub fn select_node(&mut self, idx: usize)
        ensures
            final(self).nodes() == old(self).nodes().insert(idx),
            final(self).dragged() == old(self).dragged(),
            final(self).edges() == old(self).edges(),
    {
        self.selected_nodes.insert(idx);
    }

    /// Selects an edge; an edge that is selected already stays where it is.
    pub fn select_edge(&mut self, idx: (usize, usize, usize))
        ensures
            final(self).edges() == (if old(self).edges().contains(idx) {
                old(self).edges()
            } else {
                old(self).edges().push(idx)
            }),
            old(self).edges().no_duplicates() ==> final(self).edges().no_duplicates(),
            final(self).dragged() == old(self).dragged(),
            final(self).nodes() == old(self).nodes(),
    {
        let mut i: usize = 0;
        while i < self.selected_edges.len()
            invariant
                i <= self.selected_edges.len(),
                self.selected_edges@ == old(self).selected_edges@,
                self.selected_nodes == old(self).selected_nodes,
                self.dragged_node == old(self).dragged_node,
                forall|k: int| 0 <= k < i ==> self.selected_edges@[k] != idx,
            decreases self.selected_edges.len() - i,
        {
            let e = self.selected_edges[i];
            if e.0 == idx.0 && e.1 == idx.1 && e.2 == idx.2 {
                assert(self.selected_edges@[i as int] == idx);
                return ;
            }
            i = i + 1;
        }
        self.selected_edges.push(idx);
    }
}

} // verus!
