use vstd::prelude::*;
use std::collections::HashSet;
use crate::graph::{Direction, Graph};
use crate::unique::lemma_push_unique;

verus! {

broadcast use vstd::std_specs::hash::group_hash_axioms;

/// The direction of a signed depth: a negative depth walks against the
/// edges.
pub open spec fn span_dir(depth: i32) -> Direction {
    if depth < 0 {
        Direction::Incoming
    } else {
        Direction::Outgoing
    }
}

/// The number of steps of a signed depth.
pub open spec fn span_steps(depth: i32) -> nat {
    if depth < 0 {
        (-depth) as nat
    } else {
        depth as nat
    }
}

impl Graph {
    /// The nodes within the signed `depth` of `root`, the root among them.
    pub open spec fn span_nodes(&self, root: usize, depth: i32) -> Set<usize> {
        self.reach(root, span_dir(depth), span_steps(depth))
    }

    /// The edges that a walk of the signed `depth` from `root` can take.
    pub open spec fn span_edges(&self, root: usize, depth: i32) -> Set<usize> {
        self.reach_edges(root, span_dir(depth), span_steps(depth))
    }
}

/// The part of a graph that was reached from one root.
#[derive(Debug, Clone, PartialEq, Eq)]
pub struct SubGraph {
    pub root: usize,
    pub nodes: Vec<usize>,
    pub edges: Vec<usize>,
}

impl SubGraph {
    pub open spec fn node_set(&self) -> Set<usize> {
        self.nodes@.to_set()
    }

    pub open spec fn edge_set(&self) -> Set<usize> {
        self.edges@.to_set()
    }

    /// True when the record holds, each once, what the walk of the signed
    /// `depth` from its root reaches in `g`.
    pub open spec fn spans(&self, g: &Graph, depth: i32) -> bool {
        &&& self.nodes@.len() > 0
        &&& self.nodes@[0] == self.root
        &&& self.nodes@.no_duplicates()
        &&& self.edges@.no_duplicates()
        &&& self.node_set() == g.span_nodes(self.root, depth)
        &&& self.edge_set() == g.span_edges(self.root, depth)
    }

    /// Walks `g` from `root` to the signed `depth`.
    pub fn collect(g: &Graph, root: usize, depth: i32) -> (s: Self)
        ensures
            s.root == root,
            s.spans(g, depth),
    {
        let steps: usize = if depth >= 0 {
            depth as usize
        } else if depth == i32::MIN {
            2147483648usize
        } else {
            (-depth) as usize
        };
        let dir = if depth < 0 {
            Direction::Incoming
        } else {
            Direction::Outgoing
        };
        let (nodes, edges) = g.walk(root, dir, steps);
        SubGraph { root, nodes, edges }
    }
}

/// Appends to `into` what `from` holds and `into` lacks.
fn merge(into: &mut Vec<usize>, seen: &mut HashSet<usize>, from: &Vec<usize>)
    requires
        old(into)@.no_duplicates(),
        old(seen)@ == old(into)@.to_set(),
    ensures
        final(into)@.no_duplicates(),
        final(seen)@ == final(into)@.to_set(),
        final(into)@.to_set() == old(into)@.to_set().union(from@.to_set()),
{
    let mut k: usize = 0;
    proof {
        assert(from@.take(0).to_set() =~= Set::<usize>::empty());
        assert(into@.to_set() =~= old(into)@.to_set().union(from@.take(0).to_set()));
    }
    while k < from.len()
        invariant
            k <= from.len(),
            into@.no_duplicates(),
            seen@ == into@.to_set(),
            into@.to_set() == old(into)@.to_set().union(from@.take(k as int).to_set()),
        decreases from.len() - k,
    {
        let x = from[k];
        proof {
            assert(from@.take(k + 1) =~= from@.take(k as int).push(x));
            from@.take(k as int).lemma_push_to_set_commute(x);
        }
        let ghost before = into@.to_set();
        if seen.insert(x) {
            proof {
                lemma_push_unique(into@, x);
            }
            into.push(x);
        }
        proof {
            assert(into@.to_set() =~= before.insert(x));
            assert(into@.to_set() =~= old(into)@.to_set().union(from@.take(k + 1).to_set()));
        }
        k = k + 1;
    }
    proof {
        assert(from@.take(from@.len() as int) =~= from@);
    }
}

/// The subgraphs of the roots that are selected, or of those that are
/// folded: one record for each root.
#[derive(Debug, Clone)]
pub struct SubGraphs {
    pub data: Vec<SubGraph>,
}

impl SubGraphs {
    /// True when a record is kept for `root`.
    pub open spec fn has_root(&self, root: usize) -> bool {
        exists|i: int| 0 <= i < self.data@.len() && (#[trigger] self.data@[i]).root == root
    }

    /// True when no two records share a root.
    pub open spec fn wf(&self) -> bool {
        forall|i: int, j: int|
            0 <= i < j < self.data@.len() ==> (#[trigger] self.data@[i]).root != (
            #[trigger] self.data@[j]).root
    }

    /// The nodes of all records together.
    pub open spec fn all_nodes(&self) -> Set<usize> {
        Set::new(
            |v: usize|
                exists|i: int|
                    0 <= i < self.data@.len() && (#[trigger] self.data@[i]).node_set().contains(v),
        )
    }

    /// The edges of all records together.
    pub open spec fn all_edges(&self) -> Set<usize> {
        Set::new(
            |e: usize|
                exists|i: int|
                    0 <= i < self.data@.len() && (#[trigger] self.data@[i]).edge_set().contains(e),
        )
    }

    /// True when `self` is `before` with a fresh record for `root`: in
    /// place of the earlier record of `root`, or at the end.
    pub open spec fn added(&self, before: &SubGraphs, g: &Graph, root: usize, depth: i32) -> bool {
        &&& self.has_root(root)
        &&& before.has_root(root) ==> self.data@.len() == before.data@.len()
        &&& !before.has_root(root) ==> self.data@.len() == before.data@.len() + 1
            && self.data@[before.data@.len() as int].root == root
        &&& forall|i: int|
            0 <= i < before.data@.len() && before.data@[i].root != root ==> (
            #[trigger] self.data@[i]) == before.data@[i]
        &&& forall|i: int|
            0 <= i < before.data@.len() ==> (#[trigger] self.data@[i]).root == before.data@[i].root
        &&& forall|i: int|
            0 <= i < self.data@.len() && (#[trigger] self.data@[i]).root == root
                ==> self.data@[i].spans(g, depth)
    }

    /// True when the records are those of the roots in `roots`, by
    /// ascending root, each holding what the walk of the signed `depth`
    /// from its root reaches in `g`.
    pub open spec fn holds(&self, g: &Graph, roots: Set<usize>, depth: i32) -> bool {
        &&& forall|i: int, j: int|
            0 <= i < j < self.data@.len() ==> (#[trigger] self.data@[i]).root < (
            #[trigger] self.data@[j]).root
        &&& forall|i: int|
            0 <= i < self.data@.len() ==> roots.contains((#[trigger] self.data@[i]).root)
                && self.data@[i].spans(g, depth)
        &&& forall|r: usize| roots.contains(r) ==> self.has_root(r)
    }

    pub fn new() -> (s: Self)
        ensures
            s.data@.len() == 0,
            s.wf(),
    {
        SubGraphs { data: Vec::new() }
    }

    fn position(&self, root: usize) -> (p: Option<usize>)
        ensures
            p is Some ==> p->0 < self.data@.len() && self.data@[p->0 as int].root == root,
            p is None ==> !self.has_root(root),
    {
        let mut i: usize = 0;
        while i < self.data.len()
            invariant
                i <= self.data.len(),
                forall|k: int| 0 <= k < i ==> (#[trigger] self.data@[k]).root != root,
            decreases self.data.len() - i,
        {
            if self.data[i].root == root {
                return Some(i);
            }
            i = i + 1;
        }
        None
    }

    /// Walks `g` from `root` to the signed `depth` and keeps what it finds
    /// as the record of `root`, in place of an earlier record of that root.
    pub fn add_subgraph(&mut self, g: &Graph, root: usize, depth: i32)
        requires
            old(self).wf(),
        ensures
            final(self).wf(),
            final(self).added(old(self), g, root, depth),
    {
        let record = SubGraph::collect(g, root, depth);
        match self.position(root) {
            Some(p) => {
                self.data.set(p, record);
                assert(self.data@[p as int].root == root);
            },
            None => {
                self.data.push(record);
                assert(self.data@[self.data@.len() - 1].root == root);
            },
        }
    }

    /// The nodes and edges of the record of `root`, if there is one.
    pub fn elements_by_root(&self, root: usize) -> (r: Option<(Vec<usize>, Vec<usize>)>)
        ensures
            match r {
                Some((nodes, edges)) => exists|i: int|
                    0 <= i < self.data@.len() && (#[trigger] self.data@[i]).root == root && nodes@
                        == self.data@[i].nodes@ && edges@ == self.data@[i].edges@,
                None => !self.has_root(root),
            },
    {
        match self.position(root) {
            Some(p) => {
                let nodes = self.data[p].nodes.clone();
                let edges = self.data[p].edges.clone();
                assert(nodes@ =~= self.data@[p as int].nodes@);
                assert(edges@ =~= self.data@[p as int].edges@);
                Some((nodes, edges))
            },
            None => None,
        }
    }

    /// The nodes of the first `n` records together.
    pub open spec fn nodes_upto(&self, n: int) -> Set<usize> {
        Set::new(
            |v: usize|
                exists|i: int| 0 <= i < n && (#[trigger] self.data@[i]).node_set().contains(v),
        )
    }

    /// The edges of the first `n` records together.
    pub open spec fn edges_upto(&self, n: int) -> Set<usize> {
        Set::new(
            |e: usize|
                exists|i: int| 0 <= i < n && (#[trigger] self.data@[i]).edge_set().contains(e),
        )
    }

    /// The nodes and the edges of all records together, each once.
    pub fn elements(&self) -> (r: (Vec<usize>, Vec<usize>))
        ensures
            r.0@.no_duplicates(),
            r.0@.to_set() == self.all_nodes(),
            r.1@.no_duplicates(),
            r.1@.to_set() == self.all_edges(),
    {
        let mut nodes: Vec<usize> = Vec::new();
        let mut edges: Vec<usize> = Vec::new();
        let mut seen_nodes: HashSet<usize> = HashSet::new();
        let mut seen_edges: HashSet<usize> = HashSet::new();
        let mut i: usize = 0;
        proof {
            assert(nodes@.to_set() =~= self.nodes_upto(0));
            assert(edges@.to_set() =~= self.edges_upto(0));
        }
        while i < self.data.len()
            invariant
                i <= self.data.len(),
                nodes@.no_duplicates(),
                edges@.no_duplicates(),
                seen_nodes@ == nodes@.to_set(),
                seen_edges@ == edges@.to_set(),
                nodes@.to_set() == self.nodes_upto(i as int),
                edges@.to_set() == self.edges_upto(i as int),
            decreases self.data.len() - i,
        {
            let ghost n0 = nodes@.to_set();
            let ghost e0 = edges@.to_set();
            merge(&mut nodes, &mut seen_nodes, &self.data[i].nodes);
            merge(&mut edges, &mut seen_edges, &self.data[i].edges);
            proof {
                let rec = self.data@[i as int];
                assert forall|v: usize|
                    self.nodes_upto(i + 1).contains(v) <==> n0.union(rec.node_set()).contains(
                        v,
                    ) by {
                    if self.nodes_upto(i + 1).contains(v) {
                        let k = choose|k: int|
                            0 <= k < i + 1 && (#[trigger] self.data@[k]).node_set().contains(v);
                        if k < i {
                            assert(self.nodes_upto(i as int).contains(v));
                        }
                    }
                    if n0.contains(v) {
                        let k = choose|k: int|
                            0 <= k < i && (#[trigger] self.data@[k]).node_set().contains(v);
                        assert(0 <= k < i + 1 && self.data@[k].node_set().contains(v));
                    }
                }
                assert(nodes@.to_set() =~= self.nodes_upto(i + 1));
                assert forall|e: usize|
                    self.edges_upto(i + 1).contains(e) <==> e0.union(rec.edge_set()).contains(
                        e,
                    ) by {
                    if self.edges_upto(i + 1).contains(e) {
                        let k = choose|k: int|
                            0 <= k < i + 1 && (#[trigger] self.data@[k]).edge_set().contains(e);
                        if k < i {
                            assert(self.edges_upto(i as int).contains(e));
                        }
                    }
                    if e0.contains(e) {
                        let k = choose|k: int|
                            0 <= k < i && (#[trigger] self.data@[k]).edge_set().contains(e);
                        assert(0 <= k < i + 1 && self.data@[k].edge_set().contains(e));
                    }
                }
                assert(edges@.to_set() =~= self.edges_upto(i + 1));
            }
            i = i + 1;
        }
        proof {
            assert(self.nodes_upto(self.data@.len() as int) =~= self.all_nodes());
            assert(self.edges_upto(self.data@.len() as int) =~= self.all_edges());
        }
        (nodes, edges)
    }

    pub fn is_empty(&self) -> (b: bool)
        ensures
            b == (self.data@.len() == 0),
    {
        self.data.len() == 0
    }

    /// The roots of the records, in the sequence of the records.
    pub fn roots(&self) -> (v: Vec<usize>)
        ensures
            v@.len() == self.data@.len(),
            forall|i: int| 0 <= i < v@.len() ==> v@[i] == (#[trigger] self.data@[i]).root,
    {
        let mut v: Vec<usize> = Vec::new();
        let mut i: usize = 0;
        while i < self.data.len()
            invariant
                i <= self.data.len(),
                v@.len() == i,
                forall|k: int| 0 <= k < i ==> v@[k] == (#[trigger] self.data@[k]).root,
            decreases self.data.len() - i,
        {
            v.push(self.data[i].root);
            i = i + 1;
        }
        v
    }
}

} // verus!
