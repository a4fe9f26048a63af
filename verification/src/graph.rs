use vstd::prelude::*;
use crate::elements::{Edge, EdgeID, Node};
use crate::unique::{lemma_push_unique, lemma_unique_len};
use crate::storage::{
    apart_from, far_end, graph_edges, graph_nodes, listed_in_order, lists_incident, near_end,
    storage_add_edge, storage_add_node, storage_edge, storage_edge_endpoints, storage_edges,
    storage_edges_directed, storage_new, storage_node, storage_nodes, storage_remove_edge,
    storage_remove_node, storage_set_edge, storage_set_node, Incidence, Storage,
};

verus! {

/// An identity that the graph does not hold.
#[derive(Debug, Clone, Copy, PartialEq, Eq, Structural)]
pub enum NotFound {
    Node(usize),
    Edge(usize),
}

/// An edge as seen from one of its ends.
#[derive(Debug, Clone, Copy, PartialEq, Eq, Structural)]
pub struct EdgeRef {
    pub id: usize,
    pub source: usize,
    pub target: usize,
}

/// The way in which edges are followed away from a node.
#[derive(Debug, Clone, Copy, PartialEq, Eq, Structural)]
pub enum Direction {
    /// Along the edges, from source to target.
    Outgoing,
    /// Against the edges, from target to source.
    Incoming,
    /// Either way.
    Both,
}

/// The end by which `dir` looks edges up first.
pub open spec fn incidence(dir: Direction) -> Incidence {
    match dir {
        Direction::Incoming => Incidence::Incoming,
        _ => Incidence::Outgoing,
    }
}

/// True when `dir` follows edges from either end.
pub open spec fn two_way(dir: Direction) -> bool {
    dir == Direction::Both
}

/// The edge indices of a list of edges.
pub open spec fn ids(v: Seq<EdgeRef>) -> Seq<usize> {
    v.map_values(|r: EdgeRef| r.id)
}

/// A multigraph of nodes and edges that carry their interaction state.
///
/// Nodes and edges are addressed by stable indices. Parallel edges are
/// ranked: the edges that share a source and a target carry the orders
/// `0, 1, ..` in the sequence in which they were added.
pub struct Graph {
    g: Storage,
    directed: bool,
}

/// The rank that the edge `e` of `m` carries.
pub open spec fn rank(m: Map<usize, (usize, usize, Edge)>, e: usize) -> usize {
    m[e].2.id->0.order
}

/// The edges of `m` that lead from `a` to `b`.
pub open spec fn parallel(m: Map<usize, (usize, usize, Edge)>, a: usize, b: usize) -> Set<usize> {
    Set::new(|e: usize| m.dom().contains(e) && m[e].0 == a && m[e].1 == b)
}

/// True when every edge of `m` is bound to its own index and the edges that
/// share source and target carry distinct ranks below their number.
pub open spec fn ranked(m: Map<usize, (usize, usize, Edge)>) -> bool {
    &&& m.dom().finite()
    &&& forall|e: usize| #[trigger]
        m.dom().contains(e) ==> m[e].2.id is Some && m[e].2.id->0.idx == e
    &&& forall|e: usize| #[trigger]
        m.dom().contains(e) ==> rank(m, e) < parallel(m, m[e].0, m[e].1).len()
    &&& forall|e1: usize, e2: usize|
        #![trigger m.dom().contains(e1), m.dom().contains(e2)]
        m.dom().contains(e1) && m.dom().contains(e2) && e1 != e2 && m[e1].0 == m[e2].0 && m[e1].1
            == m[e2].1 ==> rank(m, e1) != rank(m, e2)
}

/// Sibling sets are finite in a graph with finitely many edges.
pub proof fn lemma_parallel_finite(m: Map<usize, (usize, usize, Edge)>, a: usize, b: usize)
    requires
        m.dom().finite(),
    ensures
        parallel(m, a, b).finite(),
        parallel(m, a, b).len() <= m.dom().len(),
{
    vstd::set_lib::lemma_len_subset(parallel(m, a, b), m.dom());
}

/// A new edge from `a` to `b` that takes the number of its siblings as its
/// rank keeps the ranks in order.
pub proof fn lemma_ranked_insert(
    m: Map<usize, (usize, usize, Edge)>,
    idx: usize,
    a: usize,
    b: usize,
    e: Edge,
)
    requires
        ranked(m),
        !m.dom().contains(idx),
        e.id == Some(EdgeID { idx, order: parallel(m, a, b).len() as usize }),
        parallel(m, a, b).len() <= usize::MAX,
    ensures
        ranked(m.insert(idx, (a, b, e))),
        parallel(m.insert(idx, (a, b, e)), a, b) == parallel(m, a, b).insert(idx),
{
    let m2 = m.insert(idx, (a, b, e));
    lemma_parallel_finite(m, a, b);
    assert(parallel(m2, a, b) =~= parallel(m, a, b).insert(idx));
    assert forall|x: usize| #[trigger] m2.dom().contains(x) implies rank(m2, x) < parallel(
        m2,
        m2[x].0,
        m2[x].1,
    ).len() by {
        if x == idx {
        } else {
            assert(m.dom().contains(x));
            if m[x].0 == a && m[x].1 == b {
            } else {
                assert(parallel(m2, m2[x].0, m2[x].1) =~= parallel(m, m[x].0, m[x].1));
            }
        }
    }
    assert forall|e1: usize, e2: usize|
        #![trigger m2.dom().contains(e1), m2.dom().contains(e2)]
        m2.dom().contains(e1) && m2.dom().contains(e2) && e1 != e2 && m2[e1].0 == m2[e2].0
            && m2[e1].1 == m2[e2].1 implies rank(m2, e1) != rank(m2, e2) by {
        if e1 == idx {
            assert(m.dom().contains(e2));
        } else if e2 == idx {
            assert(m.dom().contains(e1));
        } else {
            assert(m.dom().contains(e1) && m.dom().contains(e2));
        }
    }
}

/// Replacing the state of an edge without touching its identity keeps the
/// ranks in order.
pub proof fn lemma_ranked_update(m: Map<usize, (usize, usize, Edge)>, idx: usize, e: Edge)
    requires
        ranked(m),
        m.dom().contains(idx),
        e.id == m[idx].2.id,
    ensures
        ranked(m.insert(idx, (m[idx].0, m[idx].1, e))),
        forall|a: usize, b: usize|
            parallel(m.insert(idx, (m[idx].0, m[idx].1, e)), a, b) == parallel(m, a, b),
{
    let m2 = m.insert(idx, (m[idx].0, m[idx].1, e));
    assert(m2.dom() =~= m.dom());
    assert forall|a: usize, b: usize| parallel(m2, a, b) == parallel(m, a, b) by {
        assert(parallel(m2, a, b) =~= parallel(m, a, b));
    }
    assert forall|x: usize| #[trigger] m2.dom().contains(x) implies rank(m2, x) < parallel(
        m2,
        m2[x].0,
        m2[x].1,
    ).len() by {
        assert(m.dom().contains(x));
        assert(parallel(m2, m2[x].0, m2[x].1) == parallel(m, m[x].0, m[x].1));
    }
    assert forall|e1: usize, e2: usize|
        #![trigger m2.dom().contains(e1), m2.dom().contains(e2)]
        m2.dom().contains(e1) && m2.dom().contains(e2) && e1 != e2 && m2[e1].0 == m2[e2].0
            && m2[e1].1 == m2[e2].1 implies rank(m2, e1) != rank(m2, e2) by {
        assert(m.dom().contains(e1) && m.dom().contains(e2));
    }
}

/// Taking a node out with the edges that touch it keeps the ranks in order:
/// siblings leave together.
pub proof fn lemma_ranked_apart(m: Map<usize, (usize, usize, Edge)>, a: usize)
    requires
        ranked(m),
    ensures
        ranked(apart_from(m, a)),
{
    let m2 = apart_from(m, a);
    assert(m2.dom().subset_of(m.dom()));
    vstd::set_lib::lemma_len_subset(m2.dom(), m.dom());
    assert forall|x: usize| #[trigger] m2.dom().contains(x) implies rank(m2, x) < parallel(
        m2,
        m2[x].0,
        m2[x].1,
    ).len() by {
        assert(m.dom().contains(x));
        assert(parallel(m2, m2[x].0, m2[x].1) =~= parallel(m, m[x].0, m[x].1));
    }
    assert forall|e1: usize, e2: usize|
        #![trigger m2.dom().contains(e1), m2.dom().contains(e2)]
        m2.dom().contains(e1) && m2.dom().contains(e2) && e1 != e2 && m2[e1].0 == m2[e2].0
            && m2[e1].1 == m2[e2].1 implies rank(m2, e1) != rank(m2, e2) by {
        assert(m.dom().contains(e1) && m.dom().contains(e2));
    }
}

/// True when edge `e` of `m` is a sibling of edge `idx` with a greater rank.
pub open spec fn ranked_above(m: Map<usize, (usize, usize, Edge)>, idx: usize, e: usize) -> bool {
    m[e].0 == m[idx].0 && m[e].1 == m[idx].1 && rank(m, e) > rank(m, idx)
}

/// Edge `e` of `m` one rank lower.
pub open spec fn lowered(m: Map<usize, (usize, usize, Edge)>, e: usize) -> (usize, usize, Edge) {
    (
        m[e].0,
        m[e].1,
        Edge { id: Some(EdgeID { idx: e, order: (rank(m, e) - 1) as usize }), ..m[e].2 },
    )
}

/// `m` without edge `idx`, where the siblings of `idx` among `moved` that
/// ranked above it have moved down by one.
pub open spec fn closed_up_within(
    m: Map<usize, (usize, usize, Edge)>,
    idx: usize,
    moved: Set<usize>,
) -> Map<usize, (usize, usize, Edge)> {
    Map::new(
        |e: usize| m.dom().contains(e) && e != idx,
        |e: usize|
            if moved.contains(e) && ranked_above(m, idx, e) {
                lowered(m, e)
            } else {
                m[e]
            },
    )
}

/// `m` without edge `idx`, where the siblings that ranked above it have
/// moved down by one.
pub open spec fn closed_up(m: Map<usize, (usize, usize, Edge)>, idx: usize) -> Map<
    usize,
    (usize, usize, Edge),
> {
    closed_up_within(m, idx, m.dom())
}

/// Taking an edge out and closing the gap in the ranks of its siblings
/// keeps the ranks in order.
pub proof fn lemma_ranked_closed_up(m: Map<usize, (usize, usize, Edge)>, idx: usize)
    requires
        ranked(m),
        m.dom().contains(idx),
    ensures
        ranked(closed_up(m, idx)),
        parallel(closed_up(m, idx), m[idx].0, m[idx].1) == parallel(m, m[idx].0, m[idx].1).remove(
            idx,
        ),
{
    let m2 = closed_up(m, idx);
    let a = m[idx].0;
    let b = m[idx].1;
    assert(m2.dom() =~= m.dom().remove(idx));
    lemma_parallel_finite(m, a, b);
    assert(parallel(m2, a, b) =~= parallel(m, a, b).remove(idx));
    assert(parallel(m, a, b).contains(idx));
    assert forall|x: usize| #[trigger] m2.dom().contains(x) implies m2[x].2.id is Some
        && m2[x].2.id->0.idx == x by {
        assert(m.dom().contains(x));
    }
    assert forall|x: usize| #[trigger] m2.dom().contains(x) implies rank(m2, x) < parallel(
        m2,
        m2[x].0,
        m2[x].1,
    ).len() by {
        assert(m.dom().contains(x));
        assert(m.dom().contains(idx));
        if m[x].0 == a && m[x].1 == b {
            assert(rank(m, x) != rank(m, idx));
        } else {
            assert(parallel(m2, m2[x].0, m2[x].1) =~= parallel(m, m[x].0, m[x].1));
        }
    }
    assert forall|e1: usize, e2: usize|
        #![trigger m2.dom().contains(e1), m2.dom().contains(e2)]
        m2.dom().contains(e1) && m2.dom().contains(e2) && e1 != e2 && m2[e1].0 == m2[e2].0
            && m2[e1].1 == m2[e2].1 implies rank(m2, e1) != rank(m2, e2) by {
        assert(m.dom().contains(e1) && m.dom().contains(e2));
        assert(rank(m, e1) != rank(m, e2));
    }
}

/// The orders of the edges that lead from `a` to `b` are exactly the numbers
/// below their count, and no two of these edges share an order.
pub proof fn lemma_sibling_orders(g: &Graph, a: usize, b: usize)
    requires
        g.wf(),
    ensures
        g.siblings(a, b).finite(),
        forall|e: usize| g.siblings(a, b).contains(e) ==> g.order(e) < g.siblings(a, b).len(),
        forall|e1: usize, e2: usize|
            g.siblings(a, b).contains(e1) && g.siblings(a, b).contains(e2) && e1 != e2
                ==> g.order(e1) != g.order(e2),
        forall|r: int| 0 <= r < g.siblings(a, b).len() ==> #[trigger] g.order_taken(a, b, r),
{
    let m = g.edges();
    let sib = g.siblings(a, b);
    lemma_parallel_finite(m, a, b);
    let f = |e: usize| rank(m, e) as int;
    let image = sib.map(f);
    let range = vstd::set_lib::set_int_range(0, sib.len() as int);
    assert forall|e: usize| sib.contains(e) implies g.order(e) < sib.len() by {
        assert(m.dom().contains(e));
    }
    assert forall|e1: usize, e2: usize|
        sib.contains(e1) && sib.contains(e2) && e1 != e2 implies g.order(e1) != g.order(e2) by {
        assert(m.dom().contains(e1) && m.dom().contains(e2));
    }
    assert(vstd::relations::injective_on(f, sib)) by {
        assert forall|x1: usize, x2: usize|
            sib.contains(x1) && sib.contains(x2) && #[trigger] f(x1) == #[trigger] f(
                x2,
            ) implies x1 == x2 by {
            if x1 != x2 {
                assert(g.order(x1) != g.order(x2));
            }
        }
    }
    vstd::set_lib::lemma_map_size(sib, image, f);
    vstd::set_lib::lemma_int_range(0, sib.len() as int);
    assert forall|r: int| image.contains(r) implies range.contains(r) by {
        let e = choose|e: usize| sib.contains(e) && f(e) == r;
        assert(g.order(e) < sib.len());
    }
    vstd::set_lib::lemma_subset_equality(image, range);
    assert forall|r: int| 0 <= r < sib.len() implies #[trigger] g.order_taken(a, b, r) by {
        assert(range.contains(r));
        assert(image.contains(r));
        let e = choose|e: usize| sib.contains(e) && f(e) == r;
        assert(sib.contains(e) && g.order(e) == r);
    }
}

/// How an edge is drawn.
#[derive(Debug, Clone, Copy, PartialEq, Eq, Structural)]
pub enum EdgeShape {
    /// From a node back to itself: a loop whose size grows with the order.
    Loop { order: usize },
    /// The only edge from its source to its target: a straight line.
    Straight,
    /// One of several edges from its source to its target: a curve whose
    /// bend grows with the order.
    Curved { order: usize },
}

impl Graph {
    /// The nodes of the graph by index.
    pub closed spec fn nodes(&self) -> Map<usize, Node> {
        graph_nodes(self.g)
    }

    /// The edges of the graph by index: source, target and state.
    pub closed spec fn edges(&self) -> Map<usize, (usize, usize, Edge)> {
        graph_edges(self.g)
    }

    /// Whether the edges have a direction.
    pub closed spec fn directed(&self) -> bool {
        self.directed
    }

    pub open spec fn has_node(&self, i: usize) -> bool {
        self.nodes().dom().contains(i)
    }

    pub open spec fn has_edge(&self, e: usize) -> bool {
        self.edges().dom().contains(e)
    }

    pub open spec fn source(&self, e: usize) -> usize {
        self.edges()[e].0
    }

    pub open spec fn target(&self, e: usize) -> usize {
        self.edges()[e].1
    }

    /// The rank of edge `e` among its siblings.
    pub open spec fn order(&self, e: usize) -> usize {
        rank(self.edges(), e)
    }

    /// The edges that lead from `a` to `b`.
    pub open spec fn siblings(&self, a: usize, b: usize) -> Set<usize> {
        parallel(self.edges(), a, b)
    }

    /// True when one of the edges that lead from `a` to `b` has the order
    /// `r`.
    pub open spec fn order_taken(&self, a: usize, b: usize, r: int) -> bool {
        exists|e: usize| self.siblings(a, b).contains(e) && #[trigger] self.order(e) == r
    }

    /// The invariant of the graph: edges join nodes of the graph, each edge
    /// knows its own index, and sibling edges carry distinct orders below
    /// their number.
    pub open spec fn wf(&self) -> bool {
        &&& self.nodes().dom().finite()
        &&& ranked(self.edges())
        &&& forall|e: usize| #[trigger]
            self.has_edge(e) ==> self.has_node(self.source(e)) && self.has_node(self.target(e))
    }

    /// True when edge `e` has `from` at the end that `dir` looks edges up
    /// by, or, with `both`, at either end.
    pub open spec fn joins(&self, e: usize, from: usize, dir: Incidence, both: bool) -> bool {
        self.has_edge(e) && (near_end(self.edges()[e], dir) == from || (both && far_end(
            self.edges()[e],
            dir,
        ) == from))
    }

    /// True when edges are followed from either end: where `dir` says so,
    /// and in a graph without directions.
    pub open spec fn either_way(&self, dir: Direction) -> bool {
        two_way(dir) || !self.directed()
    }

    /// True when edge `e` can be followed away from `from`: along its
    /// direction for `Outgoing`, against it for `Incoming`, and either way
    /// for `Both` and in a graph without directions.
    pub open spec fn leads(&self, e: usize, from: usize, dir: Direction) -> bool {
        self.joins(e, from, incidence(dir), self.either_way(dir))
    }

    /// The node that edge `e` leads to when it is followed away from `from`.
    pub open spec fn beyond(&self, e: usize, from: usize, dir: Direction) -> usize {
        self.other_end(e, from, incidence(dir))
    }

    /// The end of edge `e` that is not `from`, where `from` is looked for
    /// first at the end that `dir` names.
    pub open spec fn other_end(&self, e: usize, from: usize, dir: Incidence) -> usize {
        if near_end(self.edges()[e], dir) == from {
            far_end(self.edges()[e], dir)
        } else {
            near_end(self.edges()[e], dir)
        }
    }

    /// True when `r` shows its edge as seen from `from`: with `from` as the
    /// source for `Outgoing`, as the target for `Incoming`.
    pub open spec fn oriented(&self, r: EdgeRef, from: usize, dir: Incidence) -> bool {
        match dir {
            Incidence::Outgoing => r.source == from && r.target == self.other_end(r.id, from, dir),
            Incidence::Incoming => r.target == from && r.source == self.other_end(r.id, from, dir),
        }
    }

    /// The edges that join `from`.
    pub open spec fn joined_set(&self, from: usize, dir: Incidence, both: bool) -> Set<usize> {
        Set::new(|e: usize| self.joins(e, from, dir, both))
    }

    /// True when `v` lists, once each and as seen from `from`, exactly the
    /// edges that join `from`.
    pub open spec fn lists_joined(
        &self,
        v: Seq<EdgeRef>,
        from: usize,
        dir: Incidence,
        both: bool,
    ) -> bool {
        &&& ids(v).no_duplicates()
        &&& ids(v).to_set() == self.joined_set(from, dir, both)
        &&& forall|i: int| 0 <= i < v.len() ==> self.oriented(#[trigger] v[i], from, dir)
    }

    /// The edges that touch node `a`, a loop counted once.
    pub open spec fn incident(&self, a: usize) -> Set<usize> {
        Set::new(|e: usize| self.has_edge(e) && (self.source(e) == a || self.target(e) == a))
    }

    /// An empty graph.
    pub fn new(directed: bool) -> (g: Self)
        ensures
            g.wf(),
            g.directed() == directed,
            g.nodes() == Map::<usize, Node>::empty(),
            g.edges() == Map::<usize, (usize, usize, Edge)>::empty(),
    {
        let g = Graph { g: storage_new(), directed };
        assert(g.nodes() =~= Map::<usize, Node>::empty());
        assert(g.edges() =~= Map::<usize, (usize, usize, Edge)>::empty());
        g
    }

    pub fn is_directed(&self) -> (b: bool)
        ensures
            b == self.directed(),
    {
        self.directed
    }

    /// Adds a node and returns its index.
    pub fn add_node(&mut self, n: Node) -> (idx: usize)
        requires
            old(self).wf(),
        ensures
            final(self).wf(),
            !old(self).has_node(idx),
            final(self).nodes() == old(self).nodes().insert(idx, n),
            final(self).edges() == old(self).edges(),
            final(self).directed() == old(self).directed(),
    {
        let idx = storage_add_node(&mut self.g, n);
        proof {
            assert(self.nodes().dom() =~= old(self).nodes().dom().insert(idx));
            assert forall|e: usize| #[trigger] self.has_edge(e) implies self.has_node(
                self.source(e),
            ) && self.has_node(self.target(e)) by {
                assert(old(self).has_edge(e));
            }
        }
        idx
    }

    /// The number of edges that lead from `a` to `b`.
    pub fn edges_connecting(&self, a: usize, b: usize) -> (k: usize)
        requires
            self.wf(),
        ensures
            k == self.siblings(a, b).len(),
    {
        let out = storage_edges_directed(&self.g, a, Incidence::Outgoing);
        let mut k: usize = 0;
        let mut j: usize = 0;
        let ghost mut seen: Set<usize> = Set::empty();
        while j < out.len()
            invariant
                j <= out.len(),
                k <= j,
                lists_incident(out@, self.edges(), a, Incidence::Outgoing),
                seen.finite(),
                seen.len() == k,
                forall|e: usize|
                    seen.contains(e) <==> exists|i: int| 0 <= i < j && out@[i].0 == e && out@[i].2 == b,
            decreases out.len() - j,
        {
            let ghost before = seen;
            if out[j].2 == b {
                proof {
                    if seen.contains(out@[j as int].0) {
                        let i = choose|i: int| 0 <= i < j && out@[i].0 == out@[j as int].0 && out@[i].2 == b;
                        assert(out@[i].0 != out@[j as int].0);
                    }
                    seen = seen.insert(out@[j as int].0);
                }
                k = k + 1;
            }
            j = j + 1;
            proof {
                assert forall|e: usize| seen.contains(e) <==> exists|i: int|
                    0 <= i < j && out@[i].0 == e && out@[i].2 == b by {
                    if seen.contains(e) {
                        if before.contains(e) {
                            let i = choose|i: int| 0 <= i < j - 1 && out@[i].0 == e && out@[i].2 == b;
                            assert(0 <= i < j && out@[i].0 == e && out@[i].2 == b);
                        } else {
                            assert(out@[j - 1].0 == e && out@[j - 1].2 == b);
                        }
                    }
                    if exists|i: int| 0 <= i < j && out@[i].0 == e && out@[i].2 == b {
                        let i = choose|i: int| 0 <= i < j && out@[i].0 == e && out@[i].2 == b;
                        if i < j - 1 {
                            assert(before.contains(e));
                        }
                    }
                }
            }
        }
        proof {
            assert forall|e: usize| seen.contains(e) <==> self.siblings(a, b).contains(e) by {
                if seen.contains(e) {
                    let i = choose|i: int| 0 <= i < j && out@[i].0 == e && out@[i].2 == b;
                    assert(self.edges().dom().contains(out@[i].0));
                }
                if self.siblings(a, b).contains(e) {
                    assert(self.edges().dom().contains(e));
                    let i = choose|i: int| 0 <= i < out@.len() && out@[i].0 == e;
                    assert(self.edges().dom().contains(out@[i].0));
                }
            }
            assert(seen =~= self.siblings(a, b));
        }
        k
    }

    /// Adds an edge from `a` to `b` and returns its index, or `None` when one
    /// of the two nodes is missing. The edge is bound to its index and takes
    /// the number of edges that already lead from `a` to `b` as its order.
    pub fn add_edge(&mut self, a: usize, b: usize, e: Edge) -> (r: Option<usize>)
        requires
            old(self).wf(),
        ensures
            final(self).wf(),
            final(self).nodes() == old(self).nodes(),
            final(self).directed() == old(self).directed(),
            r is Some <==> old(self).has_node(a) && old(self).has_node(b),
            r is None ==> final(self).edges() == old(self).edges(),
            r is Some ==> !old(self).has_edge(r->0) && final(self).edges() == old(self).edges().insert(
                r->0,
                (
                    a,
                    b,
                    Edge {
                        id: Some(
                            EdgeID { idx: r->0, order: old(self).siblings(a, b).len() as usize },
                        ),
                        selected: e.selected,
                    },
                ),
            ),
    {
        if storage_node(&self.g, a).is_none() || storage_node(&self.g, b).is_none() {
            return None;
        }
        let order = self.edges_connecting(a, b);
        let idx = storage_add_edge(&mut self.g, a, b, e);
        let mut bound = e;
        bound.bind(idx, order);
        storage_set_edge(&mut self.g, idx, bound);
        proof {
            let m = old(self).edges();
            lemma_ranked_insert(m, idx, a, b, bound);
            assert(self.edges() =~= m.insert(idx, (a, b, bound)));
            assert forall|x: usize| #[trigger] self.has_edge(x) implies self.has_node(
                self.source(x),
            ) && self.has_node(self.target(x)) by {
                if x != idx {
                    assert(old(self).has_edge(x));
                }
            }
        }
        Some(idx)
    }

    /// Takes node `i` out of the graph, together with every edge that
    /// touches it, and returns its state; `None` when there is no such node.
    pub fn remove_node(&mut self, i: usize) -> (r: Option<Node>)
        requires
            old(self).wf(),
        ensures
            final(self).wf(),
            final(self).directed() == old(self).directed(),
            r == (if old(self).has_node(i) {
                Some(old(self).nodes()[i])
            } else {
                None
            }),
            final(self).nodes() == old(self).nodes().remove(i),
            final(self).edges() == apart_from(old(self).edges(), i),
    {
        let r = storage_remove_node(&mut self.g, i);
        proof {
            lemma_ranked_apart(old(self).edges(), i);
            assert forall|e: usize| #[trigger] self.has_edge(e) implies self.has_node(
                self.source(e),
            ) && self.has_node(self.target(e)) by {
                assert(old(self).has_edge(e));
            }
        }
        r
    }

    /// Takes edge `i` out of the graph and returns its state; `None` when
    /// there is no such edge. The siblings that ranked above it move down by
    /// one order, so that the orders stay without a gap.
    pub fn remove_edge(&mut self, i: usize) -> (r: Option<Edge>)
        requires
            old(self).wf(),
        ensures
            final(self).wf(),
            final(self).directed() == old(self).directed(),
            final(self).nodes() == old(self).nodes(),
            r == (if old(self).has_edge(i) {
                Some(old(self).edges()[i].2)
            } else {
                None
            }),
            !old(self).has_edge(i) ==> final(self).edges() == old(self).edges(),
            old(self).has_edge(i) ==> final(self).edges() == closed_up(old(self).edges(), i),
    {
        let (a, b) = match storage_edge_endpoints(&self.g, i) {
            None => {
                return None;
            },
            Some(ends) => ends,
        };
        let removed = storage_remove_edge(&mut self.g, i);
        let gap = removed.unwrap().order();
        let ghost m = old(self).edges();
        let out = storage_edges_directed(&self.g, a, Incidence::Outgoing);
        let mut j: usize = 0;
        let ghost mut moved: Set<usize> = Set::empty();
        proof {
            assert(self.edges() =~= closed_up_within(m, i, moved));
        }
        while j < out.len()
            invariant
                j <= out.len(),
                m == old(self).edges(),
                ranked(m),
                m.dom().contains(i),
                a == m[i].0,
                b == m[i].1,
                gap == rank(m, i),
                self.nodes() == old(self).nodes(),
                self.directed() == old(self).directed(),
                self.edges() == closed_up_within(m, i, moved),
                forall|k: int|
                    0 <= k < out.len() ==> m.dom().contains(#[trigger] out@[k].0) && out@[k].0 != i
                        && m[out@[k].0].0 == a && m[out@[k].0].1 == out@[k].2,
                forall|k: int, k2: int| 0 <= k < k2 < out.len() ==> out@[k].0 != out@[k2].0,
                forall|e: usize|
                    m.dom().contains(e) && e != i && m[e].0 == a ==> exists|k: int|
                        0 <= k < out.len() && #[trigger] out@[k].0 == e,
                forall|k: int| 0 <= k < j ==> moved.contains(#[trigger] out@[k].0),
                forall|k: int| j <= k < out.len() ==> !moved.contains(#[trigger] out@[k].0),
            decreases out.len() - j,
        {
            let (e, _, target) = out[j];
            proof {
                assert(m.dom().contains(out@[j as int].0));
                assert(!moved.contains(out@[j as int].0));
            }
            if target == b {
                let w = storage_edge(&self.g, e).unwrap();
                if w.order() > gap {
                    let mut lower = w;
                    lower.set_order(w.order() - 1);
                    storage_set_edge(&mut self.g, e, lower);
                }
            }
            proof {
                assert(self.edges() =~= closed_up_within(m, i, moved.insert(e)));
                moved = moved.insert(e);
                assert forall|k: int| j + 1 <= k < out.len() implies !moved.contains(
                    #[trigger] out@[k].0,
                ) by {
                    assert(out@[j as int].0 != out@[k].0);
                }
            }
            j = j + 1;
        }
        proof {
            assert forall|e: usize| m.dom().contains(e) && e != i && ranked_above(
                m,
                i,
                e,
            ) implies moved.contains(e) by {
                let k = choose|k: int| 0 <= k < out.len() && #[trigger] out@[k].0 == e;
                assert(moved.contains(out@[k].0));
            }
            assert(closed_up_within(m, i, moved) =~= closed_up(m, i));
            lemma_ranked_closed_up(m, i);
            assert forall|e: usize| #[trigger] self.has_edge(e) implies self.has_node(
                self.source(e),
            ) && self.has_node(self.target(e)) by {
                assert(old(self).has_edge(e));
            }
        }
        removed
    }

    /// Replaces the state of node `i`.
    pub fn set_node(&mut self, i: usize, n: Node) -> (r: Result<(), NotFound>)
        requires
            old(self).wf(),
        ensures
            final(self).wf(),
            final(self).edges() == old(self).edges(),
            final(self).directed() == old(self).directed(),
            r is Ok <==> old(self).has_node(i),
            r is Ok ==> final(self).nodes() == old(self).nodes().insert(i, n),
            r is Err ==> r == Err::<(), NotFound>(NotFound::Node(i)) && final(self).nodes() == old(
                self,
            ).nodes(),
    {
        if storage_node(&self.g, i).is_none() {
            return Err(NotFound::Node(i));
        }
        storage_set_node(&mut self.g, i, n);
        proof {
            assert(self.nodes().dom() =~= old(self).nodes().dom());
            assert forall|e: usize| #[trigger] self.has_edge(e) implies self.has_node(
                self.source(e),
            ) && self.has_node(self.target(e)) by {
                assert(old(self).has_edge(e));
            }
        }
        Ok(())
    }

    /// Marks edge `i` as selected or not.
    pub fn set_edge_selected(&mut self, i: usize, selected: bool) -> (r: Result<(), NotFound>)
        requires
            old(self).wf(),
        ensures
            final(self).wf(),
            final(self).nodes() == old(self).nodes(),
            final(self).directed() == old(self).directed(),
            r is Ok <==> old(self).has_edge(i),
            r is Ok ==> final(self).edges() == old(self).edges().insert(
                i,
                (
                    old(self).source(i),
                    old(self).target(i),
                    Edge { selected, ..old(self).edges()[i].2 },
                ),
            ),
            r is Err ==> r == Err::<(), NotFound>(NotFound::Edge(i)) && final(self).edges() == old(
                self,
            ).edges(),
    {
        match storage_edge(&self.g, i) {
            None => Err(NotFound::Edge(i)),
            Some(e) => {
                let mut changed = e;
                changed.set_selected(selected);
                storage_set_edge(&mut self.g, i, changed);
                proof {
                    lemma_ranked_update(old(self).edges(), i, changed);
                    assert forall|x: usize| #[trigger] self.has_edge(x) implies self.has_node(
                        self.source(x),
                    ) && self.has_node(self.target(x)) by {
                        assert(old(self).has_edge(x));
                    }
                }
                Ok(())
            },
        }
    }

    /// Lists the edges that join `a`, as seen from `a`.
    fn joined(&self, a: usize, dir: Incidence, both: bool) -> (v: Vec<EdgeRef>)
        ensures
            self.lists_joined(v@, a, dir, both),
    {
        let near = storage_edges_directed(&self.g, a, dir);
        let mut v: Vec<EdgeRef> = Vec::new();
        let mut j: usize = 0;
        let ghost mut acc: Set<usize> = Set::empty();
        proof {
            assert(ids(v@) =~= Seq::<usize>::empty());
            assert(ids(v@).to_set() =~= acc);
        }
        while j < near.len()
            invariant
                j <= near.len(),
                lists_incident(near@, self.edges(), a, dir),
                ids(v@).no_duplicates(),
                ids(v@).to_set() == acc,
                forall|i: int| 0 <= i < j ==> acc.contains(#[trigger] near@[i].0),
                forall|i: int| j <= i < near.len() ==> !acc.contains(#[trigger] near@[i].0),
                forall|e: usize| acc.contains(e) ==> self.joins(e, a, dir, false),
                forall|i: int| 0 <= i < v.len() ==> self.oriented(#[trigger] v@[i], a, dir),
            decreases near.len() - j,
        {
            let (id, source, target) = near[j];
            proof {
                assert(self.edges().dom().contains(near@[j as int].0));
                lemma_push_unique(ids(v@), id);
                assert(ids(v@.push(EdgeRef { id, source, target })) =~= ids(v@).push(id));
                acc = acc.insert(id);
            }
            v.push(EdgeRef { id, source, target });
            j = j + 1;
        }
        if both {
            let opposite = match dir {
                Incidence::Outgoing => Incidence::Incoming,
                Incidence::Incoming => Incidence::Outgoing,
            };
            let far = storage_edges_directed(&self.g, a, opposite);
            let mut k: usize = 0;
            while k < far.len()
                invariant
                    k <= far.len(),
                    opposite == (match dir {
                        Incidence::Outgoing => Incidence::Incoming,
                        Incidence::Incoming => Incidence::Outgoing,
                    }),
                    lists_incident(far@, self.edges(), a, opposite),
                    ids(v@).no_duplicates(),
                    ids(v@).to_set() == acc,
                    forall|e: usize| self.joins(e, a, dir, false) ==> acc.contains(e),
                    forall|i: int|
                        0 <= i < k && near_end(self.edges()[far@[i].0], dir) != a ==> acc.contains(
                            #[trigger] far@[i].0,
                        ),
                    forall|i: int|
                        k <= i < far.len() && near_end(self.edges()[far@[i].0], dir) != a
                            ==> !acc.contains(#[trigger] far@[i].0),
                    forall|e: usize| acc.contains(e) ==> self.joins(e, a, dir, true),
                    forall|i: int| 0 <= i < v.len() ==> self.oriented(#[trigger] v@[i], a, dir),
                decreases far.len() - k,
            {
                let (id, source, target) = far[k];
                let near_node = match dir {
                    Incidence::Outgoing => source,
                    Incidence::Incoming => target,
                };
                proof {
                    assert(self.edges().dom().contains(far@[k as int].0));
                }
                if near_node != a {
                    proof {
                        lemma_push_unique(ids(v@), id);
                        assert(ids(v@.push(EdgeRef { id, source: target, target: source }))
                            =~= ids(v@).push(id));
                        acc = acc.insert(id);
                    }
                    v.push(EdgeRef { id, source: target, target: source });
                }
                k = k + 1;
            }
            proof {
                assert forall|e: usize| self.joins(e, a, dir, true) implies acc.contains(e) by {
                    if near_end(self.edges()[e], dir) != a {
                        assert(self.edges().dom().contains(e));
                        let i = choose|i: int| 0 <= i < far@.len() && far@[i].0 == e;
                        assert(acc.contains(far@[i].0));
                    }
                }
                assert(acc =~= self.joined_set(a, dir, both));
            }
        } else {
            proof {
                assert forall|e: usize| self.joins(e, a, dir, false) implies acc.contains(e) by {
                    assert(self.edges().dom().contains(e));
                    let i = choose|i: int| 0 <= i < near@.len() && near@[i].0 == e;
                    assert(acc.contains(near@[i].0));
                }
                assert(acc =~= self.joined_set(a, dir, both));
            }
        }
        v
    }

    /// The edges that can be followed away from `a`, as seen from `a`: those
    /// that leave it (`Outgoing`), those that enter it (`Incoming`), or all
    /// that touch it (`Both`, and whatever the direction in a graph without
    /// directions). With `Both`, `a` is shown as the source.
    pub fn edges_directed(&self, a: usize, dir: Direction) -> (v: Vec<EdgeRef>)
        ensures
            self.lists_joined(v@, a, incidence(dir), self.either_way(dir)),
    {
        match dir {
            Direction::Outgoing => self.joined(a, Incidence::Outgoing, !self.directed),
            Direction::Incoming => self.joined(a, Incidence::Incoming, !self.directed),
            Direction::Both => self.joined(a, Incidence::Outgoing, true),
        }
    }

    /// The number of edges that touch node `a`.
    pub fn edges_num(&self, a: usize) -> (k: usize)
        ensures
            k == self.incident(a).len(),
    {
        let v = self.joined(a, Incidence::Outgoing, true);
        proof {
            lemma_unique_len(ids(v@));
            assert(self.joined_set(a, Incidence::Outgoing, true) =~= self.incident(a));
        }
        v.len()
    }

    /// How edge `idx` is drawn: as a loop when it joins a node to itself, as
    /// a straight line when no other edge shares its source and its
    /// target, and as a curve otherwise.
    pub fn edge_shape(&self, idx: usize) -> (r: Option<EdgeShape>)
        requires
            self.wf(),
        ensures
            r is Some <==> self.has_edge(idx),
            r is Some ==> r->0 == (if self.source(idx) == self.target(idx) {
                EdgeShape::Loop { order: self.order(idx) }
            } else if self.siblings(self.source(idx), self.target(idx)).len() == 1 {
                EdgeShape::Straight
            } else {
                EdgeShape::Curved { order: self.order(idx) }
            }),
    {
        let rec = match storage_edge(&self.g, idx) {
            None => {
                return None;
            },
            Some(e) => e,
        };
        let (source, target) = match storage_edge_endpoints(&self.g, idx) {
            None => {
                return None;
            },
            Some(ends) => ends,
        };
        assert(self.edges().dom().contains(idx));
        let order = rec.order();
        if source == target {
            return Some(EdgeShape::Loop { order });
        }
        if self.edges_connecting(source, target) == 1 {
            Some(EdgeShape::Straight)
        } else {
            Some(EdgeShape::Curved { order })
        }
    }

    /// Every node with its index, by ascending index.
    pub fn nodes_iter(&self) -> (v: Vec<(usize, Node)>)
        ensures
            listed_in_order(v@, self.nodes()),
    {
        storage_nodes(&self.g)
    }

    /// Every edge with its index, by ascending index.
    pub fn edges_iter(&self) -> (v: Vec<(usize, Edge)>)
        ensures
            listed_in_order(v@, self.edges().map_values(|r: (usize, usize, Edge)| r.2)),
    {
        let all = storage_edges(&self.g);
        let mut v: Vec<(usize, Edge)> = Vec::new();
        let mut j: usize = 0;
        while j < all.len()
            invariant
                j <= all.len(),
                v.len() == j,
                forall|i: int|
                    0 <= i < j ==> (#[trigger] v@[i]).0 == all@[i].0 && v@[i].1 == all@[i].1.2,
            decreases all.len() - j,
        {
            let (id, rec) = all[j];
            v.push((id, rec.2));
            j = j + 1;
        }
        proof {
            let m = self.edges().map_values(|r: (usize, usize, Edge)| r.2);
            assert forall|i: int| 0 <= i < v.len() implies m.dom().contains(#[trigger] v@[i].0)
                && m[v@[i].0] == v@[i].1 by {
                assert(self.edges().dom().contains(all@[i].0));
            }
            assert forall|k: usize| #[trigger] m.dom().contains(k) implies exists|i: int|
                0 <= i < v.len() && v@[i].0 == k by {
                assert(self.edges().dom().contains(k));
                let i = choose|i: int| 0 <= i < all@.len() && all@[i].0 == k;
                assert(v@[i].0 == k);
            }
            assert forall|i: int, i2: int| 0 <= i < i2 < v.len() implies v@[i].0 < v@[i2].0 by {
                assert(all@[i].0 < all@[i2].0);
            }
        }
        v
    }

    pub fn node(&self, i: usize) -> (n: Option<Node>)
        ensures
            n == (if self.has_node(i) { Some(self.nodes()[i]) } else { None }),
    {
        storage_node(&self.g, i)
    }

    pub fn edge(&self, i: usize) -> (e: Option<Edge>)
        ensures
            e == (if self.has_edge(i) { Some(self.edges()[i].2) } else { None }),
    {
        storage_edge(&self.g, i)
    }

    pub fn edge_endpoints(&self, i: usize) -> (ends: Option<(usize, usize)>)
        ensures
            ends == (if self.has_edge(i) { Some((self.source(i), self.target(i))) } else { None }),
    {
        storage_edge_endpoints(&self.g, i)
    }
}

} // verus!
