use vstd::prelude::*;
use petgraph::stable_graph::{EdgeIndex, NodeIndex, StableGraph};
use petgraph::Direction;
use petgraph::visit::{EdgeRef, IntoEdgeReferences, IntoNodeReferences};
use petgraph::Directed;
use crate::elements::{Edge, Node};

verus! {

/// `petgraph::stable_graph::StableGraph`, a graph whose indices stay valid
/// when nodes and edges are removed. Nothing of its inside is known here.
#[verifier::external_type_specification]
#[verifier::external_body]
#[verifier::reject_recursive_types(N)]
#[verifier::reject_recursive_types(E)]
#[verifier::reject_recursive_types(Ty)]
#[verifier::reject_recursive_types(Ix)]
pub struct ExStableGraph<N, E, Ty, Ix>(StableGraph<N, E, Ty, Ix>);

/// `petgraph::Directed`, the marker of a graph whose edges have a direction.
#[verifier::external_type_specification]
#[verifier::external_body]
pub struct ExDirected(Directed);

/// Which end of its edges a node is looked up by.
#[derive(Debug, Clone, Copy, PartialEq, Eq, Structural)]
pub enum Incidence {
    /// The edges that leave the node.
    Outgoing,
    /// The edges that enter the node.
    Incoming,
}

/// The graph that the view stores its nodes and edges in.
pub type Storage = StableGraph<Node, Edge, Directed, usize>;

/// The nodes that a stable graph holds: each live node index with its weight.
pub uninterp spec fn graph_nodes(g: StableGraph<Node, Edge, Directed, usize>) -> Map<usize, Node>;

/// The edges that a stable graph holds: each live edge index with its
/// source, its target and its weight.
pub uninterp spec fn graph_edges(g: StableGraph<Node, Edge, Directed, usize>) -> Map<
    usize,
    (usize, usize, Edge),
>;

/// `StableGraph::default`: a graph without nodes and edges.
#[verifier::external_body]
pub(crate) fn storage_new() -> (g: Storage)
    ensures
        graph_nodes(g).dom() == Set::<usize>::empty(),
        graph_edges(g).dom() == Set::<usize>::empty(),
{
    StableGraph::default()
}

/// `StableGraph::add_node`: the node gets an index that no live node has,
/// and nothing else changes.
#[verifier::external_body]
pub(crate) fn storage_add_node(g: &mut Storage, n: Node) -> (idx: usize)
    ensures
        !graph_nodes(*old(g)).dom().contains(idx),
        graph_nodes(*final(g)) == graph_nodes(*old(g)).insert(idx, n),
        graph_edges(*final(g)) == graph_edges(*old(g)),
{
    g.add_node(n).index()
}

/// `StableGraph::add_edge`: the edge from `a` to `b` gets an index that no
/// live edge has, and nothing else changes. The outside function panics
/// when one of the two nodes is missing.
#[verifier::external_body]
pub(crate) fn storage_add_edge(g: &mut Storage, a: usize, b: usize, e: Edge) -> (idx: usize)
    requires
        graph_nodes(*old(g)).dom().contains(a),
        graph_nodes(*old(g)).dom().contains(b),
    ensures
        !graph_edges(*old(g)).dom().contains(idx),
        graph_edges(*final(g)) == graph_edges(*old(g)).insert(idx, (a, b, e)),
        graph_nodes(*final(g)) == graph_nodes(*old(g)),
{
    g.add_edge(NodeIndex::new(a), NodeIndex::new(b), e).index()
}

/// `m` without the edges that touch node `a`.
pub open spec fn apart_from(m: Map<usize, (usize, usize, Edge)>, a: usize) -> Map<
    usize,
    (usize, usize, Edge),
> {
    m.restrict(Set::new(|e: usize| m[e].0 != a && m[e].1 != a))
}

/// `StableGraph::remove_edge`: takes a live edge out and returns its
/// weight; no other edge and no node changes.
#[verifier::external_body]
pub(crate) fn storage_remove_edge(g: &mut Storage, idx: usize) -> (e: Option<Edge>)
    ensures
        e is Some <==> graph_edges(*old(g)).dom().contains(idx),
        e is Some ==> e->0 == graph_edges(*old(g))[idx].2,
        graph_edges(*final(g)) == graph_edges(*old(g)).remove(idx),
        graph_nodes(*final(g)) == graph_nodes(*old(g)),
{
    g.remove_edge(EdgeIndex::new(idx))
}

/// `StableGraph::remove_node`: takes a live node out, together with every
/// edge that touches it, and returns its weight.
#[verifier::external_body]
pub(crate) fn storage_remove_node(g: &mut Storage, idx: usize) -> (n: Option<Node>)
    ensures
        n is Some <==> graph_nodes(*old(g)).dom().contains(idx),
        n is Some ==> n->0 == graph_nodes(*old(g))[idx],
        graph_nodes(*final(g)) == graph_nodes(*old(g)).remove(idx),
        graph_edges(*final(g)) == apart_from(graph_edges(*old(g)), idx),
{
    g.remove_node(NodeIndex::new(idx))
}

/// `StableGraph::node_weight`: the weight of the node, if it is live.
#[verifier::external_body]
pub(crate) fn storage_node(g: &Storage, idx: usize) -> (n: Option<Node>)
    ensures
        n is Some <==> graph_nodes(*g).dom().contains(idx),
        n is Some ==> n->0 == graph_nodes(*g)[idx],
{
    g.node_weight(NodeIndex::new(idx)).copied()
}

/// `StableGraph::index_mut` by node index: replaces the weight of a live
/// node. The outside function panics when the node is missing.
#[verifier::external_body]
pub(crate) fn storage_set_node(g: &mut Storage, idx: usize, n: Node)
    requires
        graph_nodes(*old(g)).dom().contains(idx),
    ensures
        graph_nodes(*final(g)) == graph_nodes(*old(g)).insert(idx, n),
        graph_edges(*final(g)) == graph_edges(*old(g)),
{
    g[NodeIndex::new(idx)] = n;
}

/// `StableGraph::edge_weight`: the weight of the edge, if it is live.
#[verifier::external_body]
pub(crate) fn storage_edge(g: &Storage, idx: usize) -> (e: Option<Edge>)
    ensures
        e is Some <==> graph_edges(*g).dom().contains(idx),
        e is Some ==> e->0 == graph_edges(*g)[idx].2,
{
    g.edge_weight(EdgeIndex::new(idx)).copied()
}

/// `StableGraph::index_mut` by edge index: replaces the weight of a live
/// edge and leaves its endpoints. The outside function panics when the edge
/// is missing.
#[verifier::external_body]
pub(crate) fn storage_set_edge(g: &mut Storage, idx: usize, e: Edge)
    requires
        graph_edges(*old(g)).dom().contains(idx),
    ensures
        graph_edges(*final(g)) == graph_edges(*old(g)).insert(
            idx,
            (graph_edges(*old(g))[idx].0, graph_edges(*old(g))[idx].1, e),
        ),
        graph_nodes(*final(g)) == graph_nodes(*old(g)),
{
    g[EdgeIndex::new(idx)] = e;
}

/// `StableGraph::edge_endpoints`: source and target of the edge, if it is
/// live.
#[verifier::external_body]
pub(crate) fn storage_edge_endpoints(g: &Storage, idx: usize) -> (ends: Option<(usize, usize)>)
    ensures
        ends is Some <==> graph_edges(*g).dom().contains(idx),
        ends is Some ==> ends == Some((graph_edges(*g)[idx].0, graph_edges(*g)[idx].1)),
{
    g.edge_endpoints(EdgeIndex::new(idx)).map(|(a, b)| (a.index(), b.index()))
}

/// True when `v` lists every entry of `m` once, by ascending key.
pub open spec fn listed_in_order<V>(v: Seq<(usize, V)>, m: Map<usize, V>) -> bool {
    &&& forall|i: int, j: int| 0 <= i < j < v.len() ==> v[i].0 < v[j].0
    &&& forall|i: int|
        0 <= i < v.len() ==> m.dom().contains(#[trigger] v[i].0) && m[v[i].0] == v[i].1
    &&& forall|k: usize| #[trigger]
        m.dom().contains(k) ==> exists|i: int| 0 <= i < v.len() && v[i].0 == k
}

/// `node_references` on a stable graph: every live node with its index, by
/// ascending index.
#[verifier::external_body]
pub(crate) fn storage_nodes(g: &Storage) -> (v: Vec<(usize, Node)>)
    ensures
        listed_in_order(v@, graph_nodes(*g)),
{
    g.node_references().map(|(i, n)| (i.index(), *n)).collect()
}

/// `edge_references` on a stable graph: every live edge with its index, its
/// source, its target and its weight, by ascending index.
#[verifier::external_body]
pub(crate) fn storage_edges(g: &Storage) -> (v: Vec<(usize, (usize, usize, Edge))>)
    ensures
        listed_in_order(v@, graph_edges(*g)),
{
    g.edge_references()
        .map(|e| (e.id().index(), (e.source().index(), e.target().index(), *e.weight())))
        .collect()
}

/// The node at the end of an edge record by which `dir` looks edges up.
pub open spec fn near_end(rec: (usize, usize, Edge), dir: Incidence) -> usize {
    match dir {
        Incidence::Outgoing => rec.0,
        Incidence::Incoming => rec.1,
    }
}

/// The node at the other end.
pub open spec fn far_end(rec: (usize, usize, Edge), dir: Incidence) -> usize {
    match dir {
        Incidence::Outgoing => rec.1,
        Incidence::Incoming => rec.0,
    }
}

/// True when `v` lists, once each and with their endpoints, exactly the
/// edges of `m` that leave `a` (or enter it, by `dir`).
pub open spec fn lists_incident(
    v: Seq<(usize, usize, usize)>,
    m: Map<usize, (usize, usize, Edge)>,
    a: usize,
    dir: Incidence,
) -> bool {
    &&& forall|i: int, j: int| 0 <= i < j < v.len() ==> v[i].0 != v[j].0
    &&& forall|i: int|
        0 <= i < v.len() ==> {
            &&& m.dom().contains(#[trigger] v[i].0)
            &&& m[v[i].0].0 == v[i].1
            &&& m[v[i].0].1 == v[i].2
            &&& near_end(m[v[i].0], dir) == a
        }
    &&& forall|e: usize|
        #[trigger] m.dom().contains(e) && near_end(m[e], dir) == a ==> exists|i: int|
            0 <= i < v.len() && v[i].0 == e
}

/// `StableGraph::edges_directed` on a directed graph: the edges that leave
/// `a`, or those that enter it, each once, as index, source and target. No
/// edge is listed for a node that is not live.
#[verifier::external_body]
pub(crate) fn storage_edges_directed(g: &Storage, a: usize, dir: Incidence) -> (v: Vec<
    (usize, usize, usize),
>)
    ensures
        lists_incident(v@, graph_edges(*g), a, dir),
{
    let d = match dir {
        Incidence::Outgoing => Direction::Outgoing,
        Incidence::Incoming => Direction::Incoming,
    };
    g.edges_directed(NodeIndex::new(a), d)
        .map(|e| (e.id().index(), e.source().index(), e.target().index()))
        .collect()
}

} // verus!
