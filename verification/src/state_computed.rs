use vstd::prelude::*;
use std::collections::HashMap;
use crate::elements::Node;
use crate::graph::Graph;
use crate::storage::listed_in_order;
use crate::settings::SettingsInteraction;
use crate::subgraphs::{span_dir, span_steps, SubGraphs};
use crate::unique::lemma_unique_len;

verus! {

broadcast use vstd::std_specs::hash::group_hash_axioms;

/// What a frame derives for one node.
#[derive(Debug, Clone, Copy, PartialEq, Eq, Structural)]
pub struct StateComputedNode {
    /// The node was reached from a selected root along the edges.
    pub selected_child: bool,
    /// The node was reached from a selected root against the edges.
    pub selected_parent: bool,
    /// The node was reached from a folded root.
    pub folded_child: bool,
    /// For a folded root, the number of nodes that it swallows.
    pub num_folded: usize,
    /// The number of edges that touch the node.
    pub num_edges: usize,
}

impl Default for StateComputedNode {
    fn default() -> (c: Self)
        ensures
            c == blank_node(),
    {
        StateComputedNode {
            selected_child: false,
            selected_parent: false,
            folded_child: false,
            num_folded: 0,
            num_edges: 0,
        }
    }
}

impl StateComputedNode {
    pub fn subselected(&self) -> (b: bool)
        ensures
            b == (self.selected_child || self.selected_parent),
    {
        self.selected_child || self.selected_parent
    }

    pub fn subfolded(&self) -> (b: bool)
        ensures
            b == self.folded_child,
    {
        self.folded_child
    }
}

/// What a frame derives for one edge.
#[derive(Debug, Clone, Copy, PartialEq, Eq, Structural)]
pub struct StateComputedEdge {
    pub selected_child: bool,
    pub selected_parent: bool,
}

impl Default for StateComputedEdge {
    fn default() -> (c: Self)
        ensures
            c == blank_edge(),
    {
        StateComputedEdge { selected_child: false, selected_parent: false }
    }
}

impl StateComputedEdge {
    pub fn subselected(&self) -> (b: bool)
        ensures
            b == (self.selected_child || self.selected_parent),
    {
        self.selected_child || self.selected_parent
    }
}

/// The state of a node that nothing was derived for.
pub open spec fn blank_node() -> StateComputedNode {
    StateComputedNode {
        selected_child: false,
        selected_parent: false,
        folded_child: false,
        num_folded: 0,
        num_edges: 0,
    }
}

/// The state of an edge that nothing was derived for.
pub open spec fn blank_edge() -> StateComputedEdge {
    StateComputedEdge { selected_child: false, selected_parent: false }
}

/// A flag that a walk from a root leaves on what it reaches.
#[derive(Debug, Clone, Copy, PartialEq, Eq, Structural)]
pub enum Mark {
    SelectedChild,
    SelectedParent,
    FoldedChild,
}

/// The mark that selection leaves: on children when it walks along the
/// edges, on parents when it walks against them.
pub open spec fn selection_mark(child_mode: bool) -> Mark {
    if child_mode {
        Mark::SelectedChild
    } else {
        Mark::SelectedParent
    }
}

pub open spec fn marked_node(c: StateComputedNode, mark: Mark) -> StateComputedNode {
    match mark {
        Mark::SelectedChild => StateComputedNode { selected_child: true, ..c },
        Mark::SelectedParent => StateComputedNode { selected_parent: true, ..c },
        Mark::FoldedChild => StateComputedNode { folded_child: true, ..c },
    }
}

pub open spec fn marked_edge(c: StateComputedEdge, mark: Mark) -> StateComputedEdge {
    match mark {
        Mark::SelectedChild => StateComputedEdge { selected_child: true, ..c },
        Mark::SelectedParent => StateComputedEdge { selected_parent: true, ..c },
        Mark::FoldedChild => c,
    }
}

/// The state that `m` holds for node `j`, blank where it holds none.
pub open spec fn node_entry(m: Map<usize, StateComputedNode>, j: usize) -> StateComputedNode {
    if m.dom().contains(j) {
        m[j]
    } else {
        blank_node()
    }
}

/// The state that `m` holds for edge `e`, blank where it holds none.
pub open spec fn edge_entry(m: Map<usize, StateComputedEdge>, e: usize) -> StateComputedEdge {
    if m.dom().contains(e) {
        m[e]
    } else {
        blank_edge()
    }
}

/// `m` with `mark` on every node of `members` but `root`.
pub open spec fn mark_nodes(
    m: Map<usize, StateComputedNode>,
    members: Set<usize>,
    root: usize,
    mark: Mark,
) -> Map<usize, StateComputedNode> {
    Map::new(
        |j: usize| m.dom().contains(j) || (members.contains(j) && j != root),
        |j: usize|
            if members.contains(j) && j != root {
                marked_node(node_entry(m, j), mark)
            } else {
                m[j]
            },
    )
}

/// `m` with `mark` on every edge of `members`.
pub open spec fn mark_edges(
    m: Map<usize, StateComputedEdge>,
    members: Set<usize>,
    mark: Mark,
) -> Map<usize, StateComputedEdge> {
    Map::new(
        |e: usize| m.dom().contains(e) || members.contains(e),
        |e: usize|
            if members.contains(e) {
                marked_edge(edge_entry(m, e), mark)
            } else {
                m[e]
            },
    )
}

fn apply_node_mark(c: StateComputedNode, mark: Mark) -> (r: StateComputedNode)
    ensures
        r == marked_node(c, mark),
{
    let mut r = c;
    match mark {
        Mark::SelectedChild => {
            r.selected_child = true;
        },
        Mark::SelectedParent => {
            r.selected_parent = true;
        },
        Mark::FoldedChild => {
            r.folded_child = true;
        },
    }
    r
}

fn apply_edge_mark(c: StateComputedEdge, mark: Mark) -> (r: StateComputedEdge)
    ensures
        r == marked_edge(c, mark),
{
    let mut r = c;
    match mark {
        Mark::SelectedChild => {
            r.selected_child = true;
        },
        Mark::SelectedParent => {
            r.selected_parent = true;
        },
        Mark::FoldedChild => {},
    }
    r
}

fn node_or_blank(nodes: &HashMap<usize, StateComputedNode>, j: usize) -> (c: StateComputedNode)
    ensures
        c == node_entry(nodes@, j),
{
    match nodes.get(&j) {
        Some(c) => *c,
        None => StateComputedNode::default(),
    }
}

fn edge_or_blank(edges: &HashMap<usize, StateComputedEdge>, e: usize) -> (c: StateComputedEdge)
    ensures
        c == edge_entry(edges@, e),
{
    match edges.get(&e) {
        Some(c) => *c,
        None => StateComputedEdge::default(),
    }
}

fn mark_member_nodes(
    nodes: &mut HashMap<usize, StateComputedNode>,
    members: &Vec<usize>,
    root: usize,
    mark: Mark,
)
    ensures
        final(nodes)@ == mark_nodes(old(nodes)@, members@.to_set(), root, mark),
{
    let mut k: usize = 0;
    proof {
        assert(members@.take(0).to_set() =~= Set::<usize>::empty());
        assert(nodes@ =~= mark_nodes(old(nodes)@, members@.take(0).to_set(), root, mark));
    }
    while k < members.len()
        invariant
            k <= members.len(),
            nodes@ == mark_nodes(old(nodes)@, members@.take(k as int).to_set(), root, mark),
        decreases members.len() - k,
    {
        let j = members[k];
        let ghost before = nodes@;
        let ghost seen = members@.take(k as int).to_set();
        proof {
            assert(members@.take(k + 1) =~= members@.take(k as int).push(j));
            members@.take(k as int).lemma_push_to_set_commute(j);
        }
        if j != root {
            let c = node_or_blank(nodes, j);
            nodes.insert(j, apply_node_mark(c, mark));
        }
        proof {
            assert(nodes@ =~= mark_nodes(old(nodes)@, seen.insert(j), root, mark));
        }
        k = k + 1;
    }
    proof {
        assert(members@.take(members@.len() as int) =~= members@);
    }
}

fn mark_member_edges(
    edges: &mut HashMap<usize, StateComputedEdge>,
    members: &Vec<usize>,
    mark: Mark,
)
    ensures
        final(edges)@ == mark_edges(old(edges)@, members@.to_set(), mark),
{
    let mut k: usize = 0;
    proof {
        assert(members@.take(0).to_set() =~= Set::<usize>::empty());
        assert(edges@ =~= mark_edges(old(edges)@, members@.take(0).to_set(), mark));
    }
    while k < members.len()
        invariant
            k <= members.len(),
            edges@ == mark_edges(old(edges)@, members@.take(k as int).to_set(), mark),
        decreases members.len() - k,
    {
        let e = members[k];
        let ghost seen = members@.take(k as int).to_set();
        proof {
            assert(members@.take(k + 1) =~= members@.take(k as int).push(e));
            members@.take(k as int).lemma_push_to_set_commute(e);
        }
        let c = edge_or_blank(edges, e);
        edges.insert(e, apply_edge_mark(c, mark));
        proof {
            assert(edges@ =~= mark_edges(old(edges)@, seen.insert(e), mark));
        }
        k = k + 1;
    }
    proof {
        assert(members@.take(members@.len() as int) =~= members@);
    }
}

/// The signed depth that a fold of `depth` steps walks to: along the edges,
/// and without limit from `i32::MAX` steps on.
pub open spec fn fold_depth(depth: usize) -> i32 {
    if depth > i32::MAX as usize {
        i32::MAX
    } else {
        depth as i32
    }
}

/// The node states after the selection of node `idx` was looked at.
pub open spec fn after_selection(
    m: Map<usize, StateComputedNode>,
    g: &Graph,
    idx: usize,
    n: Node,
    s: SettingsInteraction,
) -> Map<usize, StateComputedNode> {
    if n.selected {
        mark_nodes(
            m,
            g.span_nodes(idx, s.selection_depth),
            idx,
            selection_mark(s.selection_depth > 0),
        )
    } else {
        m
    }
}

/// The node states after the fold of node `idx` was looked at: a folded
/// root counts what it swallows, and what it swallows is marked.
pub open spec fn after_folding(
    m: Map<usize, StateComputedNode>,
    g: &Graph,
    idx: usize,
    n: Node,
    s: SettingsInteraction,
) -> Map<usize, StateComputedNode> {
    if n.folded {
        let span = g.span_nodes(idx, fold_depth(s.folding_depth));
        mark_nodes(
            m.insert(
                idx,
                StateComputedNode { num_folded: (span.len() - 1) as usize, ..node_entry(m, idx) },
            ),
            span,
            idx,
            Mark::FoldedChild,
        )
    } else {
        m
    }
}

/// The node states after node `idx` with state `n` was looked at.
pub open spec fn node_step(
    m: Map<usize, StateComputedNode>,
    g: &Graph,
    idx: usize,
    n: Node,
    s: SettingsInteraction,
) -> Map<usize, StateComputedNode> {
    let m0 = m.insert(idx, node_entry(m, idx));
    let m1 = after_selection(m0, g, idx, n, s);
    let m2 = after_folding(m1, g, idx, n, s);
    m2.insert(idx, StateComputedNode { num_edges: g.incident(idx).len() as usize, ..m2[idx] })
}

/// The edge states after node `idx` with state `n` was looked at.
pub open spec fn edge_step(
    m: Map<usize, StateComputedEdge>,
    g: &Graph,
    idx: usize,
    n: Node,
    s: SettingsInteraction,
) -> Map<usize, StateComputedEdge> {
    if n.selected {
        mark_edges(
            m,
            g.span_edges(idx, s.selection_depth),
            selection_mark(s.selection_depth > 0),
        )
    } else {
        m
    }
}

/// True when `r` is a selected node among `done`.
pub open spec fn selected_in(g: &Graph, done: Set<usize>, r: usize) -> bool {
    done.contains(r) && g.has_node(r) && g.nodes()[r].selected
}

/// True when `r` is a folded node among `done`.
pub open spec fn folded_in(g: &Graph, done: Set<usize>, r: usize) -> bool {
    done.contains(r) && g.has_node(r) && g.nodes()[r].folded
}

/// True when the walk from a selected node among `done`, other than `j`
/// itself, reaches node `j`.
pub open spec fn touched(g: &Graph, done: Set<usize>, depth: i32, j: usize) -> bool {
    exists|r: usize| #[trigger]
        selected_in(g, done, r) && r != j && g.span_nodes(r, depth).contains(j)
}

/// True when the walk from a folded node among `done`, other than `j`
/// itself, reaches node `j`.
pub open spec fn swallowed(g: &Graph, done: Set<usize>, depth: i32, j: usize) -> bool {
    exists|r: usize| #[trigger]
        folded_in(g, done, r) && r != j && g.span_nodes(r, depth).contains(j)
}

/// True when the walk from a selected node among `done` takes edge `e`.
pub open spec fn crossed(g: &Graph, done: Set<usize>, depth: i32, e: usize) -> bool {
    exists|r: usize| #[trigger] selected_in(g, done, r) && g.span_edges(r, depth).contains(e)
}

/// The state of node `j` once the nodes in `done` were looked at.
pub open spec fn node_state(
    g: &Graph,
    s: SettingsInteraction,
    done: Set<usize>,
    j: usize,
) -> StateComputedNode {
    StateComputedNode {
        selected_child: s.selection_depth > 0 && touched(g, done, s.selection_depth, j),
        selected_parent: !(s.selection_depth > 0) && touched(g, done, s.selection_depth, j),
        folded_child: swallowed(g, done, fold_depth(s.folding_depth), j),
        num_folded: if folded_in(g, done, j) {
            (g.span_nodes(j, fold_depth(s.folding_depth)).len() - 1) as usize
        } else {
            0
        },
        num_edges: if done.contains(j) {
            g.incident(j).len() as usize
        } else {
            0
        },
    }
}

/// The state of edge `e` once the nodes in `done` were looked at.
pub open spec fn edge_state(
    g: &Graph,
    s: SettingsInteraction,
    done: Set<usize>,
    e: usize,
) -> StateComputedEdge {
    StateComputedEdge {
        selected_child: s.selection_depth > 0 && crossed(g, done, s.selection_depth, e),
        selected_parent: !(s.selection_depth > 0) && crossed(g, done, s.selection_depth, e),
    }
}

/// The node states once the nodes in `done` were looked at: one for each
/// of them and for each node that a walk from them reached.
pub open spec fn derived_nodes(g: &Graph, s: SettingsInteraction, done: Set<usize>) -> Map<
    usize,
    StateComputedNode,
> {
    Map::new(
        |j: usize|
            done.contains(j) || touched(g, done, s.selection_depth, j) || swallowed(
                g,
                done,
                fold_depth(s.folding_depth),
                j,
            ),
        |j: usize| node_state(g, s, done, j),
    )
}

/// The edge states once the nodes in `done` and the edges in `seen` were
/// looked at.
pub open spec fn derived_edges(
    g: &Graph,
    s: SettingsInteraction,
    done: Set<usize>,
    seen: Set<usize>,
) -> Map<usize, StateComputedEdge> {
    Map::new(
        |e: usize| seen.contains(e) || crossed(g, done, s.selection_depth, e),
        |e: usize| edge_state(g, s, done, e),
    )
}

/// True when `d` is the node with the greatest index among the dragged
/// nodes in `done`, or `None` where none of them is dragged.
pub open spec fn last_dragged(g: &Graph, done: Set<usize>, d: Option<usize>) -> bool {
    match d {
        Some(i) => done.contains(i) && g.nodes()[i].dragged && forall|r: usize|
            done.contains(r) && g.nodes()[r].dragged ==> r <= i,
        None => forall|r: usize| done.contains(r) ==> !g.nodes()[r].dragged,
    }
}

/// A folded node counts what the walk from it reaches at the folding depth,
/// less the node itself.
pub proof fn lemma_folded_count(g: &Graph, s: SettingsInteraction, root: usize)
    requires
        g.wf(),
        g.has_node(root),
        g.nodes()[root].folded,
        g.span_nodes(root, fold_depth(s.folding_depth)).len() <= usize::MAX,
    ensures
        derived_nodes(g, s, g.nodes().dom()).dom().contains(root),
        derived_nodes(g, s, g.nodes().dom())[root].num_folded == g.span_nodes(
            root,
            fold_depth(s.folding_depth),
        ).len() - 1,
        g.span_nodes(root, fold_depth(s.folding_depth)).contains(root),
{
    let fd = fold_depth(s.folding_depth);
    let span = g.span_nodes(root, fd);
    g.lemma_reach_root(root, span_dir(fd), span_steps(fd));
    g.lemma_reach_inside(root, span_dir(fd), span_steps(fd));
    vstd::set_lib::lemma_len_subset(span, g.nodes().dom());
    assert(folded_in(g, g.nodes().dom(), root));
    if span.len() == 0 {
        assert(span =~= Set::<usize>::empty());
    }
}

/// Looking at one more node turns the states derived from `done` into
/// those derived from `done` and that node.
pub proof fn lemma_node_step(g: &Graph, s: SettingsInteraction, done: Set<usize>, idx: usize)
    requires
        g.has_node(idx),
        !done.contains(idx),
    ensures
        node_step(derived_nodes(g, s, done), g, idx, g.nodes()[idx], s) == derived_nodes(
            g,
            s,
            done.insert(idx),
        ),
        edge_step(
            derived_edges(g, s, done, Set::empty()),
            g,
            idx,
            g.nodes()[idx],
            s,
        ) == derived_edges(g, s, done.insert(idx), Set::empty()),
{
    let n = g.nodes()[idx];
    let more = done.insert(idx);
    let sd = s.selection_depth;
    let fd = fold_depth(s.folding_depth);
    assert forall|j: usize|
        touched(g, more, sd, j) <==> touched(g, done, sd, j) || (n.selected && j != idx
            && g.span_nodes(idx, sd).contains(j)) by {
        if touched(g, more, sd, j) {
            let r = choose|r: usize| #[trigger]
                selected_in(g, more, r) && r != j && g.span_nodes(r, sd).contains(j);
            if r != idx {
                assert(selected_in(g, done, r));
            }
        }
        if touched(g, done, sd, j) {
            let r = choose|r: usize| #[trigger]
                selected_in(g, done, r) && r != j && g.span_nodes(r, sd).contains(j);
            assert(selected_in(g, more, r));
        }
        if n.selected && j != idx && g.span_nodes(idx, sd).contains(j) {
            assert(selected_in(g, more, idx));
        }
    }
    assert forall|j: usize|
        swallowed(g, more, fd, j) <==> swallowed(g, done, fd, j) || (n.folded && j != idx
            && g.span_nodes(idx, fd).contains(j)) by {
        if swallowed(g, more, fd, j) {
            let r = choose|r: usize| #[trigger]
                folded_in(g, more, r) && r != j && g.span_nodes(r, fd).contains(j);
            if r != idx {
                assert(folded_in(g, done, r));
            }
        }
        if swallowed(g, done, fd, j) {
            let r = choose|r: usize| #[trigger]
                folded_in(g, done, r) && r != j && g.span_nodes(r, fd).contains(j);
            assert(folded_in(g, more, r));
        }
        if n.folded && j != idx && g.span_nodes(idx, fd).contains(j) {
            assert(folded_in(g, more, idx));
        }
    }
    assert forall|e: usize|
        crossed(g, more, sd, e) <==> crossed(g, done, sd, e) || (n.selected && g.span_edges(
            idx,
            sd,
        ).contains(e)) by {
        if crossed(g, more, sd, e) {
            let r = choose|r: usize| #[trigger]
                selected_in(g, more, r) && g.span_edges(r, sd).contains(e);
            if r != idx {
                assert(selected_in(g, done, r));
            }
        }
        if crossed(g, done, sd, e) {
            let r = choose|r: usize| #[trigger]
                selected_in(g, done, r) && g.span_edges(r, sd).contains(e);
            assert(selected_in(g, more, r));
        }
        if n.selected && g.span_edges(idx, sd).contains(e) {
            assert(selected_in(g, more, idx));
        }
    }
    let m = derived_nodes(g, s, done);
    let m0 = m.insert(idx, node_entry(m, idx));
    let m1 = after_selection(m0, g, idx, n, s);
    let m2 = after_folding(m1, g, idx, n, s);
    let m3 = node_step(m, g, idx, n, s);
    let goal = derived_nodes(g, s, more);
    assert(!folded_in(g, done, idx));
    assert forall|j: usize| m3.dom().contains(j) <==> goal.dom().contains(j) by {}
    assert forall|j: usize| m3.dom().contains(j) implies m3[j] == goal[j] by {
        assert(folded_in(g, more, j) <==> folded_in(g, done, j) || (j == idx && n.folded));
    }
    assert(m3 =~= goal);
    assert(edge_step(derived_edges(g, s, done, Set::empty()), g, idx, n, s) =~= derived_edges(
        g,
        s,
        more,
        Set::empty(),
    ));
}

/// Looking at one more node, greater than those looked at before, keeps
/// the records in step with the roots.
pub proof fn lemma_holds_step(
    before: &SubGraphs,
    after: &SubGraphs,
    g: &Graph,
    roots: Set<usize>,
    more: Set<usize>,
    depth: i32,
    idx: usize,
    picked: bool,
)
    requires
        before.holds(g, roots, depth),
        !before.has_root(idx),
        !roots.contains(idx),
        forall|r: usize| roots.contains(r) ==> r < idx,
        forall|r: usize| more.contains(r) <==> roots.contains(r) || (picked && r == idx),
        picked ==> after.added(before, g, idx, depth),
        !picked ==> after == before,
    ensures
        after.holds(g, more, depth),
{
    if picked {
        let n = before.data@.len() as int;
        assert(after.data@.len() == n + 1);
        assert forall|i: int| 0 <= i < n implies (#[trigger] after.data@[i]) == before.data@[i] by {
            assert(before.data@[i].root != idx);
        }
        assert forall|i: int, j: int| 0 <= i < j < after.data@.len() implies (
        #[trigger] after.data@[i]).root < (#[trigger] after.data@[j]).root by {
            if j == n {
                assert(roots.contains(before.data@[i].root));
            } else {
                assert(before.data@[i].root < before.data@[j].root);
            }
        }
        assert forall|i: int| 0 <= i < after.data@.len() implies more.contains(
            (#[trigger] after.data@[i]).root,
        ) && after.data@[i].spans(g, depth) by {
            if i < n {
                assert(roots.contains(before.data@[i].root));
            }
        }
        assert forall|r: usize| more.contains(r) implies after.has_root(r) by {
            if r != idx {
                assert(before.has_root(r));
                let i = choose|i: int|
                    0 <= i < before.data@.len() && (#[trigger] before.data@[i]).root == r;
                assert(after.data@[i].root == r);
            }
        }
    } else {
        assert(more =~= roots);
    }
}

/// What one frame derives from the graph: which node is dragged, what the
/// selected and the folded roots reach, and the state of each node and edge.
/// It is built anew in every frame.
#[derive(Debug, Clone)]
pub struct StateComputed {
    pub dragged: Option<usize>,
    pub selections: SubGraphs,
    pub foldings: SubGraphs,
    pub nodes: HashMap<usize, StateComputedNode>,
    pub edges: HashMap<usize, StateComputedEdge>,
}

impl Default for StateComputed {
    fn default() -> (c: Self)
        ensures
            c.blank(),
    {
        StateComputed {
            dragged: None,
            selections: SubGraphs::new(),
            foldings: SubGraphs::new(),
            nodes: HashMap::new(),
            edges: HashMap::new(),
        }
    }
}

impl StateComputed {
    /// True when nothing was derived yet.
    pub open spec fn blank(&self) -> bool {
        &&& self.dragged is None
        &&& self.selections.data@.len() == 0
        &&& self.foldings.data@.len() == 0
        &&& self.nodes@ == Map::<usize, StateComputedNode>::empty()
        &&& self.edges@ == Map::<usize, StateComputedEdge>::empty()
    }

    /// True when each root has one record.
    pub open spec fn wf(&self) -> bool {
        self.selections.wf() && self.foldings.wf()
    }

    /// Derives the state of a frame from the graph: looks at every node by
    /// ascending index, then at every edge.
    pub fn compute(g: &Graph, settings_interaction: &SettingsInteraction) -> (c: Self)
        requires
            g.wf(),
        ensures
            c.wf(),
            last_dragged(g, g.nodes().dom(), c.dragged),
            c.selections.holds(
                g,
                Set::new(|r: usize| selected_in(g, g.nodes().dom(), r)),
                settings_interaction.selection_depth,
            ),
            c.foldings.holds(
                g,
                Set::new(|r: usize| folded_in(g, g.nodes().dom(), r)),
                fold_depth(settings_interaction.folding_depth),
            ),
            c.nodes@.dom() == g.nodes().dom(),
            c.nodes@ == derived_nodes(g, *settings_interaction, g.nodes().dom()),
            c.edges@.dom() == g.edges().dom(),
            c.edges@ == derived_edges(
                g,
                *settings_interaction,
                g.nodes().dom(),
                g.edges().dom(),
            ),
            forall|j: usize| g.has_node(j) ==> g.incident(j).len() <= usize::MAX,
            forall|j: usize|
                g.has_node(j) && g.nodes()[j].folded ==> 1 <= g.span_nodes(
                    j,
                    fold_depth(settings_interaction.folding_depth),
                ).len() <= usize::MAX,
    {
        let mut c = StateComputed::default();
        let s = settings_interaction;
        let ghost sd = s.selection_depth;
        let ghost fd = fold_depth(s.folding_depth);
        let nodes = g.nodes_iter();
        let ghost mut done: Set<usize> = Set::empty();
        let mut k: usize = 0;
        proof {
            assert(c.nodes@ =~= derived_nodes(g, *s, done));
            assert(c.edges@ =~= derived_edges(g, *s, done, Set::empty()));
        }
        while k < nodes.len()
            invariant
                k <= nodes.len(),
                listed_in_order(nodes@, g.nodes()),
                sd == s.selection_depth,
                fd == fold_depth(s.folding_depth),
                c.wf(),
                forall|i: int| 0 <= i < k ==> done.contains(#[trigger] nodes@[i].0),
                forall|i: int| k <= i < nodes.len() ==> !done.contains(#[trigger] nodes@[i].0),
                forall|r: usize| done.contains(r) ==> g.has_node(r),
                forall|r: usize| done.contains(r) && k < nodes.len() ==> r < nodes@[k as int].0,
                last_dragged(g, done, c.dragged),
                c.selections.holds(g, Set::new(|r: usize| selected_in(g, done, r)), sd),
                c.foldings.holds(g, Set::new(|r: usize| folded_in(g, done, r)), fd),
                c.nodes@ == derived_nodes(g, *s, done),
                c.edges@ == derived_edges(g, *s, done, Set::empty()),
                forall|j: usize| done.contains(j) ==> g.incident(j).len() <= usize::MAX,
                forall|j: usize|
                    done.contains(j) && g.nodes()[j].folded ==> 1 <= g.span_nodes(j, fd).len()
                        <= usize::MAX,
            decreases nodes.len() - k,
        {
            let (idx, n) = nodes[k];
            let ghost before = c;
            proof {
                assert(g.nodes().dom().contains(nodes@[k as int].0));
                assert(!done.contains(nodes@[k as int].0));
                lemma_node_step(g, *s, done, idx);
            }
            c.compute_for_node(g, idx, &n, s);
            proof {
                let more = done.insert(idx);
                let sel_before = Set::new(|r: usize| selected_in(g, done, r));
                let sel_after = Set::new(|r: usize| selected_in(g, more, r));
                let fold_before = Set::new(|r: usize| folded_in(g, done, r));
                let fold_after = Set::new(|r: usize| folded_in(g, more, r));
                assert(!before.selections.has_root(idx)) by {
                    if before.selections.has_root(idx) {
                        let i = choose|i: int|
                            0 <= i < before.selections.data@.len() && (
                            #[trigger] before.selections.data@[i]).root == idx;
                        assert(sel_before.contains(before.selections.data@[i].root));
                    }
                }
                assert(!before.foldings.has_root(idx)) by {
                    if before.foldings.has_root(idx) {
                        let i = choose|i: int|
                            0 <= i < before.foldings.data@.len() && (
                            #[trigger] before.foldings.data@[i]).root == idx;
                        assert(fold_before.contains(before.foldings.data@[i].root));
                    }
                }
                assert(c.selections.holds(g, sel_after, sd)) by {
                    lemma_holds_step(
                        &before.selections,
                        &c.selections,
                        g,
                        sel_before,
                        sel_after,
                        sd,
                        idx,
                        n.selected,
                    );
                }
                assert(c.foldings.holds(g, fold_after, fd)) by {
                    lemma_holds_step(
                        &before.foldings,
                        &c.foldings,
                        g,
                        fold_before,
                        fold_after,
                        fd,
                        idx,
                        n.folded,
                    );
                }
                assert forall|i: int| k + 1 <= i < nodes.len() implies !more.contains(
                    #[trigger] nodes@[i].0,
                ) by {
                    assert(nodes@[k as int].0 < nodes@[i].0);
                }
                if k + 1 < nodes.len() {
                    assert(nodes@[k as int].0 < nodes@[k + 1].0);
                }
                done = more;
            }
            k = k + 1;
        }
        proof {
            assert forall|r: usize| g.has_node(r) implies done.contains(r) by {
                let i = choose|i: int| 0 <= i < nodes@.len() && nodes@[i].0 == r;
                assert(done.contains(nodes@[i].0));
            }
            assert(done =~= g.nodes().dom());
            assert(Set::new(|r: usize| selected_in(g, done, r)) =~= Set::new(
                |r: usize| selected_in(g, g.nodes().dom(), r),
            ));
            assert(Set::new(|r: usize| folded_in(g, done, r)) =~= Set::new(
                |r: usize| folded_in(g, g.nodes().dom(), r),
            ));
        }
        let edges = g.edges_iter();
        let ghost links = g.edges().map_values(|r: (usize, usize, crate::elements::Edge)| r.2);
        let ghost mut seen: Set<usize> = Set::empty();
        let mut q: usize = 0;
        while q < edges.len()
            invariant
                q <= edges.len(),
                done == g.nodes().dom(),
                links == g.edges().map_values(|r: (usize, usize, crate::elements::Edge)| r.2),
                listed_in_order(edges@, links),
                c.wf(),
                last_dragged(g, done, c.dragged),
                c.selections.holds(
                    g,
                    Set::new(|r: usize| selected_in(g, g.nodes().dom(), r)),
                    s.selection_depth,
                ),
                c.foldings.holds(
                    g,
                    Set::new(|r: usize| folded_in(g, g.nodes().dom(), r)),
                    fold_depth(s.folding_depth),
                ),
                c.nodes@ == derived_nodes(g, *s, done),
                c.edges@ == derived_edges(g, *s, done, seen),
                forall|i: int| 0 <= i < q ==> seen.contains(#[trigger] edges@[i].0),
                forall|e: usize| seen.contains(e) ==> g.has_edge(e),
            decreases edges.len() - q,
        {
            let (idx, _) = edges[q];
            proof {
                assert(links.dom().contains(edges@[q as int].0));
            }
            c.compute_for_edge(idx);
            proof {
                assert(c.edges@ =~= derived_edges(g, *s, done, seen.insert(idx)));
                seen = seen.insert(idx);
            }
            q = q + 1;
        }
        proof {
            assert forall|e: usize| g.has_edge(e) implies seen.contains(e) by {
                assert(links.dom().contains(e));
                let i = choose|i: int| 0 <= i < edges@.len() && edges@[i].0 == e;
                assert(seen.contains(edges@[i].0));
            }
            assert(seen =~= g.edges().dom());
            assert forall|e: usize| c.edges@.dom().contains(e) implies g.has_edge(e) by {
                if !seen.contains(e) {
                    let r = choose|r: usize| #[trigger]
                        selected_in(g, done, r) && g.span_edges(r, s.selection_depth).contains(e);
                    g.lemma_reach_inside(
                        r,
                        span_dir(s.selection_depth),
                        span_steps(s.selection_depth),
                    );
                }
            }
            assert(c.edges@.dom() =~= g.edges().dom());
            assert forall|j: usize| c.nodes@.dom().contains(j) implies g.has_node(j) by {
                if !done.contains(j) {
                    if touched(g, done, s.selection_depth, j) {
                        let r = choose|r: usize| #[trigger]
                            selected_in(g, done, r) && r != j && g.span_nodes(
                                r,
                                s.selection_depth,
                            ).contains(j);
                        g.lemma_reach_inside(
                            r,
                            span_dir(s.selection_depth),
                            span_steps(s.selection_depth),
                        );
                    } else {
                        let fd = fold_depth(s.folding_depth);
                        let r = choose|r: usize| #[trigger]
                            folded_in(g, done, r) && r != j && g.span_nodes(r, fd).contains(j);
                        g.lemma_reach_inside(r, span_dir(fd), span_steps(fd));
                    }
                }
            }
            assert(c.nodes@.dom() =~= g.nodes().dom());
        }
        c
    }

    /// Gives edge `idx` a blank state unless it has one.
    pub fn compute_for_edge(&mut self, idx: usize)
        ensures
            final(self).edges@ == old(self).edges@.insert(idx, edge_entry(old(self).edges@, idx)),
            final(self).nodes@ == old(self).nodes@,
            final(self).dragged == old(self).dragged,
            final(self).selections == old(self).selections,
            final(self).foldings == old(self).foldings,
    {
        let c = edge_or_blank(&self.edges, idx);
        self.edges.insert(idx, c);
    }

    /// Looks at node `idx` with state `n`: records it as the dragged node
    /// if it is dragged, walks from it if it is selected or folded, marks
    /// what the walks reach, and counts its edges.
    pub fn compute_for_node(
        &mut self,
        g: &Graph,
        idx: usize,
        n: &Node,
        settings_interaction: &SettingsInteraction,
    )
        requires
            old(self).wf(),
        ensures
            final(self).wf(),
            final(self).dragged == (if n.dragged {
                Some(idx)
            } else {
                old(self).dragged
            }),
            n.selected ==> final(self).selections.added(
                &old(self).selections,
                g,
                idx,
                settings_interaction.selection_depth,
            ),
            !n.selected ==> final(self).selections == old(self).selections,
            n.folded ==> final(self).foldings.added(
                &old(self).foldings,
                g,
                idx,
                fold_depth(settings_interaction.folding_depth),
            ),
            !n.folded ==> final(self).foldings == old(self).foldings,
            final(self).nodes@ == node_step(old(self).nodes@, g, idx, *n, *settings_interaction),
            final(self).edges@ == edge_step(old(self).edges@, g, idx, *n, *settings_interaction),
            g.incident(idx).len() <= usize::MAX,
            n.folded ==> 1 <= g.span_nodes(idx, fold_depth(settings_interaction.folding_depth)).len()
                <= usize::MAX,
    {
        let c = node_or_blank(&self.nodes, idx);
        self.nodes.insert(idx, c);
        let num = g.edges_num(idx);
        if n.dragged() {
            self.dragged = Some(idx);
        }
        self.compute_selection(
            g,
            idx,
            n,
            settings_interaction.selection_depth > 0,
            settings_interaction.selection_depth,
        );
        self.compute_folding(g, idx, n, settings_interaction.folding_depth);
        let mut c = node_or_blank(&self.nodes, idx);
        c.num_edges = num;
        self.nodes.insert(idx, c);
    }

    /// Walks from a selected root and marks what the walk reaches.
    fn compute_selection(
        &mut self,
        g: &Graph,
        root_idx: usize,
        root: &Node,
        child_mode: bool,
        depth: i32,
    )
        requires
            old(self).wf(),
        ensures
            final(self).wf(),
            final(self).dragged == old(self).dragged,
            final(self).foldings == old(self).foldings,
            !root.selected ==> final(self).selections == old(self).selections && final(self).nodes@
                == old(self).nodes@ && final(self).edges@ == old(self).edges@,
            root.selected ==> final(self).selections.added(&old(self).selections, g, root_idx, depth),
            root.selected ==> final(self).nodes@ == mark_nodes(
                old(self).nodes@,
                g.span_nodes(root_idx, depth),
                root_idx,
                selection_mark(child_mode),
            ),
            root.selected ==> final(self).edges@ == mark_edges(
                old(self).edges@,
                g.span_edges(root_idx, depth),
                selection_mark(child_mode),
            ),
    {
        if !root.selected() {
            return ;
        }
        self.selections.add_subgraph(g, root_idx, depth);
        let elements = self.selections.elements_by_root(root_idx);
        match elements {
            None => {},
            Some((nodes, edges)) => {
                let mark = if child_mode {
                    Mark::SelectedChild
                } else {
                    Mark::SelectedParent
                };
                mark_member_nodes(&mut self.nodes, &nodes, root_idx, mark);
                mark_member_edges(&mut self.edges, &edges, mark);
            },
        }
    }

    /// Walks from a folded root, counts what the walk reaches and marks it.
    fn compute_folding(&mut self, g: &Graph, root_idx: usize, root: &Node, depth: usize)
        requires
            old(self).wf(),
        ensures
            final(self).wf(),
            final(self).dragged == old(self).dragged,
            final(self).selections == old(self).selections,
            final(self).edges@ == old(self).edges@,
            !root.folded ==> final(self).foldings == old(self).foldings && final(self).nodes@
                == old(self).nodes@,
            root.folded ==> final(self).foldings.added(
                &old(self).foldings,
                g,
                root_idx,
                fold_depth(depth),
            ),
            root.folded ==> 1 <= g.span_nodes(root_idx, fold_depth(depth)).len() <= usize::MAX,
            root.folded ==> final(self).nodes@ == mark_nodes(
                old(self).nodes@.insert(
                    root_idx,
                    StateComputedNode {
                        num_folded: (g.span_nodes(root_idx, fold_depth(depth)).len() - 1) as usize,
                        ..node_entry(old(self).nodes@, root_idx)
                    },
                ),
                g.span_nodes(root_idx, fold_depth(depth)),
                root_idx,
                Mark::FoldedChild,
            ),
    {
        if !root.folded() {
            return ;
        }
        let depth_normalized: i32 = if depth > 2147483647usize {
            i32::MAX
        } else {
            depth as i32
        };
        self.foldings.add_subgraph(g, root_idx, depth_normalized);
        let elements = self.foldings.elements_by_root(root_idx);
        match elements {
            None => {},
            Some((nodes, _)) => {
                proof {
                    lemma_unique_len(nodes@);
                    g.lemma_reach_root(
                        root_idx,
                        span_dir(depth_normalized),
                        span_steps(depth_normalized),
                    );
                }
                let mut c = node_or_blank(&self.nodes, root_idx);
                c.num_folded = nodes.len() - 1;
                self.nodes.insert(root_idx, c);
                mark_member_nodes(&mut self.nodes, &nodes, root_idx, Mark::FoldedChild);
            },
        }
    }

    /// The state derived for node `idx`, if any.
    pub fn node_state(&self, idx: usize) -> (c: Option<StateComputedNode>)
        ensures
            c == (if self.nodes@.dom().contains(idx) {
                Some(self.nodes@[idx])
            } else {
                None
            }),
    {
        match self.nodes.get(&idx) {
            Some(c) => Some(*c),
            None => None,
        }
    }

    /// The state derived for edge `idx`, if any.
    pub fn edge_state(&self, idx: usize) -> (c: Option<StateComputedEdge>)
        ensures
            c == (if self.edges@.dom().contains(idx) {
                Some(self.edges@[idx])
            } else {
                None
            }),
    {
        match self.edges.get(&idx) {
            Some(c) => Some(*c),
            None => None,
        }
    }
}

} // verus!
