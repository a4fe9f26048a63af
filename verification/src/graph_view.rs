use vstd::prelude::*;
use crate::change::{Change, ChangeEdge, ChangeNode, ChangeSubgraph};
use crate::elements::Node;
use crate::graph::{Graph, NotFound};
use crate::settings::SettingsInteraction;
use crate::state_computed::StateComputed;
use crate::subgraphs::{SubGraph, SubGraphs};

verus! {

/// One of the flags of a node.
#[derive(Debug, Clone, Copy, PartialEq, Eq, Structural)]
pub enum Flag {
    Selected,
    Dragged,
    Folded,
}

pub open spec fn flag_of(n: Node, flag: Flag) -> bool {
    match flag {
        Flag::Selected => n.selected,
        Flag::Dragged => n.dragged,
        Flag::Folded => n.folded,
    }
}

pub open spec fn with_flag(n: Node, flag: Flag, val: bool) -> Node {
    match flag {
        Flag::Selected => Node { selected: val, ..n },
        Flag::Dragged => Node { dragged: val, ..n },
        Flag::Folded => Node { folded: val, ..n },
    }
}

/// The log entry for setting `flag` of node `id` from `old` to `new`.
pub open spec fn flag_change(id: usize, flag: Flag, old: bool, new: bool) -> Change {
    match flag {
        Flag::Selected => Change::Node(ChangeNode::Selected { id, old, new }),
        Flag::Dragged => Change::Node(ChangeNode::Dragged { id, old, new }),
        Flag::Folded => Change::Node(ChangeNode::Folded { id, old, new }),
    }
}

/// `nodes` with `flag` cleared on every node of `roots`.
pub open spec fn cleared(nodes: Map<usize, Node>, roots: Set<usize>, flag: Flag) -> Map<
    usize,
    Node,
> {
    Map::new(
        |j: usize| nodes.dom().contains(j),
        |j: usize|
            if roots.contains(j) {
                with_flag(nodes[j], flag, false)
            } else {
                nodes[j]
            },
    )
}

/// The log of clearing `flag` on the nodes of `roots`, one after the other.
pub open spec fn clear_log(nodes: Map<usize, Node>, roots: Seq<usize>, flag: Flag) -> Seq<Change> {
    Seq::new(roots.len(), |i: int| flag_change(roots[i], flag, flag_of(nodes[roots[i]], flag), false))
}

/// True when every one of `roots` is a node of `nodes`.
pub open spec fn all_present(nodes: Map<usize, Node>, roots: Seq<usize>) -> bool {
    forall|i: int| 0 <= i < roots.len() ==> nodes.dom().contains(#[trigger] roots[i])
}

/// True when `roots[i]` is the first of `roots` that `nodes` lacks.
pub open spec fn missing_at(nodes: Map<usize, Node>, roots: Seq<usize>, i: int) -> bool {
    &&& 0 <= i < roots.len()
    &&& !nodes.dom().contains(roots[i])
    &&& forall|k: int| 0 <= k < i ==> nodes.dom().contains(#[trigger] roots[k])
}

/// True when `e` names the first of `roots` that `nodes` lacks.
pub open spec fn names_missing(nodes: Map<usize, Node>, roots: Seq<usize>, e: NotFound) -> bool {
    exists|i: int| #[trigger] missing_at(nodes, roots, i) && e == NotFound::Node(roots[i])
}

/// The first of `roots` that `nodes` lacks, as an error.
pub open spec fn first_missing(nodes: Map<usize, Node>, roots: Seq<usize>) -> NotFound {
    NotFound::Node(roots[choose|i: int| missing_at(nodes, roots, i)])
}

/// Only one of `roots` is the first that `nodes` lacks.
pub proof fn lemma_first_missing(nodes: Map<usize, Node>, roots: Seq<usize>, e: NotFound)
    requires
        names_missing(nodes, roots, e),
    ensures
        e == first_missing(nodes, roots),
        !all_present(nodes, roots),
{
    let i = choose|i: int| #[trigger] missing_at(nodes, roots, i) && e == NotFound::Node(roots[i]);
    let j = choose|j: int| missing_at(nodes, roots, j);
    assert(missing_at(nodes, roots, j));
    if i < j {
        assert(nodes.dom().contains(roots[i]));
    } else if j < i {
        assert(nodes.dom().contains(roots[j]));
    }
}

/// What a handler does to the nodes, and what it appends to the log.
pub struct Effect {
    pub nodes: Map<usize, Node>,
    pub log: Seq<Change>,
}

/// The roots that a click on an unselected node deselects first: all of
/// them, unless several nodes may be selected at once.
pub open spec fn deselect_roots(s: SettingsInteraction, roots: Seq<usize>) -> Seq<usize> {
    if s.selection_multi_enabled {
        Seq::empty()
    } else {
        roots
    }
}

/// True when a click on node `idx` finds every node that it has to change.
pub open spec fn click_ok(
    s: SettingsInteraction,
    nodes: Map<usize, Node>,
    roots: Seq<usize>,
    idx: usize,
) -> bool {
    !s.selection_enabled || (nodes.dom().contains(idx) && (nodes[idx].selected || all_present(
        nodes,
        deselect_roots(s, roots),
    )))
}

/// The node that a failing click on node `idx` misses.
pub open spec fn click_error(
    s: SettingsInteraction,
    nodes: Map<usize, Node>,
    roots: Seq<usize>,
    idx: usize,
) -> NotFound {
    if !nodes.dom().contains(idx) {
        NotFound::Node(idx)
    } else {
        first_missing(nodes, deselect_roots(s, roots))
    }
}

/// What a click on node `idx` does, where `roots` are the selected nodes:
/// it is logged if clicks are reported; with selection switched on, a
/// selected node is deselected, and an unselected one is selected after the
/// others were deselected.
pub open spec fn click_effect(
    s: SettingsInteraction,
    nodes: Map<usize, Node>,
    roots: Seq<usize>,
    idx: usize,
) -> Effect {
    let clicked = if s.clicking_enabled {
        seq![Change::Node(ChangeNode::Clicked { id: idx })]
    } else {
        Seq::empty()
    };
    if !s.selection_enabled {
        Effect { nodes, log: clicked }
    } else if nodes[idx].selected {
        Effect {
            nodes: nodes.insert(idx, with_flag(nodes[idx], Flag::Selected, false)),
            log: clicked.push(flag_change(idx, Flag::Selected, true, false)),
        }
    } else {
        let others = deselect_roots(s, roots);
        let m = cleared(nodes, others.to_set(), Flag::Selected);
        Effect {
            nodes: m.insert(idx, with_flag(m[idx], Flag::Selected, true)),
            log: (clicked + clear_log(nodes, others, Flag::Selected)).push(
                flag_change(idx, Flag::Selected, false, true),
            ),
        }
    }
}

/// True when a double click on node `idx` finds every node that it has to
/// change.
pub open spec fn double_click_ok(
    s: SettingsInteraction,
    nodes: Map<usize, Node>,
    fold_roots: Seq<usize>,
    idx: usize,
) -> bool {
    !s.folding_enabled || (if fold_roots.len() > 0 {
        all_present(nodes, fold_roots)
    } else {
        nodes.dom().contains(idx)
    })
}

/// The node that a failing double click on node `idx` misses.
pub open spec fn double_click_error(
    nodes: Map<usize, Node>,
    fold_roots: Seq<usize>,
    idx: usize,
) -> NotFound {
    if fold_roots.len() > 0 {
        first_missing(nodes, fold_roots)
    } else {
        NotFound::Node(idx)
    }
}

/// What a double click on node `idx` does, where `fold_roots` are the
/// folded nodes: it is logged if clicks are reported; with folding switched
/// on, it unfolds every folded node if there is one, whichever node was
/// clicked, and folds node `idx` otherwise.
pub open spec fn double_click_effect(
    s: SettingsInteraction,
    nodes: Map<usize, Node>,
    fold_roots: Seq<usize>,
    idx: usize,
) -> Effect {
    let clicked = if s.clicking_enabled {
        seq![Change::Node(ChangeNode::DoubleClicked { id: idx })]
    } else {
        Seq::empty()
    };
    if !s.folding_enabled {
        Effect { nodes, log: clicked }
    } else if fold_roots.len() > 0 {
        Effect {
            nodes: cleared(nodes, fold_roots.to_set(), Flag::Folded),
            log: clicked + clear_log(nodes, fold_roots, Flag::Folded),
        }
    } else {
        Effect {
            nodes: nodes.insert(idx, with_flag(nodes[idx], Flag::Folded, true)),
            log: clicked.push(flag_change(idx, Flag::Folded, nodes[idx].folded, true)),
        }
    }
}

/// True when a click that hit `node` reaches a handler at all.
pub open spec fn click_counts(s: SettingsInteraction, clicked: bool, double_clicked: bool) -> bool {
    (clicked || double_clicked) && s.clickable()
}

/// True when a click finds every node that it has to change.
pub open spec fn handle_click_ok(
    s: SettingsInteraction,
    nodes: Map<usize, Node>,
    roots: Seq<usize>,
    fold_roots: Seq<usize>,
    clicked: bool,
    double_clicked: bool,
    node: Option<usize>,
) -> bool {
    if !click_counts(s, clicked, double_clicked) {
        true
    } else {
        match node {
            None => !s.selectable() || all_present(nodes, roots),
            Some(idx) => if double_clicked {
                double_click_ok(s, nodes, fold_roots, idx)
            } else {
                click_ok(s, nodes, roots, idx)
            },
        }
    }
}

/// The node that a failing click misses.
pub open spec fn handle_click_error(
    s: SettingsInteraction,
    nodes: Map<usize, Node>,
    roots: Seq<usize>,
    fold_roots: Seq<usize>,
    double_clicked: bool,
    node: Option<usize>,
) -> NotFound {
    match node {
        None => first_missing(nodes, roots),
        Some(idx) => if double_clicked {
            double_click_error(nodes, fold_roots, idx)
        } else {
            click_error(s, nodes, roots, idx)
        },
    }
}

/// What a click does: on empty space it deselects every selected node, on
/// a node it does what a click or a double click on that node does.
pub open spec fn handle_click_effect(
    s: SettingsInteraction,
    nodes: Map<usize, Node>,
    roots: Seq<usize>,
    fold_roots: Seq<usize>,
    clicked: bool,
    double_clicked: bool,
    node: Option<usize>,
) -> Effect {
    if !click_counts(s, clicked, double_clicked) {
        Effect { nodes, log: Seq::empty() }
    } else {
        match node {
            None => if s.selectable() {
                Effect {
                    nodes: cleared(nodes, roots.to_set(), Flag::Selected),
                    log: clear_log(nodes, roots, Flag::Selected),
                }
            } else {
                Effect { nodes, log: Seq::empty() }
            },
            Some(idx) => if double_clicked {
                double_click_effect(s, nodes, fold_roots, idx)
            } else {
                click_effect(s, nodes, roots, idx)
            },
        }
    }
}

/// The node that a drag picks up in this frame: the node under the pointer
/// when a drag starts while no node is held.
pub open spec fn drag_pick(
    drag_started: bool,
    hovered: Option<usize>,
    held: Option<usize>,
) -> Option<usize> {
    if drag_started && held is None {
        hovered
    } else {
        None
    }
}

/// The node that a drag moves in this frame: the one that was dragged when
/// the frame began.
pub open spec fn drag_move(dragged: bool, held: Option<usize>) -> Option<usize> {
    if dragged {
        held
    } else {
        None
    }
}

/// The node that a drag lets go in this frame.
pub open spec fn drag_drop(drag_released: bool, held: Option<usize>) -> Option<usize> {
    if drag_released {
        held
    } else {
        None
    }
}

/// True when a drag finds every node that it has to change.
pub open spec fn drag_ok(
    nodes: Map<usize, Node>,
    pick: Option<usize>,
    moved: Option<usize>,
    drop: Option<usize>,
) -> bool {
    &&& pick is Some ==> nodes.dom().contains(pick->0)
    &&& moved is Some ==> nodes.dom().contains(moved->0)
    &&& drop is Some ==> nodes.dom().contains(drop->0)
}

/// The node that a failing drag misses.
pub open spec fn drag_error(
    nodes: Map<usize, Node>,
    pick: Option<usize>,
    moved: Option<usize>,
    drop: Option<usize>,
) -> NotFound {
    if pick is Some && !nodes.dom().contains(pick->0) {
        NotFound::Node(pick->0)
    } else if moved is Some && !nodes.dom().contains(moved->0) {
        NotFound::Node(moved->0)
    } else {
        NotFound::Node(drop->0)
    }
}

/// What a drag does: the picked node is marked as dragged, the move of the
/// held node is logged, and the dropped node is marked as not dragged.
pub open spec fn drag_effect(
    nodes: Map<usize, Node>,
    pick: Option<usize>,
    moved: Option<usize>,
    drop: Option<usize>,
) -> Effect {
    let picked = match pick {
        Some(h) => Effect {
            nodes: nodes.insert(h, with_flag(nodes[h], Flag::Dragged, true)),
            log: seq![flag_change(h, Flag::Dragged, nodes[h].dragged, true)],
        },
        None => Effect { nodes, log: Seq::empty() },
    };
    let shifted = match moved {
        Some(d) => Effect {
            nodes: picked.nodes,
            log: picked.log.push(Change::Node(ChangeNode::Location { id: d })),
        },
        None => picked,
    };
    match drop {
        Some(d) => Effect {
            nodes: shifted.nodes.insert(d, with_flag(shifted.nodes[d], Flag::Dragged, false)),
            log: shifted.log.push(flag_change(d, Flag::Dragged, shifted.nodes[d].dragged, false)),
        },
        None => shifted,
    }
}

/// What the pointer did in one frame.
#[derive(Debug, Clone, Copy, PartialEq, Eq, Structural)]
pub struct Pointer {
    pub clicked: bool,
    pub double_clicked: bool,
    pub drag_started: bool,
    pub dragged: bool,
    pub drag_released: bool,
    /// The node under the pointer, if there is one.
    pub hovered: Option<usize>,
}

/// How the two handlers of a frame ended.
#[derive(Debug, Clone, Copy, PartialEq, Eq)]
pub struct Handled {
    /// The node that the caller has to move, or the node that the drag
    /// missed.
    pub drag: Result<Option<usize>, NotFound>,
    /// The node that the click missed, if it missed one.
    pub click: Result<(), NotFound>,
}

/// True when the drag of the frame changes anything: dragging is switched
/// on and the drag finds every node that it has to change.
pub open spec fn drag_applies(
    s: SettingsInteraction,
    nodes: Map<usize, Node>,
    p: Pointer,
    held: Option<usize>,
) -> bool {
    s.dragging_enabled && drag_ok(
        nodes,
        drag_pick(p.drag_started, p.hovered, held),
        drag_move(p.dragged, held),
        drag_drop(p.drag_released, held),
    )
}

/// What the drag of the frame does; nothing where it does not apply.
pub open spec fn drag_step(
    s: SettingsInteraction,
    nodes: Map<usize, Node>,
    p: Pointer,
    held: Option<usize>,
) -> Effect {
    if drag_applies(s, nodes, p, held) {
        drag_effect(
            nodes,
            drag_pick(p.drag_started, p.hovered, held),
            drag_move(p.dragged, held),
            drag_drop(p.drag_released, held),
        )
    } else {
        Effect { nodes, log: Seq::empty() }
    }
}

/// How the drag of the frame ends.
pub open spec fn drag_result(
    s: SettingsInteraction,
    nodes: Map<usize, Node>,
    p: Pointer,
    held: Option<usize>,
) -> Result<Option<usize>, NotFound> {
    if !s.dragging_enabled {
        Ok(None)
    } else if drag_applies(s, nodes, p, held) {
        Ok(drag_move(p.dragged, held))
    } else {
        Err(
            drag_error(
                nodes,
                drag_pick(p.drag_started, p.hovered, held),
                drag_move(p.dragged, held),
                drag_drop(p.drag_released, held),
            ),
        )
    }
}

/// What the click of the frame does; nothing where it misses a node.
pub open spec fn click_step(
    s: SettingsInteraction,
    nodes: Map<usize, Node>,
    roots: Seq<usize>,
    fold_roots: Seq<usize>,
    p: Pointer,
) -> Effect {
    if handle_click_ok(s, nodes, roots, fold_roots, p.clicked, p.double_clicked, p.hovered) {
        handle_click_effect(s, nodes, roots, fold_roots, p.clicked, p.double_clicked, p.hovered)
    } else {
        Effect { nodes, log: Seq::empty() }
    }
}

/// How the click of the frame ends.
pub open spec fn click_result(
    s: SettingsInteraction,
    nodes: Map<usize, Node>,
    roots: Seq<usize>,
    fold_roots: Seq<usize>,
    p: Pointer,
) -> Result<(), NotFound> {
    if handle_click_ok(s, nodes, roots, fold_roots, p.clicked, p.double_clicked, p.hovered) {
        Ok(())
    } else {
        Err(handle_click_error(s, nodes, roots, fold_roots, p.double_clicked, p.hovered))
    }
}

/// True when `c` reports what the selected root of `rec` reaches.
pub open spec fn reports_selected(c: Change, rec: SubGraph) -> bool {
    match c {
        Change::SubGraph(ChangeSubgraph::Selected { root, subgraph }) => root == rec.root
            && subgraph.root == rec.root && subgraph.nodes@ == rec.nodes@ && subgraph.edges@
            == rec.edges@,
        _ => false,
    }
}

/// True when `c` reports what the folded root of `rec` reaches.
pub open spec fn reports_folded(c: Change, rec: SubGraph) -> bool {
    match c {
        Change::SubGraph(ChangeSubgraph::Folded { root, subgraph }) => root == rec.root
            && subgraph.root == rec.root && subgraph.nodes@ == rec.nodes@ && subgraph.edges@
            == rec.edges@,
        _ => false,
    }
}

/// True when `c` sets a flag of a node, rather than clearing one.
pub open spec fn sets_flag(c: Change) -> bool {
    match c {
        Change::Node(ChangeNode::Selected { new, .. }) => new,
        Change::Node(ChangeNode::Dragged { new, .. }) => new,
        Change::Node(ChangeNode::Folded { new, .. }) => new,
        _ => false,
    }
}

/// A click on an unselected node selects it. The entry that says so ends
/// what the click logs, and it is the only entry of the click that sets a
/// flag.
pub proof fn lemma_click_selects(
    s: SettingsInteraction,
    nodes: Map<usize, Node>,
    roots: Seq<usize>,
    idx: usize,
)
    requires
        s.selection_enabled,
        nodes.dom().contains(idx),
        !nodes[idx].selected,
    ensures
        click_effect(s, nodes, roots, idx).nodes[idx].selected,
        click_effect(s, nodes, roots, idx).log.len() >= 1,
        click_effect(s, nodes, roots, idx).log.last() == Change::Node(
            ChangeNode::Selected { id: idx, old: false, new: true },
        ),
        forall|i: int|
            0 <= i < click_effect(s, nodes, roots, idx).log.len() - 1 ==> !sets_flag(
                #[trigger] click_effect(s, nodes, roots, idx).log[i],
            ),
{
}

/// A click on a selected node deselects it and changes no other node; the
/// entry that says so ends what the click logs. So a second click on a
/// node takes back what the first did to it.
pub proof fn lemma_click_deselects(
    s: SettingsInteraction,
    nodes: Map<usize, Node>,
    roots: Seq<usize>,
    idx: usize,
)
    requires
        s.selection_enabled,
        nodes.dom().contains(idx),
        nodes[idx].selected,
    ensures
        !click_effect(s, nodes, roots, idx).nodes[idx].selected,
        click_effect(s, nodes, roots, idx).log.last() == Change::Node(
            ChangeNode::Selected { id: idx, old: true, new: false },
        ),
        forall|i: int|
            0 <= i < click_effect(s, nodes, roots, idx).log.len() ==> !sets_flag(
                #[trigger] click_effect(s, nodes, roots, idx).log[i],
            ),
        forall|j: usize|
            nodes.dom().contains(j) && j != idx ==> click_effect(s, nodes, roots, idx).nodes[j]
                == nodes[j],
{
}

/// Where one node at a time is selected, a click on an unselected node `b`
/// deselects the selected node `a` first: the log holds the entry that
/// deselects `a` before the entry that selects `b`.
pub proof fn lemma_click_deselects_others(
    s: SettingsInteraction,
    nodes: Map<usize, Node>,
    roots: Seq<usize>,
    a: usize,
    b: usize,
)
    requires
        s.selection_enabled,
        !s.selection_multi_enabled,
        nodes.dom().contains(a),
        nodes.dom().contains(b),
        nodes[a].selected,
        !nodes[b].selected,
        roots.contains(a),
    ensures
        !click_effect(s, nodes, roots, b).nodes[a].selected,
        click_effect(s, nodes, roots, b).nodes[b].selected,
        exists|i: int|
            0 <= i < click_effect(s, nodes, roots, b).log.len() - 1 && #[trigger] click_effect(
                s,
                nodes,
                roots,
                b,
            ).log[i] == Change::Node(ChangeNode::Selected { id: a, old: true, new: false }),
        click_effect(s, nodes, roots, b).log.last() == Change::Node(
            ChangeNode::Selected { id: b, old: false, new: true },
        ),
{
    let eff = click_effect(s, nodes, roots, b);
    let k = choose|k: int| 0 <= k < roots.len() && roots[k] == a;
    let offset: int = if s.clicking_enabled {
        1
    } else {
        0
    };
    assert(roots.to_set().contains(a));
    assert(eff.log[offset + k] == Change::Node(
        ChangeNode::Selected { id: a, old: true, new: false },
    ));
}

/// While any node is folded, a double click unfolds every folded node,
/// whichever node it hits.
pub proof fn lemma_double_click_unfolds(
    s: SettingsInteraction,
    nodes: Map<usize, Node>,
    fold_roots: Seq<usize>,
    idx: usize,
)
    requires
        s.folding_enabled,
        fold_roots.len() > 0,
        forall|j: usize| nodes.dom().contains(j) && nodes[j].folded ==> fold_roots.contains(j),
    ensures
        forall|j: usize|
            nodes.dom().contains(j) ==> !(#[trigger] double_click_effect(
                s,
                nodes,
                fold_roots,
                idx,
            ).nodes[j]).folded,
{
    let eff = double_click_effect(s, nodes, fold_roots, idx);
    assert forall|j: usize| nodes.dom().contains(j) implies !(#[trigger] eff.nodes[j]).folded by {
        if nodes[j].folded {
            assert(fold_roots.to_set().contains(j));
        }
    }
}

/// While no node is folded, a double click folds the node that it hits.
pub proof fn lemma_double_click_folds(
    s: SettingsInteraction,
    nodes: Map<usize, Node>,
    idx: usize,
)
    requires
        s.folding_enabled,
        nodes.dom().contains(idx),
    ensures
        double_click_effect(s, nodes, Seq::empty(), idx).nodes[idx].folded,
        double_click_effect(s, nodes, Seq::empty(), idx).log.last() == Change::Node(
            ChangeNode::Folded { id: idx, old: nodes[idx].folded, new: true },
        ),
{
}

/// The records that a frame derives name every selected, or every folded,
/// node as a root.
pub proof fn lemma_roots_cover(
    records: &SubGraphs,
    g: &Graph,
    roots: Set<usize>,
    depth: i32,
    r: usize,
)
    requires
        records.holds(g, roots, depth),
        roots.contains(r),
    ensures
        root_seq(records).contains(r),
        records.wf(),
{
    assert(records.has_root(r));
    let i = choose|i: int| 0 <= i < records.data@.len() && (#[trigger] records.data@[i]).root == r;
    assert(root_seq(records)[i] == r);
}

/// While any node is folded, a double click in a frame that was derived
/// from the graph leaves no node folded, whichever node it hits.
pub proof fn lemma_double_click_unfolds_all(
    s: SettingsInteraction,
    g: &Graph,
    foldings: &SubGraphs,
    depth: i32,
    folded: usize,
    idx: usize,
)
    requires
        s.folding_enabled,
        g.has_node(folded),
        g.nodes()[folded].folded,
        foldings.holds(
            g,
            Set::new(|r: usize| crate::state_computed::folded_in(g, g.nodes().dom(), r)),
            depth,
        ),
    ensures
        double_click_ok(s, g.nodes(), root_seq(foldings), idx),
        forall|j: usize|
            g.has_node(j) ==> !(#[trigger] double_click_effect(
                s,
                g.nodes(),
                root_seq(foldings),
                idx,
            ).nodes[j]).folded,
{
    let roots = Set::new(|r: usize| crate::state_computed::folded_in(g, g.nodes().dom(), r));
    let listed = root_seq(foldings);
    lemma_roots_cover(foldings, g, roots, depth, folded);
    assert forall|j: usize| g.nodes().dom().contains(j) && g.nodes()[j].folded implies listed.contains(
        j,
    ) by {
        assert(roots.contains(j));
        lemma_roots_cover(foldings, g, roots, depth, j);
    }
    assert forall|i: int| 0 <= i < listed.len() implies g.nodes().dom().contains(
        #[trigger] listed[i],
    ) by {
        assert(roots.contains(foldings.data@[i].root));
    }
    lemma_double_click_unfolds(s, g.nodes(), listed, idx);
}

/// The roots of the records, in the sequence of the records.
pub open spec fn root_seq(s: &SubGraphs) -> Seq<usize> {
    Seq::new(s.data@.len(), |i: int| s.data@[i].root)
}

/// The interaction engine of a graph view: it owns the graph for the frame,
/// reacts to what the pointer did, and logs every change it makes.
pub struct GraphView {
    pub settings_interaction: SettingsInteraction,
    pub g: Graph,
    pub changes: Vec<Change>,
}

impl GraphView {
    /// A view of `g` with every interaction switched off and an empty log.
    pub fn new(g: Graph) -> (v: Self)
        ensures
            v.g == g,
            v.settings_interaction == SettingsInteraction::spec_default(),
            v.changes@ == Seq::<Change>::empty(),
    {
        GraphView { settings_interaction: SettingsInteraction::new(), g, changes: Vec::new() }
    }

    /// Makes the view react as the settings say.
    pub fn with_interactions(self, settings_interaction: &SettingsInteraction) -> (v: Self)
        ensures
            v.g == self.g,
            v.changes == self.changes,
            v.settings_interaction == *settings_interaction,
    {
        let mut v = self;
        v.settings_interaction = *settings_interaction;
        v
    }

    /// Hands out the log of the frame and starts a new one.
    pub fn take_changes(&mut self) -> (log: Vec<Change>)
        ensures
            log == old(self).changes,
            final(self).changes@ == Seq::<Change>::empty(),
            final(self).g == old(self).g,
            final(self).settings_interaction == old(self).settings_interaction,
    {
        let mut log: Vec<Change> = Vec::new();
        std::mem::swap(&mut self.changes, &mut log);
        log
    }

    /// Derives the state of the frame from the graph.
    pub fn compute_computed(&self) -> (c: StateComputed)
        requires
            self.g.wf(),
        ensures
            c.wf(),
            c.nodes@.dom() == self.g.nodes().dom(),
            c.nodes@ == crate::state_computed::derived_nodes(
                &self.g,
                self.settings_interaction,
                self.g.nodes().dom(),
            ),
            c.edges@.dom() == self.g.edges().dom(),
            c.edges@ == crate::state_computed::derived_edges(
                &self.g,
                self.settings_interaction,
                self.g.nodes().dom(),
                self.g.edges().dom(),
            ),
            crate::state_computed::last_dragged(&self.g, self.g.nodes().dom(), c.dragged),
            c.selections.holds(
                &self.g,
                Set::new(
                    |r: usize| crate::state_computed::selected_in(&self.g, self.g.nodes().dom(), r),
                ),
                self.settings_interaction.selection_depth,
            ),
            c.foldings.holds(
                &self.g,
                Set::new(
                    |r: usize| crate::state_computed::folded_in(&self.g, self.g.nodes().dom(), r),
                ),
                crate::state_computed::fold_depth(self.settings_interaction.folding_depth),
            ),
    {
        StateComputed::compute(&self.g, &self.settings_interaction)
    }

    fn send_changes(&mut self, change: Change)
        ensures
            final(self).changes@ == old(self).changes@.push(change),
            final(self).g == old(self).g,
            final(self).settings_interaction == old(self).settings_interaction,
    {
        self.changes.push(change);
    }

    /// Sets one flag of node `idx` and logs the change.
    fn set_flag(&mut self, idx: usize, flag: Flag, val: bool) -> (r: Result<(), NotFound>)
        requires
            old(self).g.wf(),
        ensures
            final(self).g.wf(),
            final(self).g.edges() == old(self).g.edges(),
            final(self).g.directed() == old(self).g.directed(),
            final(self).settings_interaction == old(self).settings_interaction,
            r is Ok <==> old(self).g.has_node(idx),
            r is Ok ==> final(self).g.nodes() == old(self).g.nodes().insert(
                idx,
                with_flag(old(self).g.nodes()[idx], flag, val),
            ) && final(self).changes@ == old(self).changes@.push(
                flag_change(idx, flag, flag_of(old(self).g.nodes()[idx], flag), val),
            ),
            r is Err ==> r == Err::<(), NotFound>(NotFound::Node(idx)) && *final(self) == *old(self),
    {
        match self.g.node(idx) {
            None => Err(NotFound::Node(idx)),
            Some(n) => {
                let mut changed = n;
                let change = match flag {
                    Flag::Selected => {
                        changed.set_selected(val);
                        ChangeNode::change_selected(idx, n.selected(), val)
                    },
                    Flag::Dragged => {
                        changed.set_dragged(val);
                        ChangeNode::change_dragged(idx, n.dragged(), val)
                    },
                    Flag::Folded => {
                        changed.set_folded(val);
                        ChangeNode::change_folded(idx, n.folded(), val)
                    },
                };
                let _ = self.g.set_node(idx, changed);
                self.send_changes(Change::node(change));
                Ok(())
            },
        }
    }

    /// Selects or deselects node `idx` and logs the change.
    pub fn set_node_selected(&mut self, idx: usize, val: bool) -> (r: Result<(), NotFound>)
        requires
            old(self).g.wf(),
        ensures
            final(self).g.wf(),
            final(self).g.edges() == old(self).g.edges(),
            final(self).g.directed() == old(self).g.directed(),
            final(self).settings_interaction == old(self).settings_interaction,
            r is Ok <==> old(self).g.has_node(idx),
            r is Ok ==> final(self).g.nodes() == old(self).g.nodes().insert(
                idx,
                Node { selected: val, ..old(self).g.nodes()[idx] },
            ) && final(self).changes@ == old(self).changes@.push(
                Change::Node(
                    ChangeNode::Selected {
                        id: idx,
                        old: old(self).g.nodes()[idx].selected,
                        new: val,
                    },
                ),
            ),
            r is Err ==> r == Err::<(), NotFound>(NotFound::Node(idx)) && *final(self) == *old(self),
    {
        self.set_flag(idx, Flag::Selected, val)
    }

    /// Folds or unfolds node `idx` and logs the change.
    pub fn set_node_folded(&mut self, idx: usize, val: bool) -> (r: Result<(), NotFound>)
        requires
            old(self).g.wf(),
        ensures
            final(self).g.wf(),
            final(self).g.edges() == old(self).g.edges(),
            final(self).g.directed() == old(self).g.directed(),
            final(self).settings_interaction == old(self).settings_interaction,
            r is Ok <==> old(self).g.has_node(idx),
            r is Ok ==> final(self).g.nodes() == old(self).g.nodes().insert(
                idx,
                Node { folded: val, ..old(self).g.nodes()[idx] },
            ) && final(self).changes@ == old(self).changes@.push(
                Change::Node(
                    ChangeNode::Folded { id: idx, old: old(self).g.nodes()[idx].folded, new: val },
                ),
            ),
            r is Err ==> r == Err::<(), NotFound>(NotFound::Node(idx)) && *final(self) == *old(self),
    {
        self.set_flag(idx, Flag::Folded, val)
    }

    /// Marks node `idx` as dragged or not and logs the change.
    pub fn set_dragged(&mut self, idx: usize, val: bool) -> (r: Result<(), NotFound>)
        requires
            old(self).g.wf(),
        ensures
            final(self).g.wf(),
            final(self).g.edges() == old(self).g.edges(),
            final(self).g.directed() == old(self).g.directed(),
            final(self).settings_interaction == old(self).settings_interaction,
            r is Ok <==> old(self).g.has_node(idx),
            r is Ok ==> final(self).g.nodes() == old(self).g.nodes().insert(
                idx,
                Node { dragged: val, ..old(self).g.nodes()[idx] },
            ) && final(self).changes@ == old(self).changes@.push(
                Change::Node(
                    ChangeNode::Dragged {
                        id: idx,
                        old: old(self).g.nodes()[idx].dragged,
                        new: val,
                    },
                ),
            ),
            r is Err ==> r == Err::<(), NotFound>(NotFound::Node(idx)) && *final(self) == *old(self),
    {
        self.set_flag(idx, Flag::Dragged, val)
    }

    /// Selects or deselects edge `idx` and logs the change.
    pub fn set_edge_selected(&mut self, idx: usize, val: bool) -> (r: Result<(), NotFound>)
        requires
            old(self).g.wf(),
        ensures
            final(self).g.wf(),
            final(self).g.nodes() == old(self).g.nodes(),
            final(self).g.directed() == old(self).g.directed(),
            final(self).settings_interaction == old(self).settings_interaction,
            r is Ok <==> old(self).g.has_edge(idx),
            r is Ok ==> final(self).g.edges() == old(self).g.edges().insert(
                idx,
                (
                    old(self).g.source(idx),
                    old(self).g.target(idx),
                    crate::elements::Edge { selected: val, ..old(self).g.edges()[idx].2 },
                ),
            ) && final(self).changes@ == old(self).changes@.push(
                Change::Edge(
                    ChangeEdge::Selected {
                        id: idx,
                        old: old(self).g.edges()[idx].2.selected,
                        new: val,
                    },
                ),
            ),
            r is Err ==> r == Err::<(), NotFound>(NotFound::Edge(idx)) && *final(self) == *old(self),
    {
        match self.g.edge(idx) {
            None => Err(NotFound::Edge(idx)),
            Some(e) => {
                let change = ChangeEdge::change_selected(idx, e.selected(), val);
                let _ = self.g.set_edge_selected(idx, val);
                self.send_changes(Change::edge(change));
                Ok(())
            },
        }
    }

    /// Logs a click on node `idx`.
    pub fn set_node_clicked(&mut self, idx: usize)
        ensures
            final(self).changes@ == old(self).changes@.push(
                Change::Node(ChangeNode::Clicked { id: idx }),
            ),
            final(self).g == old(self).g,
            final(self).settings_interaction == old(self).settings_interaction,
    {
        let change = ChangeNode::clicked(idx);
        self.send_changes(Change::node(change));
    }

    /// Logs a double click on node `idx`.
    pub fn set_node_double_clicked(&mut self, idx: usize)
        ensures
            final(self).changes@ == old(self).changes@.push(
                Change::Node(ChangeNode::DoubleClicked { id: idx }),
            ),
            final(self).g == old(self).g,
            final(self).settings_interaction == old(self).settings_interaction,
    {
        let change = ChangeNode::double_clicked(idx);
        self.send_changes(Change::node(change));
    }

    /// Logs that the pointer moved node `idx`.
    pub fn move_node(&mut self, idx: usize) -> (r: Result<(), NotFound>)
        ensures
            final(self).g == old(self).g,
            final(self).settings_interaction == old(self).settings_interaction,
            r is Ok <==> old(self).g.has_node(idx),
            r is Ok ==> final(self).changes@ == old(self).changes@.push(
                Change::Node(ChangeNode::Location { id: idx }),
            ),
            r is Err ==> r == Err::<(), NotFound>(NotFound::Node(idx)) && final(self).changes@
                == old(self).changes@,
    {
        if self.g.node(idx).is_none() {
            return Err(NotFound::Node(idx));
        }
        let change = ChangeNode::change_location(idx);
        self.send_changes(Change::node(change));
        Ok(())
    }

    /// The roots of `records` as a list.
    fn roots_of(records: &SubGraphs) -> (v: Vec<usize>)
        requires
            records.wf(),
        ensures
            v@ == root_seq(records),
            v@.no_duplicates(),
    {
        let v = records.roots();
        assert(v@ =~= root_seq(records));
        v
    }

    /// Deselects every selected node, as the frame found them, and logs
    /// each change. Nothing is changed when the graph lacks one of them.
    pub fn deselect_all(&mut self, comp: &StateComputed) -> (r: Result<(), NotFound>)
        requires
            old(self).g.wf(),
            comp.wf(),
        ensures
            final(self).g.wf(),
            final(self).g.edges() == old(self).g.edges(),
            final(self).g.directed() == old(self).g.directed(),
            final(self).settings_interaction == old(self).settings_interaction,
            r is Ok <==> all_present(old(self).g.nodes(), root_seq(&comp.selections)),
            r is Ok ==> final(self).g.nodes() == cleared(
                old(self).g.nodes(),
                root_seq(&comp.selections).to_set(),
                Flag::Selected,
            ) && final(self).changes@ == old(self).changes@ + clear_log(
                old(self).g.nodes(),
                root_seq(&comp.selections),
                Flag::Selected,
            ),
            r is Err ==> r->Err_0 == first_missing(old(self).g.nodes(), root_seq(&comp.selections))
                && *final(self) == *old(self),
    {
        if comp.selections.is_empty() {
            proof {
                let roots = root_seq(&comp.selections);
                assert(roots.to_set() =~= Set::<usize>::empty());
                assert(self.g.nodes() =~= cleared(self.g.nodes(), roots.to_set(), Flag::Selected));
                assert(self.changes@ =~= self.changes@ + clear_log(
                    self.g.nodes(),
                    roots,
                    Flag::Selected,
                ));
            }
            return Ok(());
        }
        let roots = Self::roots_of(&comp.selections);
        let r = self.clear_all(&roots, Flag::Selected);
        proof {
            if r is Err {
                lemma_first_missing(old(self).g.nodes(), roots@, r->Err_0);
            }
        }
        r
    }

    /// Reacts to a click on node `idx`.
    pub fn handle_node_click(&mut self, idx: usize, comp: &StateComputed) -> (r: Result<
        (),
        NotFound,
    >)
        requires
            old(self).g.wf(),
            comp.wf(),
        ensures
            final(self).g.wf(),
            final(self).g.edges() == old(self).g.edges(),
            final(self).g.directed() == old(self).g.directed(),
            final(self).settings_interaction == old(self).settings_interaction,
            r is Ok <==> click_ok(
                old(self).settings_interaction,
                old(self).g.nodes(),
                root_seq(&comp.selections),
                idx,
            ),
            r is Ok ==> final(self).g.nodes() == click_effect(
                old(self).settings_interaction,
                old(self).g.nodes(),
                root_seq(&comp.selections),
                idx,
            ).nodes && final(self).changes@ == old(self).changes@ + click_effect(
                old(self).settings_interaction,
                old(self).g.nodes(),
                root_seq(&comp.selections),
                idx,
            ).log,
            r is Err ==> r->Err_0 == click_error(
                old(self).settings_interaction,
                old(self).g.nodes(),
                root_seq(&comp.selections),
                idx,
            ) && *final(self) == *old(self),
    {
        let s = self.settings_interaction;
        let ghost nodes = self.g.nodes();
        let ghost log = self.changes@;
        let ghost eff = click_effect(s, nodes, root_seq(&comp.selections), idx);
        if !s.selection_enabled {
            if s.clicking_enabled {
                self.set_node_clicked(idx);
            }
            assert(self.changes@ =~= log + eff.log);
            return Ok(());
        }
        let n = match self.g.node(idx) {
            None => {
                return Err(NotFound::Node(idx));
            },
            Some(n) => n,
        };
        if n.selected() {
            if s.clicking_enabled {
                self.set_node_clicked(idx);
            }
            let _ = self.set_node_selected(idx, false);
            assert(self.changes@ =~= log + eff.log);
            return Ok(());
        }
        let roots = if s.selection_multi_enabled {
            Vec::new()
        } else {
            Self::roots_of(&comp.selections)
        };
        assert(roots@ =~= deselect_roots(s, root_seq(&comp.selections)));
        match self.find_missing(&roots) {
            Some(e) => {
                proof {
                    lemma_first_missing(nodes, roots@, e);
                }
                return Err(e);
            },
            None => {},
        }
        if s.clicking_enabled {
            self.set_node_clicked(idx);
        }
        let _ = self.clear_all(&roots, Flag::Selected);
        let _ = self.set_node_selected(idx, true);
        proof {
            assert(self.g.nodes() =~= eff.nodes);
            assert(self.changes@ =~= log + eff.log);
        }
        Ok(())
    }

    /// Reacts to a double click on node `idx`.
    pub fn handle_node_double_click(&mut self, idx: usize, comp: &StateComputed) -> (r: Result<
        (),
        NotFound,
    >)
        requires
            old(self).g.wf(),
            comp.wf(),
        ensures
            final(self).g.wf(),
            final(self).g.edges() == old(self).g.edges(),
            final(self).g.directed() == old(self).g.directed(),
            final(self).settings_interaction == old(self).settings_interaction,
            r is Ok <==> double_click_ok(
                old(self).settings_interaction,
                old(self).g.nodes(),
                root_seq(&comp.foldings),
                idx,
            ),
            r is Ok ==> final(self).g.nodes() == double_click_effect(
                old(self).settings_interaction,
                old(self).g.nodes(),
                root_seq(&comp.foldings),
                idx,
            ).nodes && final(self).changes@ == old(self).changes@ + double_click_effect(
                old(self).settings_interaction,
                old(self).g.nodes(),
                root_seq(&comp.foldings),
                idx,
            ).log,
            r is Err ==> r->Err_0 == double_click_error(
                old(self).g.nodes(),
                root_seq(&comp.foldings),
                idx,
            ) && *final(self) == *old(self),
    {
        let s = self.settings_interaction;
        let ghost nodes = self.g.nodes();
        let ghost log = self.changes@;
        let ghost eff = double_click_effect(s, nodes, root_seq(&comp.foldings), idx);
        if !s.folding_enabled {
            if s.clicking_enabled {
                self.set_node_double_clicked(idx);
            }
            assert(self.changes@ =~= log + eff.log);
            return Ok(());
        }
        if !comp.foldings.is_empty() {
            let roots = Self::roots_of(&comp.foldings);
            match self.find_missing(&roots) {
                Some(e) => {
                    proof {
                        lemma_first_missing(nodes, roots@, e);
                    }
                    return Err(e);
                },
                None => {},
            }
            if s.clicking_enabled {
                self.set_node_double_clicked(idx);
            }
            let _ = self.clear_all(&roots, Flag::Folded);
            assert(self.changes@ =~= log + eff.log);
            return Ok(());
        }
        if self.g.node(idx).is_none() {
            return Err(NotFound::Node(idx));
        }
        if s.clicking_enabled {
            self.set_node_double_clicked(idx);
        }
        let _ = self.set_node_folded(idx, true);
        assert(self.changes@ =~= log + eff.log);
        Ok(())
    }

    /// Reacts to a click or a double click of this frame. `node` is the
    /// node under the pointer, if there is one.
    pub fn handle_click(
        &mut self,
        clicked: bool,
        double_clicked: bool,
        node: Option<usize>,
        comp: &StateComputed,
    ) -> (r: Result<(), NotFound>)
        requires
            old(self).g.wf(),
            comp.wf(),
        ensures
            final(self).g.wf(),
            final(self).g.edges() == old(self).g.edges(),
            final(self).g.directed() == old(self).g.directed(),
            final(self).settings_interaction == old(self).settings_interaction,
            r is Ok <==> handle_click_ok(
                old(self).settings_interaction,
                old(self).g.nodes(),
                root_seq(&comp.selections),
                root_seq(&comp.foldings),
                clicked,
                double_clicked,
                node,
            ),
            r is Ok ==> final(self).g.nodes() == handle_click_effect(
                old(self).settings_interaction,
                old(self).g.nodes(),
                root_seq(&comp.selections),
                root_seq(&comp.foldings),
                clicked,
                double_clicked,
                node,
            ).nodes && final(self).changes@ == old(self).changes@ + handle_click_effect(
                old(self).settings_interaction,
                old(self).g.nodes(),
                root_seq(&comp.selections),
                root_seq(&comp.foldings),
                clicked,
                double_clicked,
                node,
            ).log,
            r is Err ==> r->Err_0 == handle_click_error(
                old(self).settings_interaction,
                old(self).g.nodes(),
                root_seq(&comp.selections),
                root_seq(&comp.foldings),
                double_clicked,
                node,
            ) && *final(self) == *old(self),
    {
        let s = self.settings_interaction;
        let ghost log = self.changes@;
        if !clicked && !double_clicked {
            assert(self.changes@ =~= log + Seq::<Change>::empty());
            return Ok(());
        }
        let clickable = s.clicking_enabled || s.selection_enabled || s.selection_multi_enabled
            || s.folding_enabled;
        if !clickable {
            assert(self.changes@ =~= log + Seq::<Change>::empty());
            return Ok(());
        }
        match node {
            None => {
                let selectable = s.selection_enabled || s.selection_multi_enabled;
                if selectable {
                    self.deselect_all(comp)
                } else {
                    assert(self.changes@ =~= log + Seq::<Change>::empty());
                    Ok(())
                }
            },
            Some(idx) => {
                if double_clicked {
                    self.handle_node_double_click(idx, comp)
                } else {
                    self.handle_node_click(idx, comp)
                }
            },
        }
    }

    /// Reacts to the drag of this frame. `hovered` is the node under the
    /// pointer, if there is one; the node that was dragged when the frame
    /// began is taken from `comp`. Returns the node that the caller has to
    /// move by the distance that the pointer went.
    pub fn handle_node_drag(
        &mut self,
        drag_started: bool,
        dragged: bool,
        drag_released: bool,
        hovered: Option<usize>,
        comp: &StateComputed,
    ) -> (r: Result<Option<usize>, NotFound>)
        requires
            old(self).g.wf(),
        ensures
            final(self).g.wf(),
            final(self).g.edges() == old(self).g.edges(),
            final(self).g.directed() == old(self).g.directed(),
            final(self).settings_interaction == old(self).settings_interaction,
            !old(self).settings_interaction.dragging_enabled ==> r == Ok::<Option<usize>, NotFound>(
                None,
            ) && *final(self) == *old(self),
            old(self).settings_interaction.dragging_enabled ==> {
                let pick = drag_pick(drag_started, hovered, comp.dragged);
                let moved = drag_move(dragged, comp.dragged);
                let drop = drag_drop(drag_released, comp.dragged);
                let nodes = old(self).g.nodes();
                &&& r is Ok <==> drag_ok(nodes, pick, moved, drop)
                &&& r is Ok ==> r->Ok_0 == moved && final(self).g.nodes() == drag_effect(
                    nodes,
                    pick,
                    moved,
                    drop,
                ).nodes && final(self).changes@ == old(self).changes@ + drag_effect(
                    nodes,
                    pick,
                    moved,
                    drop,
                ).log
                &&& r is Err ==> r->Err_0 == drag_error(nodes, pick, moved, drop) && *final(self)
                    == *old(self)
            },
    {
        if !self.settings_interaction.dragging_enabled {
            return Ok(None);
        }
        let pick = if drag_started && comp.dragged.is_none() {
            hovered
        } else {
            None
        };
        let moved = if dragged {
            comp.dragged
        } else {
            None
        };
        let drop = if drag_released {
            comp.dragged
        } else {
            None
        };
        let ghost nodes = self.g.nodes();
        let ghost log = self.changes@;
        let ghost eff = drag_effect(nodes, pick, moved, drop);
        match pick {
            Some(h) => {
                if self.g.node(h).is_none() {
                    return Err(NotFound::Node(h));
                }
            },
            None => {},
        }
        match moved {
            Some(d) => {
                if self.g.node(d).is_none() {
                    return Err(NotFound::Node(d));
                }
            },
            None => {},
        }
        match drop {
            Some(d) => {
                if self.g.node(d).is_none() {
                    return Err(NotFound::Node(d));
                }
            },
            None => {},
        }
        match pick {
            Some(h) => {
                let _ = self.set_dragged(h, true);
            },
            None => {},
        }
        match moved {
            Some(d) => {
                let _ = self.move_node(d);
            },
            None => {},
        }
        match drop {
            Some(d) => {
                let _ = self.set_dragged(d, false);
            },
            None => {},
        }
        proof {
            assert(self.g.nodes() =~= eff.nodes);
            assert(self.changes@ =~= log + eff.log);
        }
        Ok(moved)
    }

    /// Handles the pointer of one frame: first the drag, then the click,
    /// each on the graph as the handler before left it; a handler that
    /// misses a node changes nothing and does not stop the next. What the
    /// selected and the folded roots of `comp` reach is logged last.
    pub fn handle_pointer(&mut self, pointer: &Pointer, comp: &StateComputed) -> (h: Handled)
        requires
            old(self).g.wf(),
            comp.wf(),
        ensures
            final(self).g.wf(),
            final(self).g.edges() == old(self).g.edges(),
            final(self).g.directed() == old(self).g.directed(),
            final(self).settings_interaction == old(self).settings_interaction,
            ({
                let s = old(self).settings_interaction;
                let roots = root_seq(&comp.selections);
                let fold_roots = root_seq(&comp.foldings);
                let first = drag_step(s, old(self).g.nodes(), *pointer, comp.dragged);
                let second = click_step(s, first.nodes, roots, fold_roots, *pointer);
                let handled = old(self).changes@ + first.log + second.log;
                &&& h.drag == drag_result(s, old(self).g.nodes(), *pointer, comp.dragged)
                &&& h.click == click_result(s, first.nodes, roots, fold_roots, *pointer)
                &&& final(self).g.nodes() == second.nodes
                &&& final(self).changes@.len() == handled.len() + comp.selections.data@.len()
                    + comp.foldings.data@.len()
                &&& final(self).changes@.subrange(0, handled.len() as int) == handled
                &&& forall|i: int|
                    0 <= i < comp.selections.data@.len() ==> reports_selected(
                        #[trigger] final(self).changes@[handled.len() + i],
                        comp.selections.data@[i],
                    )
                &&& forall|i: int|
                    0 <= i < comp.foldings.data@.len() ==> reports_folded(
                        #[trigger] final(self).changes@[handled.len() + comp.selections.data@.len()
                            + i],
                        comp.foldings.data@[i],
                    )
            }),
    {
        let ghost log = self.changes@;
        let ghost s = self.settings_interaction;
        let ghost first = drag_step(s, self.g.nodes(), *pointer, comp.dragged);
        let drag = self.handle_node_drag(
            pointer.drag_started,
            pointer.dragged,
            pointer.drag_released,
            pointer.hovered,
            comp,
        );
        proof {
            assert(self.g.nodes() == first.nodes);
            assert(self.changes@ =~= log + first.log);
        }
        let ghost second = click_step(
            s,
            first.nodes,
            root_seq(&comp.selections),
            root_seq(&comp.foldings),
            *pointer,
        );
        let click = self.handle_click(
            pointer.clicked,
            pointer.double_clicked,
            pointer.hovered,
            comp,
        );
        proof {
            assert(self.g.nodes() == second.nodes);
            assert(self.changes@ =~= log + first.log + second.log);
            let expected = click_result(
                s,
                first.nodes,
                root_seq(&comp.selections),
                root_seq(&comp.foldings),
                *pointer,
            );
            if click is Ok {
                assert(click->Ok_0 == expected->Ok_0);
            }
            assert(click == expected);
        }
        let ghost handled = self.changes@;
        self.send_comp_changes(comp);
        proof {
            assert(self.changes@.subrange(0, handled.len() as int) =~= handled);
        }
        Handled { drag, click }
    }

    /// Appends to the log what the selected roots reach, then what the
    /// folded roots reach, each in the sequence of its records.
    pub fn send_comp_changes(&mut self, comp: &StateComputed)
        ensures
            final(self).g == old(self).g,
            final(self).settings_interaction == old(self).settings_interaction,
            final(self).changes@.len() == old(self).changes@.len() + comp.selections.data@.len()
                + comp.foldings.data@.len(),
            forall|i: int|
                0 <= i < old(self).changes@.len() ==> final(self).changes@[i] == old(
                    self,
                ).changes@[i],
            forall|i: int|
                0 <= i < comp.selections.data@.len() ==> reports_selected(
                    #[trigger] final(self).changes@[old(self).changes@.len() + i],
                    comp.selections.data@[i],
                ),
            forall|i: int|
                0 <= i < comp.foldings.data@.len() ==> reports_folded(
                    #[trigger] final(self).changes@[old(self).changes@.len()
                        + comp.selections.data@.len() + i],
                    comp.foldings.data@[i],
                ),
    {
        self.send_selected(comp);
        self.send_folded(comp);
    }

    fn send_selected(&mut self, comp: &StateComputed)
        ensures
            final(self).g == old(self).g,
            final(self).settings_interaction == old(self).settings_interaction,
            final(self).changes@.len() == old(self).changes@.len() + comp.selections.data@.len(),
            forall|i: int|
                0 <= i < old(self).changes@.len() ==> final(self).changes@[i] == old(
                    self,
                ).changes@[i],
            forall|i: int|
                0 <= i < comp.selections.data@.len() ==> reports_selected(
                    #[trigger] final(self).changes@[old(self).changes@.len() + i],
                    comp.selections.data@[i],
                ),
    {
        let mut k: usize = 0;
        while k < comp.selections.data.len()
            invariant
                k <= comp.selections.data.len(),
                self.g == old(self).g,
                self.settings_interaction == old(self).settings_interaction,
                self.changes@.len() == old(self).changes@.len() + k,
                forall|i: int|
                    0 <= i < old(self).changes@.len() ==> self.changes@[i] == old(self).changes@[i],
                forall|i: int|
                    0 <= i < k ==> reports_selected(
                        #[trigger] self.changes@[old(self).changes@.len() + i],
                        comp.selections.data@[i],
                    ),
            decreases comp.selections.data.len() - k,
        {
            let rec = &comp.selections.data[k];
            let subgraph = SubGraph {
                root: rec.root,
                nodes: rec.nodes.clone(),
                edges: rec.edges.clone(),
            };
            self.send_changes(
                Change::SubGraph(ChangeSubgraph::change_selected(rec.root, subgraph)),
            );
            k = k + 1;
        }
    }

    fn send_folded(&mut self, comp: &StateComputed)
        ensures
            final(self).g == old(self).g,
            final(self).settings_interaction == old(self).settings_interaction,
            final(self).changes@.len() == old(self).changes@.len() + comp.foldings.data@.len(),
            forall|i: int|
                0 <= i < old(self).changes@.len() ==> final(self).changes@[i] == old(
                    self,
                ).changes@[i],
            forall|i: int|
                0 <= i < comp.foldings.data@.len() ==> reports_folded(
                    #[trigger] final(self).changes@[old(self).changes@.len() + i],
                    comp.foldings.data@[i],
                ),
    {
        let mut k: usize = 0;
        while k < comp.foldings.data.len()
            invariant
                k <= comp.foldings.data.len(),
                self.g == old(self).g,
                self.settings_interaction == old(self).settings_interaction,
                self.changes@.len() == old(self).changes@.len() + k,
                forall|i: int|
                    0 <= i < old(self).changes@.len() ==> self.changes@[i] == old(self).changes@[i],
                forall|i: int|
                    0 <= i < k ==> reports_folded(
                        #[trigger] self.changes@[old(self).changes@.len() + i],
                        comp.foldings.data@[i],
                    ),
            decreases comp.foldings.data.len() - k,
        {
            let rec = &comp.foldings.data[k];
            let subgraph = SubGraph {
                root: rec.root,
                nodes: rec.nodes.clone(),
                edges: rec.edges.clone(),
            };
            self.send_changes(Change::SubGraph(ChangeSubgraph::change_folded(rec.root, subgraph)));
            k = k + 1;
        }
    }

    /// Looks for the first of `roots` that the graph lacks.
    fn find_missing(&self, roots: &Vec<usize>) -> (r: Option<NotFound>)
        ensures
            r is None <==> all_present(self.g.nodes(), roots@),
            r is Some ==> names_missing(self.g.nodes(), roots@, r->0),
    {
        let mut i: usize = 0;
        while i < roots.len()
            invariant
                i <= roots.len(),
                forall|k: int| 0 <= k < i ==> self.g.nodes().dom().contains(#[trigger] roots@[k]),
            decreases roots.len() - i,
        {
            if self.g.node(roots[i]).is_none() {
                assert(missing_at(self.g.nodes(), roots@, i as int));
                return Some(NotFound::Node(roots[i]));
            }
            i = i + 1;
        }
        None
    }

    /// Clears `flag` on every node of `roots`, in their sequence, and logs
    /// each change. Nothing is changed when the graph lacks one of them.
    fn clear_all(&mut self, roots: &Vec<usize>, flag: Flag) -> (r: Result<(), NotFound>)
        requires
            old(self).g.wf(),
            roots@.no_duplicates(),
        ensures
            final(self).g.wf(),
            final(self).g.edges() == old(self).g.edges(),
            final(self).g.directed() == old(self).g.directed(),
            final(self).settings_interaction == old(self).settings_interaction,
            r is Ok <==> all_present(old(self).g.nodes(), roots@),
            r is Ok ==> final(self).g.nodes() == cleared(
                old(self).g.nodes(),
                roots@.to_set(),
                flag,
            ) && final(self).changes@ == old(self).changes@ + clear_log(
                old(self).g.nodes(),
                roots@,
                flag,
            ),
            r is Err ==> names_missing(old(self).g.nodes(), roots@, r->Err_0) && *final(self)
                == *old(self),
    {
        match self.find_missing(roots) {
            Some(e) => {
                return Err(e);
            },
            None => {},
        }
        let mut i: usize = 0;
        proof {
            assert(roots@.take(0).to_set() =~= Set::<usize>::empty());
            assert(self.g.nodes() =~= cleared(old(self).g.nodes(), roots@.take(0).to_set(), flag));
            assert(self.changes@ =~= old(self).changes@ + clear_log(
                old(self).g.nodes(),
                roots@.take(0),
                flag,
            ));
        }
        while i < roots.len()
            invariant
                i <= roots.len(),
                roots@.no_duplicates(),
                all_present(old(self).g.nodes(), roots@),
                self.g.wf(),
                self.g.edges() == old(self).g.edges(),
                self.g.directed() == old(self).g.directed(),
                self.settings_interaction == old(self).settings_interaction,
                self.g.nodes() == cleared(old(self).g.nodes(), roots@.take(i as int).to_set(), flag),
                self.changes@ == old(self).changes@ + clear_log(
                    old(self).g.nodes(),
                    roots@.take(i as int),
                    flag,
                ),
            decreases roots.len() - i,
        {
            let root = roots[i];
            let ghost seen = roots@.take(i as int).to_set();
            proof {
                assert(old(self).g.nodes().dom().contains(roots@[i as int]));
                assert(!seen.contains(root)) by {
                    if seen.contains(root) {
                        let k = choose|k: int|
                            0 <= k < roots@.take(i as int).len() && roots@.take(i as int)[k]
                                == root;
                        assert(roots@[k] == roots@[i as int]);
                    }
                }
                assert(roots@.take(i + 1) =~= roots@.take(i as int).push(root));
                roots@.take(i as int).lemma_push_to_set_commute(root);
            }
            let _ = self.set_flag(root, flag, false);
            proof {
                assert(self.g.nodes() =~= cleared(old(self).g.nodes(), seen.insert(root), flag));
                assert(self.changes@ =~= old(self).changes@ + clear_log(
                    old(self).g.nodes(),
                    roots@.take(i + 1),
                    flag,
                ));
            }
            i = i + 1;
        }
        proof {
            assert(roots@.take(roots@.len() as int) =~= roots@);
        }
        Ok(())
    }
}

} // verus!
