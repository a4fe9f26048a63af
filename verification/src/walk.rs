use vstd::prelude::*;
use std::collections::HashSet;
use crate::graph::{ids, incidence, Direction, Graph};
use crate::unique::lemma_push_unique;

verus! {

broadcast use vstd::std_specs::hash::group_hash_axioms;

impl Graph {
    /// True when one edge leads from `u` to `v`.
    pub open spec fn hop(&self, u: usize, dir: Direction, v: usize) -> bool {
        exists|e: usize| #[trigger] self.leads(e, u, dir) && self.beyond(e, u, dir) == v
    }

    /// The nodes that can be reached from `root` in at most `depth` steps.
    /// The root itself is reached in no step.
    pub open spec fn reach(&self, root: usize, dir: Direction, depth: nat) -> Set<usize>
        decreases depth,
    {
        if depth == 0 {
            set![root]
        } else {
            let prev = self.reach(root, dir, (depth - 1) as nat);
            Set::new(
                |v: usize|
                    prev.contains(v) || exists|u: usize|
                        prev.contains(u) && #[trigger] self.hop(u, dir, v),
            )
        }
    }

    /// The edges that a walk of at most `depth` steps from `root` can take:
    /// those that lead away from a node reached in fewer than `depth` steps.
    pub open spec fn reach_edges(&self, root: usize, dir: Direction, depth: nat) -> Set<usize> {
        if depth == 0 {
            Set::empty()
        } else {
            let prev = self.reach(root, dir, (depth - 1) as nat);
            Set::new(|e: usize| exists|u: usize| prev.contains(u) && #[trigger] self.leads(e, u, dir))
        }
    }

    /// True when every edge that leads away from `u` is in `es` and ends in
    /// a node of `ns`.
    pub open spec fn closed(&self, u: usize, dir: Direction, ns: Set<usize>, es: Set<usize>) -> bool {
        forall|e: usize| #[trigger]
            self.leads(e, u, dir) ==> es.contains(e) && ns.contains(self.beyond(e, u, dir))
    }

    /// A deeper walk reaches at least what a shallower one reaches.
    pub proof fn lemma_reach_grows(&self, root: usize, dir: Direction, depth: nat)
        ensures
            self.reach(root, dir, depth).subset_of(self.reach(root, dir, depth + 1)),
            self.reach_edges(root, dir, depth).subset_of(self.reach_edges(root, dir, depth + 1)),
    {
        assert forall|e: usize| self.reach_edges(root, dir, depth).contains(e) implies self.reach_edges(
            root,
            dir,
            depth + 1,
        ).contains(e) by {
            let prev = self.reach(root, dir, (depth - 1) as nat);
            let u = choose|u: usize| prev.contains(u) && #[trigger] self.leads(e, u, dir);
            assert(self.reach(root, dir, depth).contains(u));
        }
    }

    /// Every walk reaches its root.
    pub proof fn lemma_reach_root(&self, root: usize, dir: Direction, depth: nat)
        ensures
            self.reach(root, dir, depth).contains(root),
        decreases depth,
    {
        if depth > 0 {
            self.lemma_reach_root(root, dir, (depth - 1) as nat);
        }
    }

    /// A walk from a node of the graph stays among the nodes of the graph,
    /// and takes edges of the graph only.
    pub proof fn lemma_reach_inside(&self, root: usize, dir: Direction, depth: nat)
        requires
            self.wf(),
            self.has_node(root),
        ensures
            self.reach(root, dir, depth).subset_of(self.nodes().dom()),
            self.reach_edges(root, dir, depth).subset_of(self.edges().dom()),
        decreases depth,
    {
        if depth > 0 {
            let prev = self.reach(root, dir, (depth - 1) as nat);
            self.lemma_reach_inside(root, dir, (depth - 1) as nat);
            assert forall|v: usize| self.reach(root, dir, depth).contains(v) implies self.has_node(
                v,
            ) by {
                if !prev.contains(v) {
                    let u = choose|u: usize| prev.contains(u) && #[trigger] self.hop(u, dir, v);
                    let e = choose|e: usize| #[trigger]
                        self.leads(e, u, dir) && self.beyond(e, u, dir) == v;
                    assert(self.has_edge(e));
                }
            }
            assert forall|e: usize| self.reach_edges(root, dir, depth).contains(
                e,
            ) implies self.has_edge(e) by {
                let u = choose|u: usize| prev.contains(u) && #[trigger] self.leads(e, u, dir);
            }
        }
    }

    /// Once every node reached within `depth` steps has all its edges
    /// inside, deeper walks reach nothing more.
    pub proof fn lemma_reach_settled(&self, root: usize, dir: Direction, depth: nat, deeper: nat)
        requires
            depth <= deeper,
            forall|u: usize|
                self.reach(root, dir, depth).contains(u) ==> #[trigger] self.closed(
                    u,
                    dir,
                    self.reach(root, dir, depth),
                    self.reach_edges(root, dir, depth),
                ),
        ensures
            self.reach(root, dir, deeper) == self.reach(root, dir, depth),
            self.reach_edges(root, dir, deeper) == self.reach_edges(root, dir, depth),
        decreases deeper,
    {
        if deeper > depth {
            let m = (deeper - 1) as nat;
            self.lemma_reach_settled(root, dir, depth, m);
            self.lemma_reach_grows(root, dir, m);
            let base = self.reach(root, dir, depth);
            let base_edges = self.reach_edges(root, dir, depth);
            assert forall|v: usize| self.reach(root, dir, deeper).contains(v) implies base.contains(
                v,
            ) by {
                if !base.contains(v) {
                    let u = choose|u: usize| base.contains(u) && #[trigger] self.hop(u, dir, v);
                    assert(self.closed(u, dir, base, base_edges));
                    let e = choose|e: usize| #[trigger]
                        self.leads(e, u, dir) && self.beyond(e, u, dir) == v;
                    assert(self.leads(e, u, dir));
                }
            }
            assert(self.reach(root, dir, deeper) =~= base);
            assert forall|e: usize| self.reach_edges(root, dir, deeper).contains(
                e,
            ) implies base_edges.contains(e) by {
                let u = choose|u: usize| base.contains(u) && #[trigger] self.leads(e, u, dir);
                assert(self.closed(u, dir, base, base_edges));
            }
            assert(self.reach_edges(root, dir, deeper) =~= base_edges);
        }
    }
}

/// What a walk has found so far: the nodes and edges in the sequence in
/// which it met them, and the same as sets to look them up in.
struct Trail {
    nodes: Vec<usize>,
    edges: Vec<usize>,
    visited: HashSet<usize>,
    crossed: HashSet<usize>,
}

impl Trail {
    spec fn wf(&self) -> bool {
        &&& self.nodes@.no_duplicates()
        &&& self.edges@.no_duplicates()
        &&& self.visited@ == self.nodes@.to_set()
        &&& self.crossed@ == self.edges@.to_set()
    }

    spec fn node_set(&self) -> Set<usize> {
        self.nodes@.to_set()
    }

    spec fn edge_set(&self) -> Set<usize> {
        self.edges@.to_set()
    }

    /// True when the walk met `root` first.
    spec fn starts_at(&self, root: usize) -> bool {
        self.nodes@.len() > 0 && self.nodes@[0] == root
    }

    fn new(root: usize) -> (t: Self)
        ensures
            t.wf(),
            t.node_set() == set![root],
            t.edge_set() == Set::<usize>::empty(),
            t.starts_at(root),
    {
        let mut t = Trail {
            nodes: Vec::new(),
            edges: Vec::new(),
            visited: HashSet::new(),
            crossed: HashSet::new(),
        };
        proof {
            assert(t.nodes@.to_set() =~= Set::<usize>::empty());
            assert(t.edges@.to_set() =~= Set::<usize>::empty());
            lemma_push_unique(t.nodes@, root);
        }
        t.nodes.push(root);
        t.visited.insert(root);
        assert(t.node_set() =~= set![root]);
        t
    }

    /// Records node `v`; true when the walk had not met it before.
    fn visit(&mut self, v: usize) -> (fresh: bool)
        requires
            old(self).wf(),
        ensures
            final(self).wf(),
            fresh == !old(self).node_set().contains(v),
            final(self).node_set() == old(self).node_set().insert(v),
            final(self).edge_set() == old(self).edge_set(),
            forall|r: usize| old(self).starts_at(r) ==> final(self).starts_at(r),
    {
        let fresh = self.visited.insert(v);
        if fresh {
            proof {
                lemma_push_unique(self.nodes@, v);
            }
            self.nodes.push(v);
        } else {
            assert(self.node_set() =~= self.node_set().insert(v));
        }
        fresh
    }

    /// Records edge `e`.
    fn cross(&mut self, e: usize)
        requires
            old(self).wf(),
        ensures
            final(self).wf(),
            final(self).edge_set() == old(self).edge_set().insert(e),
            final(self).node_set() == old(self).node_set(),
            forall|r: usize| old(self).starts_at(r) ==> final(self).starts_at(r),
    {
        let fresh = self.crossed.insert(e);
        if fresh {
            proof {
                lemma_push_unique(self.edges@, e);
            }
            self.edges.push(e);
        } else {
            assert(self.edge_set() =~= self.edge_set().insert(e));
        }
    }
}

impl Graph {
    /// Follows every edge that leads away from `u` and records what is new.
    fn expand(&self, u: usize, dir: Direction, trail: &mut Trail, next: &mut Vec<usize>)
        requires
            old(trail).wf(),
        ensures
            final(trail).wf(),
            forall|r: usize| old(trail).starts_at(r) ==> final(trail).starts_at(r),
            old(trail).node_set().subset_of(final(trail).node_set()),
            old(trail).edge_set().subset_of(final(trail).edge_set()),
            self.closed(u, dir, final(trail).node_set(), final(trail).edge_set()),
            forall|v: usize|
                final(trail).node_set().contains(v) ==> old(trail).node_set().contains(v)
                    || self.hop(u, dir, v),
            forall|e: usize|
                final(trail).edge_set().contains(e) ==> old(trail).edge_set().contains(e)
                    || self.leads(e, u, dir),
            forall|v: usize|
                final(next)@.to_set().contains(v) <==> old(next)@.to_set().contains(v)
                    || (final(trail).node_set().contains(v) && !old(trail).node_set().contains(v)),
    {
        broadcast use Seq::lemma_push_to_set_commute;

        let list = self.edges_directed(u, dir);
        let mut j: usize = 0;
        let ghost n0 = trail.node_set();
        let ghost x0 = next@.to_set();
        while j < list.len()
            invariant
                j <= list.len(),
                self.lists_joined(list@, u, incidence(dir), self.either_way(dir)),
                trail.wf(),
                forall|r: usize| old(trail).starts_at(r) ==> trail.starts_at(r),
                old(trail).node_set().subset_of(trail.node_set()),
                old(trail).edge_set().subset_of(trail.edge_set()),
                forall|i: int|
                    0 <= i < j ==> trail.edge_set().contains(#[trigger] list@[i].id)
                        && trail.node_set().contains(self.beyond(list@[i].id, u, dir)),
                forall|v: usize|
                    trail.node_set().contains(v) ==> old(trail).node_set().contains(v) || self.hop(
                        u,
                        dir,
                        v,
                    ),
                forall|e: usize|
                    trail.edge_set().contains(e) ==> old(trail).edge_set().contains(e)
                        || self.leads(e, u, dir),
                n0 == old(trail).node_set(),
                x0 == old(next)@.to_set(),
                forall|v: usize|
                    next@.to_set().contains(v) <==> x0.contains(v) || (trail.node_set().contains(v)
                        && !n0.contains(v)),
            decreases list.len() - j,
        {
            let r = list[j];
            let v = match dir {
                Direction::Incoming => r.source,
                _ => r.target,
            };
            proof {
                assert(ids(list@)[j as int] == r.id);
                assert(ids(list@).to_set().contains(r.id));
                assert(self.joined_set(u, incidence(dir), self.either_way(dir)).contains(r.id));
                assert(self.leads(r.id, u, dir));
                assert(self.oriented(list@[j as int], u, incidence(dir)));
                assert(v == self.beyond(r.id, u, dir));
                assert(self.hop(u, dir, v));
            }
            let ghost nb = trail.node_set();
            let ghost xb = next@.to_set();
            trail.cross(r.id);
            let fresh = trail.visit(v);
            if fresh {
                proof {
                    next@.lemma_push_to_set_commute(v);
                }
                next.push(v);
                assert(next@.to_set() == xb.insert(v));
            }
            assert(trail.node_set() == nb.insert(v));
            assert(fresh == !nb.contains(v));
            assert forall|w: usize|
                next@.to_set().contains(w) <==> x0.contains(w) || (trail.node_set().contains(w)
                    && !n0.contains(w)) by {
                assert(xb.contains(w) <==> x0.contains(w) || (nb.contains(w) && !n0.contains(w)));
                if fresh {
                    assert(next@.to_set().contains(w) <==> xb.contains(w) || w == v);
                } else {
                    assert(next@.to_set() == xb);
                }
            }
            j = j + 1;
        }
        proof {
            assert forall|e: usize| #[trigger] self.leads(e, u, dir) implies trail.edge_set().contains(
                e,
            ) && trail.node_set().contains(self.beyond(e, u, dir)) by {
                assert(self.joined_set(u, incidence(dir), self.either_way(dir)).contains(e));
                assert(ids(list@).to_set().contains(e));
                let i = choose|i: int| 0 <= i < ids(list@).len() && ids(list@)[i] == e;
                assert(list@[i].id == e);
            }
        }
    }

    /// Walks the graph breadth first from `root` for at most `depth` steps
    /// and returns the nodes it reaches, the root first, and the edges it
    /// can take, each once.
    pub fn walk(&self, root: usize, dir: Direction, depth: usize) -> (r: (Vec<usize>, Vec<usize>))
        ensures
            r.0@.len() > 0,
            r.0@[0] == root,
            r.0@.no_duplicates(),
            r.0@.to_set() == self.reach(root, dir, depth as nat),
            r.1@.no_duplicates(),
            r.1@.to_set() == self.reach_edges(root, dir, depth as nat),
    {
        let mut trail = Trail::new(root);
        let mut frontier: Vec<usize> = Vec::new();
        frontier.push(root);
        let mut steps: usize = depth;
        let ghost mut level: nat = 0;
        proof {
            assert(frontier@.to_set().contains(frontier@[0]));
        }
        while steps > 0 && frontier.len() > 0
            invariant
                trail.wf(),
                trail.starts_at(root),
                level + steps == depth,
                trail.node_set() == self.reach(root, dir, level),
                trail.edge_set() == self.reach_edges(root, dir, level),
                forall|i: int|
                    0 <= i < frontier.len() ==> self.reach(root, dir, level).contains(
                        #[trigger] frontier@[i],
                    ),
                forall|u: usize|
                    self.reach(root, dir, level).contains(u) && !frontier@.to_set().contains(u)
                        ==> #[trigger] self.closed(
                        u,
                        dir,
                        self.reach(root, dir, level),
                        self.reach_edges(root, dir, level),
                    ),
            decreases steps,
        {
            let ghost n0 = trail.node_set();
            let ghost e0 = trail.edge_set();
            let ghost n1 = self.reach(root, dir, level + 1);
            let ghost e1 = self.reach_edges(root, dir, level + 1);
            let mut next: Vec<usize> = Vec::new();
            let mut i: usize = 0;
            proof {
                self.lemma_reach_grows(root, dir, level);
                assert(next@.to_set() =~= Set::<usize>::empty());
            }
            while i < frontier.len()
                invariant
                    i <= frontier.len(),
                    trail.wf(),
                    trail.starts_at(root),
                    n0 == self.reach(root, dir, level),
                    e0 == self.reach_edges(root, dir, level),
                    n1 == self.reach(root, dir, level + 1),
                    e1 == self.reach_edges(root, dir, level + 1),
                    n0.subset_of(trail.node_set()),
                    e0.subset_of(trail.edge_set()),
                    trail.node_set().subset_of(n1),
                    trail.edge_set().subset_of(e1),
                    forall|k: int| 0 <= k < frontier.len() ==> n0.contains(#[trigger] frontier@[k]),
                    forall|k: int|
                        0 <= k < i ==> self.closed(
                            #[trigger] frontier@[k],
                            dir,
                            trail.node_set(),
                            trail.edge_set(),
                        ),
                    forall|v: usize|
                        next@.to_set().contains(v) <==> trail.node_set().contains(v)
                            && !n0.contains(v),
                decreases frontier.len() - i,
            {
                let u = frontier[i];
                let ghost nb = trail.node_set();
                let ghost eb = trail.edge_set();
                self.expand(u, dir, &mut trail, &mut next);
                proof {
                    assert(n0.contains(frontier@[i as int]));
                    assert forall|v: usize| trail.node_set().contains(v) implies n1.contains(v) by {
                        if !nb.contains(v) {
                            assert(self.hop(u, dir, v));
                        }
                    }
                    assert forall|e: usize| trail.edge_set().contains(e) implies e1.contains(e) by {
                        if !eb.contains(e) {
                            assert(self.leads(e, u, dir));
                        }
                    }
                    assert forall|k: int| 0 <= k < i + 1 implies self.closed(
                        #[trigger] frontier@[k],
                        dir,
                        trail.node_set(),
                        trail.edge_set(),
                    ) by {
                        if k < i {
                            assert(self.closed(frontier@[k], dir, nb, eb));
                        }
                    }
                }
                i = i + 1;
            }
            proof {
                assert forall|v: usize| n1.contains(v) implies trail.node_set().contains(v) by {
                    if !n0.contains(v) {
                        let u = choose|u: usize| n0.contains(u) && #[trigger] self.hop(u, dir, v);
                        let e = choose|e: usize| #[trigger]
                            self.leads(e, u, dir) && self.beyond(e, u, dir) == v;
                        if frontier@.to_set().contains(u) {
                            let k = choose|k: int| 0 <= k < frontier@.len() && frontier@[k] == u;
                            assert(self.closed(frontier@[k], dir, trail.node_set(), trail.edge_set()));
                        } else {
                            assert(self.closed(u, dir, n0, e0));
                        }
                    }
                }
                assert(trail.node_set() =~= n1);
                assert forall|e: usize| e1.contains(e) implies trail.edge_set().contains(e) by {
                    let u = choose|u: usize| n0.contains(u) && #[trigger] self.leads(e, u, dir);
                    if frontier@.to_set().contains(u) {
                        let k = choose|k: int| 0 <= k < frontier@.len() && frontier@[k] == u;
                        assert(self.closed(frontier@[k], dir, trail.node_set(), trail.edge_set()));
                    } else {
                        assert(self.closed(u, dir, n0, e0));
                    }
                }
                assert(trail.edge_set() =~= e1);
                assert forall|k: int| 0 <= k < next.len() implies n1.contains(
                    #[trigger] next@[k],
                ) by {
                    assert(next@.to_set().contains(next@[k]));
                }
                assert forall|u: usize| n1.contains(u) && !next@.to_set().contains(
                    u,
                ) implies #[trigger] self.closed(u, dir, n1, e1) by {
                    assert(n0.contains(u));
                    if frontier@.to_set().contains(u) {
                        let k = choose|k: int| 0 <= k < frontier@.len() && frontier@[k] == u;
                        assert(self.closed(frontier@[k], dir, trail.node_set(), trail.edge_set()));
                    } else {
                        assert(self.closed(u, dir, n0, e0));
                    }
                }
                level = level + 1;
            }
            frontier = next;
            steps = steps - 1;
        }
        proof {
            if steps > 0 {
                assert forall|u: usize|
                    self.reach(root, dir, level).contains(u) implies #[trigger] self.closed(
                    u,
                    dir,
                    self.reach(root, dir, level),
                    self.reach_edges(root, dir, level),
                ) by {
                    if frontier@.to_set().contains(u) {
                        let k = choose|k: int| 0 <= k < frontier@.len() && frontier@[k] == u;
                    }
                }
                self.lemma_reach_settled(root, dir, level, depth as nat);
            }
        }
        (trail.nodes, trail.edges)
    }
}

} // verus!
