//! Route search over a routing graph.
//!
//! The graph is held as adjacency lists over node indices; each node carries
//! its system identifier. Every edge records whether the physical limits of a
//! hop (jump distance, temperature, heat) permit it; the remaining constraints
//! (gate avoidance, avoided systems) are applied here.

use vstd::prelude::*;
use std::collections::HashSet;

verus! {

broadcast use vstd::std_specs::hash::group_hash_axioms;

/// Numeric identifier for a solar system.
pub type SystemId = i64;

/// Routing graph variants supported by the planner.
#[derive(Debug, Clone, Copy, PartialEq, Eq, Structural)]
pub enum GraphMode {
    Gate,
    Spatial,
    Hybrid,
}

/// Classification for the edge used in the routing graph.
#[derive(Debug, Clone, Copy, PartialEq, Eq, PartialOrd, Ord, Hash, Structural)]
pub enum EdgeKind {
    Gate,
    Spatial,
}

/// Edge within the routing graph.
#[derive(Debug, Clone, Copy, PartialEq, Eq, Structural)]
pub struct SearchEdge {
    /// Index of the target node.
    pub target: usize,
    /// Gate or spatial jump.
    pub kind: EdgeKind,
    /// Cost of traversing the edge, in the graph's integer cost unit.
    pub cost: u64,
    /// Whether the physical limits of the hop (distance, temperature, heat) allow it.
    pub permitted: bool,
}

/// Graph structure used by the search algorithms.
#[derive(Debug, Clone)]
pub struct SearchGraph {
    /// Mode that produced this graph.
    pub mode: GraphMode,
    /// System identifier of each node.
    pub systems: Vec<SystemId>,
    /// Outgoing edges of each node, in the order they are explored.
    pub adjacency: Vec<Vec<SearchEdge>>,
}

/// Constraints applied during search on top of each edge's own permission.
#[derive(Debug)]
pub struct PathConstraints {
    /// Skip gate edges entirely when `true`.
    pub avoid_gates: bool,
    /// Set of system identifiers that must not appear in the resulting path.
    pub avoided_systems: HashSet<SystemId>,
}

/// What the search reads from a set of constraints: gate avoidance and the avoided systems.
pub type ConstraintsView = (bool, Set<SystemId>);

impl View for PathConstraints {
    type V = ConstraintsView;

    open spec fn view(&self) -> ConstraintsView {
        (self.avoid_gates, self.avoided_systems@)
    }
}

impl Default for PathConstraints {
    fn default() -> (r: Self)
        ensures
            r@ == (false, Set::<SystemId>::empty()),
    {
        PathConstraints { avoid_gates: false, avoided_systems: HashSet::new() }
    }
}

impl SearchGraph {
    /// Node and edge arrays agree, system identifiers are distinct, and every
    /// edge targets a node.
    pub open spec fn wf(&self) -> bool {
        &&& self.adjacency@.len() == self.systems@.len()
        &&& self.systems@.len() < usize::MAX
        &&& forall|a: int, b: int|
            0 <= a < b < self.systems@.len() ==> #[trigger] self.systems@[a] != #[trigger] self.systems@[b]
        &&& forall|u: int, j: int|
            0 <= u < self.adjacency@.len() && 0 <= j < self.adjacency@[u]@.len()
                ==> #[trigger] self.adjacency@[u]@[j].target < self.systems@.len()
    }

    /// Edge `j` of node `u`.
    pub open spec fn edge(&self, u: int, j: int) -> SearchEdge {
        self.adjacency@[u]@[j]
    }

    /// Number of nodes.
    pub open spec fn node_count(&self) -> int {
        self.systems@.len() as int
    }

    /// The graph has a node for system `id`.
    pub open spec fn has_system(&self, id: SystemId) -> bool {
        self.systems@.contains(id)
    }

    /// Index of the node for system `id`.
    pub open spec fn index_of(&self, id: SystemId) -> int {
        choose|k: int| 0 <= k < self.systems@.len() && self.systems@[k] == id
    }

    /// Index of the node for system `id`, if the graph has one.
    pub fn node_index(&self, id: SystemId) -> (r: Option<usize>)
        requires
            self.wf(),
        ensures
            match r {
                Some(k) => k < self.systems@.len() && self.systems@[k as int] == id && k == self.index_of(id),
                None => !self.has_system(id),
            },
    {
        let mut k: usize = 0;
        while k < self.systems.len()
            invariant
                self.wf(),
                k <= self.systems@.len(),
                forall|i: int| 0 <= i < k ==> self.systems@[i] != id,
            decreases self.systems@.len() - k,
        {
            if self.systems[k] == id {
                proof {
                    self.lemma_index_of(k as int);
                }
                return Some(k);
            }
            k = k + 1;
        }
        None
    }

    /// The node holding a system identifier is the one `index_of` names.
    pub proof fn lemma_index_of(&self, k: int)
        requires
            self.wf(),
            0 <= k < self.systems@.len(),
        ensures
            self.index_of(self.systems@[k]) == k,
    {
        let id = self.systems@[k];
        let i = self.index_of(id);
        assert(0 <= i < self.systems@.len() && self.systems@[i] == id);
        if i < k {
            assert(self.systems@[i] != self.systems@[k]);
        } else if i > k {
            assert(self.systems@[k] != self.systems@[i]);
        }
    }
}

/// Check if an edge is allowed based on gate avoidance policy.
pub fn edge_meets_gate_policy(kind: EdgeKind, avoid_gates: bool) -> (r: bool)
    ensures
        r == !(avoid_gates && kind == EdgeKind::Gate),
{
    !(avoid_gates && kind == EdgeKind::Gate)
}

/// Check if a system is not in the avoided systems set.
pub fn system_meets_avoidance(target: SystemId, avoided: &HashSet<SystemId>) -> (r: bool)
    ensures
        r == !avoided@.contains(target),
{
    !avoided.contains(&target)
}

/// Whether the search may use edge `e` of `g` under `c`.
pub open spec fn allowed(g: &SearchGraph, c: ConstraintsView, e: SearchEdge) -> bool {
    &&& e.permitted
    &&& !(c.0 && e.kind == EdgeKind::Gate)
    &&& !c.1.contains(g.systems@[e.target as int])
}

/// There is an allowed edge from node `u` to node `v`.
pub open spec fn step(g: &SearchGraph, c: ConstraintsView, u: int, v: int) -> bool {
    exists|j: int|
        0 <= j < g.adjacency@[u]@.len() && (#[trigger] g.edge(u, j)).target == v && allowed(
            g,
            c,
            g.edge(u, j),
        )
}

/// `p` is a route of node indices from `s` to `t` using allowed edges.
pub open spec fn is_route(g: &SearchGraph, c: ConstraintsView, p: Seq<usize>, s: int, t: int) -> bool {
    &&& p.len() >= 1
    &&& p[0] == s
    &&& p.last() == t
    &&& forall|i: int| 0 <= i < p.len() ==> #[trigger] p[i] < g.node_count()
    &&& forall|i: int| 0 <= i < p.len() - 1 ==> step(g, c, #[trigger] p[i] as int, p[i + 1] as int)
}

/// `p` is a route of system identifiers from `s` to `t` using allowed edges.
pub open spec fn is_system_route(g: &SearchGraph, c: ConstraintsView, p: Seq<SystemId>, s: SystemId, t: SystemId) -> bool {
    &&& p.len() >= 1
    &&& p[0] == s
    &&& p.last() == t
    &&& forall|i: int| 0 <= i < p.len() ==> g.has_system(#[trigger] p[i])
    &&& forall|i: int| 0 <= i < p.len() - 1 ==> step(g, c, g.index_of(#[trigger] p[i]), g.index_of(p[i + 1]))
}

/// Node `v` can be reached from `s` in at most `n` allowed hops.
pub open spec fn reach(g: &SearchGraph, c: ConstraintsView, s: int, v: int, n: nat) -> bool {
    exists|p: Seq<usize>| #[trigger] is_route(g, c, p, s, v) && p.len() <= n + 1
}

/// A route of `k + 1` nodes reaches its end within `k` hops.
proof fn lemma_route_reach(g: &SearchGraph, c: ConstraintsView, p: Seq<usize>, s: int, t: int)
    requires
        is_route(g, c, p, s, t),
    ensures
        reach(g, c, s, t, (p.len() - 1) as nat),
{
}

/// A node reached in `m > 0` hops, other than the start, has a predecessor
/// reached in `m - 1` hops.
proof fn lemma_reach_pred(g: &SearchGraph, c: ConstraintsView, s: int, v: int, m: nat) -> (w: int)
    requires
        reach(g, c, s, v, m),
        v != s,
    ensures
        m > 0,
        0 <= w < g.node_count(),
        reach(g, c, s, w, (m - 1) as nat),
        step(g, c, w, v),
{
    let p = choose|p: Seq<usize>| #[trigger] is_route(g, c, p, s, v) && p.len() <= m + 1;
    assert(p.len() > 1) by {
        if p.len() == 1 {
            assert(p.last() == p[0]);
        }
    }
    let q = p.drop_last();
    let w = q.last() as int;
    assert(is_route(g, c, q, s, w)) by {
        assert forall|i: int| 0 <= i < q.len() implies #[trigger] q[i] < g.node_count() by {
            assert(q[i] == p[i]);
        }
        assert forall|i: int| 0 <= i < q.len() - 1 implies step(
            g,
            c,
            #[trigger] q[i] as int,
            q[i + 1] as int,
        ) by {
            assert(q[i] == p[i] && q[i + 1] == p[i + 1]);
        }
    }
    assert(step(g, c, p[p.len() - 2] as int, p[p.len() - 1] as int));
    assert(q[q.len() - 1] == p[p.len() - 2]);
    w
}

/// Number of `true` entries.
pub(crate) open spec fn count_true(s: Seq<bool>) -> nat
    decreases s.len(),
{
    if s.len() == 0 {
        0
    } else {
        count_true(s.drop_last()) + (if s.last() { 1nat } else { 0nat })
    }
}

pub(crate) proof fn lemma_count_true_bound(s: Seq<bool>)
    ensures
        count_true(s) <= s.len(),
    decreases s.len(),
{
    if s.len() > 0 {
        lemma_count_true_bound(s.drop_last());
    }
}

pub(crate) proof fn lemma_count_true_set(s: Seq<bool>, i: int)
    requires
        0 <= i < s.len(),
        !s[i],
    ensures
        count_true(s.update(i, true)) == count_true(s) + 1,
    decreases s.len(),
{
    let t = s.update(i, true);
    if i == s.len() - 1 {
        assert(t.drop_last() =~= s.drop_last());
    } else {
        lemma_count_true_set(s.drop_last(), i);
        assert(t.drop_last() =~= s.drop_last().update(i, true));
    }
}

/// Breadth-first search over node indices.
///
/// Returns a route with the fewest hops from `s` to `t` using allowed edges,
/// or `None` when `t` cannot be reached.
#[verifier::rlimit(100)]
#[verifier::spinoff_prover]
pub fn find_route_bfs_nodes(g: &SearchGraph, cons: &PathConstraints, s: usize, t: usize) -> (r: Option<Vec<usize>>)
    requires
        g.wf(),
        s < g.node_count(),
        t < g.node_count(),
    ensures
        match r {
            Some(p) => is_route(g, cons@, p@, s as int, t as int) && forall|q: Seq<usize>|
                is_route(g, cons@, q, s as int, t as int) ==> q.len() >= p@.len(),
            None => forall|q: Seq<usize>| !is_route(g, cons@, q, s as int, t as int),
        },
{
    let ghost c = cons@;
    if s == t {
        let mut p: Vec<usize> = Vec::new();
        p.push(s);
        return Some(p);
    }
    let n = g.systems.len();
    let mut discovered: Vec<bool> = Vec::new();
    let mut parent: Vec<usize> = Vec::new();
    let mut k: usize = 0;
    while k < n
        invariant
            k <= n,
            discovered@.len() == k,
            parent@.len() == k,
            forall|i: int| 0 <= i < k ==> !#[trigger] discovered@[i],
        decreases n - k,
    {
        discovered.push(false);
        parent.push(0);
        k = k + 1;
    }
    let ghost mut level: Seq<nat> = Seq::new(n as nat, |i: int| 0nat);
    proof {
        assert(count_true(discovered@) == 0) by {
            lemma_count_zero(discovered@);
        }
        lemma_count_true_set(discovered@, s as int);
    }
    let ghost undiscovered = discovered@;
    discovered.set(s, true);
    let mut queue: Vec<usize> = Vec::new();
    queue.push(s);
    let mut head: usize = 0;
    proof {
        assert forall|v: int| 0 <= v < n && #[trigger] discovered@[v] implies exists|i: int|
            0 <= i < queue@.len() && queue@[i] == v by {
            if v != s {
                assert(!undiscovered[v]);
            }
            assert(queue@[0] == v);
        }
        assert forall|v: int| 0 <= v < n && v != s && #[trigger] discovered@[v] implies {
            &&& parent@[v] < n
            &&& discovered@[parent@[v] as int]
            &&& level[v] == level[parent@[v] as int] + 1
            &&& step(g, c, parent@[v] as int, v)
        } by {
            assert(!undiscovered[v]);
        }
    }

    while head < queue.len()
        invariant
            g.wf(),
            c == cons@,
            n == g.systems@.len(),
            s < n,
            t < n,
            s != t,
            discovered@.len() == n,
            parent@.len() == n,
            level.len() == n,
            head <= queue@.len(),
            head == 0 ==> queue@.len() == 1,
            queue@.len() == count_true(discovered@),
            queue@.len() >= 1,
            queue@[0] == s,
            discovered@[s as int],
            level[s as int] == 0,
            !discovered@[t as int],
            // queue holds exactly the discovered nodes, once each
            forall|i: int| 0 <= i < queue@.len() ==> #[trigger] queue@[i] < n && discovered@[queue@[i] as int],
            forall|v: int| 0 <= v < n && #[trigger] discovered@[v] ==> exists|i: int| 0 <= i < queue@.len() && queue@[i] == v,
            // parents give allowed hops one level down
            forall|v: int| 0 <= v < n && v != s && #[trigger] discovered@[v] ==> {
                &&& parent@[v] < n
                &&& discovered@[parent@[v] as int]
                &&& level[v] == level[parent@[v] as int] + 1
                &&& step(g, c, parent@[v] as int, v)
            },
            // levels along the queue never decrease and span at most one step
            forall|i: int, j: int| 0 <= i <= j < queue@.len() ==> level[#[trigger] queue@[i] as int] <= level[#[trigger] queue@[j] as int],
            head > 0 ==> level[queue@[queue@.len() - 1] as int] <= level[queue@[head - 1] as int] + 1,
            // processed nodes have all their allowed successors discovered
            forall|i: int, j: int| 0 <= i < head && 0 <= j < g.adjacency@[queue@[i] as int]@.len()
                && allowed(g, c, #[trigger] g.edge(queue@[i] as int, j)) ==> {
                    &&& discovered@[g.edge(queue@[i] as int, j).target as int]
                    &&& level[g.edge(queue@[i] as int, j).target as int] <= level[queue@[i] as int] + 1
                },
            // every node within the current level is already discovered
            head > 0 ==> forall|v: int, m: nat| 0 <= v < n && #[trigger] reach(g, c, s as int, v, m) && m <= level[queue@[head - 1] as int]
                ==> discovered@[v] && level[v] <= m,
        decreases n - head,
    {
        proof {
            lemma_count_true_bound(discovered@);
        }
        let u = queue[head];
        head = head + 1;
        proof {
            lemma_advance_level(g, c, s as int, n as int, discovered@, level, queue@, head as int);
        }
        let edges = &g.adjacency[u];
        let mut j: usize = 0;
        while j < edges.len()
            invariant
                g.wf(),
                c == cons@,
                n == g.systems@.len(),
                s < n,
                t < n,
                s != t,
                edges@ == g.adjacency@[u as int]@,
                u == queue@[head - 1],
                u < n,
                discovered@.len() == n,
                parent@.len() == n,
                level.len() == n,
                1 <= head <= queue@.len(),
                queue@.len() == count_true(discovered@),
                queue@[0] == s,
                discovered@[s as int],
                level[s as int] == 0,
                !discovered@[t as int],
                forall|i: int| 0 <= i < queue@.len() ==> #[trigger] queue@[i] < n && discovered@[queue@[i] as int],
                forall|v: int| 0 <= v < n && #[trigger] discovered@[v] ==> exists|i: int| 0 <= i < queue@.len() && queue@[i] == v,
                forall|v: int| 0 <= v < n && v != s && #[trigger] discovered@[v] ==> {
                    &&& parent@[v] < n
                    &&& discovered@[parent@[v] as int]
                    &&& level[v] == level[parent@[v] as int] + 1
                    &&& step(g, c, parent@[v] as int, v)
                },
                forall|i: int, k: int| 0 <= i <= k < queue@.len() ==> level[#[trigger] queue@[i] as int] <= level[#[trigger] queue@[k] as int],
                level[queue@[queue@.len() - 1] as int] <= level[u as int] + 1,
                forall|i: int, jj: int| 0 <= i < head - 1 && 0 <= jj < g.adjacency@[queue@[i] as int]@.len()
                    && allowed(g, c, #[trigger] g.edge(queue@[i] as int, jj)) ==> {
                        &&& discovered@[g.edge(queue@[i] as int, jj).target as int]
                        &&& level[g.edge(queue@[i] as int, jj).target as int] <= level[queue@[i] as int] + 1
                    },
                forall|jj: int| 0 <= jj < j && allowed(g, c, #[trigger] g.edge(u as int, jj)) ==> {
                    &&& discovered@[g.edge(u as int, jj).target as int]
                    &&& level[g.edge(u as int, jj).target as int] <= level[u as int] + 1
                },
                forall|v: int, m: nat| 0 <= v < n && #[trigger] reach(g, c, s as int, v, m) && m <= level[u as int]
                    ==> discovered@[v] && level[v] <= m,
                j <= edges@.len(),
            decreases edges@.len() - j,
        {
            let e = edges[j];
            let next = e.target;
            proof {
                assert(e == g.edge(u as int, j as int));
            }
            if discovered[next] {
                proof {
                    let i = choose|i: int| 0 <= i < queue@.len() && queue@[i] == next as int;
                    assert(level[queue@[i] as int] <= level[queue@[queue@.len() - 1] as int]);
                }
                j = j + 1;
                continue;
            }
            if !(e.permitted && edge_meets_gate_policy(e.kind, cons.avoid_gates)
                && system_meets_avoidance(g.systems[next], &cons.avoided_systems)) {
                j = j + 1;
                continue;
            }
            proof {
                assert(step(g, c, u as int, next as int));
                lemma_count_true_set(discovered@, next as int);
                lemma_count_true_bound(discovered@.update(next as int, true));
            }
            discovered.set(next, true);
            parent.set(next, u);
            proof {
                level = level.update(next as int, level[u as int] + 1);
            }
            if next == t {
                let p = reconstruct_path(g, Ghost(c), &parent, Ghost(discovered@), Ghost(level), s, t);
                proof {
                    assert forall|q: Seq<usize>| is_route(g, c, q, s as int, t as int) implies q.len() >= p@.len() by {
                        lemma_route_reach(g, c, q, s as int, t as int);
                        if q.len() - 1 <= level[u as int] {
                            assert(reach(g, c, s as int, t as int, (q.len() - 1) as nat));
                        }
                    }
                }
                return Some(p);
            }
            let ghost old_queue = queue@;
            let ghost old_disc = discovered@;
            queue.push(next);
            proof {
                assert forall|v: int| 0 <= v < n && #[trigger] discovered@[v] implies exists|i: int|
                    0 <= i < queue@.len() && queue@[i] == v by {
                    if v == next as int {
                        assert(queue@[queue@.len() - 1] == v);
                    } else {
                        let i = choose|i: int| 0 <= i < old_queue.len() && old_queue[i] == v;
                        assert(queue@[i] == v);
                    }
                }
            }
            j = j + 1;
        }
    }
    proof {
        assert forall|q: Seq<usize>| !is_route(g, c, q, s as int, t as int) by {
            if is_route(g, c, q, s as int, t as int) {
                lemma_route_reach(g, c, q, s as int, t as int);
                lemma_closed_reach(g, c, s as int, n as int, discovered@, level, queue@, t as int, (q.len() - 1) as nat);
            }
        }
    }
    None
}

pub(crate) proof fn lemma_count_zero(s: Seq<bool>)
    requires
        forall|i: int| 0 <= i < s.len() ==> !#[trigger] s[i],
    ensures
        count_true(s) == 0,
    decreases s.len(),
{
    if s.len() > 0 {
        lemma_count_zero(s.drop_last());
    }
}

/// When the search moves on to the next queued node, every node within that
/// node's level is already discovered.
proof fn lemma_advance_level(
    g: &SearchGraph,
    c: ConstraintsView,
    s: int,
    n: int,
    discovered: Seq<bool>,
    level: Seq<nat>,
    queue: Seq<usize>,
    head: int,
)
    requires
        1 <= head <= queue.len(),
        head == 1 ==> queue.len() == 1,
        n == g.node_count(),
        discovered.len() == n,
        level.len() == n,
        0 <= s < n,
        queue[0] == s,
        discovered[s],
        level[s] == 0,
        forall|i: int| 0 <= i < queue.len() ==> #[trigger] queue[i] < n && discovered[queue[i] as int],
        forall|v: int| 0 <= v < n && #[trigger] discovered[v] ==> exists|i: int| 0 <= i < queue.len() && queue[i] == v,
        forall|i: int, j: int| 0 <= i <= j < queue.len() ==> level[#[trigger] queue[i] as int] <= level[#[trigger] queue[j] as int],
        head > 1 ==> level[queue[queue.len() - 1] as int] <= level[queue[head - 2] as int] + 1,
        forall|i: int, j: int| 0 <= i < head - 1 && 0 <= j < g.adjacency@[queue[i] as int]@.len()
            && allowed(g, c, #[trigger] g.edge(queue[i] as int, j)) ==> {
                &&& discovered[g.edge(queue[i] as int, j).target as int]
                &&& level[g.edge(queue[i] as int, j).target as int] <= level[queue[i] as int] + 1
            },
        head > 1 ==> forall|v: int, m: nat| 0 <= v < n && #[trigger] reach(g, c, s, v, m) && m <= level[queue[head - 2] as int]
            ==> discovered[v] && level[v] <= m,
    ensures
        level[queue[queue.len() - 1] as int] <= level[queue[head - 1] as int] + 1,
        forall|v: int, m: nat| 0 <= v < n && #[trigger] reach(g, c, s, v, m) && m <= level[queue[head - 1] as int]
            ==> discovered[v] && level[v] <= m,
{
    let lu = level[queue[head - 1] as int];
    if head > 1 {
        assert(level[queue[head - 2] as int] <= lu);
    }
    assert forall|v: int, m: nat| 0 <= v < n && #[trigger] reach(g, c, s, v, m) && m <= lu
        implies discovered[v] && level[v] <= m by {
        lemma_reach_within(g, c, s, n, discovered, level, queue, head, v, m);
    }
}

/// Induction on the number of hops behind `lemma_advance_level`.
proof fn lemma_reach_within(
    g: &SearchGraph,
    c: ConstraintsView,
    s: int,
    n: int,
    discovered: Seq<bool>,
    level: Seq<nat>,
    queue: Seq<usize>,
    head: int,
    v: int,
    m: nat,
)
    requires
        1 <= head <= queue.len(),
        n == g.node_count(),
        discovered.len() == n,
        level.len() == n,
        0 <= s < n,
        queue[0] == s,
        discovered[s],
        level[s] == 0,
        forall|i: int| 0 <= i < queue.len() ==> #[trigger] queue[i] < n && discovered[queue[i] as int],
        forall|v: int| 0 <= v < n && #[trigger] discovered[v] ==> exists|i: int| 0 <= i < queue.len() && queue[i] == v,
        forall|i: int, j: int| 0 <= i <= j < queue.len() ==> level[#[trigger] queue[i] as int] <= level[#[trigger] queue[j] as int],
        forall|i: int, j: int| 0 <= i < head - 1 && 0 <= j < g.adjacency@[queue[i] as int]@.len()
            && allowed(g, c, #[trigger] g.edge(queue[i] as int, j)) ==> {
                &&& discovered[g.edge(queue[i] as int, j).target as int]
                &&& level[g.edge(queue[i] as int, j).target as int] <= level[queue[i] as int] + 1
            },
        0 <= v < n,
        reach(g, c, s, v, m),
        m <= level[queue[head - 1] as int],
    ensures
        discovered[v] && level[v] <= m,
    decreases m,
{
    if v != s {
        let w = lemma_reach_pred(g, c, s, v, m);
        lemma_reach_within(g, c, s, n, discovered, level, queue, head, w, (m - 1) as nat);
        let i = choose|i: int| 0 <= i < queue.len() && queue[i] == w;
        // w sits below the current level, so it was processed before the current node
        if i >= head - 1 {
            assert(level[queue[head - 1] as int] <= level[queue[i] as int]);
        }
        let j = choose|j: int| 0 <= j < g.adjacency@[w]@.len() && (#[trigger] g.edge(w, j)).target == v && allowed(g, c, g.edge(w, j));
        assert(allowed(g, c, g.edge(queue[i] as int, j)));
    }
}

/// When every discovered node has been processed, everything reachable is discovered.
proof fn lemma_closed_reach(
    g: &SearchGraph,
    c: ConstraintsView,
    s: int,
    n: int,
    discovered: Seq<bool>,
    level: Seq<nat>,
    queue: Seq<usize>,
    v: int,
    m: nat,
)
    requires
        n == g.node_count(),
        discovered.len() == n,
        0 <= s < n,
        discovered[s],
        forall|i: int| 0 <= i < queue.len() ==> #[trigger] queue[i] < n && discovered[queue[i] as int],
        forall|v: int| 0 <= v < n && #[trigger] discovered[v] ==> exists|i: int| 0 <= i < queue.len() && queue[i] == v,
        forall|i: int, j: int| 0 <= i < queue.len() && 0 <= j < g.adjacency@[queue[i] as int]@.len()
            && allowed(g, c, #[trigger] g.edge(queue[i] as int, j)) ==> {
                &&& discovered[g.edge(queue[i] as int, j).target as int]
                &&& level[g.edge(queue[i] as int, j).target as int] <= level[queue[i] as int] + 1
            },
        0 <= v < n,
        reach(g, c, s, v, m),
    ensures
        discovered[v],
    decreases m,
{
    if v != s {
        let w = lemma_reach_pred(g, c, s, v, m);
        lemma_closed_reach(g, c, s, n, discovered, level, queue, w, (m - 1) as nat);
        let i = choose|i: int| 0 <= i < queue.len() && queue[i] == w;
        let j = choose|j: int| 0 <= j < g.adjacency@[w]@.len() && (#[trigger] g.edge(w, j)).target == v && allowed(g, c, g.edge(w, j));
        assert(allowed(g, c, g.edge(queue[i] as int, j)));
    }
}

/// Run breadth-first search between two systems.
///
/// Returns a route with the fewest hops that uses only allowed edges, or
/// `None` when there is none. A route from a system to itself is that system.
pub fn find_route_bfs(g: &SearchGraph, constraints: &PathConstraints, start: SystemId, goal: SystemId) -> (r: Option<Vec<SystemId>>)
    requires
        g.wf(),
    ensures
        start == goal ==> (r matches Some(p) && p@ == seq![start]),
        start != goal ==> match r {
            Some(p) => is_system_route(g, constraints@, p@, start, goal) && forall|q: Seq<SystemId>|
                is_system_route(g, constraints@, q, start, goal) ==> q.len() >= p@.len(),
            None => forall|q: Seq<SystemId>| !is_system_route(g, constraints@, q, start, goal),
        },
{
    if start == goal {
        let mut p: Vec<SystemId> = Vec::new();
        p.push(start);
        return Some(p);
    }
    let s = match g.node_index(start) {
        Some(k) => k,
        None => {
            proof {
                assert forall|q: Seq<SystemId>| !is_system_route(g, constraints@, q, start, goal) by {
                    if is_system_route(g, constraints@, q, start, goal) {
                        assert(g.has_system(q[0]));
                    }
                }
            }
            return None;
        },
    };
    let t = match g.node_index(goal) {
        Some(k) => k,
        None => {
            proof {
                assert forall|q: Seq<SystemId>| !is_system_route(g, constraints@, q, start, goal) by {
                    if is_system_route(g, constraints@, q, start, goal) {
                        assert(g.has_system(q[q.len() - 1]));
                    }
                }
            }
            return None;
        },
    };
    let found = find_route_bfs_nodes(g, constraints, s, t);
    match found {
        Some(nodes) => {
            let mut ids: Vec<SystemId> = Vec::new();
            let mut k: usize = 0;
            while k < nodes.len()
                invariant
                    k <= nodes@.len(),
                    ids@.len() == k,
                    g.wf(),
                    forall|i: int| 0 <= i < nodes@.len() ==> #[trigger] nodes@[i] < g.node_count(),
                    forall|i: int| 0 <= i < k ==> #[trigger] ids@[i] == g.systems@[nodes@[i] as int],
                decreases nodes@.len() - k,
            {
                ids.push(g.systems[nodes[k]]);
                k = k + 1;
            }
            proof {
                lemma_nodes_to_systems(g, constraints@, nodes@, ids@, s as int, t as int);
                assert forall|q: Seq<SystemId>| is_system_route(g, constraints@, q, start, goal)
                    implies q.len() >= ids@.len() by {
                    let qn = lemma_systems_to_nodes(g, constraints@, q, start, goal);
                }
            }
            Some(ids)
        },
        None => {
            proof {
                assert forall|q: Seq<SystemId>| !is_system_route(g, constraints@, q, start, goal) by {
                    if is_system_route(g, constraints@, q, start, goal) {
                        let qn = lemma_systems_to_nodes(g, constraints@, q, start, goal);
                    }
                }
            }
            None
        },
    }
}

/// A route of nodes, read as system identifiers, is a route of systems.
proof fn lemma_nodes_to_systems(g: &SearchGraph, c: ConstraintsView, nodes: Seq<usize>, ids: Seq<SystemId>, s: int, t: int)
    requires
        g.wf(),
        is_route(g, c, nodes, s, t),
        ids.len() == nodes.len(),
        forall|i: int| 0 <= i < nodes.len() ==> #[trigger] ids[i] == g.systems@[nodes[i] as int],
    ensures
        is_system_route(g, c, ids, g.systems@[s], g.systems@[t]),
{
    assert forall|i: int| 0 <= i < ids.len() implies g.has_system(#[trigger] ids[i]) by {
        assert(g.systems@[nodes[i] as int] == ids[i]);
    }
    assert forall|i: int| 0 <= i < ids.len() - 1 implies step(g, c, g.index_of(#[trigger] ids[i]), g.index_of(ids[i + 1])) by {
        g.lemma_index_of(nodes[i] as int);
        g.lemma_index_of(nodes[i + 1] as int);
        assert(step(g, c, nodes[i] as int, nodes[i + 1] as int));
    }
    assert(ids[ids.len() - 1] == g.systems@[nodes[nodes.len() - 1] as int]);
}

/// A route of systems, read as node indices, is a route of nodes of the same length.
proof fn lemma_systems_to_nodes(g: &SearchGraph, c: ConstraintsView, q: Seq<SystemId>, start: SystemId, goal: SystemId) -> (nodes: Seq<usize>)
    requires
        g.wf(),
        is_system_route(g, c, q, start, goal),
    ensures
        nodes.len() == q.len(),
        is_route(g, c, nodes, g.index_of(start), g.index_of(goal)),
{
    let nodes = Seq::new(q.len(), |i: int| g.index_of(q[i]) as usize);
    assert forall|i: int| 0 <= i < q.len() implies #[trigger] nodes[i] as int == g.index_of(q[i])
        && nodes[i] < g.node_count() by {
        assert(g.has_system(q[i]));
        let k = choose|k: int| 0 <= k < g.systems@.len() && g.systems@[k] == q[i];
    }
    assert forall|i: int| 0 <= i < nodes.len() - 1 implies step(g, c, #[trigger] nodes[i] as int, nodes[i + 1] as int) by {
        assert(nodes[i] as int == g.index_of(q[i]));
        assert(nodes[i + 1] as int == g.index_of(q[i + 1]));
    }
    assert(nodes[0] as int == g.index_of(q[0]));
    assert(nodes[nodes.len() - 1] as int == g.index_of(q[q.len() - 1]));
    nodes
}

/// Find a route between `start` and `goal` using breadth-first search without
/// additional constraints.
pub fn find_route(g: &SearchGraph, start: SystemId, goal: SystemId) -> (r: Option<Vec<SystemId>>)
    requires
        g.wf(),
    ensures
        start == goal ==> (r matches Some(p) && p@ == seq![start]),
        start != goal ==> match r {
            Some(p) => is_system_route(g, (false, Set::<SystemId>::empty()), p@, start, goal)
                && forall|q: Seq<SystemId>| is_system_route(g, (false, Set::<SystemId>::empty()), q, start, goal) ==> q.len() >= p@.len(),
            None => forall|q: Seq<SystemId>| !is_system_route(g, (false, Set::<SystemId>::empty()), q, start, goal),
        },
{
    let constraints = PathConstraints::default();
    find_route_bfs(g, &constraints, start, goal)
}

/// Follow parent links from `t` back to `s` and return the route from `s` to `t`.
fn reconstruct_path(
    g: &SearchGraph,
    Ghost(c): Ghost<ConstraintsView>,
    parent: &Vec<usize>,
    Ghost(discovered): Ghost<Seq<bool>>,
    Ghost(level): Ghost<Seq<nat>>,
    s: usize,
    t: usize,
) -> (p: Vec<usize>)
    requires
        g.wf(),
        s < g.node_count(),
        t < g.node_count(),
        parent@.len() == g.node_count(),
        discovered.len() == g.node_count(),
        level.len() == g.node_count(),
        discovered[t as int],
        level[s as int] == 0,
        forall|v: int| 0 <= v < g.node_count() && v != s && #[trigger] discovered[v] ==> {
            &&& parent@[v] < g.node_count()
            &&& discovered[parent@[v] as int]
            &&& level[v] == level[parent@[v] as int] + 1
            &&& step(g, c, parent@[v] as int, v)
        },
    ensures
        is_route(g, c, p@, s as int, t as int),
        p@.len() == level[t as int] + 1,
        forall|i: int| 0 < i < p@.len() ==> parent@[#[trigger] p@[i] as int] == p@[i - 1],
{
    let mut rev: Vec<usize> = Vec::new();
    rev.push(t);
    let mut cur = t;
    while cur != s
        invariant
            g.wf(),
            s < g.node_count(),
            cur < g.node_count(),
            parent@.len() == g.node_count(),
            discovered.len() == g.node_count(),
            level.len() == g.node_count(),
            discovered[cur as int],
            level[s as int] == 0,
            forall|v: int| 0 <= v < g.node_count() && v != s && #[trigger] discovered[v] ==> {
                &&& parent@[v] < g.node_count()
                &&& discovered[parent@[v] as int]
                &&& level[v] == level[parent@[v] as int] + 1
                &&& step(g, c, parent@[v] as int, v)
            },
            rev@.len() >= 1,
            rev@[0] == t,
            rev@.last() == cur,
            rev@.len() + level[cur as int] == level[t as int] + 1,
            forall|i: int| 0 <= i < rev@.len() ==> #[trigger] rev@[i] < g.node_count(),
            forall|i: int| 0 <= i < rev@.len() - 1 ==> step(g, c, #[trigger] rev@[i + 1] as int, rev@[i] as int),
            forall|i: int| 0 <= i < rev@.len() - 1 ==> parent@[#[trigger] rev@[i] as int] == rev@[i + 1],
        decreases level[cur as int],
    {
        let pcur = parent[cur];
        let ghost old_rev = rev@;
        rev.push(pcur);
        proof {
            assert forall|i: int| 0 <= i < rev@.len() - 1 implies step(g, c, #[trigger] rev@[i + 1] as int, rev@[i] as int) by {
                if i < old_rev.len() - 1 {
                    assert(rev@[i + 1] == old_rev[i + 1] && rev@[i] == old_rev[i]);
                }
            }
            assert forall|i: int| 0 <= i < rev@.len() - 1 implies parent@[#[trigger] rev@[i] as int] == rev@[i + 1] by {
                if i < old_rev.len() - 1 {
                    assert(rev@[i + 1] == old_rev[i + 1] && rev@[i] == old_rev[i]);
                }
            }
        }
        cur = pcur;
    }
    let mut p: Vec<usize> = Vec::new();
    let mut k: usize = rev.len();
    while k > 0
        invariant
            k <= rev@.len(),
            rev@.len() >= 1,
            p@.len() == rev@.len() - k,
            forall|i: int| 0 <= i < p@.len() ==> #[trigger] p@[i] == rev@[rev@.len() - 1 - i],
        decreases k,
    {
        k = k - 1;
        p.push(rev[k]);
    }
    proof {
        assert forall|i: int| 0 <= i < p@.len() - 1 implies step(g, c, #[trigger] p@[i] as int, p@[i + 1] as int) by {
            let a = rev@.len() - 2 - i;
            assert(p@[i] == rev@[a + 1] && p@[i + 1] == rev@[a]);
        }
        assert forall|i: int| 0 <= i < p@.len() implies #[trigger] p@[i] < g.node_count() by {
            assert(p@[i] == rev@[rev@.len() - 1 - i]);
        }
        assert forall|i: int| 0 < i < p@.len() implies parent@[#[trigger] p@[i] as int] == p@[i - 1] by {
            let a = rev@.len() - 1 - i;
            assert(p@[i] == rev@[a] && p@[i - 1] == rev@[a + 1]);
        }
    }
    p
}

} // verus!
