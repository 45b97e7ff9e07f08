//! Lowest-cost route search (Dijkstra's algorithm) over a routing graph with
//! integer edge costs.

use vstd::prelude::*;

use crate::search::{
    allowed, count_true, lemma_count_true_bound, lemma_count_true_set, lemma_count_zero,
    ConstraintsView, PathConstraints, SearchEdge, SearchGraph, SystemId,
};

verus! {

/// A hop of a route: a node index and the index of one of its outgoing edges.
pub type Hop = (usize, usize);

/// The edge a hop takes.
pub open spec fn hop_edge(g: &SearchGraph, h: Hop) -> SearchEdge {
    g.edge(h.0 as int, h.1 as int)
}

/// The hop names an existing, allowed edge.
pub open spec fn valid_hop(g: &SearchGraph, c: ConstraintsView, h: Hop) -> bool {
    &&& h.0 < g.node_count()
    &&& h.1 < g.adjacency@[h.0 as int]@.len()
    &&& allowed(g, c, hop_edge(g, h))
}

/// `r` is a sequence of allowed hops leading from node `s` to node `t`.
pub open spec fn is_edge_route(g: &SearchGraph, c: ConstraintsView, r: Seq<Hop>, s: int, t: int) -> bool {
    if r.len() == 0 {
        s == t
    } else {
        &&& r[0].0 == s
        &&& forall|i: int| 0 <= i < r.len() ==> valid_hop(g, c, #[trigger] r[i])
        &&& forall|i: int| 0 <= i < r.len() - 1 ==> hop_edge(g, #[trigger] r[i]).target == r[i + 1].0
        &&& hop_edge(g, r.last()).target == t
    }
}

/// Sum of the edge costs along a route.
pub open spec fn route_cost(g: &SearchGraph, r: Seq<Hop>) -> nat
    decreases r.len(),
{
    if r.len() == 0 {
        0
    } else {
        route_cost(g, r.drop_last()) + hop_edge(g, r.last()).cost as nat
    }
}

/// The nodes a route visits, starting at `s`.
pub open spec fn route_nodes(g: &SearchGraph, r: Seq<Hop>, s: int) -> Seq<usize> {
    Seq::new(r.len() + 1, |i: int| if i == 0 { s as usize } else { hop_edge(g, r[i - 1]).target })
}

/// The systems a route visits, starting at node `s`.
pub open spec fn route_systems(g: &SearchGraph, r: Seq<Hop>, s: int) -> Seq<SystemId> {
    route_nodes(g, r, s).map_values(|v: usize| g.systems@[v as int])
}

/// `r` is a route from `s` to `t` over allowed edges whose cost fits in `u64`
/// and is no larger than that of any other such route.
pub open spec fn is_cheapest_route(g: &SearchGraph, c: ConstraintsView, r: Seq<Hop>, s: int, t: int) -> bool {
    &&& is_edge_route(g, c, r, s, t)
    &&& route_cost(g, r) <= u64::MAX
    &&& forall|q: Seq<Hop>| #[trigger] is_edge_route(g, c, q, s, t) ==> route_cost(g, q) >= route_cost(g, r)
}

/// The heuristic never drops by more than the cost of an allowed edge.
pub open spec fn is_consistent(g: &SearchGraph, c: ConstraintsView, h: Seq<u64>) -> bool {
    &&& h.len() == g.node_count()
    &&& forall|u: int, j: int|
        0 <= u < g.node_count() && 0 <= j < g.adjacency@[u]@.len() && allowed(g, c, #[trigger] g.edge(u, j))
            ==> h[u] <= g.edge(u, j).cost + h[g.edge(u, j).target as int]
}

/// Entry of the priority queue.
#[derive(Debug, Clone, Copy, PartialEq, Eq, Structural)]
struct QueueEntry {
    node: usize,
    cost: u64,
}

/// Priority of a queue entry: its cost plus the heuristic of its node.
spec fn entry_key(e: QueueEntry, h: Seq<u64>) -> int {
    e.cost + h[e.node as int]
}

// ---------------------------------------------------------------------------
// Route lemmas
// ---------------------------------------------------------------------------

/// A prefix of a route is a route to the node where the prefix ends.
proof fn lemma_route_prefix(g: &SearchGraph, c: ConstraintsView, r: Seq<Hop>, s: int, t: int, i: int)
    requires
        is_edge_route(g, c, r, s, t),
        0 <= s <= usize::MAX,
        0 <= i <= r.len(),
    ensures
        is_edge_route(g, c, r.take(i), s, route_nodes(g, r, s)[i] as int),
        route_cost(g, r.take(i)) <= route_cost(g, r),
        i < r.len() ==> r[i].0 == route_nodes(g, r, s)[i],
    decreases r.len() - i,
{
    let p = r.take(i);
    if i == r.len() {
        assert(p =~= r);
        if r.len() > 0 {
            assert(route_nodes(g, r, s)[i] == hop_edge(g, r[i - 1]).target);
        }
    } else {
        lemma_route_prefix(g, c, r, s, t, i + 1);
        assert(r.take(i + 1).drop_last() =~= p);
        if i > 0 {
            assert(r[i].0 == hop_edge(g, r[i - 1]).target);
            assert forall|k: int| 0 <= k < p.len() implies valid_hop(g, c, #[trigger] p[k]) by {
                assert(p[k] == r[k]);
            }
            assert forall|k: int| 0 <= k < p.len() - 1 implies hop_edge(g, #[trigger] p[k]).target == p[k + 1].0 by {
                assert(p[k] == r[k] && p[k + 1] == r[k + 1]);
            }
        } else {
            assert(p.len() == 0);
            assert(r[0].0 == s);
        }
    }
}

/// Prefixing a route with one allowed hop into its start.
proof fn lemma_route_cons(g: &SearchGraph, c: ConstraintsView, h: Hop, r: Seq<Hop>, v: int, t: int)
    requires
        is_edge_route(g, c, r, v, t),
        valid_hop(g, c, h),
        hop_edge(g, h).target == v,
    ensures
        is_edge_route(g, c, seq![h] + r, h.0 as int, t),
        route_cost(g, seq![h] + r) == hop_edge(g, h).cost + route_cost(g, r),
        route_nodes(g, seq![h] + r, h.0 as int) == seq![h.0] + route_nodes(g, r, v),
    decreases r.len(),
{
    let q = seq![h] + r;
    if r.len() == 0 {
        assert(q =~= seq![h]);
        assert(q.drop_last() =~= Seq::<Hop>::empty());
        assert(route_cost(g, q) == route_cost(g, q.drop_last()) + hop_edge(g, q.last()).cost as nat);
    } else {
        lemma_route_prefix(g, c, r, v, t, r.len() - 1);
        assert(r.take(r.len() - 1) =~= r.drop_last());
        assert(route_nodes(g, r, v)[r.len() - 1] == r[r.len() - 1].0);
        lemma_route_cons(g, c, h, r.drop_last(), v, r.last().0 as int);
        assert(q.drop_last() =~= seq![h] + r.drop_last());
        assert(q.last() == r.last());
        assert(route_cost(g, q) == route_cost(g, q.drop_last()) + hop_edge(g, q.last()).cost as nat);
        assert(route_cost(g, r) == route_cost(g, r.drop_last()) + hop_edge(g, r.last()).cost as nat);
        assert forall|k: int| 0 <= k < q.len() implies valid_hop(g, c, #[trigger] q[k]) by {
            if k > 0 {
                assert(q[k] == r[k - 1]);
            }
        }
        assert forall|k: int| 0 <= k < q.len() - 1 implies hop_edge(g, #[trigger] q[k]).target == q[k + 1].0 by {
            if k > 0 {
                assert(q[k] == r[k - 1] && q[k + 1] == r[k]);
            }
        }
        assert(q.last() == r.last());
    }
    assert(route_nodes(g, q, h.0 as int) =~= seq![h.0] + route_nodes(g, r, v)) by {
        assert forall|i: int| 0 <= i < q.len() + 1 implies route_nodes(g, q, h.0 as int)[i] == (seq![h.0] + route_nodes(g, r, v))[i] by {
            if i == 1 {
                if r.len() == 0 {
                } else {
                    assert(r[0].0 == v);
                }
            } else if i > 1 {
                assert(q[i - 1] == r[i - 2]);
            }
        }
    }
}

// ---------------------------------------------------------------------------
// Search state
// ---------------------------------------------------------------------------

/// The invariant of Dijkstra's search. Node `u`, when it is a node, has had
/// only its first `j` edges relaxed so far.
spec fn inv_core(
    g: &SearchGraph,
    c: ConstraintsView,
    s: int,
    t: int,
    dist: Seq<u64>,
    known: Seq<bool>,
    closed: Seq<bool>,
    parent: Seq<usize>,
    parent_edge: Seq<usize>,
    rank: Seq<nat>,
    num_closed: nat,
    heap: Seq<QueueEntry>,
    h: Seq<u64>,
    u: int,
    j: int,
) -> bool {
    let n = g.node_count();
    &&& dist.len() == n && known.len() == n && closed.len() == n
    &&& parent.len() == n && parent_edge.len() == n && rank.len() == n && h.len() == n
    &&& 0 <= s < n && 0 <= t < n && s != t
    &&& known[s] && dist[s] == 0
    &&& !closed[t]
    &&& num_closed == count_true(closed)
    &&& forall|k: int| 0 <= k < heap.len() ==> {
        &&& (#[trigger] heap[k]).node < n
        &&& known[heap[k].node as int]
        &&& heap[k].cost >= dist[heap[k].node as int]
    }
    &&& forall|v: int| 0 <= v < n && #[trigger] known[v] && !closed[v] ==> exists|k: int|
        0 <= k < heap.len() && heap[k] == QueueEntry { node: v as usize, cost: dist[v] }
    &&& forall|v: int, k: int| 0 <= v < n && #[trigger] closed[v] && 0 <= k < heap.len() ==> dist[v] + h[v] <= entry_key(#[trigger] heap[k], h)
    &&& forall|v: int| 0 <= v < n && #[trigger] closed[v] ==> known[v] && rank[v] < num_closed
    &&& forall|v: int, jj: int| 0 <= v < n && closed[v] && (v != u || jj < j) && 0 <= jj < g.adjacency@[v]@.len()
        && allowed(g, c, #[trigger] g.edge(v, jj)) && dist[v] + g.edge(v, jj).cost <= u64::MAX
        ==> known[g.edge(v, jj).target as int] && dist[g.edge(v, jj).target as int] <= dist[v] + g.edge(v, jj).cost
    &&& forall|v: int, r: Seq<Hop>| 0 <= v < n && closed[v] && #[trigger] is_edge_route(g, c, r, s, v)
        ==> route_cost(g, r) >= dist[v]
    &&& forall|v: int| 0 <= v < n && v != s && #[trigger] known[v] ==> {
        &&& parent[v] < n
        &&& closed[parent[v] as int]
        &&& valid_hop(g, c, (parent[v], parent_edge[v]))
        &&& hop_edge(g, (parent[v], parent_edge[v])).target == v
        &&& dist[v] == dist[parent[v] as int] + hop_edge(g, (parent[v], parent_edge[v])).cost
        &&& closed[v] ==> rank[parent[v] as int] < rank[v]
    }
}

/// The invariant of Dijkstra's search between rounds.
spec fn search_inv(
    g: &SearchGraph,
    c: ConstraintsView,
    s: int,
    t: int,
    dist: Seq<u64>,
    known: Seq<bool>,
    closed: Seq<bool>,
    parent: Seq<usize>,
    parent_edge: Seq<usize>,
    rank: Seq<nat>,
    num_closed: nat,
    heap: Seq<QueueEntry>,
    h: Seq<u64>,
) -> bool {
    inv_core(g, c, s, t, dist, known, closed, parent, parent_edge, rank, num_closed, heap, h, -1, 0)
}

/// Removing a stale entry, or one for a closed node, keeps the invariant.
#[verifier::rlimit(100)]
#[verifier::spinoff_prover]
proof fn lemma_remove_keeps(
    g: &SearchGraph,
    c: ConstraintsView,
    s: int,
    t: int,
    dist: Seq<u64>,
    known: Seq<bool>,
    closed: Seq<bool>,
    parent: Seq<usize>,
    parent_edge: Seq<usize>,
    rank: Seq<nat>,
    num_closed: nat,
    heap: Seq<QueueEntry>,
    h: Seq<u64>,
    m: int,
)
    requires
        g.wf(),
        search_inv(g, c, s, t, dist, known, closed, parent, parent_edge, rank, num_closed, heap, h),
        0 <= m < heap.len(),
        dist[heap[m].node as int] < heap[m].cost || closed[heap[m].node as int],
    ensures
        search_inv(g, c, s, t, dist, known, closed, parent, parent_edge, rank, num_closed, heap.remove(m), h),
{
    let h2 = heap.remove(m);
    assert forall|k: int| 0 <= k < h2.len() implies {
        &&& (#[trigger] h2[k]).node < g.node_count()
        &&& known[h2[k].node as int]
        &&& h2[k].cost >= dist[h2[k].node as int]
    } by {
        if k < m {
            assert(h2[k] == heap[k]);
        } else {
            assert(h2[k] == heap[k + 1]);
        }
    }
    assert forall|v: int| 0 <= v < g.node_count() && #[trigger] known[v] && !closed[v] implies exists|k: int|
        0 <= k < h2.len() && h2[k] == QueueEntry { node: v as usize, cost: dist[v] } by {
        let k = choose|k: int| 0 <= k < heap.len() && heap[k] == QueueEntry { node: v as usize, cost: dist[v] };
        if k < m {
            assert(h2[k] == heap[k]);
        } else if k > m {
            assert(h2[k - 1] == heap[k]);
        }
    }
    assert forall|v: int, k: int| 0 <= v < g.node_count() && #[trigger] closed[v] && 0 <= k < h2.len() implies dist[v] + h[v] <= entry_key(#[trigger] h2[k], h) by {
        if k < m {
            assert(h2[k] == heap[k]);
        } else {
            assert(h2[k] == heap[k + 1]);
        }
    }
}

/// Closing the node of a current least-cost entry.
#[verifier::rlimit(100)]
#[verifier::spinoff_prover]
proof fn lemma_close(
    g: &SearchGraph,
    c: ConstraintsView,
    s: int,
    t: int,
    dist: Seq<u64>,
    known: Seq<bool>,
    closed: Seq<bool>,
    parent: Seq<usize>,
    parent_edge: Seq<usize>,
    rank: Seq<nat>,
    num_closed: nat,
    heap: Seq<QueueEntry>,
    h: Seq<u64>,
    m: int,
)
    requires
        g.wf(),
        search_inv(g, c, s, t, dist, known, closed, parent, parent_edge, rank, num_closed, heap, h),
        0 <= m < heap.len(),
        dist[heap[m].node as int] == heap[m].cost,
        !closed[heap[m].node as int],
        heap[m].node != t,
        forall|k: int| 0 <= k < heap.len() ==> entry_key(#[trigger] heap[k], h) >= entry_key(heap[m], h),
        forall|q: Seq<Hop>| #[trigger] is_edge_route(g, c, q, s, heap[m].node as int) ==> route_cost(g, q) >= dist[heap[m].node as int],
    ensures
        ({
            let u = heap[m].node as int;
            &&& inv_core(g, c, s, t, dist, known, closed.update(u, true), parent, parent_edge,
                rank.update(u, num_closed), num_closed + 1, heap.remove(m), h, u, 0)
            &&& forall|w: int| 0 <= w < g.node_count() && #[trigger] closed.update(u, true)[w] ==> dist[w] + h[w] <= dist[u] + h[u]
        }),
{
    let u = heap[m].node as int;
    let cl = closed.update(u, true);
    let rk = rank.update(u, num_closed);
    let h2 = heap.remove(m);
    lemma_count_true_set(closed, u);
    assert forall|k: int| 0 <= k < h2.len() implies {
        &&& (#[trigger] h2[k]).node < g.node_count()
        &&& known[h2[k].node as int]
        &&& h2[k].cost >= dist[h2[k].node as int]
    } by {
        if k < m {
            assert(h2[k] == heap[k]);
        } else {
            assert(h2[k] == heap[k + 1]);
        }
    }
    assert forall|v: int| 0 <= v < g.node_count() && #[trigger] known[v] && !cl[v] implies exists|k: int|
        0 <= k < h2.len() && h2[k] == QueueEntry { node: v as usize, cost: dist[v] } by {
        let k = choose|k: int| 0 <= k < heap.len() && heap[k] == QueueEntry { node: v as usize, cost: dist[v] };
        if k < m {
            assert(h2[k] == heap[k]);
        } else if k > m {
            assert(h2[k - 1] == heap[k]);
        }
    }
    assert forall|v: int, k: int| 0 <= v < g.node_count() && #[trigger] cl[v] && 0 <= k < h2.len() implies dist[v] + h[v] <= entry_key(#[trigger] h2[k], h) by {
        if k < m {
            assert(h2[k] == heap[k]);
        } else {
            assert(h2[k] == heap[k + 1]);
        }
        if v != u {
            assert(dist[v] + h[v] <= entry_key(heap[m], h));
        }
    }
    assert forall|w: int| 0 <= w < g.node_count() && #[trigger] cl[w] implies dist[w] + h[w] <= dist[u] + h[u] by {
        if w != u {
            assert(dist[w] + h[w] <= entry_key(heap[m], h));
        }
    }
    assert forall|v: int| 0 <= v < g.node_count() && #[trigger] cl[v] implies known[v] && rk[v] < num_closed + 1 by {}
    assert forall|v: int, r: Seq<Hop>| 0 <= v < g.node_count() && cl[v] && #[trigger] is_edge_route(g, c, r, s, v)
        implies route_cost(g, r) >= dist[v] by {}
    assert forall|v: int| 0 <= v < g.node_count() && v != s && #[trigger] known[v] implies {
        &&& parent[v] < g.node_count()
        &&& cl[parent[v] as int]
        &&& valid_hop(g, c, (parent[v], parent_edge[v]))
        &&& hop_edge(g, (parent[v], parent_edge[v])).target == v
        &&& dist[v] == dist[parent[v] as int] + hop_edge(g, (parent[v], parent_edge[v])).cost
        &&& cl[v] ==> rk[parent[v] as int] < rk[v]
    } by {
        assert(closed[parent[v] as int]);
    }
}

/// Relaxing edge `j` of `u` by lowering the distance of its target.
proof fn lemma_relax(
    g: &SearchGraph,
    c: ConstraintsView,
    s: int,
    t: int,
    dist: Seq<u64>,
    known: Seq<bool>,
    closed: Seq<bool>,
    parent: Seq<usize>,
    parent_edge: Seq<usize>,
    rank: Seq<nat>,
    num_closed: nat,
    heap: Seq<QueueEntry>,
    h: Seq<u64>,
    u: int,
    j: int,
    nc: u64,
)
    requires
        g.wf(),
        inv_core(g, c, s, t, dist, known, closed, parent, parent_edge, rank, num_closed, heap, h, u, j),
        0 <= u < g.node_count(),
        closed[u],
        forall|w: int| 0 <= w < g.node_count() && #[trigger] closed[w] ==> dist[w] + h[w] <= dist[u] + h[u],
        0 <= j < g.adjacency@[u]@.len(),
        allowed(g, c, g.edge(u, j)),
        h[u] <= g.edge(u, j).cost + h[g.edge(u, j).target as int],
        nc == dist[u] + g.edge(u, j).cost,
        !closed[g.edge(u, j).target as int],
        !known[g.edge(u, j).target as int] || nc < dist[g.edge(u, j).target as int],
    ensures
        ({
            let v = g.edge(u, j).target as int;
            let d2 = dist.update(v, nc);
            &&& inv_core(g, c, s, t, d2, known.update(v, true), closed, parent.update(v, u as usize),
                parent_edge.update(v, j as usize), rank, num_closed, heap.push(QueueEntry { node: v as usize, cost: nc }), h, u, j + 1)
            &&& forall|w: int| 0 <= w < g.node_count() && #[trigger] closed[w] ==> d2[w] + h[w] <= d2[u] + h[u]
        }),
{
    let v = g.edge(u, j).target as int;
    let d2 = dist.update(v, nc);
    let k2 = known.update(v, true);
    let p2 = parent.update(v, u as usize);
    let e2 = parent_edge.update(v, j as usize);
    let h2 = heap.push(QueueEntry { node: v as usize, cost: nc });
    assert(v != u);
    assert(v != s) by {
        if v == s {
            assert(known[s] && dist[s] == 0);
        }
    }
    assert forall|k: int| 0 <= k < h2.len() implies {
        &&& (#[trigger] h2[k]).node < g.node_count()
        &&& k2[h2[k].node as int]
        &&& h2[k].cost >= d2[h2[k].node as int]
    } by {
        if k < heap.len() {
            assert(h2[k] == heap[k]);
        }
    }
    assert forall|w: int| 0 <= w < g.node_count() && #[trigger] k2[w] && !closed[w] implies exists|k: int|
        0 <= k < h2.len() && h2[k] == QueueEntry { node: w as usize, cost: d2[w] } by {
        if w == v {
            assert(h2[heap.len() as int] == QueueEntry { node: w as usize, cost: d2[w] });
        } else {
            let k = choose|k: int| 0 <= k < heap.len() && heap[k] == QueueEntry { node: w as usize, cost: dist[w] };
            assert(h2[k] == heap[k]);
        }
    }
    assert forall|w: int, k: int| 0 <= w < g.node_count() && #[trigger] closed[w] && 0 <= k < h2.len() implies d2[w] + h[w] <= entry_key(#[trigger] h2[k], h) by {
        if k < heap.len() {
            assert(h2[k] == heap[k]);
        } else {
            assert(d2[w] == dist[w]);
            assert(entry_key(h2[k], h) == nc + h[v]);
        }
    }
    assert forall|w: int, jj: int| 0 <= w < g.node_count() && closed[w] && (w != u || jj < j + 1) && 0 <= jj < g.adjacency@[w]@.len()
        && allowed(g, c, #[trigger] g.edge(w, jj)) && d2[w] + g.edge(w, jj).cost <= u64::MAX
        implies k2[g.edge(w, jj).target as int] && d2[g.edge(w, jj).target as int] <= d2[w] + g.edge(w, jj).cost by {
        assert(d2[w] == dist[w]);
    }
    assert forall|w: int, r: Seq<Hop>| 0 <= w < g.node_count() && closed[w] && #[trigger] is_edge_route(g, c, r, s, w)
        implies route_cost(g, r) >= d2[w] by {
        assert(d2[w] == dist[w]);
    }
    assert forall|w: int| 0 <= w < g.node_count() && w != s && #[trigger] k2[w] implies {
        &&& p2[w] < g.node_count()
        &&& closed[p2[w] as int]
        &&& valid_hop(g, c, (p2[w], e2[w]))
        &&& hop_edge(g, (p2[w], e2[w])).target == w
        &&& d2[w] == d2[p2[w] as int] + hop_edge(g, (p2[w], e2[w])).cost
        &&& closed[w] ==> rank[p2[w] as int] < rank[w]
    } by {
        if w != v {
            assert(closed[parent[w] as int]);
            assert(parent[w] as int != v);
        } else {
            assert(g.adjacency@[u].len() == g.adjacency@[u]@.len());
            assert(p2[w] == u as usize);
            assert(e2[w] == j as usize);
            assert(p2[w] as int == u);
            assert(e2[w] as int == j);
            assert(d2[u] == dist[u]);
            assert(hop_edge(g, (p2[w], e2[w])) == g.edge(u, j));
            assert(valid_hop(g, c, (p2[w], e2[w])));
        }
    }
    assert forall|w: int| 0 <= w < g.node_count() && #[trigger] closed[w] implies d2[w] + h[w] <= d2[u] + h[u] by {
        assert(d2[w] == dist[w]);
    }
}

/// Leaving edge `j` of `u` as it is keeps the invariant.
proof fn lemma_skip_edge(
    g: &SearchGraph,
    c: ConstraintsView,
    s: int,
    t: int,
    dist: Seq<u64>,
    known: Seq<bool>,
    closed: Seq<bool>,
    parent: Seq<usize>,
    parent_edge: Seq<usize>,
    rank: Seq<nat>,
    num_closed: nat,
    heap: Seq<QueueEntry>,
    h: Seq<u64>,
    u: int,
    j: int,
)
    requires
        g.wf(),
        inv_core(g, c, s, t, dist, known, closed, parent, parent_edge, rank, num_closed, heap, h, u, j),
        0 <= u < g.node_count(),
        closed[u],
        forall|w: int| 0 <= w < g.node_count() && #[trigger] closed[w] ==> dist[w] + h[w] <= dist[u] + h[u],
        0 <= j < g.adjacency@[u]@.len(),
        allowed(g, c, g.edge(u, j)) ==> h[u] <= g.edge(u, j).cost + h[g.edge(u, j).target as int],
        allowed(g, c, g.edge(u, j)) && dist[u] + g.edge(u, j).cost <= u64::MAX ==> {
            ||| closed[g.edge(u, j).target as int]
            ||| known[g.edge(u, j).target as int] && dist[g.edge(u, j).target as int] <= dist[u] + g.edge(u, j).cost
        },
    ensures
        inv_core(g, c, s, t, dist, known, closed, parent, parent_edge, rank, num_closed, heap, h, u, j + 1),
{
}

/// After all edges of `u` are relaxed, the between-rounds invariant holds again.
proof fn lemma_node_done(
    g: &SearchGraph,
    c: ConstraintsView,
    s: int,
    t: int,
    dist: Seq<u64>,
    known: Seq<bool>,
    closed: Seq<bool>,
    parent: Seq<usize>,
    parent_edge: Seq<usize>,
    rank: Seq<nat>,
    num_closed: nat,
    heap: Seq<QueueEntry>,
    h: Seq<u64>,
    u: int,
)
    requires
        0 <= u < g.node_count(),
        inv_core(g, c, s, t, dist, known, closed, parent, parent_edge, rank, num_closed, heap, h, u, g.adjacency@[u]@.len() as int),
    ensures
        search_inv(g, c, s, t, dist, known, closed, parent, parent_edge, rank, num_closed, heap, h),
{
}

/// With the queue empty, every route that fits the cost range reaches only closed nodes.
proof fn lemma_exhausted(
    g: &SearchGraph,
    c: ConstraintsView,
    s: int,
    t: int,
    dist: Seq<u64>,
    known: Seq<bool>,
    closed: Seq<bool>,
    parent: Seq<usize>,
    parent_edge: Seq<usize>,
    rank: Seq<nat>,
    num_closed: nat,
    h: Seq<u64>,
    q: Seq<Hop>,
    i: int,
)
    requires
        g.wf(),
        search_inv(g, c, s, t, dist, known, closed, parent, parent_edge, rank, num_closed, Seq::<QueueEntry>::empty(), h),
        closed[s],
        is_edge_route(g, c, q, s, t),
        route_cost(g, q) <= u64::MAX,
        0 <= i <= q.len(),
    ensures
        closed[route_nodes(g, q, s)[i] as int],
        dist[route_nodes(g, q, s)[i] as int] <= route_cost(g, q.take(i)),
    decreases i,
{
    lemma_route_prefix(g, c, q, s, t, i);
    if i == 0 {
        assert(q.take(0) =~= Seq::<Hop>::empty());
    } else {
        lemma_exhausted(g, c, s, t, dist, known, closed, parent, parent_edge, rank, num_closed, h, q, i - 1);
        lemma_route_prefix(g, c, q, s, t, i - 1);
        let h = q[i - 1];
        let x = route_nodes(g, q, s)[i - 1] as int;
        assert(q.take(i).drop_last() =~= q.take(i - 1));
        assert(q.take(i).last() == h);
        assert(h.0 as int == x);
        assert(valid_hop(g, c, h));
        assert(allowed(g, c, g.edge(x, h.1 as int)));
        let y = route_nodes(g, q, s)[i] as int;
        assert(y == hop_edge(g, h).target);
        assert(known[y]);
        if !closed[y] {
            let k = choose|k: int| 0 <= k < 0 && Seq::<QueueEntry>::empty()[k] == QueueEntry { node: y as usize, cost: dist[y] };
        }
    }
}

/// Popping a current entry with the least cost gives that node its final cost.
proof fn lemma_pop_optimal(
    g: &SearchGraph,
    c: ConstraintsView,
    s: int,
    t: int,
    dist: Seq<u64>,
    known: Seq<bool>,
    closed: Seq<bool>,
    parent: Seq<usize>,
    parent_edge: Seq<usize>,
    rank: Seq<nat>,
    num_closed: nat,
    heap: Seq<QueueEntry>,
    h: Seq<u64>,
    u: int,
    r: Seq<Hop>,
)
    requires
        g.wf(),
        search_inv(g, c, s, t, dist, known, closed, parent, parent_edge, rank, num_closed, heap, h),
        0 <= u < g.node_count(),
        known[u],
        !closed[u],
        is_consistent(g, c, h),
        forall|k: int| 0 <= k < heap.len() ==> entry_key(#[trigger] heap[k], h) >= dist[u] + h[u],
        closed[s] || u == s,
        is_edge_route(g, c, r, s, u),
    ensures
        route_cost(g, r) >= dist[u],
{
    if u == s {
        return;
    }
    if route_cost(g, r) < dist[u] {
        let nodes = route_nodes(g, r, s);
        let k = lemma_first_open(g, closed, nodes, r.len() as int);
        // nodes[k - 1] is closed and nodes[k] is not
        let x = nodes[k - 1] as int;
        let y = nodes[k] as int;
        lemma_route_prefix(g, c, r, s, u, k - 1);
        lemma_route_prefix(g, c, r, s, u, k);
        let hp = r[k - 1];
        assert(r.take(k).drop_last() =~= r.take(k - 1));
        assert(r.take(k).last() == hp);
        assert(valid_hop(g, c, hp));
        assert(hop_edge(g, hp).target == y);
        assert(route_cost(g, r.take(k - 1)) >= dist[x]);
        assert(allowed(g, c, g.edge(x, hp.1 as int)));
        assert(known[y] && dist[y] <= dist[x] + g.edge(x, hp.1 as int).cost);
        if y == u {
        } else {
            lemma_heuristic_along(g, c, h, r, s, u, k);
            let e = choose|e: int| 0 <= e < heap.len() && heap[e] == QueueEntry { node: y as usize, cost: dist[y] };
            assert(entry_key(heap[e], h) >= dist[u] + h[u]);
        }
    }
}

/// Along a route, the heuristic at a node plus the cost so far is at most
/// the cost of the whole route plus the heuristic at its end.
proof fn lemma_heuristic_along(g: &SearchGraph, c: ConstraintsView, h: Seq<u64>, r: Seq<Hop>, s: int, t: int, k: int)
    requires
        g.wf(),
        is_consistent(g, c, h),
        0 <= s < g.node_count(),
        is_edge_route(g, c, r, s, t),
        0 <= k <= r.len(),
    ensures
        h[route_nodes(g, r, s)[k] as int] + route_cost(g, r.take(k)) <= h[t] + route_cost(g, r),
    decreases r.len() - k,
{
    lemma_route_prefix(g, c, r, s, t, k);
    if k == r.len() {
        assert(r.take(k) =~= r);
        if r.len() > 0 {
            assert(r.last() == r[r.len() - 1]);
        }
    } else {
        lemma_heuristic_along(g, c, h, r, s, t, k + 1);
        lemma_route_prefix(g, c, r, s, t, k + 1);
        let hp = r[k];
        assert(r.take(k + 1).drop_last() =~= r.take(k));
        assert(r.take(k + 1).last() == hp);
        assert(valid_hop(g, c, hp));
        assert(allowed(g, c, g.edge(hp.0 as int, hp.1 as int)));
        assert(route_nodes(g, r, s)[k + 1] == hop_edge(g, hp).target);
    }
}

/// Along a route whose start is closed and whose end is open, some closed
/// node is directly followed by an open one.
proof fn lemma_first_open(g: &SearchGraph, closed: Seq<bool>, nodes: Seq<usize>, j: int) -> (k: int)
    requires
        1 <= j < nodes.len(),
        forall|i: int| 0 <= i < nodes.len() ==> #[trigger] nodes[i] < closed.len(),
        closed[nodes[0] as int],
        !closed[nodes[j] as int],
    ensures
        1 <= k <= j,
        closed[nodes[k - 1] as int],
        !closed[nodes[k] as int],
    decreases j,
{
    if closed[nodes[j - 1] as int] {
        j
    } else {
        lemma_first_open(g, closed, nodes, j - 1)
    }
}

/// Index of the queue entry with the least priority, ties broken by the
/// smaller system identifier.
fn min_entry(g: &SearchGraph, h: &Vec<u64>, heap: &Vec<QueueEntry>) -> (m: usize)
    requires
        heap@.len() > 0,
        g.wf(),
        h@.len() == g.node_count(),
        forall|k: int| 0 <= k < heap@.len() ==> (#[trigger] heap@[k]).node < g.node_count(),
    ensures
        m < heap@.len(),
        forall|k: int| 0 <= k < heap@.len() ==> entry_key(#[trigger] heap@[k], h@) >= entry_key(heap@[m as int], h@),
{
    let mut m: usize = 0;
    let mut k: usize = 1;
    while k < heap.len()
        invariant
            1 <= k <= heap@.len(),
            m < k,
            g.wf(),
            h@.len() == g.node_count(),
            forall|i: int| 0 <= i < heap@.len() ==> (#[trigger] heap@[i]).node < g.node_count(),
            forall|i: int| 0 <= i < k ==> entry_key(#[trigger] heap@[i], h@) >= entry_key(heap@[m as int], h@),
        decreases heap@.len() - k,
    {
        let a = heap[k];
        let b = heap[m];
        let ka: u128 = a.cost as u128 + h[a.node] as u128;
        let kb: u128 = b.cost as u128 + h[b.node] as u128;
        if ka < kb || (ka == kb && g.systems[a.node] < g.systems[b.node]) {
            m = k;
        }
        k = k + 1;
    }
    m
}

/// Run A* search over node indices with a consistent heuristic `h`.
///
/// Returns the nodes of a lowest-cost route from `s` to `t` over allowed
/// edges. Routes whose cost exceeds `u64::MAX` are not considered: `None`
/// means every route costs more than that (or there is none).
#[verifier::rlimit(100)]
#[verifier::spinoff_prover]
pub fn find_route_a_star_nodes(g: &SearchGraph, cons: &PathConstraints, h: &Vec<u64>, s: usize, t: usize) -> (res: Option<Vec<usize>>)
    requires
        g.wf(),
        s < g.node_count(),
        t < g.node_count(),
        is_consistent(g, cons@, h@),
    ensures
        match res {
            Some(p) => exists|r: Seq<Hop>| #[trigger] is_cheapest_route(g, cons@, r, s as int, t as int) && route_nodes(g, r, s as int) == p@,
            None => forall|q: Seq<Hop>| #[trigger] is_edge_route(g, cons@, q, s as int, t as int) ==> route_cost(g, q) > u64::MAX,
        },
{
    let ghost c = cons@;
    if s == t {
        let mut p: Vec<usize> = Vec::new();
        p.push(s);
        proof {
            let r = Seq::<Hop>::empty();
            assert(is_edge_route(g, c, r, s as int, t as int));
            assert(route_nodes(g, r, s as int) =~= p@);
            assert(is_cheapest_route(g, c, r, s as int, t as int));
        }
        return Some(p);
    }
    let n = g.systems.len();
    let mut dist: Vec<u64> = Vec::new();
    let mut known: Vec<bool> = Vec::new();
    let mut settled: Vec<bool> = Vec::new();
    let mut parent: Vec<usize> = Vec::new();
    let mut parent_edge: Vec<usize> = Vec::new();
    let mut k: usize = 0;
    while k < n
        invariant
            k <= n,
            dist@.len() == k && known@.len() == k && settled@.len() == k,
            parent@.len() == k && parent_edge@.len() == k,
            forall|i: int| 0 <= i < k ==> !#[trigger] known@[i],
            forall|i: int| 0 <= i < k ==> !#[trigger] settled@[i],
            forall|i: int| 0 <= i < k ==> #[trigger] dist@[i] == 0,
        decreases n - k,
    {
        dist.push(0);
        known.push(false);
        settled.push(false);
        parent.push(0);
        parent_edge.push(0);
        k = k + 1;
    }
    known.set(s, true);
    let mut heap: Vec<QueueEntry> = Vec::new();
    heap.push(QueueEntry { node: s, cost: 0 });
    let ghost mut rank: Seq<nat> = Seq::new(n as nat, |i: int| 0nat);
    let ghost mut num_closed: nat = 0;
    proof {
        lemma_count_zero(settled@);
        assert(heap@ =~= seq![QueueEntry { node: s, cost: 0 }]);
        assert(dist@[s as int] == 0);
        assert forall|v: int| 0 <= v < n && #[trigger] known@[v] && !settled@[v] implies exists|k: int|
            0 <= k < heap@.len() && heap@[k] == QueueEntry { node: v as usize, cost: dist@[v] } by {
            assert(v == s);
            assert(heap@[0] == QueueEntry { node: v as usize, cost: dist@[v] });
        }
        assert forall|v: int| 0 <= v < n && v != s && #[trigger] known@[v] implies false by {}
        assert(search_inv(g, c, s as int, t as int, dist@, known@, settled@, parent@, parent_edge@, rank, num_closed, heap@, h@));
    }

    while heap.len() > 0
        invariant
            g.wf(),
            c == cons@,
            n == g.node_count(),
            s < n && t < n,
            is_consistent(g, c, h@),
            search_inv(g, c, s as int, t as int, dist@, known@, settled@, parent@, parent_edge@, rank, num_closed, heap@, h@),
            !settled@[s as int] ==> heap@ == seq![QueueEntry { node: s, cost: 0 }],
        decreases n - num_closed, heap@.len(),
    {
        proof {
            lemma_count_true_bound(settled@);
        }
        let m = min_entry(g, h, &heap);
        let ghost old_heap = heap@;
        let entry = heap.remove(m);
        let u = entry.node;
        proof {
            assert(old_heap[m as int] == entry);
        }
        if dist[u] < entry.cost || settled[u] {
            proof {
                lemma_remove_keeps(g, c, s as int, t as int, dist@, known@, settled@, parent@, parent_edge@, rank, num_closed, old_heap, h@, m as int);
                if !settled@[s as int] {
                    assert(u == s);
                }
            }
            continue;
        }
        proof {
            assert(entry.cost == dist@[u as int]);
            if !settled@[s as int] {
                assert(u == s);
            }
            assert forall|q: Seq<Hop>| #[trigger] is_edge_route(g, c, q, s as int, u as int) implies route_cost(g, q) >= dist@[u as int] by {
                lemma_pop_optimal(g, c, s as int, t as int, dist@, known@, settled@, parent@, parent_edge@, rank, num_closed, old_heap, h@, u as int, q);
            }
        }
        if u == t {
            let p = reconstruct_weighted(g, Ghost(c), s, t, &parent, &parent_edge, Ghost(dist@), Ghost(known@), Ghost(settled@), Ghost(rank), Ghost(num_closed));
            proof {
                let r = choose|r: Seq<Hop>| #[trigger] is_edge_route(g, c, r, s as int, t as int)
                    && route_nodes(g, r, s as int) == p@ && route_cost(g, r) == dist@[t as int];
                assert(is_cheapest_route(g, c, r, s as int, t as int));
            }
            return Some(p);
        }
        proof {
            lemma_close(g, c, s as int, t as int, dist@, known@, settled@, parent@, parent_edge@, rank, num_closed, old_heap, h@, m as int);
        }
        settled.set(u, true);
        proof {
            rank = rank.update(u as int, num_closed);
            num_closed = num_closed + 1;
        }
        let edges = &g.adjacency[u];
        let mut j: usize = 0;
        while j < edges.len()
            invariant
                g.wf(),
                c == cons@,
                n == g.node_count(),
                s < n && t < n && u < n,
                is_consistent(g, c, h@),
                edges@ == g.adjacency@[u as int]@,
                j <= edges@.len(),
                settled@[u as int],
                settled@[s as int],
                inv_core(g, c, s as int, t as int, dist@, known@, settled@, parent@, parent_edge@, rank, num_closed, heap@, h@, u as int, j as int),
                forall|w: int| 0 <= w < n && #[trigger] settled@[w] ==> dist@[w] + h@[w] <= dist@[u as int] + h@[u as int],
            decreases edges@.len() - j,
        {
            let e = edges[j];
            let v = e.target;
            proof {
                assert(e == g.edge(u as int, j as int));
            }
            let mut relaxed = false;
            if e.permitted && crate::search::edge_meets_gate_policy(e.kind, cons.avoid_gates)
                && crate::search::system_meets_avoidance(g.systems[v], &cons.avoided_systems) {
                match dist[u].checked_add(e.cost) {
                    Some(nc) => {
                        if !settled[v] && (!known[v] || nc < dist[v]) {
                            proof {
                                lemma_relax(g, c, s as int, t as int, dist@, known@, settled@, parent@, parent_edge@, rank, num_closed, heap@, h@, u as int, j as int, nc);
                            }
                            dist.set(v, nc);
                            known.set(v, true);
                            parent.set(v, u);
                            parent_edge.set(v, j);
                            heap.push(QueueEntry { node: v, cost: nc });
                            relaxed = true;
                        }
                    },
                    None => {},
                }
            }
            if !relaxed {
                proof {
                    lemma_skip_edge(g, c, s as int, t as int, dist@, known@, settled@, parent@, parent_edge@, rank, num_closed, heap@, h@, u as int, j as int);
                }
            }
            j = j + 1;
        }
        proof {
            lemma_node_done(g, c, s as int, t as int, dist@, known@, settled@, parent@, parent_edge@, rank, num_closed, heap@, h@, u as int);
            lemma_count_true_bound(settled@);
        }
    }
    proof {
        assert(settled@[s as int]);
        assert forall|q: Seq<Hop>| is_edge_route(g, c, q, s as int, t as int) implies route_cost(g, q) > u64::MAX by {
            if route_cost(g, q) <= u64::MAX {
                lemma_exhausted(g, c, s as int, t as int, dist@, known@, settled@, parent@, parent_edge@, rank, num_closed, h@, q, q.len() as int);
                assert(route_nodes(g, q, s as int)[q.len() as int] == t) by {
                    if q.len() > 0 {
                        assert(q.last() == q[q.len() - 1]);
                    }
                }
            }
        }
    }
    None
}

/// Follow parent links from `t` back to `s`; the nodes visited are those of a
/// route whose cost is the distance recorded for `t`.
fn reconstruct_weighted(
    g: &SearchGraph,
    Ghost(c): Ghost<ConstraintsView>,
    s: usize,
    t: usize,
    parent: &Vec<usize>,
    parent_edge: &Vec<usize>,
    Ghost(dist): Ghost<Seq<u64>>,
    Ghost(known): Ghost<Seq<bool>>,
    Ghost(closed): Ghost<Seq<bool>>,
    Ghost(rank): Ghost<Seq<nat>>,
    Ghost(num_closed): Ghost<nat>,
) -> (p: Vec<usize>)
    requires
        g.wf(),
        s < g.node_count(),
        t < g.node_count(),
        parent@.len() == g.node_count(),
        parent_edge@.len() == g.node_count(),
        dist.len() == g.node_count(),
        known.len() == g.node_count(),
        closed.len() == g.node_count(),
        rank.len() == g.node_count(),
        known[t as int],
        !closed[t as int],
        t != s,
        dist[s as int] == 0,
        forall|v: int| 0 <= v < g.node_count() && #[trigger] closed[v] ==> known[v] && rank[v] < num_closed,
        forall|v: int| 0 <= v < g.node_count() && v != s && #[trigger] known[v] ==> {
            &&& parent@[v] < g.node_count()
            &&& closed[parent@[v] as int]
            &&& valid_hop(g, c, (parent@[v], parent_edge@[v]))
            &&& hop_edge(g, (parent@[v], parent_edge@[v])).target == v
            &&& dist[v] == dist[parent@[v] as int] + hop_edge(g, (parent@[v], parent_edge@[v])).cost
            &&& closed[v] ==> rank[parent@[v] as int] < rank[v]
        },
    ensures
        exists|r: Seq<Hop>| #[trigger] is_edge_route(g, c, r, s as int, t as int)
            && route_nodes(g, r, s as int) == p@ && route_cost(g, r) == dist[t as int],
{
    let mut rev: Vec<usize> = Vec::new();
    rev.push(t);
    let mut cur = t;
    let ghost mut r: Seq<Hop> = Seq::empty();
    let ghost mut fwd: Seq<usize> = seq![t];
    proof {
        assert(is_edge_route(g, c, r, t as int, t as int));
        assert(route_nodes(g, r, t as int) =~= fwd);
    }
    while cur != s
        invariant
            g.wf(),
            s < g.node_count(),
            cur < g.node_count(),
            parent@.len() == g.node_count(),
            parent_edge@.len() == g.node_count(),
            dist.len() == g.node_count(),
            known.len() == g.node_count(),
            closed.len() == g.node_count(),
            rank.len() == g.node_count(),
            known[cur as int],
            forall|v: int| 0 <= v < g.node_count() && #[trigger] closed[v] ==> known[v] && rank[v] < num_closed,
            forall|v: int| 0 <= v < g.node_count() && v != s && #[trigger] known[v] ==> {
                &&& parent@[v] < g.node_count()
                &&& closed[parent@[v] as int]
                &&& valid_hop(g, c, (parent@[v], parent_edge@[v]))
                &&& hop_edge(g, (parent@[v], parent_edge@[v])).target == v
                &&& dist[v] == dist[parent@[v] as int] + hop_edge(g, (parent@[v], parent_edge@[v])).cost
                &&& closed[v] ==> rank[parent@[v] as int] < rank[v]
            },
            is_edge_route(g, c, r, cur as int, t as int),
            route_cost(g, r) + dist[cur as int] == dist[t as int],
            route_nodes(g, r, cur as int) == fwd,
            rev@.len() == fwd.len(),
            forall|i: int| 0 <= i < rev@.len() ==> #[trigger] rev@[i] == fwd[fwd.len() - 1 - i],
        decreases (if closed[cur as int] { rank[cur as int] } else { num_closed }),
    {
        let pcur = parent[cur];
        let pe = parent_edge[cur];
        proof {
            let h: Hop = (pcur, pe);
            lemma_route_cons(g, c, h, r, cur as int, t as int);
            r = seq![h] + r;
            fwd = seq![pcur] + fwd;
        }
        rev.push(pcur);
        proof {
            assert forall|i: int| 0 <= i < rev@.len() implies #[trigger] rev@[i] == fwd[fwd.len() - 1 - i] by {
                if i < rev@.len() - 1 {
                    assert(fwd[fwd.len() - 1 - i] == fwd.drop_first()[fwd.len() - 2 - i]);
                }
            }
        }
        cur = pcur;
    }
    let mut p: Vec<usize> = Vec::new();
    let mut k: usize = rev.len();
    while k > 0
        invariant
            k <= rev@.len(),
            rev@.len() == fwd.len(),
            p@.len() == rev@.len() - k,
            forall|i: int| 0 <= i < rev@.len() ==> #[trigger] rev@[i] == fwd[fwd.len() - 1 - i],
            forall|i: int| 0 <= i < p@.len() ==> #[trigger] p@[i] == fwd[i],
        decreases k,
    {
        k = k - 1;
        p.push(rev[k]);
        proof {
            assert(p@[p@.len() - 1] == rev@[k as int]);
        }
    }
    proof {
        assert(p@ =~= fwd);
    }
    p
}

/// No element of `s` occurs twice.
pub open spec fn no_repeats<T>(s: Seq<T>) -> bool {
    forall|a: int, b: int| 0 <= a < b < s.len() ==> s[a] != s[b]
}

/// The nodes a prefix of a route visits are a prefix of the route's nodes.
proof fn lemma_route_nodes_take(g: &SearchGraph, r: Seq<Hop>, s: int, i: int)
    requires
        0 <= i <= r.len(),
    ensures
        route_nodes(g, r.take(i), s) == route_nodes(g, r, s).take(i + 1),
{
    assert(route_nodes(g, r.take(i), s) =~= route_nodes(g, r, s).take(i + 1));
}

/// Extending a route by one allowed hop from its end.
proof fn lemma_route_snoc(g: &SearchGraph, c: ConstraintsView, r: Seq<Hop>, s: int, t: int, h: Hop)
    requires
        is_edge_route(g, c, r, s, t),
        valid_hop(g, c, h),
        h.0 == t,
    ensures
        is_edge_route(g, c, r.push(h), s, hop_edge(g, h).target as int),
        route_cost(g, r.push(h)) == route_cost(g, r) + hop_edge(g, h).cost,
        route_nodes(g, r.push(h), s) == route_nodes(g, r, s).push(hop_edge(g, h).target),
{
    let q = r.push(h);
    assert(q.drop_last() =~= r);
    assert forall|k: int| 0 <= k < q.len() implies valid_hop(g, c, #[trigger] q[k]) by {
        if k < r.len() {
            assert(q[k] == r[k]);
        }
    }
    assert forall|k: int| 0 <= k < q.len() - 1 implies hop_edge(g, #[trigger] q[k]).target == q[k + 1].0 by {
        if k < r.len() - 1 {
            assert(q[k] == r[k] && q[k + 1] == r[k + 1]);
        } else {
            assert(q[k] == r.last());
        }
    }
    assert(route_nodes(g, q, s) =~= route_nodes(g, r, s).push(hop_edge(g, h).target));
}

/// Position of `v` in `out`, if it occurs there.
fn position_of(out: &Vec<usize>, v: usize) -> (r: Option<usize>)
    ensures
        match r {
            Some(p) => p < out@.len() && out@[p as int] == v,
            None => !out@.contains(v),
        },
{
    let mut i: usize = 0;
    while i < out.len()
        invariant
            i <= out@.len(),
            forall|k: int| 0 <= k < i ==> out@[k] != v,
        decreases out@.len() - i,
    {
        if out[i] == v {
            return Some(i);
        }
        i = i + 1;
    }
    None
}

/// One step of cutting cycles out of a route: the route so far, `rr`
/// (visiting `out`), extended by the next node of `r`, or cut back to where
/// that node was visited before.
proof fn lemma_simplify_step(
    g: &SearchGraph,
    c: ConstraintsView,
    r: Seq<Hop>,
    s: int,
    t: int,
    nodes: Seq<usize>,
    k: int,
    rr: Seq<Hop>,
    out: Seq<usize>,
    pos: Option<int>,
) -> (rr2: Seq<Hop>)
    requires
        0 <= s <= usize::MAX,
        1 <= k < nodes.len(),
        nodes.len() == r.len() + 1,
        route_nodes(g, r, s) == nodes,
        is_edge_route(g, c, r, s, t),
        is_edge_route(g, c, rr, s, nodes[k - 1] as int),
        route_nodes(g, rr, s) == out,
        route_cost(g, rr) <= route_cost(g, r.take(k - 1)),
        no_repeats(out),
        match pos {
            Some(p) => 0 <= p < out.len() && out[p] == nodes[k],
            None => !out.contains(nodes[k]),
        },
    ensures
        is_edge_route(g, c, rr2, s, nodes[k] as int),
        route_cost(g, rr2) <= route_cost(g, r.take(k)),
        route_nodes(g, rr2, s) == match pos {
            Some(p) => out.take(p + 1),
            None => out.push(nodes[k]),
        },
        no_repeats(route_nodes(g, rr2, s)),
{
    lemma_route_prefix(g, c, r, s, t, k - 1);
    assert(valid_hop(g, c, r[k - 1]));
    assert(hop_edge(g, r[k - 1]).target == nodes[k]);
    assert(r.take(k).drop_last() =~= r.take(k - 1));
    assert(r.take(k).last() == r[k - 1]);
    assert(route_cost(g, r.take(k)) == route_cost(g, r.take(k - 1)) + hop_edge(g, r[k - 1]).cost);
    match pos {
        Some(p) => {
            lemma_route_prefix(g, c, rr, s, nodes[k - 1] as int, p);
            lemma_route_nodes_take(g, rr, s, p);
            rr.take(p)
        },
        None => {
            lemma_route_snoc(g, c, rr, s, nodes[k - 1] as int, r[k - 1]);
            let rr2 = rr.push(r[k - 1]);
            assert forall|a: int, b: int| 0 <= a < b < out.len() + 1 implies out.push(nodes[k])[a] != out.push(nodes[k])[b] by {
                if b == out.len() {
                    assert(out.contains(out[a]));
                }
            }
            rr2
        },
    }
}

/// The nodes of a cheapest route with every cycle cut out: a cheapest route
/// again, and one that visits no node twice.
fn simplify_route(
    g: &SearchGraph,
    Ghost(c): Ghost<ConstraintsView>,
    nodes: &Vec<usize>,
    Ghost(r): Ghost<Seq<Hop>>,
    s: usize,
    t: usize,
) -> (out: Vec<usize>)
    requires
        is_cheapest_route(g, c, r, s as int, t as int),
        route_nodes(g, r, s as int) == nodes@,
    ensures
        no_repeats(out@),
        exists|r2: Seq<Hop>| #[trigger] is_cheapest_route(g, c, r2, s as int, t as int) && route_nodes(g, r2, s as int) == out@,
{
    let mut out: Vec<usize> = Vec::new();
    out.push(nodes[0]);
    let ghost mut rr: Seq<Hop> = Seq::empty();
    proof {
        assert(route_nodes(g, rr, s as int) =~= out@);
        assert(r.take(0) =~= Seq::<Hop>::empty());
    }
    let mut k: usize = 1;
    while k < nodes.len()
        invariant
            1 <= k <= nodes@.len(),
            nodes@.len() == r.len() + 1,
            route_nodes(g, r, s as int) == nodes@,
            is_edge_route(g, c, r, s as int, t as int),
            is_edge_route(g, c, rr, s as int, nodes@[k - 1] as int),
            route_nodes(g, rr, s as int) == out@,
            route_cost(g, rr) <= route_cost(g, r.take(k - 1)),
            no_repeats(out@),
        decreases nodes@.len() - k,
    {
        let v = nodes[k];
        let out_len = out.len();
        let pos = position_of(&out, v);
        proof {
            rr = lemma_simplify_step(g, c, r, s as int, t as int, nodes@, k as int, rr, out@, match pos {
                Some(p) => Some(p as int),
                None => None,
            });
        }
        match pos {
            Some(p) => {
                assert(p < out_len);
                out.truncate(p + 1);
            },
            None => {
                out.push(v);
            },
        }
        proof {
            assert(route_nodes(g, rr, s as int) =~= out@);
        }
        k = k + 1;
    }
    proof {
        assert(r.take(r.len() as int) =~= r);
        if r.len() > 0 {
            assert(nodes@[r.len() as int] == hop_edge(g, r.last()).target);
        }
        assert(route_cost(g, rr) >= route_cost(g, r));
        assert(is_cheapest_route(g, c, rr, s as int, t as int));
    }
    out
}

/// Distinct nodes hold distinct systems.
proof fn lemma_distinct_systems(g: &SearchGraph, nodes: Seq<usize>)
    requires
        g.wf(),
        no_repeats(nodes),
        forall|i: int| 0 <= i < nodes.len() ==> #[trigger] nodes[i] < g.node_count(),
    ensures
        no_repeats(nodes.map_values(|v: usize| g.systems@[v as int])),
{
    let ids = nodes.map_values(|v: usize| g.systems@[v as int]);
    assert forall|a: int, b: int| 0 <= a < b < ids.len() implies ids[a] != ids[b] by {
        let x = nodes[a] as int;
        let y = nodes[b] as int;
        assert(x != y);
        if x < y {
            assert(g.systems@[x] != g.systems@[y]);
        } else {
            assert(g.systems@[y] != g.systems@[x]);
        }
    }
}

/// Run Dijkstra's algorithm between two systems.
///
/// Returns the systems of a lowest-cost route over allowed edges. Routes
/// whose total cost exceeds `u64::MAX` are not considered. A route from a
/// system to itself is that system.
pub fn find_route_dijkstra(g: &SearchGraph, constraints: &PathConstraints, start: SystemId, goal: SystemId) -> (res: Option<Vec<SystemId>>)
    requires
        g.wf(),
    ensures
        start == goal ==> (res matches Some(p) && p@ == seq![start]),
        start != goal ==> match res {
            Some(p) => g.has_system(start) && g.has_system(goal) && no_repeats(p@) && exists|r: Seq<Hop>|
                #[trigger] is_cheapest_route(g, constraints@, r, g.index_of(start), g.index_of(goal))
                && route_systems(g, r, g.index_of(start)) == p@,
            None => g.has_system(start) && g.has_system(goal) ==> forall|q: Seq<Hop>|
                #[trigger] is_edge_route(g, constraints@, q, g.index_of(start), g.index_of(goal))
                ==> route_cost(g, q) > u64::MAX,
        },
{
    if start == goal {
        let mut p: Vec<SystemId> = Vec::new();
        p.push(start);
        return Some(p);
    }
    let s = match g.node_index(start) {
        Some(k) => k,
        None => return None,
    };
    let t = match g.node_index(goal) {
        Some(k) => k,
        None => return None,
    };
    let h = zero_heuristic(g.systems.len());
    let found = find_route_a_star_nodes(g, constraints, &h, s, t);
    match found {
        Some(found_nodes) => {
            let ghost r0 = choose|r: Seq<Hop>| #[trigger] is_cheapest_route(g, constraints@, r, s as int, t as int)
                && route_nodes(g, r, s as int) == found_nodes@;
            let nodes = simplify_route(g, Ghost(constraints@), &found_nodes, Ghost(r0), s, t);
            let ghost r = choose|r: Seq<Hop>| #[trigger] is_cheapest_route(g, constraints@, r, s as int, t as int)
                && route_nodes(g, r, s as int) == nodes@;
            proof {
                lemma_route_nodes_in_graph(g, constraints@, r, s as int, t as int);
            }
            let ids = nodes_to_systems(g, &nodes);
            proof {
                assert(route_systems(g, r, s as int) =~= ids@);
                assert(is_cheapest_route(g, constraints@, r, s as int, t as int));
                lemma_distinct_systems(g, nodes@);
            }
            Some(ids)
        },
        None => None,
    }
}

/// Every node a route visits is a node of the graph.
proof fn lemma_route_nodes_in_graph(g: &SearchGraph, c: ConstraintsView, r: Seq<Hop>, s: int, t: int)
    requires
        g.wf(),
        0 <= s < g.node_count(),
        is_edge_route(g, c, r, s, t),
    ensures
        forall|i: int| 0 <= i < route_nodes(g, r, s).len() ==> #[trigger] route_nodes(g, r, s)[i] < g.node_count(),
{
    assert forall|i: int| 0 <= i < route_nodes(g, r, s).len() implies #[trigger] route_nodes(g, r, s)[i] < g.node_count() by {
        if i > 0 {
            assert(valid_hop(g, c, r[i - 1]));
        }
    }
}

/// A heuristic that is zero at every node; A* with it is Dijkstra's algorithm.
fn zero_heuristic(n: usize) -> (h: Vec<u64>)
    ensures
        h@.len() == n,
        forall|i: int| 0 <= i < n ==> #[trigger] h@[i] == 0,
{
    let mut h: Vec<u64> = Vec::new();
    let mut k: usize = 0;
    while k < n
        invariant
            k <= n,
            h@.len() == k,
            forall|i: int| 0 <= i < k ==> #[trigger] h@[i] == 0,
        decreases n - k,
    {
        h.push(0);
        k = k + 1;
    }
    h
}

/// Whether `h` gives one estimate per node and never drops by more than the
/// cost of an allowed edge.
pub fn heuristic_is_consistent(g: &SearchGraph, constraints: &PathConstraints, h: &Vec<u64>) -> (r: bool)
    requires
        g.wf(),
    ensures
        r == is_consistent(g, constraints@, h@),
{
    if h.len() != g.systems.len() {
        return false;
    }
    let ghost c = constraints@;
    let mut u: usize = 0;
    while u < g.adjacency.len()
        invariant
            g.wf(),
            c == constraints@,
            h@.len() == g.node_count(),
            u <= g.node_count(),
            forall|x: int, j: int| 0 <= x < u && 0 <= j < g.adjacency@[x]@.len() && allowed(g, c, #[trigger] g.edge(x, j))
                ==> h@[x] <= g.edge(x, j).cost + h@[g.edge(x, j).target as int],
        decreases g.node_count() - u,
    {
        let edges = &g.adjacency[u];
        let mut j: usize = 0;
        while j < edges.len()
            invariant
                g.wf(),
                c == constraints@,
                h@.len() == g.node_count(),
                u < g.node_count(),
                edges@ == g.adjacency@[u as int]@,
                j <= edges@.len(),
                forall|x: int, jj: int| 0 <= x < u && 0 <= jj < g.adjacency@[x]@.len() && allowed(g, c, #[trigger] g.edge(x, jj))
                    ==> h@[x] <= g.edge(x, jj).cost + h@[g.edge(x, jj).target as int],
                forall|jj: int| 0 <= jj < j && allowed(g, c, #[trigger] g.edge(u as int, jj))
                    ==> h@[u as int] <= g.edge(u as int, jj).cost + h@[g.edge(u as int, jj).target as int],
            decreases edges@.len() - j,
        {
            let e = edges[j];
            proof {
                assert(e == g.edge(u as int, j as int));
            }
            let ok = e.permitted && crate::search::edge_meets_gate_policy(e.kind, constraints.avoid_gates)
                && crate::search::system_meets_avoidance(g.systems[e.target], &constraints.avoided_systems);
            if ok && (h[u] as u128) > (e.cost as u128) + (h[e.target] as u128) {
                return false;
            }
            j = j + 1;
        }
        u = u + 1;
    }
    true
}

/// Run A* search between two systems, guided by the estimate `h` of each
/// node's remaining cost.
///
/// Returns the systems of a lowest-cost route over allowed edges; routes
/// whose total cost exceeds `u64::MAX` are not considered. When `h` is not a
/// consistent heuristic for the graph, the search runs without it.
pub fn find_route_a_star(g: &SearchGraph, constraints: &PathConstraints, h: &Vec<u64>, start: SystemId, goal: SystemId) -> (res: Option<Vec<SystemId>>)
    requires
        g.wf(),
    ensures
        start == goal ==> (res matches Some(p) && p@ == seq![start]),
        start != goal ==> match res {
            Some(p) => g.has_system(start) && g.has_system(goal) && no_repeats(p@) && exists|r: Seq<Hop>|
                #[trigger] is_cheapest_route(g, constraints@, r, g.index_of(start), g.index_of(goal))
                && route_systems(g, r, g.index_of(start)) == p@,
            None => g.has_system(start) && g.has_system(goal) ==> forall|q: Seq<Hop>|
                #[trigger] is_edge_route(g, constraints@, q, g.index_of(start), g.index_of(goal))
                ==> route_cost(g, q) > u64::MAX,
        },
{
    if !heuristic_is_consistent(g, constraints, h) {
        return find_route_dijkstra(g, constraints, start, goal);
    }
    if start == goal {
        let mut p: Vec<SystemId> = Vec::new();
        p.push(start);
        return Some(p);
    }
    let s = match g.node_index(start) {
        Some(k) => k,
        None => return None,
    };
    let t = match g.node_index(goal) {
        Some(k) => k,
        None => return None,
    };
    let found = find_route_a_star_nodes(g, constraints, h, s, t);
    match found {
        Some(found_nodes) => {
            let ghost r0 = choose|r: Seq<Hop>| #[trigger] is_cheapest_route(g, constraints@, r, s as int, t as int)
                && route_nodes(g, r, s as int) == found_nodes@;
            let nodes = simplify_route(g, Ghost(constraints@), &found_nodes, Ghost(r0), s, t);
            let ghost r = choose|r: Seq<Hop>| #[trigger] is_cheapest_route(g, constraints@, r, s as int, t as int)
                && route_nodes(g, r, s as int) == nodes@;
            proof {
                lemma_route_nodes_in_graph(g, constraints@, r, s as int, t as int);
            }
            let ids = nodes_to_systems(g, &nodes);
            proof {
                assert(route_systems(g, r, s as int) =~= ids@);
                assert(is_cheapest_route(g, constraints@, r, s as int, t as int));
                lemma_distinct_systems(g, nodes@);
            }
            Some(ids)
        },
        None => None,
    }
}

/// The system identifiers of a sequence of nodes.
fn nodes_to_systems(g: &SearchGraph, nodes: &Vec<usize>) -> (ids: Vec<SystemId>)
    requires
        g.wf(),
        forall|i: int| 0 <= i < nodes@.len() ==> #[trigger] nodes@[i] < g.node_count(),
    ensures
        ids@ == nodes@.map_values(|v: usize| g.systems@[v as int]),
{
    let mut ids: Vec<SystemId> = Vec::new();
    let mut k: usize = 0;
    while k < nodes.len()
        invariant
            k <= nodes@.len(),
            ids@.len() == k,
            g.wf(),
            forall|i: int| 0 <= i < nodes@.len() ==> #[trigger] nodes@[i] < g.node_count(),
            forall|i: int| 0 <= i < k ==> #[trigger] ids@[i] == g.systems@[nodes@[i] as int],
        decreases nodes@.len() - k,
    {
        ids.push(g.systems[nodes[k]]);
        k = k + 1;
    }
    proof {
        assert(ids@ =~= nodes@.map_values(|v: usize| g.systems@[v as int]));
    }
    ids
}

/// Two cheapest routes between the same nodes cost the same, so Dijkstra's
/// algorithm and A* find routes of equal cost.
pub proof fn lemma_cheapest_routes_agree(g: &SearchGraph, c: ConstraintsView, r1: Seq<Hop>, r2: Seq<Hop>, s: int, t: int)
    requires
        is_cheapest_route(g, c, r1, s, t),
        is_cheapest_route(g, c, r2, s, t),
    ensures
        route_cost(g, r1) == route_cost(g, r2),
{
}

} // verus!
