//! Route planning: algorithms, planners and the plans they produce.

use vstd::prelude::*;

use crate::error::Error;
use crate::search::{allowed, find_route_bfs, is_system_route, step, EdgeKind, GraphMode, PathConstraints, SearchGraph, SystemId};
use crate::weighted::{find_route_a_star, find_route_dijkstra, hop_edge, no_repeats, is_cheapest_route, is_edge_route, route_cost, route_nodes, route_systems, valid_hop, Hop};

verus! {

/// Supported routing algorithms.
#[derive(Debug, Clone, Copy, PartialEq, Eq, Structural)]
pub enum RouteAlgorithm {
    /// Breadth-first search (unweighted graph).
    Bfs,
    /// Dijkstra's algorithm (weighted graph).
    Dijkstra,
    /// A* search (heuristic guided).
    AStar,
}

impl Default for RouteAlgorithm {
    fn default() -> (r: Self)
        ensures
            r == RouteAlgorithm::AStar,
    {
        RouteAlgorithm::AStar
    }
}

impl RouteAlgorithm {
    /// The name of the algorithm as shown to users.
    pub fn to_string(&self) -> (r: String)
        ensures
            *self == RouteAlgorithm::Bfs ==> r@ == "bfs"@,
            *self == RouteAlgorithm::Dijkstra ==> r@ == "dijkstra"@,
            *self == RouteAlgorithm::AStar ==> r@ == "a-star"@,
    {
        match self {
            RouteAlgorithm::Bfs => "bfs".to_owned(),
            RouteAlgorithm::Dijkstra => "dijkstra".to_owned(),
            RouteAlgorithm::AStar => "a-star".to_owned(),
        }
    }
}

/// Optimization objective for route planning.
#[derive(Debug, Clone, Copy, PartialEq, Eq, Structural)]
pub enum RouteOptimization {
    /// Optimize for shortest distance.
    Distance,
    /// Optimize for minimal fuel consumption (requires ship and loadout).
    Fuel,
}

impl Default for RouteOptimization {
    fn default() -> (r: Self)
        ensures
            r == RouteOptimization::Fuel,
    {
        RouteOptimization::Fuel
    }
}

/// The objective a weighted planner actually uses: fuel needs the ship's
/// mass, and without it the planner falls back to distance.
pub fn effective_optimization(requested: RouteOptimization, has_ship_mass: bool) -> (r: RouteOptimization)
    ensures
        r == (if requested == RouteOptimization::Fuel && has_ship_mass {
            RouteOptimization::Fuel
        } else {
            RouteOptimization::Distance
        }),
{
    if requested == RouteOptimization::Fuel && has_ship_mass {
        RouteOptimization::Fuel
    } else {
        RouteOptimization::Distance
    }
}

/// Planned route returned by the library.
#[derive(Debug, Clone)]
pub struct RoutePlan {
    pub algorithm: RouteAlgorithm,
    pub start: SystemId,
    pub goal: SystemId,
    pub steps: Vec<SystemId>,
    pub gates: usize,
    pub jumps: usize,
}

impl RoutePlan {
    /// Number of hops in the route.
    pub fn hop_count(&self) -> (r: usize)
        ensures
            r == (if self.steps@.len() == 0 { 0 } else { self.steps@.len() - 1 }),
    {
        self.steps.len().saturating_sub(1)
    }
}

// ---------------------------------------------------------------------------
// Planners
// ---------------------------------------------------------------------------

/// A route planning strategy.
pub trait RoutePlanner {
    /// The algorithm identifier for this planner.
    fn algorithm(&self) -> RouteAlgorithm;

    /// Whether this planner requires a spatial index for good performance.
    fn requires_spatial_index(&self) -> bool;

    /// Run the planner's search on `graph`.
    fn find_path(&self, graph: &SearchGraph, start: SystemId, goal: SystemId, constraints: &PathConstraints) -> Option<Vec<SystemId>>
        requires
            graph.wf(),
    ;
}

/// Breadth-first search planner: finds the route with the fewest hops.
#[derive(Debug, Clone, Copy, Default)]
pub struct BfsPlanner;

impl RoutePlanner for BfsPlanner {
    fn algorithm(&self) -> (r: RouteAlgorithm)
        ensures
            r == RouteAlgorithm::Bfs,
    {
        RouteAlgorithm::Bfs
    }

    fn requires_spatial_index(&self) -> (r: bool)
        ensures
            !r,
    {
        false
    }

    fn find_path(&self, graph: &SearchGraph, start: SystemId, goal: SystemId, constraints: &PathConstraints) -> (r: Option<Vec<SystemId>>)
        ensures
            fewest_hops_result(graph, constraints@, start, goal, r),
    {
        find_route_bfs(graph, constraints, start, goal)
    }
}

/// Dijkstra planner: finds a route of least total edge cost. The graph's
/// edge costs measure distance or fuel, as its `optimization` says.
#[derive(Debug, Clone, Copy)]
pub struct DijkstraPlanner {
    optimization: RouteOptimization,
}

impl DijkstraPlanner {
    /// A planner that minimizes distance.
    pub fn distance() -> (p: Self)
        ensures
            p.optimization() == RouteOptimization::Distance,
    {
        DijkstraPlanner { optimization: RouteOptimization::Distance }
    }

    /// A planner that minimizes fuel.
    pub fn fuel() -> (p: Self)
        ensures
            p.optimization() == RouteOptimization::Fuel,
    {
        DijkstraPlanner { optimization: RouteOptimization::Fuel }
    }

    pub closed spec fn spec_optimization(&self) -> RouteOptimization {
        self.optimization
    }

    /// The objective the graph's edge costs measure.
    #[verifier::when_used_as_spec(spec_optimization)]
    pub fn optimization(&self) -> (r: RouteOptimization)
        ensures
            r == self.spec_optimization(),
    {
        self.optimization
    }
}

impl RoutePlanner for DijkstraPlanner {
    fn algorithm(&self) -> (r: RouteAlgorithm)
        ensures
            r == RouteAlgorithm::Dijkstra,
    {
        RouteAlgorithm::Dijkstra
    }

    fn requires_spatial_index(&self) -> (r: bool)
        ensures
            r,
    {
        true
    }

    fn find_path(&self, graph: &SearchGraph, start: SystemId, goal: SystemId, constraints: &PathConstraints) -> (r: Option<Vec<SystemId>>)
        ensures
            cheapest_result(graph, constraints@, start, goal, r),
    {
        find_route_dijkstra(graph, constraints, start, goal)
    }
}

/// A* planner: guided by an estimate, per node, of the remaining cost to
/// the goal. When optimizing for fuel it searches without the estimate,
/// which measures distance.
#[derive(Debug, Clone)]
pub struct AStarPlanner {
    optimization: RouteOptimization,
    estimates: Vec<u64>,
}

impl AStarPlanner {
    /// A planner that minimizes distance using `estimates`.
    pub fn distance(estimates: Vec<u64>) -> (p: Self)
        ensures
            p.optimization() == RouteOptimization::Distance,
            p.estimates() == estimates@,
    {
        AStarPlanner { optimization: RouteOptimization::Distance, estimates }
    }

    /// A planner that minimizes fuel.
    pub fn fuel() -> (p: Self)
        ensures
            p.optimization() == RouteOptimization::Fuel,
            p.estimates().len() == 0,
    {
        AStarPlanner { optimization: RouteOptimization::Fuel, estimates: Vec::new() }
    }

    /// The estimated remaining cost from each node to the goal.
    pub closed spec fn estimates(&self) -> Seq<u64> {
        self.estimates@
    }

    pub closed spec fn spec_optimization(&self) -> RouteOptimization {
        self.optimization
    }

    /// The objective the graph's edge costs measure.
    #[verifier::when_used_as_spec(spec_optimization)]
    pub fn optimization(&self) -> (r: RouteOptimization)
        ensures
            r == self.spec_optimization(),
    {
        self.optimization
    }
}

impl RoutePlanner for AStarPlanner {
    fn algorithm(&self) -> (r: RouteAlgorithm)
        ensures
            r == RouteAlgorithm::AStar,
    {
        RouteAlgorithm::AStar
    }

    fn requires_spatial_index(&self) -> (r: bool)
        ensures
            r,
    {
        true
    }

    fn find_path(&self, graph: &SearchGraph, start: SystemId, goal: SystemId, constraints: &PathConstraints) -> (r: Option<Vec<SystemId>>)
        ensures
            cheapest_result(graph, constraints@, start, goal, r),
    {
        if self.optimization == RouteOptimization::Fuel {
            find_route_dijkstra(graph, constraints, start, goal)
        } else {
            find_route_a_star(graph, constraints, &self.estimates, start, goal)
        }
    }
}

/// One of the three planners, as chosen for a request.
#[derive(Debug, Clone)]
pub enum SelectedPlanner {
    Bfs(BfsPlanner),
    Dijkstra(DijkstraPlanner),
    AStar(AStarPlanner),
}

impl RoutePlanner for SelectedPlanner {
    fn algorithm(&self) -> (r: RouteAlgorithm)
        ensures
            r == match self {
                SelectedPlanner::Bfs(_) => RouteAlgorithm::Bfs,
                SelectedPlanner::Dijkstra(_) => RouteAlgorithm::Dijkstra,
                SelectedPlanner::AStar(_) => RouteAlgorithm::AStar,
            },
    {
        match self {
            SelectedPlanner::Bfs(p) => p.algorithm(),
            SelectedPlanner::Dijkstra(p) => p.algorithm(),
            SelectedPlanner::AStar(p) => p.algorithm(),
        }
    }

    fn requires_spatial_index(&self) -> (r: bool)
        ensures
            r == !(self is Bfs),
    {
        match self {
            SelectedPlanner::Bfs(p) => p.requires_spatial_index(),
            SelectedPlanner::Dijkstra(p) => p.requires_spatial_index(),
            SelectedPlanner::AStar(p) => p.requires_spatial_index(),
        }
    }

    fn find_path(&self, graph: &SearchGraph, start: SystemId, goal: SystemId, constraints: &PathConstraints) -> (r: Option<Vec<SystemId>>)
        ensures
            self is Bfs ==> fewest_hops_result(graph, constraints@, start, goal, r),
            !(self is Bfs) ==> cheapest_result(graph, constraints@, start, goal, r),
    {
        match self {
            SelectedPlanner::Bfs(p) => p.find_path(graph, start, goal, constraints),
            SelectedPlanner::Dijkstra(p) => p.find_path(graph, start, goal, constraints),
            SelectedPlanner::AStar(p) => p.find_path(graph, start, goal, constraints),
        }
    }
}

fn copy_estimates(v: &Vec<u64>) -> (r: Vec<u64>)
    ensures
        r@ == v@,
{
    let mut r: Vec<u64> = Vec::new();
    let mut i: usize = 0;
    while i < v.len()
        invariant
            i <= v@.len(),
            r@ == v@.take(i as int),
        decreases v@.len() - i,
    {
        r.push(v[i]);
        i = i + 1;
        proof {
            assert(r@ =~= v@.take(i as int));
        }
    }
    proof {
        assert(v@.take(v@.len() as int) =~= v@);
    }
    r
}

/// The planner for a request: breadth-first search, Dijkstra's algorithm or
/// A*, each for the objective the graph's edge costs measure; A* takes the
/// request's estimates.
pub fn select_planner(q: &RouteQuery) -> (p: SelectedPlanner)
    ensures
        match p {
            SelectedPlanner::Bfs(_) => q.algorithm == RouteAlgorithm::Bfs,
            SelectedPlanner::Dijkstra(d) => q.algorithm == RouteAlgorithm::Dijkstra && d.optimization() == q.optimization,
            SelectedPlanner::AStar(a) => {
                &&& q.algorithm == RouteAlgorithm::AStar
                &&& a.optimization() == q.optimization
                &&& q.optimization == RouteOptimization::Distance ==> a.estimates() == q.estimates@
            },
        },
{
    match q.algorithm {
        RouteAlgorithm::Bfs => SelectedPlanner::Bfs(BfsPlanner),
        RouteAlgorithm::Dijkstra => {
            if q.optimization == RouteOptimization::Fuel {
                SelectedPlanner::Dijkstra(DijkstraPlanner::fuel())
            } else {
                SelectedPlanner::Dijkstra(DijkstraPlanner::distance())
            }
        },
        RouteAlgorithm::AStar => {
            if q.optimization == RouteOptimization::Fuel {
                SelectedPlanner::AStar(AStarPlanner::fuel())
            } else {
                SelectedPlanner::AStar(AStarPlanner::distance(copy_estimates(&q.estimates)))
            }
        },
    }
}

/// What a breadth-first search returns: a fewest-hop route, or `None` when
/// there is no route.
pub open spec fn fewest_hops_result(
    g: &SearchGraph,
    c: (bool, Set<SystemId>),
    start: SystemId,
    goal: SystemId,
    r: Option<Vec<SystemId>>,
) -> bool {
    &&& start == goal ==> (r matches Some(p) && p@ == seq![start])
    &&& start != goal ==> match r {
        Some(p) => is_system_route(g, c, p@, start, goal) && forall|q: Seq<SystemId>|
            is_system_route(g, c, q, start, goal) ==> q.len() >= p@.len(),
        None => forall|q: Seq<SystemId>| !is_system_route(g, c, q, start, goal),
    }
}

/// What a cost-minimizing search returns: the systems of a cheapest route,
/// visiting no system twice, or `None` when no route's cost fits in `u64`.
pub open spec fn cheapest_result(
    g: &SearchGraph,
    c: (bool, Set<SystemId>),
    start: SystemId,
    goal: SystemId,
    r: Option<Vec<SystemId>>,
) -> bool {
    &&& start == goal ==> (r matches Some(p) && p@ == seq![start])
    &&& start != goal ==> match r {
        Some(p) => g.has_system(start) && g.has_system(goal) && no_repeats(p@) && exists|q: Seq<Hop>|
            #[trigger] is_cheapest_route(g, c, q, g.index_of(start), g.index_of(goal))
            && route_systems(g, q, g.index_of(start)) == p@,
        None => g.has_system(start) && g.has_system(goal) ==> forall|q: Seq<Hop>|
            #[trigger] is_edge_route(g, c, q, g.index_of(start), g.index_of(goal))
            ==> route_cost(g, q) > u64::MAX,
    }
}

// ---------------------------------------------------------------------------
// Classifying the hops of a route
// ---------------------------------------------------------------------------

/// Among the first `n` edges of node `ui`, edge `b` is the first of the
/// cheapest edges to system `v`.
pub open spec fn first_cheapest_upto(g: &SearchGraph, ui: int, b: int, v: SystemId, n: int) -> bool {
    &&& 0 <= b < n
    &&& g.systems@[g.edge(ui, b).target as int] == v
    &&& forall|k: int| 0 <= k < n && g.systems@[(#[trigger] g.edge(ui, k)).target as int] == v
        ==> g.edge(ui, k).cost >= g.edge(ui, b).cost && (k < b ==> g.edge(ui, k).cost > g.edge(ui, b).cost)
}

/// Edge `j` of node `ui` is the first of its cheapest edges to system `v`.
pub open spec fn is_first_cheapest(g: &SearchGraph, ui: int, j: int, v: SystemId) -> bool {
    first_cheapest_upto(g, ui, j, v, g.adjacency@[ui]@.len() as int)
}

/// The kind of edge taken from system `u` to system `v`: that of the first
/// cheapest edge between them, if there is one.
pub open spec fn hop_kind(g: &SearchGraph, u: SystemId, v: SystemId) -> Option<EdgeKind> {
    if g.has_system(u) && exists|j: int| #[trigger] is_first_cheapest(g, g.index_of(u), j, v) {
        Some(g.edge(g.index_of(u), choose|j: int| #[trigger] is_first_cheapest(g, g.index_of(u), j, v)).kind)
    } else {
        None
    }
}

/// Number of hops of `steps` counted as gates in a hybrid graph: every hop
/// that is not a spatial jump.
pub open spec fn hybrid_gates(g: &SearchGraph, steps: Seq<SystemId>) -> nat
    decreases steps.len(),
{
    if steps.len() < 2 {
        0
    } else {
        hybrid_gates(g, steps.drop_last()) + (if hop_kind(g, steps[steps.len() - 2], steps.last()) == Some(EdgeKind::Spatial) {
            0nat
        } else {
            1nat
        })
    }
}

/// Gate and jump counts of a route in graph `g`.
pub open spec fn edge_counts(g: &SearchGraph, steps: Seq<SystemId>) -> (nat, nat) {
    if steps.len() < 2 {
        (0, 0)
    } else {
        match g.mode {
            GraphMode::Gate => ((steps.len() - 1) as nat, 0),
            GraphMode::Spatial => (0, (steps.len() - 1) as nat),
            GraphMode::Hybrid => (hybrid_gates(g, steps), (steps.len() - 1 - hybrid_gates(g, steps)) as nat),
        }
    }
}

proof fn lemma_first_cheapest_unique(g: &SearchGraph, ui: int, a: int, b: int, v: SystemId)
    requires
        is_first_cheapest(g, ui, a, v),
        is_first_cheapest(g, ui, b, v),
    ensures
        a == b,
{
    assert(g.edge(ui, a).cost >= g.edge(ui, b).cost);
    assert(g.edge(ui, b).cost >= g.edge(ui, a).cost);
}

proof fn lemma_hybrid_gates_bound(g: &SearchGraph, steps: Seq<SystemId>)
    ensures
        steps.len() >= 1 ==> hybrid_gates(g, steps) <= steps.len() - 1,
    decreases steps.len(),
{
    if steps.len() >= 2 {
        lemma_hybrid_gates_bound(g, steps.drop_last());
    }
}

/// The first cheapest edge from system `u` to system `v`, as the node index
/// of `u` and the edge's index among its edges.
fn cheapest_edge(g: &SearchGraph, u: SystemId, v: SystemId) -> (r: Option<(usize, usize)>)
    requires
        g.wf(),
    ensures
        match r {
            Some((ui, j)) => g.has_system(u) && ui == g.index_of(u) && is_first_cheapest(g, ui as int, j as int, v)
                && j == (choose|j: int| #[trigger] is_first_cheapest(g, g.index_of(u), j, v)),
            None => hop_kind(g, u, v) is None,
        },
{
    let ui = match g.node_index(u) {
        Some(k) => k,
        None => return None,
    };
    let edges = &g.adjacency[ui];
    let mut best: Option<usize> = None;
    let mut j: usize = 0;
    while j < edges.len()
        invariant
            g.wf(),
            ui < g.node_count(),
            edges@ == g.adjacency@[ui as int]@,
            j <= edges@.len(),
            best matches Some(b) ==> first_cheapest_upto(g, ui as int, b as int, v, j as int),
            best is None ==> forall|k: int| 0 <= k < j ==> g.systems@[(#[trigger] g.edge(ui as int, k)).target as int] != v,
        decreases edges@.len() - j,
    {
        let e = edges[j];
        proof {
            assert(e == g.edge(ui as int, j as int));
        }
        if g.systems[e.target] == v {
            match best {
                None => {
                    best = Some(j);
                },
                Some(b) => {
                    if e.cost < edges[b].cost {
                        best = Some(j);
                    }
                },
            }
        }
        j = j + 1;
    }
    match best {
        Some(b) => {
            proof {
                assert(is_first_cheapest(g, ui as int, b as int, v));
                let c = choose|j: int| #[trigger] is_first_cheapest(g, g.index_of(u), j, v);
                lemma_first_cheapest_unique(g, ui as int, b as int, c, v);
            }
            Some((ui, b))
        },
        None => {
            proof {
                assert forall|j: int| !#[trigger] is_first_cheapest(g, g.index_of(u), j, v) by {
                    if is_first_cheapest(g, g.index_of(u), j, v) {
                        assert(g.systems@[g.edge(ui as int, j).target as int] == v);
                    }
                }
            }
            None
        },
    }
}

/// Kind of the first cheapest edge from system `u` to system `v`.
fn cheapest_hop_kind(g: &SearchGraph, u: SystemId, v: SystemId) -> (r: Option<EdgeKind>)
    requires
        g.wf(),
    ensures
        r == hop_kind(g, u, v),
{
    match cheapest_edge(g, u, v) {
        Some((ui, j)) => Some(g.adjacency[ui][j].kind),
        None => None,
    }
}

/// Count the gates and spatial jumps of a route.
///
/// In a gate graph every hop is a gate and in a spatial graph every hop is a
/// jump; in a hybrid graph each hop counts by the kind of the cheapest edge
/// between its systems, and a hop with no such edge counts as a gate.
pub fn classify_edges(g: &SearchGraph, steps: &Vec<SystemId>) -> (r: (usize, usize))
    requires
        g.wf(),
    ensures
        r.0 == edge_counts(g, steps@).0,
        r.1 == edge_counts(g, steps@).1,
{
    let n = steps.len();
    if n < 2 {
        return (0, 0);
    }
    match g.mode {
        GraphMode::Gate => (n - 1, 0),
        GraphMode::Spatial => (0, n - 1),
        GraphMode::Hybrid => {
            let mut gates: usize = 0;
            let mut jumps: usize = 0;
            let mut k: usize = 1;
            while k < n
                invariant
                    g.wf(),
                    n == steps@.len(),
                    1 <= k <= n,
                    gates == hybrid_gates(g, steps@.take(k as int)),
                    gates + jumps == k - 1,
                decreases n - k,
            {
                let kind = cheapest_hop_kind(g, steps[k - 1], steps[k]);
                proof {
                    let a = steps@.take(k as int + 1);
                    assert(a.drop_last() =~= steps@.take(k as int));
                    assert(a[a.len() - 2] == steps@[k - 1]);
                    assert(a.last() == steps@[k as int]);
                }
                match kind {
                    Some(EdgeKind::Spatial) => {
                        jumps = jumps + 1;
                    },
                    _ => {
                        gates = gates + 1;
                    },
                }
                k = k + 1;
            }
            proof {
                assert(steps@.take(n as int) =~= steps@);
            }
            (gates, jumps)
        },
    }
}

// ---------------------------------------------------------------------------
// Planning a route
// ---------------------------------------------------------------------------

/// A route request whose system names have been resolved against the star map.
#[derive(Debug)]
pub struct RouteQuery {
    /// Start system as requested.
    pub start: String,
    /// Goal system as requested.
    pub goal: String,
    /// Identifier of the start system.
    pub start_id: SystemId,
    /// Identifier of the goal system.
    pub goal_id: SystemId,
    /// Search algorithm to run.
    pub algorithm: RouteAlgorithm,
    /// Objective the graph's edge costs measure.
    pub optimization: RouteOptimization,
    /// Gate avoidance and avoided systems.
    pub constraints: PathConstraints,
    /// Whether both endpoints satisfy the star temperature limit.
    pub endpoints_meet_temperature: bool,
    /// Estimated remaining cost from each node to the goal, for A*.
    pub estimates: Vec<u64>,
}

/// The request rules out its own start or goal.
pub open spec fn endpoints_blocked(q: &RouteQuery) -> bool {
    ||| q.constraints@.1.contains(q.start_id)
    ||| q.constraints@.1.contains(q.goal_id)
    ||| !q.endpoints_meet_temperature
}

/// `e` reports that no route joins the request's start and goal.
pub open spec fn is_route_not_found(e: Error, q: &RouteQuery) -> bool {
    e matches Error::RouteNotFound { start, goal } && start@ == q.start@ && goal@ == q.goal@
}

/// What the search chosen by the request returns on graph `g`.
pub open spec fn search_result(g: &SearchGraph, q: &RouteQuery, r: Option<Vec<SystemId>>) -> bool {
    match q.algorithm {
        RouteAlgorithm::Bfs => fewest_hops_result(g, q.constraints@, q.start_id, q.goal_id, r),
        _ => cheapest_result(g, q.constraints@, q.start_id, q.goal_id, r),
    }
}

fn route_not_found(q: &RouteQuery) -> (e: Error)
    ensures
        is_route_not_found(e, q),
{
    Error::RouteNotFound { start: q.start.clone(), goal: q.goal.clone() }
}

/// Run the search that the request names on graph `g`: breadth-first
/// search, Dijkstra's algorithm, or A* (Dijkstra's algorithm when the costs
/// measure fuel).
pub fn search_route(g: &SearchGraph, q: &RouteQuery) -> (r: Option<Vec<SystemId>>)
    requires
        g.wf(),
    ensures
        search_result(g, q, r),
{
    let planner = select_planner(q);
    planner.find_path(g, q.start_id, q.goal_id, &q.constraints)
}

/// Compute a route for a resolved request on graph `g`.
///
/// A request that rules out its own start or goal has no route. Otherwise
/// the requested algorithm runs: breadth-first search finds a route with the
/// fewest hops, Dijkstra and A* a route of least cost. The plan counts the
/// route's gates and spatial jumps.
pub fn plan_route(g: &SearchGraph, q: &RouteQuery) -> (r: Result<RoutePlan, Error>)
    requires
        g.wf(),
    ensures
        endpoints_blocked(q) ==> (r matches Err(e) && is_route_not_found(e, q)),
        !endpoints_blocked(q) ==> match r {
            Ok(plan) => {
                &&& search_result(g, q, Some(plan.steps))
                &&& plan.algorithm == q.algorithm
                &&& plan.start == q.start_id
                &&& plan.goal == q.goal_id
                &&& plan.gates == edge_counts(g, plan.steps@).0
                &&& plan.jumps == edge_counts(g, plan.steps@).1
            },
            Err(e) => is_route_not_found(e, q) && search_result(g, q, None),
        },
{
    if !crate::search::system_meets_avoidance(q.start_id, &q.constraints.avoided_systems)
        || !crate::search::system_meets_avoidance(q.goal_id, &q.constraints.avoided_systems)
        || !q.endpoints_meet_temperature {
        return Err(route_not_found(q));
    }
    match search_route(g, q) {
        None => Err(route_not_found(q)),
        Some(steps) => {
            let (gates, jumps) = classify_edges(g, &steps);
            Ok(RoutePlan { algorithm: q.algorithm, start: q.start_id, goal: q.goal_id, steps, gates, jumps })
        },
    }
}

/// Every hop of a route is counted once, as a gate or as a jump.
pub proof fn lemma_counts_cover_hops(g: &SearchGraph, steps: Seq<SystemId>)
    requires
        steps.len() >= 1,
    ensures
        edge_counts(g, steps).0 + edge_counts(g, steps).1 == steps.len() - 1,
{
    lemma_hybrid_gates_bound(g, steps);
}

// ---------------------------------------------------------------------------
// Checking the hops of a planned route
// ---------------------------------------------------------------------------

/// Outcome of checking the hops of a route.
#[derive(Debug, Clone, Copy, PartialEq, Eq, Structural)]
pub enum HopCheck {
    /// Every hop has an edge and none is hazardous.
    Safe,
    /// Some hop has no edge between its systems.
    MissingEdge,
    /// Some hop takes a hazardous spatial jump.
    Hazardous,
}

/// `hazard[u][j]` tells whether taking edge `j` of node `u` would bring the
/// engine to a critical state; it has one flag per edge.
pub open spec fn hazard_shape(g: &SearchGraph, hazard: Seq<Vec<bool>>) -> bool {
    &&& hazard.len() == g.node_count()
    &&& forall|u: int| 0 <= u < g.node_count() ==> #[trigger] hazard[u]@.len() == g.adjacency@[u]@.len()
}

/// The hop from `u` to `v` takes a hazardous spatial jump: its first
/// cheapest edge is spatial and flagged.
pub open spec fn hop_hazardous(g: &SearchGraph, hazard: Seq<Vec<bool>>, u: SystemId, v: SystemId) -> bool {
    &&& hop_kind(g, u, v) == Some(EdgeKind::Spatial)
    &&& hazard[g.index_of(u)]@[choose|j: int| #[trigger] is_first_cheapest(g, g.index_of(u), j, v)]
}

/// The first problem among the hops of `steps` from position `i` on.
pub open spec fn check_hops(g: &SearchGraph, hazard: Seq<Vec<bool>>, steps: Seq<SystemId>, i: int) -> HopCheck
    decreases steps.len() - i,
{
    if i < 0 || i + 1 >= steps.len() {
        HopCheck::Safe
    } else if hop_kind(g, steps[i], steps[i + 1]) is None {
        HopCheck::MissingEdge
    } else if hop_hazardous(g, hazard, steps[i], steps[i + 1]) {
        HopCheck::Hazardous
    } else {
        check_hops(g, hazard, steps, i + 1)
    }
}

/// Law: checking the hops of `steps` from position `s` on reports the first
/// hop, in route order, that has no edge between its systems or whose first
/// cheapest edge is a spatial jump flagged hazardous; it reports `Safe`
/// exactly when every hop from `s` on has an edge and is not hazardous.
pub proof fn lemma_hop_check_reports_first_problem(g: &SearchGraph, hazard: Seq<Vec<bool>>, steps: Seq<SystemId>, s: int)
    requires
        0 <= s,
    ensures
        (check_hops(g, hazard, steps, s) == HopCheck::Safe) <==> (forall|k: int| s <= k < steps.len() - 1
            ==> (#[trigger] hop_kind(g, steps[k], steps[k + 1])) is Some && !(hop_kind(g, steps[k], steps[k + 1]) == Some(EdgeKind::Spatial) && hazard[g.index_of(steps[k])]@[choose|j: int| #[trigger] is_first_cheapest(g, g.index_of(steps[k]), j, steps[k + 1])])),
        (check_hops(g, hazard, steps, s) == HopCheck::MissingEdge) <==> (exists|i: int| s <= i < steps.len() - 1
            && (#[trigger] hop_kind(g, steps[i], steps[i + 1])) is None
            && forall|k: int| s <= k < i
                ==> (#[trigger] hop_kind(g, steps[k], steps[k + 1])) is Some && !(hop_kind(g, steps[k], steps[k + 1]) == Some(EdgeKind::Spatial) && hazard[g.index_of(steps[k])]@[choose|j: int| #[trigger] is_first_cheapest(g, g.index_of(steps[k]), j, steps[k + 1])])),
        (check_hops(g, hazard, steps, s) == HopCheck::Hazardous) <==> (exists|i: int| s <= i < steps.len() - 1
            && (#[trigger] hop_kind(g, steps[i], steps[i + 1])) == Some(EdgeKind::Spatial)
            && hazard[g.index_of(steps[i])]@[choose|j: int| #[trigger] is_first_cheapest(g, g.index_of(steps[i]), j, steps[i + 1])]
            && forall|k: int| s <= k < i
                ==> (#[trigger] hop_kind(g, steps[k], steps[k + 1])) is Some && !(hop_kind(g, steps[k], steps[k + 1]) == Some(EdgeKind::Spatial) && hazard[g.index_of(steps[k])]@[choose|j: int| #[trigger] is_first_cheapest(g, g.index_of(steps[k]), j, steps[k + 1])])),
    decreases steps.len() - s,
{
    if s + 1 < steps.len() {
        lemma_hop_check_reports_first_problem(g, hazard, steps, s + 1);
        let hk = hop_kind(g, steps[s], steps[s + 1]);
        if hk is Some && !hop_hazardous(g, hazard, steps[s], steps[s + 1]) {
            if exists|i: int| s <= i < steps.len() - 1 && (#[trigger] hop_kind(g, steps[i], steps[i + 1])) is None
                && forall|k: int| s <= k < i
                    ==> (#[trigger] hop_kind(g, steps[k], steps[k + 1])) is Some && !hop_hazardous(g, hazard, steps[k], steps[k + 1]) {
                let i = choose|i: int| s <= i < steps.len() - 1 && (#[trigger] hop_kind(g, steps[i], steps[i + 1])) is None
                    && forall|k: int| s <= k < i
                        ==> (#[trigger] hop_kind(g, steps[k], steps[k + 1])) is Some && !hop_hazardous(g, hazard, steps[k], steps[k + 1]);
                assert(i != s);
                assert(s + 1 <= i);
            }
            if exists|i: int| s <= i < steps.len() - 1 && (#[trigger] hop_kind(g, steps[i], steps[i + 1])) == Some(EdgeKind::Spatial)
                && hop_hazardous(g, hazard, steps[i], steps[i + 1])
                && forall|k: int| s <= k < i
                    ==> (#[trigger] hop_kind(g, steps[k], steps[k + 1])) is Some && !hop_hazardous(g, hazard, steps[k], steps[k + 1]) {
                let i = choose|i: int| s <= i < steps.len() - 1 && (#[trigger] hop_kind(g, steps[i], steps[i + 1])) == Some(EdgeKind::Spatial)
                    && hop_hazardous(g, hazard, steps[i], steps[i + 1])
                    && forall|k: int| s <= k < i
                        ==> (#[trigger] hop_kind(g, steps[k], steps[k + 1])) is Some && !hop_hazardous(g, hazard, steps[k], steps[k + 1]);
                assert(i != s);
                assert(s + 1 <= i);
            }
        } else if hk is None {
            assert(check_hops(g, hazard, steps, s) == HopCheck::MissingEdge);
        } else {
            assert(check_hops(g, hazard, steps, s) == HopCheck::Hazardous);
        }
    }
}

/// Check the hops of a planned route in order: the first hop without an
/// edge, or whose cheapest edge is a hazardous spatial jump, decides.
pub fn check_route_hops(g: &SearchGraph, hazard: &Vec<Vec<bool>>, steps: &Vec<SystemId>) -> (r: HopCheck)
    requires
        g.wf(),
        hazard_shape(g, hazard@),
    ensures
        r == check_hops(g, hazard@, steps@, 0),
        (r == HopCheck::Safe) <==> (forall|k: int| 0 <= k < steps@.len() - 1
            ==> (#[trigger] hop_kind(g, steps@[k], steps@[k + 1])) is Some && !(hop_kind(g, steps@[k], steps@[k + 1]) == Some(EdgeKind::Spatial) && hazard@[g.index_of(steps@[k])]@[choose|j: int| #[trigger] is_first_cheapest(g, g.index_of(steps@[k]), j, steps@[k + 1])])),
        (r == HopCheck::MissingEdge) <==> (exists|i: int| 0 <= i < steps@.len() - 1
            && (#[trigger] hop_kind(g, steps@[i], steps@[i + 1])) is None
            && forall|k: int| 0 <= k < i
                ==> (#[trigger] hop_kind(g, steps@[k], steps@[k + 1])) is Some && !(hop_kind(g, steps@[k], steps@[k + 1]) == Some(EdgeKind::Spatial) && hazard@[g.index_of(steps@[k])]@[choose|j: int| #[trigger] is_first_cheapest(g, g.index_of(steps@[k]), j, steps@[k + 1])])),
        (r == HopCheck::Hazardous) <==> (exists|i: int| 0 <= i < steps@.len() - 1
            && (#[trigger] hop_kind(g, steps@[i], steps@[i + 1])) == Some(EdgeKind::Spatial)
            && hazard@[g.index_of(steps@[i])]@[choose|j: int| #[trigger] is_first_cheapest(g, g.index_of(steps@[i]), j, steps@[i + 1])]
            && forall|k: int| 0 <= k < i
                ==> (#[trigger] hop_kind(g, steps@[k], steps@[k + 1])) is Some && !(hop_kind(g, steps@[k], steps@[k + 1]) == Some(EdgeKind::Spatial) && hazard@[g.index_of(steps@[k])]@[choose|j: int| #[trigger] is_first_cheapest(g, g.index_of(steps@[k]), j, steps@[k + 1])])),
{
    proof {
        lemma_hop_check_reports_first_problem(g, hazard@, steps@, 0);
    }
    let n = steps.len();
    if n < 2 {
        return HopCheck::Safe;
    }
    let mut i: usize = 0;
    while i < n - 1
        invariant
            g.wf(),
            hazard_shape(g, hazard@),
            n == steps@.len(),
            n >= 2,
            i <= n - 1,
            check_hops(g, hazard@, steps@, 0) == check_hops(g, hazard@, steps@, i as int),
        decreases n - i,
    {
        match cheapest_edge(g, steps[i], steps[i + 1]) {
            None => {
                proof {
                    lemma_hop_check_reports_first_problem(g, hazard@, steps@, 0);
                }
                return HopCheck::MissingEdge;
            },
            Some((ui, j)) => {
                proof {
                    assert(hop_kind(g, steps@[i as int], steps@[i + 1]) == Some(g.edge(ui as int, j as int).kind));
                }
                if g.adjacency[ui][j].kind == EdgeKind::Spatial && hazard[ui][j] {
                    proof {
                        lemma_hop_check_reports_first_problem(g, hazard@, steps@, 0);
                    }
                    return HopCheck::Hazardous;
                }
            },
        }
        i = i + 1;
    }
    HopCheck::Safe
}

// ---------------------------------------------------------------------------
// Routes found by a search have an edge for every hop
// ---------------------------------------------------------------------------

/// Some edge of system `u` leads to system `v`.
pub open spec fn has_edge_between(g: &SearchGraph, u: SystemId, v: SystemId) -> bool {
    &&& g.has_system(u)
    &&& exists|j: int|
        0 <= j < g.adjacency@[g.index_of(u)]@.len()
            && g.systems@[(#[trigger] g.edge(g.index_of(u), j)).target as int] == v
}

/// Among the first `n` edges of node `ui`, one leading to `v` makes a first
/// cheapest edge exist.
proof fn lemma_first_cheapest_exists(g: &SearchGraph, ui: int, v: SystemId, n: int) -> (b: int)
    requires
        g.wf(),
        0 <= ui < g.node_count(),
        0 < n <= g.adjacency@[ui]@.len(),
        exists|k: int| 0 <= k < n && g.systems@[(#[trigger] g.edge(ui, k)).target as int] == v,
    ensures
        first_cheapest_upto(g, ui, b, v, n),
    decreases n,
{
    if exists|k: int| 0 <= k < n - 1 && g.systems@[(#[trigger] g.edge(ui, k)).target as int] == v {
        let b = lemma_first_cheapest_exists(g, ui, v, n - 1);
        if g.systems@[g.edge(ui, n - 1).target as int] == v && g.edge(ui, n - 1).cost < g.edge(ui, b).cost {
            n - 1
        } else {
            b
        }
    } else {
        let k = choose|k: int| 0 <= k < n && g.systems@[(#[trigger] g.edge(ui, k)).target as int] == v;
        assert(k == n - 1);
        n - 1
    }
}

/// A hop between systems joined by an edge has a kind.
proof fn lemma_hop_kind_some(g: &SearchGraph, u: SystemId, v: SystemId)
    requires
        g.wf(),
        has_edge_between(g, u, v),
    ensures
        hop_kind(g, u, v) is Some,
{
    let ui = g.index_of(u);
    let k0 = choose|k: int| 0 <= k < g.systems@.len() && g.systems@[k] == u;
    assert(0 <= ui < g.node_count());
    let b = lemma_first_cheapest_exists(g, ui, v, g.adjacency@[ui]@.len() as int);
    assert(is_first_cheapest(g, ui, b, v));
}

/// A route whose every hop has an edge never reports a missing edge.
pub proof fn lemma_no_missing_edge(g: &SearchGraph, hazard: Seq<Vec<bool>>, steps: Seq<SystemId>, i: int)
    requires
        g.wf(),
        0 <= i,
        forall|k: int| #![trigger steps[k]] i <= k < steps.len() - 1 ==> has_edge_between(g, steps[k], steps[k + 1]),
    ensures
        check_hops(g, hazard, steps, i) != HopCheck::MissingEdge,
    decreases steps.len() - i,
{
    if i + 1 < steps.len() {
        assert(has_edge_between(g, steps[i], steps[i + 1]));
        lemma_hop_kind_some(g, steps[i], steps[i + 1]);
        lemma_no_missing_edge(g, hazard, steps, i + 1);
    }
}

/// Every hop of a route that a search returns follows an edge of the graph.
pub proof fn lemma_search_route_has_edges(g: &SearchGraph, q: &RouteQuery, p: Vec<SystemId>)
    requires
        g.wf(),
        search_result(g, q, Some(p)),
    ensures
        forall|k: int| #![trigger p@[k]] 0 <= k < p@.len() - 1 ==> has_edge_between(g, p@[k], p@[k + 1]),
{
    if q.start_id == q.goal_id {
        assert(p@.len() == 1);
    } else if q.algorithm == RouteAlgorithm::Bfs {
        let c = q.constraints@;
        assert forall|k: int| #![trigger p@[k]] 0 <= k < p@.len() - 1 implies has_edge_between(g, p@[k], p@[k + 1]) by {
            assert(step(g, c, g.index_of(p@[k]), g.index_of(p@[k + 1])));
            let j = choose|j: int|
                0 <= j < g.adjacency@[g.index_of(p@[k])]@.len() && (#[trigger] g.edge(g.index_of(p@[k]), j)).target
                    == g.index_of(p@[k + 1]) && allowed(g, c, g.edge(g.index_of(p@[k]), j));
            assert(g.has_system(p@[k + 1]));
            assert(g.systems@[g.index_of(p@[k + 1])] == p@[k + 1]);
            assert(g.systems@[g.edge(g.index_of(p@[k]), j).target as int] == p@[k + 1]);
        }
    } else {
        let c = q.constraints@;
        let si = g.index_of(q.start_id);
        let ti = g.index_of(q.goal_id);
        let hs = choose|hs: Seq<Hop>| #[trigger] is_cheapest_route(g, c, hs, si, ti) && route_systems(g, hs, si) == p@;
        assert(is_edge_route(g, c, hs, si, ti));
        if hs.len() == 0 {
            assert(g.systems@[si] == q.start_id);
            assert(g.systems@[ti] == q.goal_id);
            assert(false);
        }
        assert forall|k: int| #![trigger p@[k]] 0 <= k < p@.len() - 1 implies has_edge_between(g, p@[k], p@[k + 1]) by {
            assert(valid_hop(g, c, hs[k]));
            let u = hs[k].0 as int;
            if k > 0 {
                assert(hop_edge(g, hs[k - 1]).target == hs[k].0);
            }
            assert(route_nodes(g, hs, si)[k] == u);
            assert(p@[k] == g.systems@[u]);
            g.lemma_index_of(u);
            assert(route_nodes(g, hs, si)[k + 1] == hop_edge(g, hs[k]).target);
            assert(g.systems@[g.edge(u, hs[k].1 as int).target as int] == p@[k + 1]);
        }
    }
}

/// A route with the fewest hops visits no system twice: cutting out the
/// part between two visits would leave a shorter route.
pub proof fn lemma_fewest_hops_no_repeats(g: &SearchGraph, c: (bool, Set<SystemId>), start: SystemId, goal: SystemId, p: Vec<SystemId>)
    requires
        fewest_hops_result(g, c, start, goal, Some(p)),
    ensures
        no_repeats(p@),
{
    if start != goal {
        let ps = p@;
        assert forall|a: int, b: int| 0 <= a < b < ps.len() implies ps[a] != ps[b] by {
            if ps[a] == ps[b] {
                let q = ps.take(a + 1) + ps.skip(b + 1);
                assert(q.len() == ps.len() - (b - a));
                assert forall|i: int| 0 <= i < q.len() implies g.has_system(#[trigger] q[i]) by {
                    if i <= a {
                        assert(q[i] == ps[i]);
                    } else {
                        assert(q[i] == ps[i + b - a]);
                    }
                }
                assert forall|i: int| 0 <= i < q.len() - 1 implies step(g, c, g.index_of(#[trigger] q[i]), g.index_of(q[i + 1])) by {
                    if i < a {
                        assert(q[i] == ps[i] && q[i + 1] == ps[i + 1]);
                    } else if i == a {
                        assert(q[i] == ps[b] && q[i + 1] == ps[b + 1]);
                    } else {
                        assert(q[i] == ps[i + b - a] && q[i + 1] == ps[i + 1 + b - a]);
                    }
                }
                if b == ps.len() - 1 {
                    assert(q.last() == ps[a]);
                } else {
                    assert(q.last() == ps.last());
                }
                assert(q[0] == ps[0]);
                assert(is_system_route(g, c, q, start, goal));
            }
        }
    }
}

/// A route that a search returns visits no system twice.
pub proof fn lemma_search_route_no_repeats(g: &SearchGraph, q: &RouteQuery, p: Vec<SystemId>)
    requires
        search_result(g, q, Some(p)),
    ensures
        no_repeats(p@),
{
    if q.algorithm == RouteAlgorithm::Bfs {
        lemma_fewest_hops_no_repeats(g, q.constraints@, q.start_id, q.goal_id, p);
    }
}

/// Checking the hops of a route that a search returned never reports a
/// missing edge.
pub proof fn lemma_found_route_has_no_missing_edge(g: &SearchGraph, q: &RouteQuery, hazard: Seq<Vec<bool>>, p: Vec<SystemId>)
    requires
        g.wf(),
        search_result(g, q, Some(p)),
    ensures
        check_hops(g, hazard, p@, 0) != HopCheck::MissingEdge,
{
    lemma_search_route_has_edges(g, q, p);
    lemma_no_missing_edge(g, hazard, p@, 0);
}

// ---------------------------------------------------------------------------
// Planning with a check of every hop
// ---------------------------------------------------------------------------

/// Search `g` as the request's algorithm does when its edge costs measure
/// distance: breadth-first search, Dijkstra's algorithm, or A* with the
/// request's estimates.
fn search_by_distance(g: &SearchGraph, q: &RouteQuery) -> (r: Option<Vec<SystemId>>)
    requires
        g.wf(),
    ensures
        search_result(g, q, r),
{
    match q.algorithm {
        RouteAlgorithm::Bfs => find_route_bfs(g, &q.constraints, q.start_id, q.goal_id),
        RouteAlgorithm::Dijkstra => find_route_dijkstra(g, &q.constraints, q.start_id, q.goal_id),
        RouteAlgorithm::AStar => find_route_a_star(g, &q.constraints, &q.estimates, q.start_id, q.goal_id),
    }
}

/// Plan again on `filtered`, the graph without the hops the request rules
/// out, whose edge costs measure distance.
fn try_alternative_route(filtered: &SearchGraph, q: &RouteQuery) -> (r: Result<Vec<SystemId>, Error>)
    requires
        filtered.wf(),
    ensures
        match r {
            Ok(steps) => search_result(filtered, q, Some(steps)),
            Err(e) => is_route_not_found(e, q) && search_result(filtered, q, None),
        },
{
    match search_by_distance(filtered, q) {
        Some(steps) => Ok(steps),
        None => Err(route_not_found(q)),
    }
}

/// Check the hops of `route` on `g`: `Ok(None)` when it can be taken as it
/// is; when a hop is a hazardous spatial jump, a route planned again on
/// `filtered`; no route when a hop has no edge or no other route exists.
fn validate_route_edges(
    g: &SearchGraph,
    hazard: &Vec<Vec<bool>>,
    filtered: &SearchGraph,
    q: &RouteQuery,
    route: &Vec<SystemId>,
) -> (r: Result<Option<Vec<SystemId>>, Error>)
    requires
        g.wf(),
        filtered.wf(),
        hazard_shape(g, hazard@),
    ensures
        match check_hops(g, hazard@, route@, 0) {
            HopCheck::Safe => r matches Ok(None),
            HopCheck::MissingEdge => r matches Err(e) && is_route_not_found(e, q),
            HopCheck::Hazardous => match r {
                Ok(Some(steps)) => search_result(filtered, q, Some(steps)),
                Ok(None) => false,
                Err(e) => is_route_not_found(e, q) && search_result(filtered, q, None),
            },
        },
{
    match check_route_hops(g, hazard, route) {
        HopCheck::Safe => Ok(None),
        HopCheck::MissingEdge => Err(route_not_found(q)),
        HopCheck::Hazardous => match try_alternative_route(filtered, q) {
            Ok(steps) => Ok(Some(steps)),
            Err(e) => Err(e),
        },
    }
}

/// `plan` is what planning with a check of every hop makes of `first`, the
/// route the search on `g` returned: `first` itself, with its gates and
/// jumps counted on `g`, when no hop of it is hazardous; when one is, a route
/// planned on `filtered`, counted there.
pub open spec fn settled_plan(
    g: &SearchGraph,
    hazard: Seq<Vec<bool>>,
    filtered: &SearchGraph,
    q: &RouteQuery,
    first: Vec<SystemId>,
    plan: RoutePlan,
) -> bool {
    &&& plan.algorithm == q.algorithm
    &&& plan.start == q.start_id
    &&& plan.goal == q.goal_id
    &&& match check_hops(g, hazard, first@, 0) {
        HopCheck::Safe => {
            &&& plan.steps@ == first@
            &&& plan.gates == edge_counts(g, plan.steps@).0
            &&& plan.jumps == edge_counts(g, plan.steps@).1
        },
        HopCheck::Hazardous => {
            &&& search_result(filtered, q, Some(plan.steps))
            &&& plan.gates == edge_counts(filtered, plan.steps@).0
            &&& plan.jumps == edge_counts(filtered, plan.steps@).1
        },
        HopCheck::MissingEdge => false,
    }
}

/// Compute a route for a resolved request and check its hops.
///
/// The route is planned on `g` as `plan_route` does. When none of its hops
/// is a hazardous spatial jump (`hazard`), that route is the plan. When one
/// is, the route is planned again on `filtered` (the graph without the hops
/// the request rules out, costed by distance) and counted there; without a
/// route there, the request has none.
pub fn plan_checked_route(
    g: &SearchGraph,
    hazard: &Vec<Vec<bool>>,
    filtered: &SearchGraph,
    q: &RouteQuery,
) -> (r: Result<RoutePlan, Error>)
    requires
        g.wf(),
        filtered.wf(),
        hazard_shape(g, hazard@),
    ensures
        endpoints_blocked(q) ==> (r matches Err(e) && is_route_not_found(e, q)),
        !endpoints_blocked(q) ==> match r {
            Ok(plan) => exists|first: Vec<SystemId>|
                #[trigger] search_result(g, q, Some(first)) && settled_plan(g, hazard@, filtered, q, first, plan),
            Err(e) => is_route_not_found(e, q) && (search_result(g, q, None) || exists|first: Vec<SystemId>|
                #[trigger] search_result(g, q, Some(first)) && check_hops(g, hazard@, first@, 0) == HopCheck::Hazardous
                    && search_result(filtered, q, None)),
        },
{
    if !crate::search::system_meets_avoidance(q.start_id, &q.constraints.avoided_systems)
        || !crate::search::system_meets_avoidance(q.goal_id, &q.constraints.avoided_systems)
        || !q.endpoints_meet_temperature {
        return Err(route_not_found(q));
    }
    let route = match search_route(g, q) {
        Some(steps) => steps,
        None => {
            return Err(route_not_found(q));
        },
    };
    proof {
        lemma_found_route_has_no_missing_edge(g, q, hazard@, route);
    }
    let ghost first = route;
    match validate_route_edges(g, hazard, filtered, q, &route) {
        Ok(Some(alt)) => {
            let (gates, jumps) = classify_edges(filtered, &alt);
            let plan = RoutePlan { algorithm: q.algorithm, start: q.start_id, goal: q.goal_id, steps: alt, gates, jumps };
            proof {
                assert(settled_plan(g, hazard@, filtered, q, first, plan));
            }
            Ok(plan)
        },
        Ok(None) => {
            let (gates, jumps) = classify_edges(g, &route);
            let plan = RoutePlan { algorithm: q.algorithm, start: q.start_id, goal: q.goal_id, steps: route, gates, jumps };
            proof {
                assert(settled_plan(g, hazard@, filtered, q, first, plan));
            }
            Ok(plan)
        },
        Err(e) => Err(e),
    }
}

} // verus!
