use std::collections::HashSet;

use evefrontier_lib::routing::{
    check_route_hops, classify_edges, effective_optimization, plan_checked_route, plan_route, search_route, select_planner,
    AStarPlanner, BfsPlanner, DijkstraPlanner, HopCheck, SelectedPlanner, RouteAlgorithm, RouteOptimization, RoutePlan, RoutePlanner, RouteQuery,
};
use evefrontier_lib::search::{EdgeKind, GraphMode, PathConstraints, SearchEdge, SearchGraph};
use evefrontier_lib::Error;

fn edge(target: usize, kind: EdgeKind, cost: u64) -> SearchEdge {
    SearchEdge { target, kind, cost, permitted: true }
}

fn sample_graph() -> SearchGraph {
    SearchGraph {
        mode: GraphMode::Hybrid,
        systems: vec![10, 20, 30, 40],
        adjacency: vec![
            vec![edge(1, EdgeKind::Gate, 5), edge(3, EdgeKind::Spatial, 100)],
            vec![edge(2, EdgeKind::Gate, 5)],
            vec![edge(3, EdgeKind::Gate, 5)],
            vec![],
        ],
    }
}

fn query(algorithm: RouteAlgorithm) -> RouteQuery {
    RouteQuery {
        start: "Nod".to_string(),
        goal: "Brana".to_string(),
        start_id: 10,
        goal_id: 40,
        algorithm,
        optimization: RouteOptimization::Distance,
        constraints: PathConstraints::default(),
        endpoints_meet_temperature: true,
        estimates: vec![15, 10, 5, 0],
    }
}

#[test]
fn route_plan_hop_count() {
    let plan = RoutePlan { algorithm: RouteAlgorithm::Bfs, start: 1, goal: 3, steps: vec![1, 2, 3], gates: 2, jumps: 0 };
    assert_eq!(plan.hop_count(), 2);
}

#[test]
fn route_plan_empty_hop_count() {
    let plan = RoutePlan { algorithm: RouteAlgorithm::Bfs, start: 1, goal: 1, steps: vec![1], gates: 0, jumps: 0 };
    assert_eq!(plan.hop_count(), 0);
}

#[test]
fn route_plan_without_steps_has_no_hops() {
    let plan = RoutePlan { algorithm: RouteAlgorithm::Bfs, start: 1, goal: 1, steps: vec![], gates: 0, jumps: 0 };
    assert_eq!(plan.hop_count(), 0);
}

#[test]
fn bfs_planner_returns_correct_algorithm() {
    let planner = BfsPlanner;
    assert_eq!(planner.algorithm(), RouteAlgorithm::Bfs);
    assert!(!planner.requires_spatial_index());
}

#[test]
fn dijkstra_planner_returns_correct_algorithm() {
    let planner = DijkstraPlanner::distance();
    assert_eq!(planner.algorithm(), RouteAlgorithm::Dijkstra);
    assert!(planner.requires_spatial_index());
}

#[test]
fn astar_planner_returns_correct_algorithm() {
    let planner = AStarPlanner::distance(vec![]);
    assert_eq!(planner.algorithm(), RouteAlgorithm::AStar);
    assert!(planner.requires_spatial_index());
}

#[test]
fn algorithm_names() {
    assert_eq!(RouteAlgorithm::Bfs.to_string(), "bfs");
    assert_eq!(RouteAlgorithm::Dijkstra.to_string(), "dijkstra");
    assert_eq!(RouteAlgorithm::AStar.to_string(), "a-star");
    assert_eq!(RouteAlgorithm::default(), RouteAlgorithm::AStar);
    assert_eq!(RouteOptimization::default(), RouteOptimization::Fuel);
}

#[test]
fn fuel_needs_ship_mass() {
    assert_eq!(effective_optimization(RouteOptimization::Fuel, true), RouteOptimization::Fuel);
    assert_eq!(effective_optimization(RouteOptimization::Fuel, false), RouteOptimization::Distance);
    assert_eq!(effective_optimization(RouteOptimization::Distance, true), RouteOptimization::Distance);
}

#[test]
fn planners_find_paths() {
    let g = sample_graph();
    let c = PathConstraints::default();
    assert_eq!(BfsPlanner.find_path(&g, 10, 40, &c), Some(vec![10, 40]));
    assert_eq!(DijkstraPlanner::fuel().find_path(&g, 10, 40, &c), Some(vec![10, 20, 30, 40]));
    assert_eq!(AStarPlanner::fuel().find_path(&g, 10, 40, &c), Some(vec![10, 20, 30, 40]));
    assert_eq!(AStarPlanner::distance(vec![15, 10, 5, 0]).find_path(&g, 10, 40, &c), Some(vec![10, 20, 30, 40]));
}

#[test]
fn bfs_route_plan_counts_jump() {
    let g = sample_graph();
    let plan = plan_route(&g, &query(RouteAlgorithm::Bfs)).expect("route exists");
    assert_eq!(plan.algorithm, RouteAlgorithm::Bfs);
    assert_eq!(plan.start, 10);
    assert_eq!(plan.goal, 40);
    assert_eq!(plan.steps, vec![10, 40]);
    assert_eq!((plan.gates, plan.jumps), (0, 1));
    assert!(plan.hop_count() >= 1);
}

#[test]
fn dijkstra_route_plan_counts_gates() {
    let g = sample_graph();
    let plan = plan_route(&g, &query(RouteAlgorithm::Dijkstra)).expect("route exists");
    assert_eq!(plan.algorithm, RouteAlgorithm::Dijkstra);
    assert_eq!(plan.steps, vec![10, 20, 30, 40]);
    assert_eq!((plan.gates, plan.jumps), (3, 0));
    let a_star = plan_route(&g, &query(RouteAlgorithm::AStar)).expect("route exists");
    assert_eq!(a_star.steps, plan.steps);
}

#[test]
fn avoided_goal_rejects_route() {
    let g = sample_graph();
    let mut q = query(RouteAlgorithm::Bfs);
    q.constraints.avoided_systems.insert(40);
    match plan_route(&g, &q) {
        Err(Error::RouteNotFound { start, goal }) => {
            assert_eq!(start, "Nod");
            assert_eq!(goal, "Brana");
        },
        other => panic!("unexpected {:?}", other.map(|p| p.steps)),
    }
}

#[test]
fn hot_endpoint_rejects_route() {
    let g = sample_graph();
    let mut q = query(RouteAlgorithm::Dijkstra);
    q.endpoints_meet_temperature = false;
    assert!(matches!(plan_route(&g, &q), Err(Error::RouteNotFound { .. })));
}

#[test]
fn unreachable_goal_rejects_route() {
    let g = sample_graph();
    let mut q = query(RouteAlgorithm::Dijkstra);
    q.start_id = 40;
    q.goal_id = 10;
    assert!(matches!(plan_route(&g, &q), Err(Error::RouteNotFound { .. })));
}

#[test]
fn avoid_gates_uses_spatial_jump() {
    let g = sample_graph();
    let mut q = query(RouteAlgorithm::Dijkstra);
    q.constraints = PathConstraints { avoid_gates: true, avoided_systems: HashSet::new() };
    let plan = plan_route(&g, &q).expect("route exists");
    assert_eq!(plan.steps, vec![10, 40]);
    assert_eq!((plan.gates, plan.jumps), (0, 1));
}

#[test]
fn edge_counts_by_graph_mode() {
    let mut g = sample_graph();
    assert_eq!(classify_edges(&g, &vec![10]), (0, 0));
    assert_eq!(classify_edges(&g, &vec![10, 20, 30]), (2, 0));
    assert_eq!(classify_edges(&g, &vec![10, 40]), (0, 1));
    // A hop with no edge between its systems counts as a gate.
    assert_eq!(classify_edges(&g, &vec![40, 10]), (1, 0));
    g.mode = GraphMode::Gate;
    assert_eq!(classify_edges(&g, &vec![10, 40]), (1, 0));
    g.mode = GraphMode::Spatial;
    assert_eq!(classify_edges(&g, &vec![10, 20, 30]), (0, 2));
}

#[test]
fn cheapest_parallel_edge_decides_kind() {
    let g = SearchGraph {
        mode: GraphMode::Hybrid,
        systems: vec![1, 2],
        adjacency: vec![vec![edge(1, EdgeKind::Gate, 7), edge(1, EdgeKind::Spatial, 3)], vec![]],
    };
    assert_eq!(classify_edges(&g, &vec![1, 2]), (0, 1));
    let tie = SearchGraph {
        mode: GraphMode::Hybrid,
        systems: vec![1, 2],
        adjacency: vec![vec![edge(1, EdgeKind::Gate, 3), edge(1, EdgeKind::Spatial, 3)], vec![]],
    };
    assert_eq!(classify_edges(&tie, &vec![1, 2]), (1, 0));
}

#[test]
fn search_follows_requested_algorithm() {
    let g = sample_graph();
    assert_eq!(search_route(&g, &query(RouteAlgorithm::Bfs)), Some(vec![10, 40]));
    assert_eq!(search_route(&g, &query(RouteAlgorithm::Dijkstra)), Some(vec![10, 20, 30, 40]));
    let mut fuel = query(RouteAlgorithm::AStar);
    fuel.optimization = RouteOptimization::Fuel;
    assert_eq!(search_route(&g, &fuel), Some(vec![10, 20, 30, 40]));
}

#[test]
fn route_hops_are_checked_in_order() {
    let g = sample_graph();
    let none = vec![vec![false, false], vec![false], vec![false], vec![]];
    assert_eq!(check_route_hops(&g, &none, &vec![10, 40]), HopCheck::Safe);
    let hot = vec![vec![false, true], vec![false], vec![false], vec![]];
    assert_eq!(check_route_hops(&g, &hot, &vec![10, 40]), HopCheck::Hazardous);
    assert_eq!(check_route_hops(&g, &hot, &vec![10, 20, 30, 40]), HopCheck::Safe);
    // Gate hops are never hazardous, even when flagged.
    let gates = vec![vec![true, false], vec![true], vec![true], vec![]];
    assert_eq!(check_route_hops(&g, &gates, &vec![10, 20, 30, 40]), HopCheck::Safe);
    assert_eq!(check_route_hops(&g, &none, &vec![10, 30]), HopCheck::MissingEdge);
    assert_eq!(check_route_hops(&g, &hot, &vec![40]), HopCheck::Safe);
}

#[test]
fn select_planner_chooses_correct_type() {
    let planner = select_planner(&query(RouteAlgorithm::Bfs));
    assert_eq!(planner.algorithm(), RouteAlgorithm::Bfs);
    assert!(!planner.requires_spatial_index());
    let planner = select_planner(&query(RouteAlgorithm::Dijkstra));
    assert_eq!(planner.algorithm(), RouteAlgorithm::Dijkstra);
    assert!(matches!(planner, SelectedPlanner::Dijkstra(d) if d.optimization() == RouteOptimization::Distance));
    let mut fuel = query(RouteAlgorithm::AStar);
    fuel.optimization = RouteOptimization::Fuel;
    let planner = select_planner(&fuel);
    assert_eq!(planner.algorithm(), RouteAlgorithm::AStar);
    assert!(matches!(planner, SelectedPlanner::AStar(ref a) if a.optimization() == RouteOptimization::Fuel));
}

#[test]
fn safe_route_is_kept() {
    let g = sample_graph();
    let none = vec![vec![false, false], vec![false], vec![false], vec![]];
    let plan = plan_checked_route(&g, &none, &g, &query(RouteAlgorithm::Bfs)).expect("route");
    assert_eq!(plan.steps, vec![10, 40]);
    assert_eq!((plan.gates, plan.jumps), (0, 1));
}

#[test]
fn hazardous_jump_is_planned_around() {
    let g = sample_graph();
    let hot = vec![vec![false, true], vec![false], vec![false], vec![]];
    let mut filtered = sample_graph();
    filtered.adjacency[0][1].permitted = false;
    let plan = plan_checked_route(&g, &hot, &filtered, &query(RouteAlgorithm::Bfs)).expect("alternative");
    assert_eq!(plan.steps, vec![10, 20, 30, 40]);
    assert_eq!(plan.algorithm, RouteAlgorithm::Bfs);
    assert_eq!((plan.gates, plan.jumps), (3, 0));
}

#[test]
fn hazardous_jump_without_alternative_has_no_route() {
    let g = sample_graph();
    let hot = vec![vec![false, true], vec![false], vec![false], vec![]];
    let mut filtered = sample_graph();
    filtered.adjacency[0][1].permitted = false;
    filtered.adjacency[2][0].permitted = false;
    match plan_checked_route(&g, &hot, &filtered, &query(RouteAlgorithm::Bfs)) {
        Err(Error::RouteNotFound { start, goal }) => {
            assert_eq!(start, "Nod");
            assert_eq!(goal, "Brana");
        }
        other => panic!("expected no route, got {:?}", other),
    }
}

#[test]
fn checked_route_respects_blocked_endpoints() {
    let g = sample_graph();
    let none = vec![vec![false, false], vec![false], vec![false], vec![]];
    let mut q = query(RouteAlgorithm::Dijkstra);
    q.endpoints_meet_temperature = false;
    assert!(matches!(plan_checked_route(&g, &none, &g, &q), Err(Error::RouteNotFound { .. })));
}
