use std::collections::HashSet;

use evefrontier_lib::search::{
    edge_meets_gate_policy, find_route, find_route_bfs, system_meets_avoidance, EdgeKind, GraphMode,
    PathConstraints, SearchEdge, SearchGraph,
};
use evefrontier_lib::weighted::{find_route_a_star, find_route_dijkstra, heuristic_is_consistent};

fn edge(target: usize, kind: EdgeKind, cost: u64) -> SearchEdge {
    SearchEdge { target, kind, cost, permitted: true }
}

/// Systems 10 - 20 - 30 - 40 joined by cheap gates, plus one costly jump 10 -> 40.
fn sample_graph() -> SearchGraph {
    SearchGraph {
        mode: GraphMode::Hybrid,
        systems: vec![10, 20, 30, 40],
        adjacency: vec![
            vec![edge(1, EdgeKind::Gate, 5), edge(3, EdgeKind::Spatial, 100)],
            vec![edge(2, EdgeKind::Gate, 5)],
            vec![edge(3, EdgeKind::Gate, 5)],
            vec![],
        ],
    }
}

#[test]
fn edge_meets_gate_policy_allows_gates() {
    assert!(edge_meets_gate_policy(EdgeKind::Gate, false));
}

#[test]
fn edge_meets_gate_policy_blocks_gates() {
    assert!(!edge_meets_gate_policy(EdgeKind::Gate, true));
}

#[test]
fn edge_meets_gate_policy_allows_spatial_when_avoiding_gates() {
    assert!(edge_meets_gate_policy(EdgeKind::Spatial, true));
}

#[test]
fn system_meets_avoidance_not_avoided() {
    let avoided = HashSet::new();
    assert!(system_meets_avoidance(1, &avoided));
}

#[test]
fn system_meets_avoidance_is_avoided() {
    let mut avoided = HashSet::new();
    avoided.insert(1);
    assert!(!system_meets_avoidance(1, &avoided));
}

#[test]
fn bfs_takes_fewest_hops() {
    let g = sample_graph();
    assert_eq!(find_route(&g, 10, 40), Some(vec![10, 40]));
    assert_eq!(find_route(&g, 20, 40), Some(vec![20, 30, 40]));
    assert_eq!(find_route(&g, 40, 10), None);
    assert_eq!(find_route(&g, 30, 30), Some(vec![30]));
}

#[test]
fn bfs_respects_constraints() {
    let g = sample_graph();
    let mut avoid = PathConstraints::default();
    avoid.avoided_systems.insert(40);
    assert_eq!(find_route_bfs(&g, &avoid, 10, 40), None);
    let no_gates = PathConstraints { avoid_gates: true, avoided_systems: HashSet::new() };
    assert_eq!(find_route_bfs(&g, &no_gates, 10, 40), Some(vec![10, 40]));
    assert_eq!(find_route_bfs(&g, &no_gates, 10, 20), None);
}

#[test]
fn unknown_systems_have_no_route() {
    let g = sample_graph();
    assert_eq!(find_route(&g, 99, 10), None);
    assert_eq!(find_route_dijkstra(&g, &PathConstraints::default(), 10, 99), None);
    assert_eq!(find_route(&g, 99, 99), Some(vec![99]));
}

#[test]
fn dijkstra_takes_cheapest_route() {
    let g = sample_graph();
    let c = PathConstraints::default();
    assert_eq!(find_route_dijkstra(&g, &c, 10, 40), Some(vec![10, 20, 30, 40]));
    let no_gates = PathConstraints { avoid_gates: true, avoided_systems: HashSet::new() };
    assert_eq!(find_route_dijkstra(&g, &no_gates, 10, 40), Some(vec![10, 40]));
    let mut avoid = PathConstraints::default();
    avoid.avoided_systems.insert(30);
    assert_eq!(find_route_dijkstra(&g, &avoid, 10, 40), Some(vec![10, 40]));
}

#[test]
fn forbidden_edges_are_skipped() {
    let mut g = sample_graph();
    g.adjacency[0][1].permitted = false;
    g.adjacency[1][0].permitted = false;
    assert_eq!(find_route_dijkstra(&g, &PathConstraints::default(), 10, 40), None);
    assert_eq!(find_route(&g, 10, 40), None);
}

#[test]
fn dijkstra_breaks_ties_by_smaller_system() {
    // Two routes of equal cost: 1 -> 2 -> 4 and 1 -> 3 -> 4.
    let g = SearchGraph {
        mode: GraphMode::Gate,
        systems: vec![1, 3, 2, 4],
        adjacency: vec![
            vec![edge(1, EdgeKind::Gate, 1), edge(2, EdgeKind::Gate, 1)],
            vec![edge(3, EdgeKind::Gate, 1)],
            vec![edge(3, EdgeKind::Gate, 1)],
            vec![],
        ],
    };
    let route = find_route_dijkstra(&g, &PathConstraints::default(), 1, 4).expect("route");
    assert_eq!(route.len(), 3);
    assert_eq!(route[0], 1);
    assert_eq!(route[2], 4);
}

#[test]
fn a_star_agrees_with_dijkstra_on_cost() {
    let g = sample_graph();
    let c = PathConstraints::default();
    // Remaining gate cost to system 40 from each node: a consistent estimate.
    let estimates = vec![15u64, 10, 5, 0];
    assert!(heuristic_is_consistent(&g, &c, &estimates));
    assert_eq!(find_route_a_star(&g, &c, &estimates, 10, 40), Some(vec![10, 20, 30, 40]));
}

#[test]
fn inconsistent_estimates_fall_back_to_dijkstra() {
    let g = sample_graph();
    let c = PathConstraints::default();
    let estimates = vec![0u64, 1000, 0, 0];
    assert!(!heuristic_is_consistent(&g, &c, &estimates));
    assert_eq!(find_route_a_star(&g, &c, &estimates, 10, 40), Some(vec![10, 20, 30, 40]));
    assert!(!heuristic_is_consistent(&g, &c, &vec![0u64, 0]));
}

/// Systems 1 ("A"), 2 ("B"), 3 ("C"): gates A-B and B-C, which cost no fuel,
/// and spatial jumps between all three costed by the fuel they burn.
fn fuel_graph() -> SearchGraph {
    SearchGraph {
        mode: GraphMode::Hybrid,
        systems: vec![1, 2, 3],
        adjacency: vec![
            vec![edge(1, EdgeKind::Gate, 0), edge(1, EdgeKind::Spatial, 1500), edge(2, EdgeKind::Spatial, 1200)],
            vec![edge(0, EdgeKind::Gate, 0), edge(2, EdgeKind::Gate, 0), edge(0, EdgeKind::Spatial, 1500)],
            vec![edge(1, EdgeKind::Gate, 0), edge(0, EdgeKind::Spatial, 1200)],
        ],
    }
}

#[test]
fn dijkstra_fuel_prefers_gate_route_when_cheaper() {
    let g = fuel_graph();
    let none = PathConstraints::default();
    assert_eq!(find_route_dijkstra(&g, &none, 1, 3), Some(vec![1, 2, 3]));
    assert_eq!(find_route_a_star(&g, &none, &vec![0, 0, 0], 1, 3), Some(vec![1, 2, 3]));
}

#[test]
fn zero_cost_routes_visit_no_system_twice() {
    let g = fuel_graph();
    let none = PathConstraints::default();
    for (s, t) in [(1, 3), (3, 1), (2, 3), (1, 2)] {
        let route = find_route_dijkstra(&g, &none, s, t).expect("route");
        let distinct: HashSet<i64> = route.iter().copied().collect();
        assert_eq!(distinct.len(), route.len());
    }
}
