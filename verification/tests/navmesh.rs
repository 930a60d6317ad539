use cs2_bot::navmesh::{
    catmull_rom_plan, find_path, path_of, pick_goal, AreaLinks, NavGraph, SearchGraph, SplinePoint,
};

fn test_areas() -> Vec<AreaLinks> {
    vec![
        AreaLinks { area_id: 1, has_corners: true, connections: vec![2] },
        AreaLinks { area_id: 2, has_corners: true, connections: vec![3] },
        AreaLinks { area_id: 3, has_corners: true, connections: vec![] },
    ]
}

/// Search query over the test mesh toward `goal`: centres are 100 units apart
/// along x (at 50, 150, 250), costs are distances times 100.
fn test_query(graph: &NavGraph, goal_x: f64) -> SearchGraph {
    let center = |id: u64| 50.0 + 100.0 * (id as f64 - 1.0);
    let mut q = SearchGraph::new();
    for id in 1..=3u64 {
        let succ: Vec<(u64, u64)> = graph
            .neighbors(id)
            .unwrap()
            .iter()
            .map(|n| (*n, ((center(id) - center(*n)).abs() * 100.0) as u64))
            .collect();
        q.add_area(id, ((center(id) - goal_x).abs() * 100.0) as u64, succ);
    }
    q
}

#[test]
fn test_navmesh_bidirectional() {
    let mesh = NavGraph::from_areas(&test_areas());
    // Area 3 lists no connections, but gets the reverse link from area 2.
    assert!(mesh.neighbors(3).unwrap().contains(&2));
}

#[test]
fn graph_links_forward_then_reverse() {
    let mesh = NavGraph::from_areas(&test_areas());
    assert_eq!(mesh.neighbors(1).unwrap(), &vec![2]);
    assert_eq!(mesh.neighbors(2).unwrap(), &vec![3, 1]);
    assert_eq!(mesh.neighbors(3).unwrap(), &vec![2]);
    assert!(mesh.neighbors(4).is_none());
}

#[test]
fn areas_without_corners_and_unknown_links_are_dropped() {
    let areas = vec![
        AreaLinks { area_id: 1, has_corners: true, connections: vec![2, 9, 3] },
        AreaLinks { area_id: 2, has_corners: false, connections: vec![1] },
        AreaLinks { area_id: 3, has_corners: true, connections: vec![1] },
    ];
    let mesh = NavGraph::from_areas(&areas);
    assert!(!mesh.contains(2));
    assert!(!mesh.contains(9));
    assert_eq!(mesh.neighbors(1).unwrap(), &vec![3]);
    // 3 already lists 1, so no duplicate reverse link is added.
    assert_eq!(mesh.neighbors(3).unwrap(), &vec![1]);
}

#[test]
fn last_listing_of_an_area_wins() {
    let areas = vec![
        AreaLinks { area_id: 1, has_corners: true, connections: vec![2] },
        AreaLinks { area_id: 2, has_corners: true, connections: vec![] },
        AreaLinks { area_id: 1, has_corners: false, connections: vec![] },
    ];
    let mesh = NavGraph::from_areas(&areas);
    assert_eq!(mesh.neighbors(1).unwrap(), &Vec::<u64>::new());
    assert_eq!(mesh.neighbors(2).unwrap(), &Vec::<u64>::new());
}

#[test]
fn test_astar_pathfinding() {
    let mesh = NavGraph::from_areas(&test_areas());
    let q = test_query(&mesh, 250.0);
    assert!(q.is_within_bounds());
    let path = find_path(&q, 1, 3);
    assert!(path.is_some());
    assert_eq!(path.unwrap(), vec![1, 2, 3]);
}

#[test]
fn test_astar_valid_path() {
    let mesh = NavGraph::from_areas(&test_areas());
    let q = test_query(&mesh, 250.0);
    let path = find_path(&q, 1, 3).unwrap();
    for window in path.windows(2) {
        assert!(
            mesh.neighbors(window[0]).unwrap().contains(&window[1]),
            "Area {} should connect to area {}",
            window[0],
            window[1]
        );
    }
}

#[test]
fn path_search_edge_cases() {
    let mesh = NavGraph::from_areas(&test_areas());
    let q = test_query(&mesh, 50.0);
    assert_eq!(find_path(&q, 3, 1), Some(vec![3, 2, 1]));
    assert_eq!(find_path(&q, 2, 2), Some(vec![2]));
    assert_eq!(find_path(&q, 1, 7), None);
    // Start outside the mesh: no links lead anywhere.
    assert_eq!(find_path(&q, 7, 1), None);
    // Disconnected goal.
    let mut q2 = SearchGraph::new();
    q2.add_area(1, 0, vec![]);
    q2.add_area(2, 0, vec![]);
    assert_eq!(find_path(&q2, 1, 2), None);
    assert!(q2.successors_of(5).is_empty());
    assert_eq!(q2.heuristic_of(5), u64::MAX);
}

#[test]
fn costs_decide_the_route() {
    // 1 -> 2 -> 4 costs 2, 1 -> 3 -> 4 costs 20.
    let mut q = SearchGraph::new();
    q.add_area(1, 0, vec![(3, 10), (2, 1)]);
    q.add_area(2, 0, vec![(4, 1)]);
    q.add_area(3, 0, vec![(4, 10)]);
    q.add_area(4, 0, vec![]);
    assert_eq!(find_path(&q, 1, 4), Some(vec![1, 2, 4]));
    // Links to areas outside the query are ignored.
    q.add_area(5, 0, vec![(6, 1), (4, 3)]);
    assert_eq!(q.successors_of(5), vec![(4, 3)]);
}

#[test]
fn oversized_costs_are_out_of_bounds() {
    let mut q = SearchGraph::new();
    q.add_area(1, 0, vec![(2, u64::MAX)]);
    assert!(!q.is_within_bounds());
    q.add_area(2, u64::MAX, vec![]);
    assert!(!q.is_within_bounds());
    // Replacing the oversized areas brings the query back within bounds.
    q.add_area(1, 0, vec![(2, 5)]);
    assert!(!q.is_within_bounds());
    q.add_area(2, 0, vec![]);
    assert!(q.is_within_bounds());
    assert_eq!(find_path(&q, 1, 2), Some(vec![1, 2]));
    // The largest accepted cost and estimate are within bounds.
    q.add_area(3, 0xFFFF_FFFF, vec![(1, 0xFFFF_FFFF)]);
    assert!(q.is_within_bounds());
    q.add_area(4, 0x1_0000_0000, vec![]);
    assert!(!q.is_within_bounds());
}

#[test]
fn cheaper_route_wins_over_fewer_hops() {
    // 1 -> 4 directly costs 50; 1 -> 2 -> 3 -> 4 costs 3. Zero estimates never overestimate.
    let mut q = SearchGraph::new();
    q.add_area(1, 0, vec![(4, 50), (2, 1)]);
    q.add_area(2, 0, vec![(3, 1)]);
    q.add_area(3, 0, vec![(4, 1)]);
    q.add_area(4, 0, vec![]);
    assert_eq!(find_path(&q, 1, 4), Some(vec![1, 2, 3, 4]));
}

#[test]
fn path_of_drops_the_cost() {
    assert_eq!(path_of(Some((vec![4, 5], 17))), Some(vec![4, 5]));
    assert_eq!(path_of(None), None);
}

#[test]
fn goal_is_one_of_the_areas() {
    assert_eq!(pick_goal(&Vec::new()), None);
    assert_eq!(pick_goal(&vec![42]), Some(42));
    let areas = vec![3, 5, 8];
    for _ in 0..50 {
        assert!(areas.contains(&pick_goal(&areas).unwrap()));
    }
}

#[test]
fn test_catmull_rom_smoothing() {
    // Three waypoints, four points per pair.
    let plan = catmull_rom_plan(3, 4);
    assert!(plan.len() > 3);
    assert_eq!(plan.len(), 9);
}

#[test]
fn catmull_rom_plan_points() {
    let plan = catmull_rom_plan(3, 2);
    assert_eq!(
        plan,
        vec![
            SplinePoint::Curve { p0: 0, p1: 0, p2: 1, p3: 2, step: 0 },
            SplinePoint::Curve { p0: 0, p1: 0, p2: 1, p3: 2, step: 1 },
            SplinePoint::Curve { p0: 0, p1: 1, p2: 2, p3: 2, step: 0 },
            SplinePoint::Curve { p0: 0, p1: 1, p2: 2, p3: 2, step: 1 },
            SplinePoint::Waypoint(2),
        ]
    );
    assert_eq!(catmull_rom_plan(1, 4), vec![SplinePoint::Waypoint(0)]);
    assert!(catmull_rom_plan(0, 4).is_empty());
    assert_eq!(catmull_rom_plan(2, 0), vec![SplinePoint::Waypoint(1)]);
}
