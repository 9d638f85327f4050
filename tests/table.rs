use waypoint_router::table::DistanceTable;

const EARTH_RADIUS_KM: f64 = 6371.0;

fn haversine(a: [f64; 2], b: [f64; 2]) -> f64 {
    let [lat1, lng1] = a;
    let [lat2, lng2] = b;
    let phi1 = lat1.to_radians();
    let phi2 = lat2.to_radians();
    let delta_phi = (lat2 - lat1).to_radians();
    let delta_lambda = (lng2 - lng1).to_radians();
    let h = (delta_phi / 2.0).sin().powi(2)
        + phi1.cos() * phi2.cos() * (delta_lambda / 2.0).sin().powi(2);
    let c = 2.0 * h.sqrt().atan2((1.0 - h).sqrt());
    EARTH_RADIUS_KM * c
}

fn distance_key(d: f64) -> u64 {
    if d == 0.0 {
        0
    } else {
        d.to_bits()
    }
}

fn table_of(nodes: &[[f64; 2]]) -> DistanceTable {
    let rows: Vec<Vec<u64>> = nodes
        .iter()
        .map(|&a| nodes.iter().map(|&b| distance_key(haversine(a, b))).collect())
        .collect();
    DistanceTable::from_rows(rows).unwrap()
}

fn plan(origin: [f64; 2], groups: Vec<Vec<[f64; 2]>>) -> Vec<[f64; 2]> {
    let mut nodes = vec![origin];
    let mut sizes = Vec::new();
    for g in &groups {
        sizes.push(g.len());
        nodes.extend_from_slice(g);
    }
    let table = table_of(&nodes);
    let order = table.optimize_waypoints(&sizes).unwrap();
    order.iter().map(|&i| nodes[i]).collect()
}

fn nearest_neighbor(origin: [f64; 2], points: Vec<[f64; 2]>) -> Vec<[f64; 2]> {
    plan(origin, vec![points])
}

fn sorted(mut v: Vec<[f64; 2]>) -> Vec<[f64; 2]> {
    v.sort_by(|a, b| a.partial_cmp(b).unwrap());
    v
}

#[test]
fn test_nearest_neighbor() {
    let origin = [0.0, 0.0];
    let points = vec![[1.0, 1.0], [2.0, 2.0], [0.0, 1.0]];

    let result = nearest_neighbor(origin, points.clone());

    let expected_result = vec![[0.0, 1.0], [1.0, 1.0], [2.0, 2.0]];

    assert_eq!(result, expected_result);
}

#[test]
fn test_success_path_response() {
    let origin = [16.07909, 108.1784457];
    let waypoints = vec![
        vec![[108.1724962, 16.0143747], [108.1935533, 16.0488041]],
        vec![[108.2123137, 16.0371405]],
    ];

    let path = plan(origin, waypoints);

    let expected_result = vec![
        [108.1724962, 16.0143747],
        [108.1935533, 16.0488041],
        [108.2123137, 16.0371405],
    ];
    assert_eq!(path, expected_result);
}

#[test]
fn nearest_neighbor_of_no_points_is_empty() {
    assert_eq!(nearest_neighbor([3.0, 4.0], vec![]), Vec::<[f64; 2]>::new());
}

#[test]
fn nearest_neighbor_of_one_point_is_that_point() {
    assert_eq!(nearest_neighbor([3.0, 4.0], vec![[10.0, 20.0]]), vec![[10.0, 20.0]]);
}

#[test]
fn nearest_neighbor_returns_a_permutation() {
    let points = vec![[5.0, 5.0], [1.0, 2.0], [5.0, 5.0], [-3.0, 7.5], [0.5, 0.5], [9.0, -9.0]];
    let result = nearest_neighbor([0.0, 0.0], points.clone());
    assert_eq!(result.len(), points.len());
    assert_eq!(sorted(result.clone()), sorted(points));
    assert_eq!(result[0], [0.5, 0.5]);
}

#[test]
fn equal_keys_go_to_the_earlier_candidate() {
    // Node 0 is the reference; nodes 1 and 2 are equally near, node 3 farther.
    let rows = vec![
        vec![0, 5, 5, 9],
        vec![5, 0, 1, 1],
        vec![5, 1, 0, 1],
        vec![9, 1, 1, 0],
    ];
    let table = DistanceTable::from_rows(rows).unwrap();
    assert_eq!(table.min_point(0, &vec![1, 2, 3]), 0);
    assert_eq!(table.min_point(0, &vec![2, 1, 3]), 0);
    assert_eq!(table.min_point(0, &vec![3, 2, 1]), 1);
    assert_eq!(table.nearest_neighbor(0, vec![2, 1, 3]), vec![2, 1, 3]);
    assert_eq!(table.nearest_neighbor(0, vec![1, 2, 3]), vec![1, 2, 3]);
}

#[test]
fn equal_distances_from_coordinates_go_to_the_earlier_point() {
    let origin = [0.0, 0.0];
    let points = vec![[0.0, 1.0], [0.0, -1.0]];
    assert_eq!(nearest_neighbor(origin, points), vec![[0.0, 1.0], [0.0, -1.0]]);
    let points = vec![[0.0, -1.0], [0.0, 1.0]];
    assert_eq!(nearest_neighbor(origin, points), vec![[0.0, -1.0], [0.0, 1.0]]);
}

#[test]
fn min_point_picks_the_smallest_key() {
    let rows = vec![
        vec![0, 7, 3, 8],
        vec![7, 0, 2, 2],
        vec![3, 2, 0, 4],
        vec![8, 2, 4, 0],
    ];
    let table = DistanceTable::from_rows(rows).unwrap();
    assert_eq!(table.min_point(0, &vec![1, 3, 2]), 2);
    assert_eq!(table.min_point(3, &vec![2, 1]), 1);
    assert_eq!(table.min_point(1, &vec![3]), 0);
}

#[test]
fn greedy_tour_moves_the_reference() {
    // From 0 the nearest is 2; from 2 the nearest left is 1; then 3.
    let rows = vec![
        vec![0, 7, 3, 8],
        vec![7, 0, 2, 2],
        vec![3, 2, 0, 4],
        vec![8, 2, 4, 0],
    ];
    let table = DistanceTable::from_rows(rows).unwrap();
    assert_eq!(table.nearest_neighbor(0, vec![1, 2, 3]), vec![2, 1, 3]);
    assert_eq!(table.nearest_neighbor(3, vec![0, 1, 2]), vec![1, 2, 0]);
}

#[test]
fn chain_of_one_group_is_the_single_group_order() {
    let origin = [10.0, 106.0];
    let group = vec![[10.2, 106.1], [10.1, 106.2], [10.05, 106.0], [10.3, 106.3]];
    assert_eq!(plan(origin, vec![group.clone()]), nearest_neighbor(origin, group));
}

#[test]
fn chain_skips_an_empty_middle_group() {
    let origin = [10.0, 106.0];
    let g1 = vec![[10.2, 106.1], [10.1, 106.2]];
    let g2 = vec![[10.0, 106.4], [10.05, 106.0], [10.3, 106.3]];
    let with_empty = plan(origin, vec![g1.clone(), vec![], g2.clone()]);
    let without = plan(origin, vec![g1, g2]);
    assert_eq!(with_empty, without);
    assert_eq!(with_empty.len(), 5);
}

#[test]
fn chain_starts_each_group_where_the_previous_ended() {
    let rows = vec![
        vec![0, 1, 9, 5, 6],
        vec![1, 0, 9, 8, 2],
        vec![9, 9, 0, 1, 9],
        vec![5, 8, 1, 0, 9],
        vec![6, 2, 9, 9, 0],
    ];
    let table = DistanceTable::from_rows(rows).unwrap();
    // Group one is node 1 alone; from node 1, node 4 is nearer than node 3,
    // although from the origin node 3 is.
    assert_eq!(table.nearest_neighbor_chain(0, &vec![vec![1], vec![3, 4]]), vec![1, 4, 3]);
    assert_eq!(table.nearest_neighbor(0, vec![3, 4]), vec![3, 4]);
    assert_eq!(table.nearest_neighbor_chain(0, &vec![vec![], vec![], vec![3, 4]]), vec![3, 4]);
    assert_eq!(table.nearest_neighbor_chain(0, &vec![]), Vec::<usize>::new());
}

#[test]
fn optimize_waypoints_numbers_nodes_group_by_group() {
    let rows = vec![
        vec![0, 1, 9, 5, 6],
        vec![1, 0, 9, 8, 2],
        vec![9, 9, 0, 1, 9],
        vec![5, 8, 1, 0, 9],
        vec![6, 2, 9, 9, 0],
    ];
    let table = DistanceTable::from_rows(rows).unwrap();
    assert_eq!(table.optimize_waypoints(&vec![2, 0, 2]), Some(vec![1, 2, 3, 4]));
    assert_eq!(table.optimize_waypoints(&vec![4]), Some(vec![1, 4, 2, 3]));
    assert_eq!(table.optimize_waypoints(&vec![1, 3]), Some(vec![1, 4, 2, 3]));
}

#[test]
fn optimize_waypoints_rejects_a_count_that_does_not_match_the_table() {
    let table = DistanceTable::from_rows(vec![vec![0, 1], vec![1, 0]]).unwrap();
    assert_eq!(table.optimize_waypoints(&vec![2]), None);
    assert_eq!(table.optimize_waypoints(&vec![]), None);
    assert_eq!(table.optimize_waypoints(&vec![1]), Some(vec![1]));
    assert_eq!(table.optimize_waypoints(&vec![0, 1, 0]), Some(vec![1]));
    let empty = DistanceTable::from_rows(vec![]).unwrap();
    assert_eq!(empty.size(), 0);
    assert_eq!(empty.optimize_waypoints(&vec![]), None);
}

#[test]
fn from_rows_requires_a_square_table() {
    assert!(DistanceTable::from_rows(vec![vec![0, 1], vec![1]]).is_none());
    assert!(DistanceTable::from_rows(vec![vec![0, 1, 2], vec![1, 0, 2]]).is_none());
    let table = DistanceTable::from_rows(vec![vec![0, 4], vec![3, 0]]).unwrap();
    assert_eq!(table.size(), 2);
    assert_eq!(table.key(0, 1), 4);
    assert_eq!(table.key(1, 0), 3);
}

#[test]
fn duplicate_points_are_each_visited() {
    let points = vec![[1.0, 1.0], [1.0, 1.0], [2.0, 2.0]];
    let result = nearest_neighbor([0.0, 0.0], points);
    assert_eq!(result, vec![[1.0, 1.0], [1.0, 1.0], [2.0, 2.0]]);
}
