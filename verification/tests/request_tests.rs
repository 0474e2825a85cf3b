use rust_connectivity::edges::{PtEdges, WalkEdges};
use rust_connectivity::graph_input::{
    graph_pt_from_pairs, graph_walk_from_pairs, pt_edges_from_list, pt_edges_to_list, walk_edges_from_list,
    walk_edges_from_pairs, walk_edges_to_list,
};
use rust_connectivity::request::{
    add_new_node_values, apply_request_edits, floodfill_starts, remove_new_node_values, revert_request_edits,
    EditError,
};
use rust_connectivity::shared::{Cost, EdgeWalk, NodeID, UserInputJSON};

fn input() -> UserInputJSON {
    UserInputJSON {
        start_nodes_user_input: vec![],
        init_travel_times_user_input: vec![],
        trip_start_seconds: 28800,
        graph_walk_additions: vec![],
        graph_pt_additions: vec![],
        new_nodes_count: 0,
        graph_walk_updates_keys: vec![],
        graph_walk_updates_additions: vec![],
        year: 2022,
        new_build_additions: vec![],
        target_destinations: vec![],
        max_travel_time: 3600,
        return_all_destinations: false,
    }
}

fn walk_pairs(list: &WalkEdges) -> Vec<(u32, u16)> {
    walk_edges_to_list(list).iter().map(|e| (e.to.0, e.cost.0)).collect()
}

fn pt_pairs(list: &PtEdges) -> Vec<(u32, u16)> {
    pt_edges_to_list(list).iter().map(|e| (e.leavetime.0, e.cost.0)).collect()
}

fn network() -> (Vec<WalkEdges>, Vec<PtEdges>, Vec<i32>) {
    let walk = graph_walk_from_pairs(&vec![vec![[0, 0], [10, 1]], vec![[0, 0], [10, 0]]]);
    let pt = graph_pt_from_pairs(&vec![], 2);
    let values: Vec<i32> = (0..64).collect();
    (walk, pt, values)
}

fn snapshot(walk: &[WalkEdges], pt: &[PtEdges]) -> (Vec<Vec<(u32, u16)>>, Vec<Vec<(u32, u16)>>) {
    (walk.iter().map(walk_pairs).collect(), pt.iter().map(pt_pairs).collect())
}

#[test]
fn edges_from_pairs_cut_to_width() {
    let list = walk_edges_from_pairs(&vec![[70000, 5], [3, (1usize << 32) + 7]]);
    assert_eq!(walk_pairs(&list), vec![(5, 70000u32 as u16), (7, 3)]);
    let pt = graph_pt_from_pairs(&vec![vec![[28800, 120]]], 3);
    assert_eq!(pt.len(), 3);
    assert_eq!(pt_pairs(&pt[0]), vec![(28800, 120)]);
    assert!(pt_pairs(&pt[1]).is_empty() && pt_pairs(&pt[2]).is_empty());
}

#[test]
fn new_buildings_added_and_taken_away() {
    let mut values = vec![0i32; 64];
    let mut req = input();
    req.new_build_additions = vec![vec![5, 1, 2], vec![-2, 1, 2], vec![7, 0, 31]];
    assert!(add_new_node_values(&mut values, &req));
    assert_eq!(values[34], 3);
    assert_eq!(values[31], 7);
    assert!(remove_new_node_values(&mut values, &req));
    assert!(values.iter().all(|&v| v == 0));
}

#[test]
fn new_building_out_of_range_or_overflowing() {
    let mut values = vec![0i32; 64];
    let mut req = input();
    req.new_build_additions = vec![vec![1, 2, 0]];
    assert!(!add_new_node_values(&mut values, &req));
    req.new_build_additions = vec![vec![1, 0, -1]];
    assert!(!add_new_node_values(&mut values, &req));
    req.new_build_additions = vec![vec![1, 0]];
    assert!(!add_new_node_values(&mut values, &req));
    req.new_build_additions = vec![vec![1, i32::MAX, 0]];
    assert!(!add_new_node_values(&mut values, &req));
    let mut values = vec![i32::MAX; 64];
    req.new_build_additions = vec![vec![1, 0, 0]];
    assert!(!add_new_node_values(&mut values, &req));
    let mut values = vec![i32::MIN; 64];
    assert!(!remove_new_node_values(&mut values, &req));
}

#[test]
fn request_edits_made_and_undone() {
    let (mut walk, mut pt, mut values) = network();
    let before = snapshot(&walk, &pt);
    let values_before = values.clone();
    let mut req = input();
    req.graph_walk_additions = vec![vec![[0, 0], [30, 0]]];
    req.graph_pt_additions = vec![vec![]];
    req.new_nodes_count = 1;
    req.graph_walk_updates_keys = vec![1];
    req.graph_walk_updates_additions = vec![vec![[40, 2]]];
    req.new_build_additions = vec![vec![100, 2, 5], vec![1, 0, 0]];
    let edits = apply_request_edits(&mut walk, &mut pt, &mut values, &req).unwrap();
    assert_eq!(walk.len(), 3);
    assert_eq!(pt.len(), 3);
    assert_eq!(walk_pairs(&walk[1]), vec![(0, 0), (0, 10), (2, 40)]);
    assert_eq!(walk_pairs(&walk[2]), vec![(0, 0), (0, 30)]);
    assert_eq!(values.len(), 96);
    assert_eq!(values[69], 100);
    assert_eq!(values[0], 1);
    assert_eq!(edits.graph_walk_len, 2);
    assert_eq!(edits.node_values_len, 64);
    revert_request_edits(&mut walk, &mut pt, &mut values, &req, &edits).unwrap();
    assert_eq!(snapshot(&walk, &pt), before);
    assert_eq!(values, values_before);
}

#[test]
fn updates_stay_where_no_nodes_are_added() {
    let (mut walk, mut pt, mut values) = network();
    let mut req = input();
    req.graph_walk_updates_keys = vec![0];
    req.graph_walk_updates_additions = vec![vec![[5, 1]]];
    let edits = apply_request_edits(&mut walk, &mut pt, &mut values, &req).unwrap();
    assert_eq!(walk_pairs(&walk[0]), vec![(0, 0), (1, 10), (1, 5)]);
    revert_request_edits(&mut walk, &mut pt, &mut values, &req, &edits).unwrap();
    assert_eq!(walk_pairs(&walk[0]), vec![(0, 0), (1, 10), (1, 5)]);
    assert_eq!(walk_pairs(&walk[1]), vec![(0, 0), (0, 10)]);
    assert_eq!(walk.len(), 2);
}

#[test]
fn node_updated_twice_keeps_its_first_update() {
    let (mut walk, mut pt, mut values) = network();
    let mut req = input();
    req.graph_walk_additions = vec![vec![[0, 0]]];
    req.graph_pt_additions = vec![vec![]];
    req.new_nodes_count = 1;
    req.graph_walk_updates_keys = vec![1, 1];
    req.graph_walk_updates_additions = vec![vec![[40, 2]], vec![[50, 0]]];
    let edits = apply_request_edits(&mut walk, &mut pt, &mut values, &req).unwrap();
    assert_eq!(walk_pairs(&walk[1]), vec![(0, 0), (0, 10), (2, 40), (0, 50)]);
    revert_request_edits(&mut walk, &mut pt, &mut values, &req, &edits).unwrap();
    assert_eq!(walk.len(), 2);
    assert_eq!(walk_pairs(&walk[0]), vec![(0, 0), (1, 10)]);
    assert_eq!(walk_pairs(&walk[1]), vec![(0, 0), (0, 10), (2, 40)]);
}

#[test]
fn update_out_of_range_not_checked_where_no_nodes_are_added() {
    let (mut walk, mut pt, mut values) = network();
    let before = snapshot(&walk, &pt);
    let mut req = input();
    req.graph_walk_updates_keys = vec![7];
    let edits = apply_request_edits(&mut walk, &mut pt, &mut values, &input()).unwrap();
    assert!(revert_request_edits(&mut walk, &mut pt, &mut values, &req, &edits).is_ok());
    assert_eq!(snapshot(&walk, &pt), before);
}

#[test]
fn request_edit_errors() {
    let (mut walk, mut pt, mut values) = network();
    let mut req = input();
    req.new_nodes_count = 1;
    assert_eq!(apply_request_edits(&mut walk, &mut pt, &mut values, &req).err(), Some(EditError::NewNodesCountMismatch));
    let mut req = input();
    req.graph_walk_updates_keys = vec![2];
    req.graph_walk_updates_additions = vec![vec![]];
    assert_eq!(apply_request_edits(&mut walk, &mut pt, &mut values, &req).err(), Some(EditError::UpdateOutOfRange));
    let mut req = input();
    req.graph_walk_updates_keys = vec![0];
    assert_eq!(apply_request_edits(&mut walk, &mut pt, &mut values, &req).err(), Some(EditError::UpdateOutOfRange));
    let mut short_values = vec![0i32; 63];
    let req = input();
    assert_eq!(
        apply_request_edits(&mut walk, &mut pt, &mut short_values, &req).err(),
        Some(EditError::NodeValuesLengthMismatch)
    );
    let mut req = input();
    req.new_build_additions = vec![vec![1, 5, 0]];
    assert_eq!(apply_request_edits(&mut walk, &mut pt, &mut values, &req).err(), Some(EditError::InvalidNewBuild));
    let mut one_pt: Vec<PtEdges> = vec![pt_edges_from_list(&vec![])];
    let req = input();
    assert_eq!(apply_request_edits(&mut walk, &mut one_pt, &mut values, &req).err(), Some(EditError::GraphLengthsDiffer));
    // nothing changed by the checked errors
    assert_eq!(walk.len(), 2);
    assert_eq!(values.len(), 64);
}

#[test]
fn revert_errors() {
    let (mut walk, mut pt, mut values) = network();
    let mut req = input();
    req.graph_walk_additions = vec![vec![[0, 0]]];
    req.graph_pt_additions = vec![vec![]];
    req.new_nodes_count = 1;
    // an update of the added node itself cannot be undone once it is cut off
    req.graph_walk_updates_keys = vec![2];
    req.graph_walk_updates_additions = vec![vec![[1, 0]]];
    let edits = apply_request_edits(&mut walk, &mut pt, &mut values, &req).unwrap();
    assert_eq!(
        revert_request_edits(&mut walk, &mut pt, &mut values, &req, &edits).err(),
        Some(EditError::UpdateOutOfRange)
    );
    let (mut walk, mut pt, mut values) = network();
    let mut req = input();
    req.new_build_additions = vec![vec![-1, 0, 0]];
    let edits = apply_request_edits(&mut walk, &mut pt, &mut values, &req).unwrap();
    values[0] = i32::MAX;
    assert_eq!(
        revert_request_edits(&mut walk, &mut pt, &mut values, &req, &edits).err(),
        Some(EditError::InvalidNewBuild)
    );
}

#[test]
fn starts_with_their_initial_times() {
    let mut req = input();
    req.start_nodes_user_input = vec![3, -1];
    req.init_travel_times_user_input = vec![16, 70000, 9];
    let starts = floodfill_starts(&req).unwrap();
    assert_eq!(starts.len(), 2);
    assert_eq!(starts[0].0, NodeID(3));
    assert_eq!(starts[0].1, Cost(16));
    assert_eq!(starts[1].0, NodeID(u32::MAX));
    assert_eq!(starts[1].1, Cost(70000i32 as u16));
    req.init_travel_times_user_input = vec![16];
    assert!(floodfill_starts(&req).is_none());
}

#[test]
fn walk_list_round_trip() {
    let list = walk_edges_from_list(&vec![EdgeWalk { to: NodeID(4), cost: Cost(2) }]);
    assert_eq!(walk_pairs(&list), vec![(4, 2)]);
}
