use rust_connectivity::bucket_queue::BucketQueue;
use rust_connectivity::edges::{PtEdges, WalkEdges};
use rust_connectivity::graph_input::{pt_edges_from_list, walk_edges_from_list};
use rust_connectivity::floodfill::{floodfill, get_travel_times, graph_is_valid};
use rust_connectivity::get_time_of_day_index::get_time_of_day_index;
use rust_connectivity::shared::{Cost, EdgePT, EdgeWalk, LeavingTime, NodeID};

fn walk_node(has_timetable: bool, edges: &[(u32, u16)]) -> WalkEdges {
    let mut list = vec![EdgeWalk { to: NodeID(0), cost: Cost(if has_timetable { 1 } else { 0 }) }];
    for &(to, cost) in edges {
        list.push(EdgeWalk { to: NodeID(to), cost: Cost(cost) });
    }
    walk_edges_from_list(&list)
}

fn pt_node(destination: u32, departures: &[(u32, u16)]) -> PtEdges {
    let mut list = vec![EdgePT { leavetime: LeavingTime(destination), cost: Cost(0) }];
    for &(leave, cost) in departures {
        list.push(EdgePT { leavetime: LeavingTime(leave), cost: Cost(cost) });
    }
    pt_edges_from_list(&list)
}

fn no_pt() -> PtEdges {
    pt_edges_from_list(&vec![])
}

fn empty_pt(n: usize) -> Vec<PtEdges> {
    (0..n).map(|_| no_pt()).collect()
}

#[test]
fn time_of_day_index_boundaries() {
    assert_eq!(get_time_of_day_index(-5), 0);
    assert_eq!(get_time_of_day_index(0), 0);
    assert_eq!(get_time_of_day_index(36000), 0);
    assert_eq!(get_time_of_day_index(36001), 1);
    assert_eq!(get_time_of_day_index(57600), 1);
    assert_eq!(get_time_of_day_index(57601), 2);
    assert_eq!(get_time_of_day_index(68400), 2);
    assert_eq!(get_time_of_day_index(68401), 3);
    assert_eq!(get_time_of_day_index(i32::MAX), 3);
}

#[test]
fn time_of_day_index_never_decreases() {
    let mut last = 0;
    for t in (-3600..90000).step_by(97) {
        let ix = get_time_of_day_index(t);
        assert!(ix >= last);
        last = ix;
    }
}

#[test]
fn bucket_queue_pops_least_cost_first() {
    let mut q = BucketQueue::new(3600);
    q.push(30, 7);
    q.push(5, 1);
    q.push(3599, 2);
    q.push(5, 9);
    let mut popped = vec![];
    while let Some(item) = q.pop() {
        popped.push(item);
    }
    let costs: Vec<u16> = popped.iter().map(|p| p.0).collect();
    assert_eq!(costs, vec![5, 5, 30, 3599]);
    let mut nodes_at_5: Vec<u32> = popped[..2].iter().map(|p| p.1).collect();
    nodes_at_5.sort();
    assert_eq!(nodes_at_5, vec![1, 9]);
    assert_eq!(q.pop(), None);
}

#[test]
fn walking_search_finds_shortest_times_in_order() {
    // 0 -10-> 1 -10-> 2, and 0 -25-> 2 directly; 3 only reachable after the hour
    let walk = vec![
        walk_node(false, &[(1, 10), (2, 25)]),
        walk_node(false, &[(2, 10), (0, 10)]),
        walk_node(false, &[(3, 3595)]),
        walk_node(false, &[]),
    ];
    let pt = empty_pt(4);
    assert!(graph_is_valid(&walk, &pt));
    let (start, ids, times) = get_travel_times(&walk, &pt, NodeID(0), 28800, Cost(5));
    assert_eq!(start, 0);
    assert_eq!(ids, vec![0, 1, 2]);
    assert_eq!(times, vec![5, 15, 25]);
}

#[test]
fn start_an_hour_away_has_no_destinations() {
    let walk = vec![walk_node(false, &[])];
    let pt = empty_pt(1);
    let (start, ids, times) = get_travel_times(&walk, &pt, NodeID(0), 0, Cost(3600));
    assert_eq!(start, 0);
    assert!(ids.is_empty());
    assert!(times.is_empty());
    let (_, ids, times) = get_travel_times(&walk, &pt, NodeID(0), 0, Cost(3599));
    assert_eq!(ids, vec![0]);
    assert_eq!(times, vec![3599]);
}

#[test]
fn public_transport_takes_first_catchable_service() {
    // node 0 is a stop whose services go to node 2; node 1 is walkable
    let walk = vec![
        walk_node(true, &[(1, 100)]),
        walk_node(false, &[]),
        walk_node(false, &[]),
    ];
    // trip starts at 1000 s; arrival at the stop after 20 s = 1020;
    // the 1010 service is missed, the 1050 one is taken, ride 30 s:
    // arrival after 20 + 30 + 30 = 80 s
    let pt = vec![pt_node(2, &[(1010, 5), (1050, 30), (1100, 1)]), no_pt(), no_pt()];
    assert!(graph_is_valid(&walk, &pt));
    let (_, ids, times) = get_travel_times(&walk, &pt, NodeID(0), 1000, Cost(20));
    assert_eq!(ids, vec![0, 2, 1]);
    assert_eq!(times, vec![20, 80, 120]);
}

#[test]
fn public_transport_with_no_service_left() {
    let walk = vec![walk_node(true, &[]), walk_node(false, &[])];
    let pt = vec![pt_node(1, &[(500, 5)]), no_pt()];
    let (_, ids, times) = get_travel_times(&walk, &pt, NodeID(0), 1000, Cost(0));
    assert_eq!(ids, vec![0]);
    assert_eq!(times, vec![0]);
}

#[test]
fn graph_validity_checks() {
    let pt = empty_pt(2);
    // an edge to a node that is not there
    let walk = vec![walk_node(false, &[(5, 1)]), walk_node(false, &[])];
    assert!(!graph_is_valid(&walk, &pt));
    // a node without its header
    let walk = vec![walk_node(false, &[]), walk_edges_from_list(&vec![])];
    assert!(!graph_is_valid(&walk, &pt));
    // a stop without a timetable
    let walk = vec![walk_node(true, &[]), walk_node(false, &[])];
    assert!(!graph_is_valid(&walk, &pt));
    // a stop whose services go nowhere
    let pt_bad = vec![pt_node(9, &[]), no_pt()];
    assert!(!graph_is_valid(&walk, &pt_bad));
    let pt_good = vec![pt_node(1, &[]), no_pt()];
    assert!(graph_is_valid(&walk, &pt_good));
}

#[test]
fn floodfill_scores_and_targets() {
    let walk = vec![walk_node(false, &[(1, 2)]), walk_node(false, &[])];
    let pt = empty_pt(2);
    // two nodes, 32 values each; no padding rows
    let mut node_values = vec![0i32; 64];
    node_values[0] = 3; // node 0, subpurpose 0
    node_values[32] = 4; // node 1, subpurpose 0
    node_values[33] = 1; // node 1, subpurpose 1
    let mut weights = vec![0i32; 2 * 3601];
    weights[5] = 10; // purpose 0, 5 s
    weights[7] = 100; // purpose 0, 7 s
    weights[3601 + 7] = 1000; // purpose 1, 7 s
    let mut lookup = [0i8; 32];
    lookup[1] = 1;
    let r = floodfill(&walk, &pt, NodeID(0), &node_values, &weights, &lookup, 0, Cost(5), 2, 0, &[1]).unwrap();
    assert_eq!(r.0, 2);
    assert_eq!(r.1, 0);
    assert_eq!(r.2[0], 3 * 10 + 4 * 100);
    assert_eq!(r.2[1], 1000);
    assert!(r.2[2..].iter().all(|&s| s == 0));
    assert_eq!(r.3, vec![1]);
    assert_eq!(r.4, vec![7]);
}

#[test]
fn floodfill_none_on_overflowing_scores() {
    let walk = vec![walk_node(false, &[(1, 1)]), walk_node(false, &[])];
    let pt = empty_pt(2);
    let mut node_values = vec![0i32; 64];
    node_values[0] = i32::MAX;
    node_values[32] = i32::MAX;
    let mut weights = vec![0i32; 3601];
    weights[0] = i32::MAX;
    weights[1] = i32::MAX;
    let lookup = [0i8; 32];
    // one product fits, but the two of them leave i64
    let prod = (i32::MAX as i64) * (i32::MAX as i64);
    assert!(prod.checked_add(prod).is_some());
    let r = floodfill(&walk, &pt, NodeID(0), &node_values, &weights, &lookup, 0, Cost(0), 2, 0, &[]);
    assert!(r.is_some());
    let mut node_values = vec![0i32; 96];
    for v in node_values.iter_mut().step_by(32) {
        *v = i32::MIN;
    }
    let walk = vec![walk_node(false, &[(1, 1), (2, 1)]), walk_node(false, &[]), walk_node(false, &[])];
    let pt = empty_pt(3);
    let mut weights = vec![0i32; 3601];
    weights[0] = i32::MIN;
    weights[1] = i32::MIN;
    // three products of 2^62 leave i64
    let r = floodfill(&walk, &pt, NodeID(0), &node_values, &weights, &lookup, 0, Cost(0), 3, 0, &[]);
    assert!(r.is_none());
}

#[test]
fn floodfill_none_on_target_out_of_range() {
    let walk = vec![walk_node(false, &[])];
    let pt = empty_pt(1);
    let node_values = vec![0i32; 32];
    let weights = vec![0i32; 3601];
    let lookup = [0i8; 32];
    assert!(floodfill(&walk, &pt, NodeID(0), &node_values, &weights, &lookup, 0, Cost(0), 1, 0, &[1]).is_none());
    assert!(floodfill(&walk, &pt, NodeID(0), &node_values, &weights, &lookup, 0, Cost(0), 1, 0, &[0]).is_some());
}

#[test]
fn start_an_hour_away_reads_no_graph() {
    // an empty graph and a start that is not in it
    let walk: Vec<WalkEdges> = vec![];
    let pt: Vec<PtEdges> = vec![];
    let (start, ids, times) = get_travel_times(&walk, &pt, NodeID(7), 0, Cost(4000));
    assert_eq!(start, 7);
    assert!(ids.is_empty() && times.is_empty());
}

#[test]
fn later_initial_time_moves_every_time_later() {
    // no stops: the trip's start time plays no part
    let walk = vec![
        walk_node(false, &[(1, 1000)]),
        walk_node(false, &[(2, 1500)]),
        walk_node(false, &[(3, 900)]),
        walk_node(false, &[]),
    ];
    let pt = empty_pt(4);
    let (_, ids1, times1) = get_travel_times(&walk, &pt, NodeID(0), 0, Cost(100));
    assert_eq!(ids1, vec![0, 1, 2, 3]);
    assert_eq!(times1, vec![100, 1100, 2600, 3500]);
    let (_, ids2, times2) = get_travel_times(&walk, &pt, NodeID(0), 50000, Cost(300));
    assert_eq!(ids2, vec![0, 1, 2]);
    assert_eq!(times2, vec![300, 1300, 2800]);
}

#[test]
fn times_are_least_walking_times() {
    // walks 0-1 (7) or 0-2-1 (3 + 2); 3 by 1 (5 + 4) or by 2 (3 + 10)
    let walk = vec![
        walk_node(false, &[(1, 7), (2, 3)]),
        walk_node(false, &[(3, 4)]),
        walk_node(false, &[(1, 2), (3, 10)]),
        walk_node(false, &[]),
    ];
    let pt = empty_pt(4);
    assert!(graph_is_valid(&walk, &pt));
    let (_, ids, times) = get_travel_times(&walk, &pt, NodeID(0), 28800, Cost(0));
    assert_eq!(ids, vec![0, 2, 1, 3]);
    assert_eq!(times, vec![0, 3, 5, 9]);
}
