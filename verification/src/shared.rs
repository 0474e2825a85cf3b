use vstd::prelude::*;

verus! {

/// Index of a node in the walking graph.
#[derive(PartialEq, Eq, Structural, PartialOrd, Ord, Hash, Clone, Copy, Debug)]
pub struct NodeID(pub u32);

/// A travel time in seconds.
#[derive(PartialEq, Eq, Structural, PartialOrd, Ord, Clone, Copy, Debug)]
pub struct Cost(pub u16);

/// A departure time in seconds past midnight.
#[derive(PartialEq, Eq, Structural, PartialOrd, Ord, Clone, Copy, Debug)]
pub struct LeavingTime(pub u32);

/// A walking edge: the node it leads to and how long the walk takes.
#[derive(Clone, Copy)]
pub struct EdgeWalk {
    pub to: NodeID,
    pub cost: Cost,
}

/// A timetabled departure: when it leaves and how long the ride takes.
#[derive(Clone, Copy)]
pub struct EdgePT {
    pub leavetime: LeavingTime,
    pub cost: Cost,
}

/// One request: the starts with their initial travel times, the trip's
/// start time, the nodes, edges and values to add for this request only,
/// the year of the network, and the target destinations.
pub struct UserInputJSON {
    pub start_nodes_user_input: Vec<i32>,
    pub init_travel_times_user_input: Vec<i32>,
    pub trip_start_seconds: i32,
    pub graph_walk_additions: Vec<Vec<[usize; 2]>>,
    pub graph_pt_additions: Vec<Vec<[usize; 2]>>,
    pub new_nodes_count: usize,
    pub graph_walk_updates_keys: Vec<usize>,
    pub graph_walk_updates_additions: Vec<Vec<[usize; 2]>>,
    pub year: i32,
    pub new_build_additions: Vec<Vec<i32>>,
    pub target_destinations: Vec<u32>,
    pub max_travel_time: u16,
    pub return_all_destinations: bool,
}

} // verus!
