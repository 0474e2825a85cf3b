use vstd::prelude::*;
use crate::edges::{PtEdges, WalkEdges};
use crate::shared::{Cost, EdgePT, EdgeWalk, LeavingTime, NodeID};

verus! {

/// A walking edge given as `[cost, to]`; both are cut to their widths.
pub open spec fn walk_edge_from_pair(a: [usize; 2]) -> EdgeWalk {
    EdgeWalk {
        to: NodeID(#[verifier::truncate] (a[1] as u32)),
        cost: Cost(#[verifier::truncate] (a[0] as u16)),
    }
}

/// A departure given as `[leaving time, ride time]`; both are cut to their
/// widths.
pub open spec fn pt_edge_from_pair(a: [usize; 2]) -> EdgePT {
    EdgePT {
        leavetime: LeavingTime(#[verifier::truncate] (a[0] as u32)),
        cost: Cost(#[verifier::truncate] (a[1] as u16)),
    }
}

/// The walking edges that a list of pairs describes.
pub open spec fn walk_edges_spec(pairs: Seq<[usize; 2]>) -> Seq<EdgeWalk> {
    pairs.map_values(|a: [usize; 2]| walk_edge_from_pair(a))
}

/// The departures that a list of pairs describes.
pub open spec fn pt_edges_spec(pairs: Seq<[usize; 2]>) -> Seq<EdgePT> {
    pairs.map_values(|a: [usize; 2]| pt_edge_from_pair(a))
}

/// The walking graph that lists of pairs describe, one list per node.
pub open spec fn walk_lists_spec(input: Seq<Vec<[usize; 2]>>) -> Seq<Seq<EdgeWalk>> {
    input.map_values(|v: Vec<[usize; 2]>| walk_edges_spec(v@))
}

/// The timetables that lists of pairs describe, one list per node.
pub open spec fn pt_lists_spec(input: Seq<Vec<[usize; 2]>>) -> Seq<Seq<EdgePT>> {
    input.map_values(|v: Vec<[usize; 2]>| pt_edges_spec(v@))
}

/// What a walking graph holds, node by node.
pub open spec fn walk_view(g: Seq<WalkEdges>) -> Seq<Seq<EdgeWalk>> {
    g.map_values(|e: WalkEdges| e@)
}

/// What a public-transport graph holds, node by node.
pub open spec fn pt_view(g: Seq<PtEdges>) -> Seq<Seq<EdgePT>> {
    g.map_values(|e: PtEdges| e@)
}

/// The walking edges of one node from its `[cost, to]` pairs.
pub fn walk_edges_from_pairs(pairs: &Vec<[usize; 2]>) -> (edges: WalkEdges)
    ensures
        edges@ == walk_edges_spec(pairs@),
{
    let mut edges = WalkEdges::new();
    let mut i: usize = 0;
    while i < pairs.len()
        invariant
            i <= pairs@.len(),
            edges@ == walk_edges_spec(pairs@.subrange(0, i as int)),
        decreases pairs@.len() - i,
    {
        let array = pairs[i];
        edges.push(EdgeWalk { to: NodeID(array[1] as u32), cost: Cost(array[0] as u16) });
        assert(pairs@.subrange(0, i + 1) == pairs@.subrange(0, i as int).push(array));
        i = i + 1;
    }
    assert(pairs@.subrange(0, pairs@.len() as int) == pairs@);
    edges
}

/// The departures of one stop from its `[leaving time, ride time]` pairs.
pub fn pt_edges_from_pairs(pairs: &Vec<[usize; 2]>) -> (edges: PtEdges)
    ensures
        edges@ == pt_edges_spec(pairs@),
{
    let mut edges = PtEdges::new();
    let mut i: usize = 0;
    while i < pairs.len()
        invariant
            i <= pairs@.len(),
            edges@ == pt_edges_spec(pairs@.subrange(0, i as int)),
        decreases pairs@.len() - i,
    {
        let array = pairs[i];
        edges.push(EdgePT { leavetime: LeavingTime(array[0] as u32), cost: Cost(array[1] as u16) });
        assert(pairs@.subrange(0, i + 1) == pairs@.subrange(0, i as int).push(array));
        i = i + 1;
    }
    assert(pairs@.subrange(0, pairs@.len() as int) == pairs@);
    edges
}

/// The walking graph from its lists of `[cost, to]` pairs, one list per node.
pub fn graph_walk_from_pairs(input: &Vec<Vec<[usize; 2]>>) -> (graph_walk: Vec<WalkEdges>)
    ensures
        walk_view(graph_walk@) == walk_lists_spec(input@),
{
    let mut graph_walk_vec: Vec<WalkEdges> = Vec::new();
    let mut n: usize = 0;
    while n < input.len()
        invariant
            n <= input@.len(),
            walk_view(graph_walk_vec@) == walk_lists_spec(input@.subrange(0, n as int)),
        decreases input@.len() - n,
    {
        let edges = walk_edges_from_pairs(&input[n]);
        let ghost before = graph_walk_vec@;
        graph_walk_vec.push(edges);
        assert(input@.subrange(0, n + 1) == input@.subrange(0, n as int).push(input@[n as int]));
        assert(walk_view(graph_walk_vec@) =~= walk_view(before).push(edges@));
        assert(walk_lists_spec(input@.subrange(0, n + 1)) =~= walk_lists_spec(input@.subrange(0, n as int)).push(
            walk_edges_spec(input@[n as int]@),
        ));
        n = n + 1;
    }
    assert(input@.subrange(0, input@.len() as int) == input@);
    graph_walk_vec
}

/// The timetables from their lists of `[leaving time, ride time]` pairs, one
/// list per node, padded with empty timetables up to `len_graph_walk`
/// nodes; there may not be more lists than that.
pub fn graph_pt_from_pairs(input: &Vec<Vec<[usize; 2]>>, len_graph_walk: usize) -> (graph_pt: Vec<PtEdges>)
    requires
        input@.len() <= len_graph_walk,
    ensures
        pt_view(graph_pt@) == pt_lists_spec(input@) + Seq::new(
            (len_graph_walk - input@.len()) as nat,
            |i: int| Seq::<EdgePT>::empty(),
        ),
        graph_pt@.len() == len_graph_walk,
{
    let mut graph_pt_vec: Vec<PtEdges> = Vec::new();
    let mut n: usize = 0;
    while n < input.len()
        invariant
            n <= input@.len(),
            pt_view(graph_pt_vec@) == pt_lists_spec(input@.subrange(0, n as int)),
        decreases input@.len() - n,
    {
        let edges = pt_edges_from_pairs(&input[n]);
        let ghost before = graph_pt_vec@;
        graph_pt_vec.push(edges);
        assert(input@.subrange(0, n + 1) == input@.subrange(0, n as int).push(input@[n as int]));
        assert(pt_view(graph_pt_vec@) =~= pt_view(before).push(edges@));
        assert(pt_lists_spec(input@.subrange(0, n + 1)) =~= pt_lists_spec(input@.subrange(0, n as int)).push(
            pt_edges_spec(input@[n as int]@),
        ));
        n = n + 1;
    }
    assert(input@.subrange(0, input@.len() as int) == input@);
    let ghost listed = pt_view(graph_pt_vec@);
    while graph_pt_vec.len() < len_graph_walk
        invariant
            input@.len() <= graph_pt_vec@.len() <= len_graph_walk,
            listed == pt_lists_spec(input@),
            pt_view(graph_pt_vec@) == listed + Seq::new(
                (graph_pt_vec@.len() - input@.len()) as nat,
                |i: int| Seq::<EdgePT>::empty(),
            ),
        decreases len_graph_walk - graph_pt_vec@.len(),
    {
        let ghost before = graph_pt_vec@;
        let edges = PtEdges::new();
        graph_pt_vec.push(edges);
        assert(pt_view(graph_pt_vec@) =~= pt_view(before).push(edges@));
        assert(pt_view(graph_pt_vec@) =~= listed + Seq::new(
            (graph_pt_vec@.len() - input@.len()) as nat,
            |i: int| Seq::<EdgePT>::empty(),
        ));
    }
    graph_pt_vec
}

/// A node's walking list holding the given entries.
pub fn walk_edges_from_list(list: &Vec<EdgeWalk>) -> (edges: WalkEdges)
    ensures
        edges@ == list@,
{
    let mut edges = WalkEdges::new();
    let mut i: usize = 0;
    while i < list.len()
        invariant
            i <= list@.len(),
            edges@ == list@.subrange(0, i as int),
        decreases list@.len() - i,
    {
        edges.push(list[i]);
        assert(list@.subrange(0, i + 1) == list@.subrange(0, i as int).push(list@[i as int]));
        i = i + 1;
    }
    assert(list@.subrange(0, list@.len() as int) == list@);
    edges
}

/// A stop's timetable holding the given entries.
pub fn pt_edges_from_list(list: &Vec<EdgePT>) -> (edges: PtEdges)
    ensures
        edges@ == list@,
{
    let mut edges = PtEdges::new();
    let mut i: usize = 0;
    while i < list.len()
        invariant
            i <= list@.len(),
            edges@ == list@.subrange(0, i as int),
        decreases list@.len() - i,
    {
        edges.push(list[i]);
        assert(list@.subrange(0, i + 1) == list@.subrange(0, i as int).push(list@[i as int]));
        i = i + 1;
    }
    assert(list@.subrange(0, list@.len() as int) == list@);
    edges
}

/// The entries of a node's walking list, first to last.
pub fn walk_edges_to_list(edges: &WalkEdges) -> (list: Vec<EdgeWalk>)
    ensures
        list@ == edges@,
{
    let mut list: Vec<EdgeWalk> = Vec::new();
    let n = edges.len();
    let mut i: usize = 0;
    while i < n
        invariant
            i <= n,
            n == edges@.len(),
            list@ == edges@.subrange(0, i as int),
        decreases n - i,
    {
        list.push(edges.get(i));
        assert(edges@.subrange(0, i + 1) == edges@.subrange(0, i as int).push(edges@[i as int]));
        i = i + 1;
    }
    assert(edges@.subrange(0, n as int) == edges@);
    list
}

/// The entries of a stop's timetable, first to last.
pub fn pt_edges_to_list(edges: &PtEdges) -> (list: Vec<EdgePT>)
    ensures
        list@ == edges@,
{
    let mut list: Vec<EdgePT> = Vec::new();
    let n = edges.len();
    let mut i: usize = 0;
    while i < n
        invariant
            i <= n,
            n == edges@.len(),
            list@ == edges@.subrange(0, i as int),
        decreases n - i,
    {
        list.push(edges.get(i));
        assert(edges@.subrange(0, i + 1) == edges@.subrange(0, i as int).push(edges@[i as int]));
        i = i + 1;
    }
    assert(edges@.subrange(0, n as int) == edges@);
    list
}

} // verus!
