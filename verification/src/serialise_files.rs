use vstd::prelude::*;
use crate::edges::{PtEdges, WalkEdges};
use crate::graph_input::{
    graph_pt_from_pairs, graph_walk_from_pairs, pt_edges_spec, pt_lists_spec, pt_view, walk_edges_spec, walk_lists_spec,
    walk_view,
};
use crate::json::{
    json_i32_list, json_i32_pair_lists, json_i8_array, json_u32, json_usize_pair_lists, parse_i32_list,
    parse_i32_pair_lists, parse_i8_array, parse_u32, parse_usize_pair_lists,
};
use crate::shared::EdgePT;

verus! {

/// Why input data could not be turned into the network's form.
#[derive(Debug)]
pub enum SerialiseError {
    /// The text is not JSON of the expected shape.
    Json(serde_json::Error),
    /// There are more timetables than nodes of the walking graph.
    TooManyTimetables,
}

/// The walking graph from the JSON text of its lists of `[cost, to]` pairs,
/// one list per node.
pub fn graph_walk_from_json(contents: &str) -> (r: Result<Vec<WalkEdges>, SerialiseError>)
    ensures
        match json_usize_pair_lists(contents@) {
            Some(p) => r matches Ok(g) && walk_view(g@) == p.map_values(|x: Seq<[usize; 2]>| walk_edges_spec(x)),
            None => r is Err,
        },
{
    match parse_usize_pair_lists(contents) {
        Ok(input) => {
            let graph_walk_vec = graph_walk_from_pairs(&input);
            assert(walk_lists_spec(input@) =~= input@.map_values(|x: Vec<[usize; 2]>| x@).map_values(
                |x: Seq<[usize; 2]>| walk_edges_spec(x),
            ));
            Ok(graph_walk_vec)
        },
        Err(e) => Err(SerialiseError::Json(e)),
    }
}

/// The timetables from the JSON text of their lists of
/// `[leaving time, ride time]` pairs, one list per node, padded with empty
/// timetables up to `len_graph_walk` nodes; more lists than that are an
/// error.
pub fn graph_pt_from_json(contents: &str, len_graph_walk: usize) -> (r: Result<Vec<PtEdges>, SerialiseError>)
    ensures
        match json_usize_pair_lists(contents@) {
            Some(p) => if p.len() <= len_graph_walk {
                r matches Ok(g) && pt_view(g@) == p.map_values(|x: Seq<[usize; 2]>| pt_edges_spec(x)) + Seq::new(
                    (len_graph_walk - p.len()) as nat,
                    |i: int| Seq::<EdgePT>::empty(),
                )
            } else {
                r matches Err(SerialiseError::TooManyTimetables)
            },
            None => r matches Err(SerialiseError::Json(_)),
        },
{
    match parse_usize_pair_lists(contents) {
        Ok(input) => {
            if input.len() > len_graph_walk {
                return Err(SerialiseError::TooManyTimetables);
            }
            let graph_pt_vec = graph_pt_from_pairs(&input, len_graph_walk);
            assert(pt_lists_spec(input@) =~= input@.map_values(|x: Vec<[usize; 2]>| x@).map_values(
                |x: Seq<[usize; 2]>| pt_edges_spec(x),
            ));
            Ok(graph_pt_vec)
        },
        Err(e) => Err(SerialiseError::Json(e)),
    }
}

/// A list of `i32` (node values, or a table of travel-time weights) from its
/// JSON text.
pub fn i32_list_from_json(contents: &str) -> (r: Result<Vec<i32>, SerialiseError>)
    ensures
        match json_i32_list(contents@) {
            Some(v) => r matches Ok(l) && l@ == v,
            None => r is Err,
        },
{
    match parse_i32_list(contents) {
        Ok(output) => Ok(output),
        Err(e) => Err(SerialiseError::Json(e)),
    }
}

/// The number of padding rows of the node values from its JSON text.
pub fn padding_row_count_from_json(contents: &str) -> (r: Result<u32, SerialiseError>)
    ensures
        match json_u32(contents@) {
            Some(v) => r matches Ok(c) && c == v,
            None => r is Err,
        },
{
    match parse_u32(contents) {
        Ok(input_value) => Ok(input_value),
        Err(e) => Err(SerialiseError::Json(e)),
    }
}

/// The purpose of each of the 32 subpurposes from its JSON text.
pub fn subpurpose_purpose_lookup_from_json(contents: &str) -> (r: Result<[i8; 32], SerialiseError>)
    ensures
        match json_i8_array(contents@) {
            Some(v) => r matches Ok(a) && a@ == v,
            None => r is Err,
        },
{
    match parse_i8_array(contents) {
        Ok(output) => Ok(output),
        Err(e) => Err(SerialiseError::Json(e)),
    }
}

/// The sparse node values, lists of `i32` pairs, from their JSON text.
pub fn sparse_node_values_from_json(contents: &str) -> (r: Result<Vec<Vec<[i32; 2]>>, SerialiseError>)
    ensures
        match json_i32_pair_lists(contents@) {
            Some(v) => r matches Ok(l) && l@.map_values(|x: Vec<[i32; 2]>| x@) == v,
            None => r is Err,
        },
{
    match parse_i32_pair_lists(contents) {
        Ok(output) => Ok(output),
        Err(e) => Err(SerialiseError::Json(e)),
    }
}

} // verus!
