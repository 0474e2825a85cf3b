use rust_connectivity::graph_input::{pt_edges_to_list, walk_edges_to_list};
use rust_connectivity::json::{node_count_to_json, scorings_to_json};
use rust_connectivity::serialise_files::{
    graph_pt_from_json, graph_walk_from_json, i32_list_from_json, padding_row_count_from_json,
    sparse_node_values_from_json, subpurpose_purpose_lookup_from_json, SerialiseError,
};

#[test]
fn walk_graph_from_json() {
    let g = graph_walk_from_json("[[[0,0],[12,3]],[[1,0]]]").unwrap();
    assert_eq!(g.len(), 2);
    let first = walk_edges_to_list(&g[0]);
    assert_eq!(first.len(), 2);
    assert_eq!((first[1].to.0, first[1].cost.0), (3, 12));
    assert_eq!(walk_edges_to_list(&g[1])[0].cost.0, 1);
    assert!(matches!(graph_walk_from_json("[[[0,0,0]]]"), Err(SerialiseError::Json(_))));
    assert!(graph_walk_from_json("not json").is_err());
}

#[test]
fn timetables_from_json() {
    let g = graph_pt_from_json("[[[7,0],[28800,60]]]", 3).unwrap();
    assert_eq!(g.len(), 3);
    let first = pt_edges_to_list(&g[0]);
    assert_eq!((first[1].leavetime.0, first[1].cost.0), (28800, 60));
    assert!(pt_edges_to_list(&g[2]).is_empty());
    assert!(matches!(graph_pt_from_json("[[],[]]", 1), Err(SerialiseError::TooManyTimetables)));
    assert!(matches!(graph_pt_from_json("{", 1), Err(SerialiseError::Json(_))));
}

#[test]
fn lists_from_json() {
    assert_eq!(i32_list_from_json("[1,-2,3]").unwrap(), vec![1, -2, 3]);
    assert!(i32_list_from_json("[1.5]").is_err());
    assert_eq!(padding_row_count_from_json("640").unwrap(), 640);
    assert!(padding_row_count_from_json("-1").is_err());
    let lookup_text = format!("[{}]", (0..32).map(|i| (i % 4).to_string()).collect::<Vec<_>>().join(","));
    let lookup = subpurpose_purpose_lookup_from_json(&lookup_text).unwrap();
    assert_eq!(lookup[5], 1);
    assert!(subpurpose_purpose_lookup_from_json("[1,2]").is_err());
    assert_eq!(sparse_node_values_from_json("[[[1,2]],[]]").unwrap(), vec![vec![[1, 2]], vec![]]);
}

#[test]
fn scorings_as_json() {
    let mut scores = [0i64; 32];
    scores[0] = -4;
    scores[31] = 9;
    let results = vec![(2i32, 5u32, scores, vec![1u32], vec![3u16])];
    let text = scorings_to_json(&results);
    let zeros = vec!["0"; 30].join(",");
    assert_eq!(text, format!("[[2,5,[-4,{},9],[1],[3]]]", zeros));
    assert_eq!(scorings_to_json(&vec![]), "[]");
}

#[test]
fn node_count_as_json() {
    assert_eq!(node_count_to_json(0), "0");
    assert_eq!(node_count_to_json(1234567), "1234567");
}
