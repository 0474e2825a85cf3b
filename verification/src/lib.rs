//! Public-transport and walking connectivity scores over a street graph.
pub mod shared;
pub mod edges;
pub mod bucket_queue;
pub mod floodfill;
pub mod scores;
pub mod get_time_of_day_index;
pub mod graph_input;
pub mod request;
pub mod json;
pub mod serialise_files;
