# rust_connectivity

A verified library for public-transport and walking connectivity scores.

From each start node a label-setting search (Dijkstra's algorithm over a
bucket queue) finds every node reachable within the hour by walking and by
catching the first timetabled service at a stop; the destinations are then
scored against per-purpose travel-time weights.

- `src/` is the library, verified with Verus:
  - `shared.rs`: the network's value types and the request type;
  - `edges.rs`: the per-node edge lists, held in `smallvec::SmallVec`;
  - `bucket_queue.rs`: the min-priority queue of the search;
  - `floodfill.rs`: the search, its contract and proof, and the search
    followed by scoring;
  - `scores.rs`: the scoring of one search;
  - `get_time_of_day_index.rs`: the choice of weight table;
  - `graph_input.rs`: building the graphs from lists of pairs;
  - `request.rs`: a request's temporary changes to the network and their
    undoing;
  - `json.rs`, `serialise_files.rs`: reading the JSON input data and writing
    JSON answers.
- `tests/` runs the library on concrete inputs.
- `app/` is the HTTP service and the file handling around the library.
