use vstd::prelude::*;
use crate::edges::{PtEdges, WalkEdges};
use crate::graph_input::{
    pt_edges_from_pairs, pt_edges_spec, pt_lists_spec, pt_view, walk_edge_from_pair, walk_edges_from_pairs, walk_edges_spec, walk_lists_spec, walk_view,
};
use crate::shared::{Cost, EdgePT, EdgeWalk, LeavingTime, NodeID, UserInputJSON};

verus! {

/// Why a request's changes to the network could not be made or undone.
#[derive(PartialEq, Eq, Structural, Clone, Copy, Debug)]
pub enum EditError {
    /// The walking graph and the timetables do not have one entry per node
    /// each.
    GraphLengthsDiffer,
    /// The lists of added nodes do not both hold `new_nodes_count` nodes.
    NewNodesCountMismatch,
    /// A node whose walking edges are updated is not in the graph, or has
    /// no list of added edges.
    UpdateOutOfRange,
    /// The node values are not 32 per node of the walking graph.
    NodeValuesLengthMismatch,
    /// A new building names no value of the table, or its value leaves
    /// `i32`.
    InvalidNewBuild,
}

/// The index of the value that a new building `[value, node, column]`
/// changes.
pub open spec fn build_index(b: Seq<i32>) -> int {
    b[1] * 32 + b[2]
}

/// The value at a new building's index once the building is added (or, where
/// `subtract`, taken away again).
pub open spec fn build_value(values: Seq<i32>, b: Seq<i32>, subtract: bool) -> int {
    if subtract {
        values[build_index(b)] - b[0]
    } else {
        values[build_index(b)] + b[0]
    }
}

/// A new building can be added (or taken away): it has its three numbers,
/// its index is computed within `i32` and names a value, and the new value
/// fits in `i32`.
pub open spec fn build_applies(values: Seq<i32>, b: Seq<i32>, subtract: bool) -> bool {
    &&& b.len() >= 3
    &&& i32::MIN <= b[1] * 32 <= i32::MAX
    &&& i32::MIN <= build_index(b) <= i32::MAX
    &&& 0 <= build_index(b) < values.len()
    &&& i32::MIN <= build_value(values, b, subtract) <= i32::MAX
}

/// The node values after the first `k` new buildings are added (or taken
/// away), one after the other; `None` where one of them cannot be.
pub open spec fn builds_result(values: Seq<i32>, builds: Seq<Vec<i32>>, k: int, subtract: bool) -> Option<Seq<i32>>
    decreases k,
{
    if k <= 0 {
        Some(values)
    } else {
        match builds_result(values, builds, k - 1, subtract) {
            Some(prev) => if build_applies(prev, builds[k - 1]@, subtract) {
                Some(
                    prev.update(
                        build_index(builds[k - 1]@),
                        build_value(prev, builds[k - 1]@, subtract) as i32,
                    ),
                )
            } else {
                None
            },
            None => None,
        }
    }
}

/// Applies the new buildings `[value, node, column]` of a request to the
/// node values, adding `value` to the value of column `column` of node
/// `node`, one building after the other. Returns `false` where a building
/// cannot be applied (see `build_applies`); the values are then left as far
/// as the buildings before it took them.
pub fn add_new_node_values(node_values_1d: &mut Vec<i32>, input: &UserInputJSON) -> (ok: bool)
    ensures
        ok == builds_result(
            old(node_values_1d)@,
            input.new_build_additions@,
            input.new_build_additions@.len() as int,
            false,
        ) is Some,
        ok ==> Some(final(node_values_1d)@) == builds_result(
            old(node_values_1d)@,
            input.new_build_additions@,
            input.new_build_additions@.len() as int,
            false,
        ),
{
    apply_new_builds(node_values_1d, &input.new_build_additions, false)
}

/// Takes the new buildings of a request away from the node values again, one
/// building after the other; `false` where one cannot be.
pub fn remove_new_node_values(node_values_1d: &mut Vec<i32>, input: &UserInputJSON) -> (ok: bool)
    ensures
        ok == builds_result(
            old(node_values_1d)@,
            input.new_build_additions@,
            input.new_build_additions@.len() as int,
            true,
        ) is Some,
        ok ==> Some(final(node_values_1d)@) == builds_result(
            old(node_values_1d)@,
            input.new_build_additions@,
            input.new_build_additions@.len() as int,
            true,
        ),
{
    apply_new_builds(node_values_1d, &input.new_build_additions, true)
}

/// Adds (or takes away) each building's value in turn.
fn apply_new_builds(node_values_1d: &mut Vec<i32>, builds: &Vec<Vec<i32>>, subtract: bool) -> (ok: bool)
    ensures
        ok == builds_result(old(node_values_1d)@, builds@, builds@.len() as int, subtract) is Some,
        ok ==> Some(final(node_values_1d)@) == builds_result(
            old(node_values_1d)@,
            builds@,
            builds@.len() as int,
            subtract,
        ),
{
    let ghost start = node_values_1d@;
    let mut k: usize = 0;
    while k < builds.len()
        invariant
            k <= builds@.len(),
            start == old(node_values_1d)@,
            builds_result(start, builds@, k as int, subtract) == Some(node_values_1d@),
        decreases builds@.len() - k,
    {
        let new_build = &builds[k];
        let ghost b = new_build@;
        let ghost prev = node_values_1d@;
        if new_build.len() < 3 {
            proof {
                lemma_builds_result_stays_none(start, builds@, k as int + 1, builds@.len() as int, subtract);
            }
            return false;
        }
        let value_to_add = new_build[0];
        let index_of_nearest_node = new_build[1];
        let column_to_change = new_build[2];
        let scaled = index_of_nearest_node.checked_mul(32);
        let ix = match scaled {
            Some(s) => s.checked_add(column_to_change),
            None => None,
        };
        let ok_ix: usize = match ix {
            Some(i) => if i >= 0 && (i as usize) < node_values_1d.len() {
                i as usize
            } else {
                proof {
                    lemma_builds_result_stays_none(start, builds@, k as int + 1, builds@.len() as int, subtract);
                }
                return false;
            },
            None => {
                proof {
                    lemma_builds_result_stays_none(start, builds@, k as int + 1, builds@.len() as int, subtract);
                }
                return false;
            },
        };
        let current = node_values_1d[ok_ix];
        let updated = if subtract {
            current.checked_sub(value_to_add)
        } else {
            current.checked_add(value_to_add)
        };
        match updated {
            Some(v) => {
                node_values_1d.set(ok_ix, v);
                assert(build_applies(prev, b, subtract));
            },
            None => {
                proof {
                    lemma_builds_result_stays_none(start, builds@, k as int + 1, builds@.len() as int, subtract);
                }
                return false;
            },
        }
        k = k + 1;
    }
    true
}

/// Once a building cannot be applied, none of the longer runs succeeds.
proof fn lemma_builds_result_stays_none(values: Seq<i32>, builds: Seq<Vec<i32>>, k: int, n: int, subtract: bool)
    requires
        1 <= k <= n,
        builds_result(values, builds, k, subtract) is None,
    ensures
        builds_result(values, builds, n, subtract) is None,
    decreases n - k,
{
    if k < n {
        lemma_builds_result_stays_none(values, builds, k + 1, n, subtract);
    }
}

/// What a request changed, kept so that the change can be undone: the
/// lengths before, and the walking edges of each updated node before its
/// update.
pub struct RequestEdits {
    pub graph_walk_len: usize,
    pub graph_pt_len: usize,
    pub node_values_len: usize,
    pub graph_walk_store_for_reset: Vec<WalkEdges>,
}

/// The walking graph after the first `k` updates: update `i` appends the
/// edges of `adds[i]` to node `keys[i]`.
pub open spec fn walk_after_updates(
    g: Seq<Seq<EdgeWalk>>,
    keys: Seq<usize>,
    adds: Seq<Vec<[usize; 2]>>,
    k: int,
) -> Seq<Seq<EdgeWalk>>
    decreases k,
{
    if k <= 0 {
        g
    } else {
        let prev = walk_after_updates(g, keys, adds, k - 1);
        prev.update(keys[k - 1] as int, prev[keys[k - 1] as int] + walk_edges_spec(adds[k - 1]@))
    }
}

/// The walking graph after the first `k` resets, made first to last: reset
/// `i` gives node `keys[i]` the edges `store[i]`, so a node updated more than
/// once ends with the edges it had just before its last update.
pub open spec fn walk_after_resets(
    g: Seq<Seq<EdgeWalk>>,
    keys: Seq<usize>,
    store: Seq<Seq<EdgeWalk>>,
    k: int,
) -> Seq<Seq<EdgeWalk>>
    decreases k,
{
    if k <= 0 {
        g
    } else {
        walk_after_resets(g, keys, store, k - 1).update(keys[k - 1] as int, store[k - 1])
    }
}

/// Every updated node is below `len` and has its list of added edges.
pub open spec fn updates_in_range(keys: Seq<usize>, adds: Seq<Vec<[usize; 2]>>, len: int) -> bool {
    &&& keys.len() <= adds.len()
    &&& forall|i: int| 0 <= i < keys.len() ==> (#[trigger] keys[i] as int) < len
}

/// The first check of a request's changes that fails, in the order in which
/// they are made, for a network with these lengths.
pub open spec fn edits_check(walk_len: int, pt_len: int, values_len: int, input: UserInputJSON) -> Option<EditError> {
    if walk_len != pt_len {
        Some(EditError::GraphLengthsDiffer)
    } else if input.graph_walk_additions@.len() != input.new_nodes_count
        || input.graph_pt_additions@.len() != input.new_nodes_count {
        Some(EditError::NewNodesCountMismatch)
    } else if !updates_in_range(
        input.graph_walk_updates_keys@,
        input.graph_walk_updates_additions@,
        walk_len + input.new_nodes_count,
    ) {
        Some(EditError::UpdateOutOfRange)
    } else if values_len != walk_len * 32 {
        Some(EditError::NodeValuesLengthMismatch)
    } else {
        None
    }
}

/// The node values with 32 zeros for each of `nodes` new nodes.
pub open spec fn padded_values(values: Seq<i32>, nodes: nat) -> Seq<i32> {
    values + Seq::new(nodes * 32, |i: int| 0i32)
}

/// The walking graph once a request's nodes are added and its updates made.
pub open spec fn graph_walk_applied(walk: Seq<Seq<EdgeWalk>>, input: UserInputJSON) -> Seq<Seq<EdgeWalk>> {
    walk_after_updates(
        walk + walk_lists_spec(input.graph_walk_additions@),
        input.graph_walk_updates_keys@,
        input.graph_walk_updates_additions@,
        input.graph_walk_updates_keys@.len() as int,
    )
}

/// The edges of each updated node just before its update.
pub open spec fn reset_store(walk: Seq<Seq<EdgeWalk>>, input: UserInputJSON) -> Seq<Seq<EdgeWalk>> {
    Seq::new(
        input.graph_walk_updates_keys@.len(),
        |i: int|
            walk_after_updates(
                walk + walk_lists_spec(input.graph_walk_additions@),
                input.graph_walk_updates_keys@,
                input.graph_walk_updates_additions@,
                i,
            )[input.graph_walk_updates_keys@[i] as int],
    )
}

/// A network (walking graph, timetables, node values) once a request's
/// changes are made, with the edges kept to undo the updates; or the error.
pub open spec fn edits_applied(
    walk: Seq<Seq<EdgeWalk>>,
    pt: Seq<Seq<EdgePT>>,
    values: Seq<i32>,
    input: UserInputJSON,
) -> Result<(Seq<Seq<EdgeWalk>>, Seq<Seq<EdgePT>>, Seq<i32>, Seq<Seq<EdgeWalk>>), EditError> {
    match edits_check(walk.len() as int, pt.len() as int, values.len() as int, input) {
        Some(e) => Err(e),
        None => match builds_result(
            padded_values(values, input.graph_walk_additions@.len()),
            input.new_build_additions@,
            input.new_build_additions@.len() as int,
            false,
        ) {
            None => Err(EditError::InvalidNewBuild),
            Some(new_values) => Ok(
                (
                    graph_walk_applied(walk, input),
                    pt + pt_lists_spec(input.graph_pt_additions@),
                    new_values,
                    reset_store(walk, input),
                ),
            ),
        },
    }
}

/// Makes a request's changes to the network: adds its nodes to the walking
/// graph and the timetables, appends its edges to the updated nodes, adds 32
/// zero values per new node and then the values of its new buildings.
/// Returns what is needed to undo this. The first failing check of
/// `edits_check` leaves the network as it was; a new building that cannot
/// be applied leaves it partly changed.
#[verifier::loop_isolation(false)]
pub fn apply_request_edits(
    graph_walk: &mut Vec<WalkEdges>,
    graph_pt: &mut Vec<PtEdges>,
    node_values_1d: &mut Vec<i32>,
    input: &UserInputJSON,
) -> (r: Result<RequestEdits, EditError>)
    ensures
        match edits_applied(walk_view(old(graph_walk)@), pt_view(old(graph_pt)@), old(node_values_1d)@, *input) {
            Err(e) => {
                &&& r matches Err(e2) && e2 == e
                &&& e != EditError::InvalidNewBuild ==> {
                    &&& final(graph_walk)@ == old(graph_walk)@
                    &&& final(graph_pt)@ == old(graph_pt)@
                    &&& final(node_values_1d)@ == old(node_values_1d)@
                }
            },
            Ok(s) => r matches Ok(edits) && {
                &&& walk_view(final(graph_walk)@) == s.0
                &&& pt_view(final(graph_pt)@) == s.1
                &&& final(node_values_1d)@ == s.2
                &&& walk_view(edits.graph_walk_store_for_reset@) == s.3
                &&& edits.graph_walk_len == old(graph_walk)@.len()
                &&& edits.graph_pt_len == old(graph_pt)@.len()
                &&& edits.node_values_len == old(node_values_1d)@.len()
            },
        },
{
    let ghost w0 = walk_view(graph_walk@);
    let ghost p0 = pt_view(graph_pt@);
    let ghost v0 = node_values_1d@;
    let len_graph_walk = graph_walk.len();
    let len_graph_pt = graph_pt.len();
    let original_node_values_1d_len = node_values_1d.len();
    // the checks, in the order in which the changes are made
    if len_graph_pt != len_graph_walk {
        return Err(EditError::GraphLengthsDiffer);
    }
    if input.graph_walk_additions.len() != input.new_nodes_count
        || input.graph_pt_additions.len() != input.new_nodes_count {
        return Err(EditError::NewNodesCountMismatch);
    }
    let keys = &input.graph_walk_updates_keys;
    let updates = &input.graph_walk_updates_additions;
    if keys.len() > updates.len() {
        assert(!updates_in_range(keys@, updates@, len_graph_walk + input.new_nodes_count));
        assert(edits_check(w0.len() as int, p0.len() as int, v0.len() as int, *input) == Some(EditError::UpdateOutOfRange));
        return Err(EditError::UpdateOutOfRange);
    }
    let mut i: usize = 0;
    while i < keys.len()
        invariant
            i <= keys@.len(),
            keys == &input.graph_walk_updates_keys,
            len_graph_walk == graph_walk@.len(),
            input.graph_walk_additions@.len() == input.new_nodes_count,
            forall|j: int| 0 <= j < i ==> (#[trigger] keys@[j] as int) < len_graph_walk + input.new_nodes_count,
        decreases keys@.len() - i,
    {
        if keys[i] as u128 >= len_graph_walk as u128 + input.new_nodes_count as u128 {
            assert(!updates_in_range(keys@, updates@, len_graph_walk + input.new_nodes_count));
            return Err(EditError::UpdateOutOfRange);
        }
        i = i + 1;
    }
    if original_node_values_1d_len as u128 != len_graph_walk as u128 * 32 {
        return Err(EditError::NodeValuesLengthMismatch);
    }
    assert(edits_check(w0.len() as int, p0.len() as int, v0.len() as int, *input) is None);
    // the new nodes
    let mut n: usize = 0;
    while n < input.graph_walk_additions.len()
        invariant
            n <= input.graph_walk_additions@.len(),
            walk_view(graph_walk@) == w0 + walk_lists_spec(input.graph_walk_additions@.subrange(0, n as int)),
        decreases input.graph_walk_additions@.len() - n,
    {
        let edges = walk_edges_from_pairs(&input.graph_walk_additions[n]);
        let ghost before = graph_walk@;
        graph_walk.push(edges);
        let ghost adds = input.graph_walk_additions@;
        assert(adds.subrange(0, n + 1) == adds.subrange(0, n as int).push(adds[n as int]));
        assert(walk_view(graph_walk@) =~= walk_view(before).push(edges@));
        assert(walk_lists_spec(adds.subrange(0, n + 1)) =~= walk_lists_spec(adds.subrange(0, n as int)).push(
            walk_edges_spec(adds[n as int]@),
        ));
        n = n + 1;
    }
    assert(input.graph_walk_additions@.subrange(0, input.graph_walk_additions@.len() as int) == input.graph_walk_additions@);
    let mut n: usize = 0;
    while n < input.graph_pt_additions.len()
        invariant
            n <= input.graph_pt_additions@.len(),
            pt_view(graph_pt@) == p0 + pt_lists_spec(input.graph_pt_additions@.subrange(0, n as int)),
        decreases input.graph_pt_additions@.len() - n,
    {
        let edges = pt_edges_from_pairs(&input.graph_pt_additions[n]);
        let ghost before = graph_pt@;
        graph_pt.push(edges);
        let ghost adds = input.graph_pt_additions@;
        assert(adds.subrange(0, n + 1) == adds.subrange(0, n as int).push(adds[n as int]));
        assert(pt_view(graph_pt@) =~= pt_view(before).push(edges@));
        assert(pt_lists_spec(adds.subrange(0, n + 1)) =~= pt_lists_spec(adds.subrange(0, n as int)).push(
            pt_edges_spec(adds[n as int]@),
        ));
        n = n + 1;
    }
    assert(input.graph_pt_additions@.subrange(0, input.graph_pt_additions@.len() as int) == input.graph_pt_additions@);
    // the updates of existing edges
    let ghost base = w0 + walk_lists_spec(input.graph_walk_additions@);
    let mut graph_walk_store_for_reset: Vec<WalkEdges> = Vec::new();
    let mut i: usize = 0;
    while i < keys.len()
        invariant
            i <= keys@.len(),
            keys == &input.graph_walk_updates_keys,
            updates == &input.graph_walk_updates_additions,
            base.len() == len_graph_walk + input.new_nodes_count,
            updates_in_range(keys@, updates@, base.len() as int),
            walk_view(graph_walk@) == walk_after_updates(base, keys@, updates@, i as int),
            walk_view(graph_walk_store_for_reset@) == reset_store(w0, *input).subrange(0, i as int),
        decreases keys@.len() - i,
    {
        let node = keys[i];
        assert((keys@[i as int] as int) < base.len());
        proof {
            lemma_walk_after_updates_len(base, keys@, updates@, i as int);
        }
        let kept = graph_walk[node].duplicate();
        let ghost store_before = graph_walk_store_for_reset@;
        assert(kept@ == walk_after_updates(base, keys@, updates@, i as int)[keys@[i as int] as int]);
        assert(reset_store(w0, *input)[i as int] == kept@);
        graph_walk_store_for_reset.push(kept);
        assert(walk_view(graph_walk_store_for_reset@) =~= walk_view(store_before).push(kept@));
        assert(reset_store(w0, *input).subrange(0, i + 1) =~= reset_store(w0, *input).subrange(0, i as int).push(
            kept@,
        ));
        let mut edges = graph_walk[node].duplicate();
        let added = &updates[i];
        let ghost old_edges = edges@;
        let mut a: usize = 0;
        while a < added.len()
            invariant
                a <= added@.len(),
                edges@ == old_edges + walk_edges_spec(added@.subrange(0, a as int)),
            decreases added@.len() - a,
        {
            let array = added[a];
            edges.push(EdgeWalk { to: NodeID(array[1] as u32), cost: Cost(array[0] as u16) });
            assert(added@.subrange(0, a + 1) == added@.subrange(0, a as int).push(array));
            assert(walk_edges_spec(added@.subrange(0, a + 1)) =~= walk_edges_spec(added@.subrange(0, a as int)).push(
                walk_edge_from_pair(array),
            ));
            a = a + 1;
        }
        assert(added@.subrange(0, added@.len() as int) == added@);
        let ghost walk_before = graph_walk@;
        graph_walk.set(node, edges);
        assert(walk_view(graph_walk@) =~= walk_view(walk_before).update(node as int, edges@));
        i = i + 1;
    }
    assert(reset_store(w0, *input).subrange(0, keys@.len() as int) =~= reset_store(w0, *input));
    // the values of the new nodes
    let ghost unpadded = node_values_1d@;
    let mut n: usize = 0;
    while n < input.graph_walk_additions.len()
        invariant
            n <= input.graph_walk_additions@.len(),
            node_values_1d@ == padded_values(unpadded, n as nat),
        decreases input.graph_walk_additions@.len() - n,
    {
        let mut c: usize = 0;
        while c < 32
            invariant
                c <= 32,
                node_values_1d@ == padded_values(unpadded, n as nat) + Seq::new(c as nat, |i: int| 0i32),
            decreases 32 - c,
        {
            node_values_1d.push(0);
            assert(padded_values(unpadded, n as nat) + Seq::new((c + 1) as nat, |i: int| 0i32)
                =~= (padded_values(unpadded, n as nat) + Seq::new(c as nat, |i: int| 0i32)).push(0i32));
            c = c + 1;
        }
        assert(padded_values(unpadded, (n + 1) as nat) =~= padded_values(unpadded, n as nat) + Seq::new(
            32,
            |i: int| 0i32,
        ));
        n = n + 1;
    }
    // the new buildings
    if !add_new_node_values(node_values_1d, input) {
        return Err(EditError::InvalidNewBuild);
    }
    Ok(
        RequestEdits {
            graph_walk_len: len_graph_walk,
            graph_pt_len: len_graph_pt,
            node_values_len: original_node_values_1d_len,
            graph_walk_store_for_reset,
        },
    )
}

/// Updates keep the graph's length.
proof fn lemma_walk_after_updates_len(g: Seq<Seq<EdgeWalk>>, keys: Seq<usize>, adds: Seq<Vec<[usize; 2]>>, k: int)
    requires
        0 <= k <= keys.len(),
        forall|i: int| 0 <= i < keys.len() ==> (#[trigger] keys[i] as int) < g.len(),
    ensures
        walk_after_updates(g, keys, adds, k).len() == g.len(),
    decreases k,
{
    if k > 0 {
        lemma_walk_after_updates_len(g, keys, adds, k - 1);
    }
}

/// The first `len` entries of `s` (all of them where there are fewer).
pub open spec fn truncated<T>(s: Seq<T>, len: int) -> Seq<T> {
    if 0 <= len <= s.len() {
        s.subrange(0, len)
    } else {
        s
    }
}

/// Every updated node is below `len` and has its kept edges.
pub open spec fn resets_in_range(keys: Seq<usize>, store_len: int, len: int) -> bool {
    &&& keys.len() <= store_len
    &&& forall|i: int| 0 <= i < keys.len() ==> (#[trigger] keys[i] as int) < len
}

/// A network once a request's changes are undone, given the lengths and
/// edges kept when they were made; or the error. Where the request adds
/// nodes, the added nodes are cut off and the updated nodes get their kept
/// edges back, first to last; where it adds none, the walking graph and the
/// timetables stay as they are, updates included. The new buildings are
/// taken away and the node values cut back in either case.
pub open spec fn edits_reverted(
    walk: Seq<Seq<EdgeWalk>>,
    pt: Seq<Seq<EdgePT>>,
    values: Seq<i32>,
    input: UserInputJSON,
    walk_len: int,
    pt_len: int,
    values_len: int,
    store: Seq<Seq<EdgeWalk>>,
) -> Result<(Seq<Seq<EdgeWalk>>, Seq<Seq<EdgePT>>, Seq<i32>), EditError> {
    let keys = input.graph_walk_updates_keys@;
    let adds_nodes = input.new_nodes_count > 0;
    let kept_len = if walk_len <= walk.len() {
        walk_len
    } else {
        walk.len() as int
    };
    if adds_nodes && !resets_in_range(keys, store.len() as int, kept_len) {
        Err(EditError::UpdateOutOfRange)
    } else {
        match builds_result(values, input.new_build_additions@, input.new_build_additions@.len() as int, true) {
            None => Err(EditError::InvalidNewBuild),
            Some(new_values) => Ok(
                (
                    if adds_nodes {
                        walk_after_resets(truncated(walk, walk_len), keys, store, keys.len() as int)
                    } else {
                        walk
                    },
                    if adds_nodes {
                        truncated(pt, pt_len)
                    } else {
                        pt
                    },
                    truncated(new_values, values_len),
                ),
            ),
        }
    }
}

/// Undoes a request's changes after the searches. Where the request adds
/// nodes, it cuts them off and gives the updated nodes their kept edges
/// back, first to last, so a node updated twice ends with the edges it had
/// just before its last update; where it adds none, the walking graph and
/// the timetables are left as they are. Then it takes the new buildings'
/// values away again and cuts the node values back to their length. An
/// updated node out of range leaves the network as it was; a building that
/// cannot be taken away leaves it partly changed.
#[verifier::loop_isolation(false)]
pub fn revert_request_edits(
    graph_walk: &mut Vec<WalkEdges>,
    graph_pt: &mut Vec<PtEdges>,
    node_values_1d: &mut Vec<i32>,
    input: &UserInputJSON,
    edits: &RequestEdits,
) -> (r: Result<(), EditError>)
    ensures
        match edits_reverted(
            walk_view(old(graph_walk)@),
            pt_view(old(graph_pt)@),
            old(node_values_1d)@,
            *input,
            edits.graph_walk_len as int,
            edits.graph_pt_len as int,
            edits.node_values_len as int,
            walk_view(edits.graph_walk_store_for_reset@),
        ) {
            Err(e) => {
                &&& r matches Err(e2) && e2 == e
                &&& e == EditError::UpdateOutOfRange ==> {
                    &&& final(graph_walk)@ == old(graph_walk)@
                    &&& final(graph_pt)@ == old(graph_pt)@
                    &&& final(node_values_1d)@ == old(node_values_1d)@
                }
            },
            Ok(s) => {
                &&& r is Ok
                &&& walk_view(final(graph_walk)@) == s.0
                &&& pt_view(final(graph_pt)@) == s.1
                &&& final(node_values_1d)@ == s.2
            },
        },
{
    let ghost w1 = walk_view(graph_walk@);
    let ghost p1 = pt_view(graph_pt@);
    if input.new_nodes_count > 0 {
        let keys = &input.graph_walk_updates_keys;
        let store = &edits.graph_walk_store_for_reset;
        let kept_len = if edits.graph_walk_len <= graph_walk.len() {
            edits.graph_walk_len
        } else {
            graph_walk.len()
        };
        if keys.len() > store.len() {
            return Err(EditError::UpdateOutOfRange);
        }
        let mut i: usize = 0;
        while i < keys.len()
            invariant
                i <= keys@.len(),
                forall|j: int| 0 <= j < i ==> (#[trigger] keys@[j] as int) < kept_len,
            decreases keys@.len() - i,
        {
            if keys[i] >= kept_len {
                return Err(EditError::UpdateOutOfRange);
            }
            i = i + 1;
        }
        graph_walk.truncate(edits.graph_walk_len);
        graph_pt.truncate(edits.graph_pt_len);
        assert(walk_view(graph_walk@) =~= truncated(w1, edits.graph_walk_len as int));
        assert(pt_view(graph_pt@) =~= truncated(p1, edits.graph_pt_len as int));
        let ghost cut = walk_view(graph_walk@);
        let mut i: usize = 0;
        while i < keys.len()
            invariant
                i <= keys@.len(),
                graph_walk@.len() == kept_len,
                walk_view(graph_walk@) == walk_after_resets(cut, keys@, walk_view(store@), i as int),
            decreases keys@.len() - i,
        {
            let node = keys[i];
            let kept = store[i].duplicate();
            let ghost before = graph_walk@;
            graph_walk.set(node, kept);
            assert(walk_view(graph_walk@) =~= walk_view(before).update(node as int, kept@));
            i = i + 1;
        }
    }
    if !remove_new_node_values(node_values_1d, input) {
        return Err(EditError::InvalidNewBuild);
    }
    node_values_1d.truncate(edits.node_values_len);
    Ok(())
}

/// The sum of the values of the first `k` new buildings that change the
/// value at `idx`.
pub open spec fn build_delta(builds: Seq<Vec<i32>>, k: int, idx: int) -> int
    decreases k,
{
    if k <= 0 {
        0
    } else {
        build_delta(builds, k - 1, idx) + if builds[k - 1]@.len() >= 3 && build_index(builds[k - 1]@) == idx {
            builds[k - 1]@[0] as int
        } else {
            0
        }
    }
}

/// Applying buildings moves each value by the sum of their values at its
/// index (up for adding, down for taking away).
proof fn lemma_builds_delta(values: Seq<i32>, builds: Seq<Vec<i32>>, k: int, subtract: bool)
    requires
        0 <= k,
        builds_result(values, builds, k, subtract) is Some,
    ensures
        builds_result(values, builds, k, subtract)->Some_0.len() == values.len(),
        forall|idx: int|
            0 <= idx < values.len() ==> #[trigger] builds_result(values, builds, k, subtract)->Some_0[idx] == values[idx]
                + if subtract {
                -build_delta(builds, k, idx)
            } else {
                build_delta(builds, k, idx)
            },
    decreases k,
{
    if k > 0 {
        lemma_builds_delta(values, builds, k - 1, subtract);
        let prev = builds_result(values, builds, k - 1, subtract)->Some_0;
        let b = builds[k - 1]@;
        assert(build_applies(prev, b, subtract));
        let r = builds_result(values, builds, k, subtract)->Some_0;
        assert forall|idx: int| 0 <= idx < values.len() implies #[trigger] r[idx] == values[idx] + if subtract {
            -build_delta(builds, k, idx)
        } else {
            build_delta(builds, k, idx)
        } by {
            if idx == build_index(b) {
                assert(r[idx] == build_value(prev, b, subtract));
            } else {
                assert(r[idx] == prev[idx]);
            }
        }
    }
}

/// Taking away the new buildings that were added gives the node values
/// back, wherever both runs succeed.
pub proof fn lemma_builds_undone(values: Seq<i32>, builds: Seq<Vec<i32>>)
    requires
        builds_result(values, builds, builds.len() as int, false) is Some,
        builds_result(builds_result(values, builds, builds.len() as int, false)->Some_0, builds, builds.len() as int, true)
            is Some,
    ensures
        builds_result(builds_result(values, builds, builds.len() as int, false)->Some_0, builds, builds.len() as int, true)
            == Some(values),
{
    let n = builds.len() as int;
    let added = builds_result(values, builds, n, false)->Some_0;
    lemma_builds_delta(values, builds, n, false);
    lemma_builds_delta(added, builds, n, true);
    let back = builds_result(added, builds, n, true)->Some_0;
    assert forall|idx: int| 0 <= idx < values.len() implies back[idx] == values[idx] by {
        assert(back[idx] == added[idx] - build_delta(builds, n, idx));
        assert(added[idx] == values[idx] + build_delta(builds, n, idx));
    }
    assert(back =~= values);
}

/// Updates change only the updated nodes.
proof fn lemma_walk_after_updates_other(
    g: Seq<Seq<EdgeWalk>>,
    keys: Seq<usize>,
    adds: Seq<Vec<[usize; 2]>>,
    k: int,
    idx: int,
)
    requires
        0 <= k <= keys.len(),
        forall|i: int| 0 <= i < keys.len() ==> (#[trigger] keys[i] as int) < g.len(),
        forall|i: int| 0 <= i < k ==> keys[i] as int != idx,
        0 <= idx < g.len(),
    ensures
        walk_after_updates(g, keys, adds, k)[idx] == g[idx],
    decreases k,
{
    if k > 0 {
        lemma_walk_after_updates_other(g, keys, adds, k - 1, idx);
        lemma_walk_after_updates_len(g, keys, adds, k - 1);
    }
}

/// After the first `k` resets of distinct nodes, each of those nodes holds
/// its kept edges and every other node is unchanged.
proof fn lemma_walk_after_resets(g: Seq<Seq<EdgeWalk>>, keys: Seq<usize>, store: Seq<Seq<EdgeWalk>>, k: int)
    requires
        0 <= k <= keys.len(),
        keys.len() <= store.len(),
        forall|i: int| 0 <= i < keys.len() ==> (#[trigger] keys[i] as int) < g.len(),
        forall|i: int, j: int| 0 <= i < j < keys.len() ==> keys[i] != keys[j],
    ensures
        walk_after_resets(g, keys, store, k).len() == g.len(),
        forall|i: int| 0 <= i < k ==> walk_after_resets(g, keys, store, k)[#[trigger] keys[i] as int] == store[i],
        forall|idx: int|
            0 <= idx < g.len() && (forall|i: int| 0 <= i < k ==> keys[i] as int != idx)
                ==> #[trigger] walk_after_resets(g, keys, store, k)[idx] == g[idx],
    decreases k,
{
    if k > 0 {
        lemma_walk_after_resets(g, keys, store, k - 1);
    }
}

/// Undoing a request's changes gives the network back: the walking graph,
/// the timetables and the node values are as they were before the changes,
/// wherever the changes and their undoing both succeed, the updated nodes
/// are distinct, and the request adds nodes or updates none (a request that
/// adds no nodes keeps its updates).
pub proof fn lemma_request_edits_undone(
    walk: Seq<Seq<EdgeWalk>>,
    pt: Seq<Seq<EdgePT>>,
    values: Seq<i32>,
    input: UserInputJSON,
)
    requires
        match edits_applied(walk, pt, values, input) {
            Ok(s) => edits_reverted(
                s.0,
                s.1,
                s.2,
                input,
                walk.len() as int,
                pt.len() as int,
                values.len() as int,
                s.3,
            ) is Ok,
            Err(_) => false,
        },
        forall|i: int, j: int|
            0 <= i < j < input.graph_walk_updates_keys@.len() ==> input.graph_walk_updates_keys@[i]
                != input.graph_walk_updates_keys@[j],
        input.new_nodes_count > 0 || input.graph_walk_updates_keys@.len() == 0,
    ensures
        match edits_applied(walk, pt, values, input) {
            Ok(s) => edits_reverted(
                s.0,
                s.1,
                s.2,
                input,
                walk.len() as int,
                pt.len() as int,
                values.len() as int,
                s.3,
            ) == Ok::<(Seq<Seq<EdgeWalk>>, Seq<Seq<EdgePT>>, Seq<i32>), EditError>((walk, pt, values)),
            Err(_) => true,
        },
{
    let s = edits_applied(walk, pt, values, input)->Ok_0;
    let keys = input.graph_walk_updates_keys@;
    let adds = input.graph_walk_updates_additions@;
    let base = walk + walk_lists_spec(input.graph_walk_additions@);
    assert(edits_check(walk.len() as int, pt.len() as int, values.len() as int, input) is None);
    let padded = padded_values(values, input.graph_walk_additions@.len());
    // the values
    lemma_builds_undone(padded, input.new_build_additions@);
    assert(truncated(padded, values.len() as int) =~= values);
    // the walking graph and the timetables
    lemma_walk_after_updates_len(base, keys, adds, keys.len() as int);
    if input.new_nodes_count > 0 {
        assert(truncated(pt + pt_lists_spec(input.graph_pt_additions@), pt.len() as int) =~= pt);
        let cut = truncated(s.0, walk.len() as int);
        assert(cut.len() == walk.len());
        lemma_walk_after_resets(cut, keys, s.3, keys.len() as int);
        let back = walk_after_resets(cut, keys, s.3, keys.len() as int);
        assert forall|idx: int| 0 <= idx < walk.len() implies back[idx] == walk[idx] by {
            if exists|i: int| 0 <= i < keys.len() && keys[i] as int == idx {
                let i = choose|i: int| 0 <= i < keys.len() && keys[i] as int == idx;
                assert(back[keys[i] as int] == s.3[i]);
                assert forall|l: int| 0 <= l < i implies keys[l] as int != idx by {
                    assert(keys[l] != keys[i]);
                }
                lemma_walk_after_updates_other(base, keys, adds, i, idx);
            } else {
                lemma_walk_after_updates_other(base, keys, adds, keys.len() as int, idx);
                assert(back[idx] == cut[idx]);
            }
        }
        assert(back =~= walk);
    } else {
        assert(pt + pt_lists_spec(input.graph_pt_additions@) =~= pt);
        assert(base =~= walk);
    }
}

/// The start node and initial travel time of each search of a request: the
/// `i`-th start with the `i`-th initial time, both cut to their widths;
/// `None` where there are fewer initial times than starts.
pub fn floodfill_starts(input: &UserInputJSON) -> (r: Option<Vec<(NodeID, Cost)>>)
    ensures
        r is Some <==> input.init_travel_times_user_input@.len() >= input.start_nodes_user_input@.len(),
        r matches Some(v) ==> {
            &&& v@.len() == input.start_nodes_user_input@.len()
            &&& forall|i: int|
                0 <= i < v@.len() ==> #[trigger] v@[i] == (
                    NodeID(#[verifier::truncate] (input.start_nodes_user_input@[i] as u32)),
                    Cost(#[verifier::truncate] (input.init_travel_times_user_input@[i] as u16)),
                )
        },
{
    let starts = &input.start_nodes_user_input;
    let inits = &input.init_travel_times_user_input;
    if inits.len() < starts.len() {
        return None;
    }
    let mut model_parameters_each_start: Vec<(NodeID, Cost)> = Vec::new();
    let mut i: usize = 0;
    while i < starts.len()
        invariant
            i <= starts@.len(),
            starts@.len() <= inits@.len(),
            starts == &input.start_nodes_user_input,
            inits == &input.init_travel_times_user_input,
            model_parameters_each_start@.len() == i,
            forall|j: int|
                0 <= j < i ==> #[trigger] model_parameters_each_start@[j] == (
                    NodeID(#[verifier::truncate] (starts@[j] as u32)),
                    Cost(#[verifier::truncate] (inits@[j] as u16)),
                ),
        decreases starts@.len() - i,
    {
        model_parameters_each_start.push((NodeID(starts[i] as u32), Cost(inits[i] as u16)));
        i = i + 1;
    }
    Some(model_parameters_each_start)
}

/// A node named by exactly one update ends with its edges before the
/// updates and then the edges of that update.
proof fn lemma_walk_after_updates_once(
    g: Seq<Seq<EdgeWalk>>,
    keys: Seq<usize>,
    adds: Seq<Vec<[usize; 2]>>,
    k: int,
    u: int,
)
    requires
        0 <= u < k <= keys.len(),
        forall|i: int| 0 <= i < keys.len() ==> (#[trigger] keys[i] as int) < g.len(),
        forall|v: int| 0 <= v < keys.len() && v != u ==> keys[v] != keys[u],
    ensures
        walk_after_updates(g, keys, adds, k)[keys[u] as int] == g[keys[u] as int] + walk_edges_spec(adds[u]@),
    decreases k,
{
    lemma_walk_after_updates_len(g, keys, adds, k - 1);
    if k - 1 == u {
        lemma_walk_after_updates_other(g, keys, adds, u, keys[u] as int);
    } else {
        lemma_walk_after_updates_once(g, keys, adds, k - 1, u);
    }
}

/// Updates only append: every node keeps its edges before the updates as
/// the first of its edges.
proof fn lemma_walk_after_updates_prefix(
    g: Seq<Seq<EdgeWalk>>,
    keys: Seq<usize>,
    adds: Seq<Vec<[usize; 2]>>,
    k: int,
    idx: int,
)
    requires
        0 <= k <= keys.len(),
        forall|i: int| 0 <= i < keys.len() ==> (#[trigger] keys[i] as int) < g.len(),
        0 <= idx < g.len(),
    ensures
        walk_after_updates(g, keys, adds, k)[idx].len() >= g[idx].len(),
        walk_after_updates(g, keys, adds, k)[idx].subrange(0, g[idx].len() as int) == g[idx],
    decreases k,
{
    if k > 0 {
        lemma_walk_after_updates_prefix(g, keys, adds, k - 1, idx);
        lemma_walk_after_updates_len(g, keys, adds, k - 1);
        let prev = walk_after_updates(g, keys, adds, k - 1);
        let cur = walk_after_updates(g, keys, adds, k);
        if keys[k - 1] as int == idx {
            assert(cur[idx].subrange(0, g[idx].len() as int) =~= prev[idx].subrange(0, g[idx].len() as int));
        }
    }
}

/// What making a request's changes gives, wherever it succeeds. The
/// timetables keep every old node and get, for each added node, exactly the
/// departures given for it, each `[leaving time, ride]` cut to its width.
/// The walking graph keeps every node that no update names, gives each
/// added node that no update names exactly its given `[cost, to]` edges,
/// only appends to the updated nodes, and appends to a node named by one
/// update exactly that update's edges. The node values keep their length
/// and gain 32 per added node, and each value, zero for the added ones,
/// moves by the sum of the new buildings at its index.
pub proof fn lemma_request_edits_applied(
    walk: Seq<Seq<EdgeWalk>>,
    pt: Seq<Seq<EdgePT>>,
    values: Seq<i32>,
    input: UserInputJSON,
)
    requires
        edits_applied(walk, pt, values, input) is Ok,
    ensures
        ({
            let s = edits_applied(walk, pt, values, input)->Ok_0;
            let n = input.new_nodes_count as int;
            let pt_adds = input.graph_pt_additions@;
            let walk_adds = input.graph_walk_additions@;
            let keys = input.graph_walk_updates_keys@;
            let ups = input.graph_walk_updates_additions@;
            let builds = input.new_build_additions@;
            &&& s.1.len() == pt.len() + n
            &&& forall|i: int| 0 <= i < pt.len() ==> #[trigger] s.1[i] == pt[i]
            &&& forall|i: int| 0 <= i < n ==> s.1[pt.len() + i].len() == (#[trigger] pt_adds[i])@.len()
            &&& forall|i: int, e: int|
                0 <= i < n && 0 <= e < pt_adds[i]@.len() ==> s.1[pt.len() + i][e] == EdgePT {
                    leavetime: LeavingTime(#[verifier::truncate] ((#[trigger] pt_adds[i]@[e])[0] as u32)),
                    cost: Cost(#[verifier::truncate] (pt_adds[i]@[e][1] as u16)),
                }
            &&& s.0.len() == walk.len() + n
            &&& forall|idx: int|
                0 <= idx < walk.len() && (forall|u: int| 0 <= u < keys.len() ==> keys[u] as int != idx) ==> #[trigger] s.0[idx]
                    == walk[idx]
            &&& forall|i: int|
                0 <= i < n && (forall|u: int| 0 <= u < keys.len() ==> keys[u] as int != walk.len() + i) ==> s.0[walk.len() + i].len() == (
                #[trigger] walk_adds[i])@.len() && forall|e: int|
                    0 <= e < walk_adds[i]@.len() ==> s.0[walk.len() + i][e] == EdgeWalk {
                        to: NodeID(#[verifier::truncate] ((#[trigger] walk_adds[i]@[e])[1] as u32)),
                        cost: Cost(#[verifier::truncate] (walk_adds[i]@[e][0] as u16)),
                    }
            &&& forall|idx: int|
                0 <= idx < walk.len() ==> (#[trigger] s.0[idx]).len() >= walk[idx].len() && s.0[idx].subrange(
                    0,
                    walk[idx].len() as int,
                ) == walk[idx]
            &&& forall|u: int|
                0 <= u < keys.len() && (keys[u] as int) < walk.len() && (forall|v: int|
                    0 <= v < keys.len() && v != u ==> keys[v] != keys[u]) ==> {
                    &&& s.0[keys[u] as int].len() == walk[keys[u] as int].len() + (#[trigger] ups[u])@.len()
                    &&& forall|e: int|
                        0 <= e < ups[u]@.len() ==> s.0[keys[u] as int][walk[keys[u] as int].len() + e] == EdgeWalk {
                            to: NodeID(#[verifier::truncate] ((#[trigger] ups[u]@[e])[1] as u32)),
                            cost: Cost(#[verifier::truncate] (ups[u]@[e][0] as u16)),
                        }
                }
            &&& s.2.len() == values.len() + 32 * n
            &&& forall|idx: int|
                0 <= idx < s.2.len() ==> #[trigger] s.2[idx] == (if idx < values.len() {
                    values[idx] as int
                } else {
                    0
                }) + build_delta(builds, builds.len() as int, idx)
        }),
{
    let s = edits_applied(walk, pt, values, input)->Ok_0;
    let n = input.new_nodes_count as int;
    let keys = input.graph_walk_updates_keys@;
    let ups = input.graph_walk_updates_additions@;
    let base = walk + walk_lists_spec(input.graph_walk_additions@);
    assert(edits_check(walk.len() as int, pt.len() as int, values.len() as int, input) is None);
    assert(base.len() == walk.len() + n);
    lemma_walk_after_updates_len(base, keys, ups, keys.len() as int);
    assert forall|idx: int| 0 <= idx < walk.len() implies (#[trigger] s.0[idx]).len() >= walk[idx].len() && s.0[idx].subrange(
        0,
        walk[idx].len() as int,
    ) == walk[idx] by {
        lemma_walk_after_updates_prefix(base, keys, ups, keys.len() as int, idx);
        assert(base[idx] == walk[idx]);
    }
    assert forall|u: int|
        0 <= u < keys.len() && (keys[u] as int) < walk.len() && (forall|v: int|
            0 <= v < keys.len() && v != u ==> keys[v] != keys[u]) implies {
        &&& s.0[keys[u] as int].len() == walk[keys[u] as int].len() + (#[trigger] ups[u])@.len()
        &&& forall|e: int|
            0 <= e < ups[u]@.len() ==> s.0[keys[u] as int][walk[keys[u] as int].len() + e] == EdgeWalk {
                to: NodeID(#[verifier::truncate] ((#[trigger] ups[u]@[e])[1] as u32)),
                cost: Cost(#[verifier::truncate] (ups[u]@[e][0] as u16)),
            }
    } by {
        lemma_walk_after_updates_once(base, keys, ups, keys.len() as int, u);
        assert(base[keys[u] as int] == walk[keys[u] as int]);
    }
    let padded = padded_values(values, input.graph_walk_additions@.len());
    lemma_builds_delta(padded, input.new_build_additions@, input.new_build_additions@.len() as int, false);
    let walk_adds = input.graph_walk_additions@;
    assert forall|idx: int|
        0 <= idx < walk.len() && (forall|u: int| 0 <= u < keys.len() ==> keys[u] as int != idx) implies #[trigger] s.0[idx]
            == walk[idx] by {
        lemma_walk_after_updates_other(base, keys, ups, keys.len() as int, idx);
    }
    assert forall|i: int|
        0 <= i < n && (forall|u: int| 0 <= u < keys.len() ==> keys[u] as int != walk.len() + i) implies s.0[walk.len()
            + i].len() == (#[trigger] walk_adds[i])@.len() && forall|e: int|
            0 <= e < walk_adds[i]@.len() ==> s.0[walk.len() + i][e] == EdgeWalk {
                to: NodeID(#[verifier::truncate] ((#[trigger] walk_adds[i]@[e])[1] as u32)),
                cost: Cost(#[verifier::truncate] (walk_adds[i]@[e][0] as u16)),
            } by {
        lemma_walk_after_updates_other(base, keys, ups, keys.len() as int, walk.len() + i);
        assert(base[walk.len() + i] == walk_edges_spec(walk_adds[i]@));
    }
}

} // verus!
