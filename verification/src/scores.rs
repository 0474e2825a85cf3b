use vstd::prelude::*;

verus! {

/// Each node has one value per subpurpose, and each subpurpose one row of
/// weights per second of travel time up to the hour.
pub const SUBPURPOSES_COUNT: usize = 32;

/// The length of one purpose's row of weights.
pub const WEIGHTS_PER_PURPOSE: i32 = 3601;

/// A destination carries values unless it is one of the nodes of the
/// padding rows, which come first, or lies past `count_original_nodes`; the
/// node numbered `count_original_nodes` itself is counted as carrying values.
pub open spec fn has_values(node: u32, count_original_nodes: u32, node_values_padding_row_count: u32) -> bool {
    count_original_nodes >= node && node >= node_values_padding_row_count / 32
}

/// Destination `j`'s part of the score of subpurpose `i`: its value for the
/// subpurpose times the weight of its travel time for the subpurpose's
/// purpose.
pub open spec fn contribution(
    ids: Seq<u32>,
    times: Seq<u16>,
    node_values: Seq<i32>,
    weights: Seq<i32>,
    lookup: Seq<i8>,
    count_original_nodes: u32,
    padding: u32,
    j: int,
    i: int,
) -> int {
    if has_values(ids[j], count_original_nodes, padding) {
        node_values[ids[j] * 32 + i] * weights[lookup[i] * 3601 + times[j]]
    } else {
        0
    }
}

/// The score of subpurpose `i` over the first `k` destinations.
pub open spec fn score_upto(
    ids: Seq<u32>,
    times: Seq<u16>,
    node_values: Seq<i32>,
    weights: Seq<i32>,
    lookup: Seq<i8>,
    count_original_nodes: u32,
    padding: u32,
    k: int,
    i: int,
) -> int
    decreases k,
{
    if k <= 0 {
        0
    } else {
        score_upto(ids, times, node_values, weights, lookup, count_original_nodes, padding, k - 1, i)
            + contribution(ids, times, node_values, weights, lookup, count_original_nodes, padding, k - 1, i)
    }
}

/// The first `k` destinations that are targets, in order.
pub open spec fn target_ids_upto(ids: Seq<u32>, targets: Seq<u32>, k: int) -> Seq<u32>
    decreases k,
{
    if k <= 0 {
        Seq::empty()
    } else if targets.contains(ids[k - 1]) {
        target_ids_upto(ids, targets, k - 1).push(ids[k - 1])
    } else {
        target_ids_upto(ids, targets, k - 1)
    }
}

/// The travel times of the first `k` destinations that are targets, in order.
pub open spec fn target_times_upto(ids: Seq<u32>, times: Seq<u16>, targets: Seq<u32>, k: int) -> Seq<u16>
    decreases k,
{
    if k <= 0 {
        Seq::empty()
    } else if targets.contains(ids[k - 1]) {
        target_times_upto(ids, times, targets, k - 1).push(times[k - 1])
    } else {
        target_times_upto(ids, times, targets, k - 1)
    }
}

/// The number of destination entries that are read: the shorter of the two
/// lists.
pub open spec fn paired_len(ids: Seq<u32>, times: Seq<u16>) -> int {
    if ids.len() <= times.len() {
        ids.len() as int
    } else {
        times.len() as int
    }
}

/// What scoring returns: the number of destinations, the start, the 32
/// subpurpose scores over the paired entries, and the targets among them in
/// order with their travel times.
pub open spec fn is_scoring_of(
    start: u32,
    ids: Seq<u32>,
    times: Seq<u16>,
    node_values: Seq<i32>,
    weights: Seq<i32>,
    lookup: Seq<i8>,
    count_original_nodes: u32,
    padding: u32,
    targets: Seq<u32>,
    r: (i32, u32, [i64; 32], Vec<u32>, Vec<u16>),
) -> bool {
    let m = paired_len(ids, times);
    &&& r.0 == #[verifier::truncate] (ids.len() as i32)
    &&& r.1 == start
    &&& forall|i: int|
        0 <= i < 32 ==> #[trigger] r.2@[i] == score_upto(
            ids,
            times,
            node_values,
            weights,
            lookup,
            count_original_nodes,
            padding,
            m,
            i,
        )
    &&& r.3@ == target_ids_upto(ids, targets, m)
    &&& r.4@ == target_times_upto(ids, times, targets, m)
}

/// The inputs on which scoring reads only what is there and no partial score
/// leaves `i64`.
pub open spec fn scoring_inputs_ok(
    ids: Seq<u32>,
    times: Seq<u16>,
    node_values: Seq<i32>,
    weights: Seq<i32>,
    lookup: Seq<i8>,
    count_original_nodes: u32,
    padding: u32,
    targets: Seq<u32>,
) -> bool {
    let m = paired_len(ids, times);
    &&& lookup.len() == 32
    &&& forall|t: int| 0 <= t < targets.len() ==> #[trigger] targets[t] < count_original_nodes
    &&& forall|j: int| 0 <= j < m ==> #[trigger] ids[j] < count_original_nodes
    &&& forall|j: int|
        0 <= j < m && has_values(#[trigger] ids[j], count_original_nodes, padding) ==> ids[j] * 32 + 32
            <= node_values.len() && ids[j] * 32 <= u32::MAX
    &&& forall|j: int, i: int|
        0 <= j < m && 0 <= i < 32 && has_values(#[trigger] ids[j], count_original_nodes, padding) ==> 0
            <= #[trigger] lookup[i] * 3601 + times[j] < weights.len()
    &&& forall|k: int, i: int|
        0 <= k <= m && 0 <= i < 32 ==> i64::MIN <= #[trigger] score_upto(
            ids,
            times,
            node_values,
            weights,
            lookup,
            count_original_nodes,
            padding,
            k,
            i,
        ) <= i64::MAX
}

/// The product of two `i32` values fits in an `i64`.
proof fn lemma_product_fits(a: i32, b: i32)
    ensures
        i64::MIN <= (a as int) * (b as int) <= i64::MAX,
{
    assert(-0x8000_0000 <= a <= 0x7fff_ffff);
    assert(-0x8000_0000 <= b <= 0x7fff_ffff);
    assert(-0x4000_0000_0000_0000 <= (a as int) * (b as int) <= 0x4000_0000_0000_0000) by (nonlinear_arith)
        requires
            -0x8000_0000 <= a <= 0x7fff_ffff,
            -0x8000_0000 <= b <= 0x7fff_ffff,
    ;
}

/// Scores a search from one start: for each of the 32 subpurposes, the sum
/// over the destinations that carry values of the destination's value times
/// the weight of its travel time; and the destinations that are targets,
/// in order, with their travel times. Also returns the number of
/// destinations and the start.
pub fn get_all_scores_and_time_to_target_destinations(
    travel_times: &(u32, Vec<u32>, Vec<u16>),
    node_values_1d: &[i32],
    travel_time_relationships: &[i32],
    subpurpose_purpose_lookup: &[i8; 32],
    count_original_nodes: u32,
    node_values_padding_row_count: u32,
    target_destinations_vector: &[u32],
) -> (r: (i32, u32, [i64; 32], Vec<u32>, Vec<u16>))
    requires
        scoring_inputs_ok(
            travel_times.1@,
            travel_times.2@,
            node_values_1d@,
            travel_time_relationships@,
            subpurpose_purpose_lookup@,
            count_original_nodes,
            node_values_padding_row_count,
            target_destinations_vector@,
        ),
    ensures
        is_scoring_of(
            travel_times.0,
            travel_times.1@,
            travel_times.2@,
            node_values_1d@,
            travel_time_relationships@,
            subpurpose_purpose_lookup@,
            count_original_nodes,
            node_values_padding_row_count,
            target_destinations_vector@,
            r,
        ),
{
    let ghost ids = travel_times.1@;
    let ghost times = travel_times.2@;
    let ghost nv = node_values_1d@;
    let ghost weights = travel_time_relationships@;
    let ghost lookup = subpurpose_purpose_lookup@;
    let ghost targets = target_destinations_vector@;
    let ghost count = count_original_nodes;
    let ghost padding = node_values_padding_row_count;
    let subpurposes_count: usize = SUBPURPOSES_COUNT;
    let count_nodes_no_value = node_values_padding_row_count / 32;

    // a flag per original node for faster lookup than a set; only original
    // nodes can be target destinations
    let mut target_destinations_binary_vec: Vec<bool> = Vec::new();
    while target_destinations_binary_vec.len() < count_original_nodes as usize
        invariant
            target_destinations_binary_vec@.len() <= count_original_nodes,
            forall|n: int| 0 <= n < target_destinations_binary_vec@.len() ==> !target_destinations_binary_vec@[n],
        decreases count_original_nodes - target_destinations_binary_vec@.len(),
    {
        target_destinations_binary_vec.push(false);
    }
    let mut t: usize = 0;
    while t < target_destinations_vector.len()
        invariant
            t <= targets.len(),
            targets == target_destinations_vector@,
            count == count_original_nodes,
            target_destinations_binary_vec@.len() == count_original_nodes,
            forall|tt: int| 0 <= tt < targets.len() ==> #[trigger] targets[tt] < count,
            forall|n: u32|
                n < count ==> target_destinations_binary_vec@[n as int] == targets.subrange(0, t as int).contains(n),
        decreases targets.len() - t,
    {
        let id = target_destinations_vector[t];
        let ghost before = target_destinations_binary_vec@;
        target_destinations_binary_vec.set(id as usize, true);
        assert forall|n: u32| n < count implies target_destinations_binary_vec@[n as int] == targets.subrange(
            0,
            t + 1,
        ).contains(n) by {
            let s0 = targets.subrange(0, t as int);
            let s1 = targets.subrange(0, t + 1);
            assert(s1 == s0.push(id));
            if s0.contains(n) {
                let w = choose|w: int| 0 <= w < s0.len() && s0[w] == n;
                assert(s1[w] == n);
            }
            if s1.contains(n) && n != id {
                let w = choose|w: int| 0 <= w < s1.len() && s1[w] == n;
                assert(s0[w] == n);
            }
            if n == id {
                assert(s1[t as int] == n);
            }
        }
        t = t + 1;
    }
    assert(targets.subrange(0, targets.len() as int) == targets);

    let mut scores: [i64; 32] = [0; 32];
    let mut target_destination_ids: Vec<u32> = Vec::new();
    let mut target_destination_travel_times: Vec<u16> = Vec::new();
    let start = travel_times.0;
    let destination_ids = &travel_times.1;
    let destination_travel_times = &travel_times.2;
    let m: usize = if destination_ids.len() <= destination_travel_times.len() {
        destination_ids.len()
    } else {
        destination_travel_times.len()
    };
    let mut j: usize = 0;
    while j < m
        invariant
            ids == destination_ids@,
            times == destination_travel_times@,
            nv == node_values_1d@,
            weights == travel_time_relationships@,
            lookup == subpurpose_purpose_lookup@,
            targets == target_destinations_vector@,
            count == count_original_nodes,
            padding == node_values_padding_row_count,
            count_nodes_no_value == padding / 32,
            subpurposes_count == 32,
            m == paired_len(ids, times),
            j <= m,
            scoring_inputs_ok(ids, times, nv, weights, lookup, count, padding, targets),
            target_destinations_binary_vec@.len() == count,
            forall|n: u32| n < count ==> target_destinations_binary_vec@[n as int] == targets.contains(n),
            forall|i: int| 0 <= i < 32 ==> #[trigger] scores@[i] == score_upto(ids, times, nv, weights, lookup, count, padding, j as int, i),
            target_destination_ids@ == target_ids_upto(ids, targets, j as int),
            target_destination_travel_times@ == target_times_upto(ids, times, targets, j as int),
        decreases m - j,
    {
        let current_node = destination_ids[j];
        let current_cost = destination_travel_times[j];
        assert(current_node < count);
        // if the node id is not one of the padding nodes, it has an associated value
        if count_original_nodes >= current_node && current_node >= count_nodes_no_value {
            assert(has_values(ids[j as int], count, padding));
            let start_pos = current_node * 32;
            let mut i: usize = 0;
            while i < subpurposes_count
                invariant
                    ids == destination_ids@,
                    times == destination_travel_times@,
                    nv == node_values_1d@,
                    weights == travel_time_relationships@,
                    lookup == subpurpose_purpose_lookup@,
                    subpurposes_count == 32,
                    current_node == ids[j as int],
                    current_cost == times[j as int],
                    start_pos == current_node * 32,
                    (start_pos as int) + 32 <= nv.len(),
                    has_values(current_node, count, padding),
                    0 <= j < m,
                    m == paired_len(ids, times),
                    i <= 32,
                    scoring_inputs_ok(ids, times, nv, weights, lookup, count, padding, targets),
                    forall|ii: int| 0 <= ii < i ==> #[trigger] scores@[ii] == score_upto(ids, times, nv, weights, lookup, count, padding, j + 1, ii),
                    forall|ii: int| i <= ii < 32 ==> #[trigger] scores@[ii] == score_upto(ids, times, nv, weights, lookup, count, padding, j as int, ii),
                decreases 32 - i,
            {
                let vec_start_pos_this_purpose: i32 = (subpurpose_purpose_lookup[i] as i32) * WEIGHTS_PER_PURPOSE;
                assert(0 <= lookup[i as int] * 3601 + times[j as int] < weights.len());
                let multiplier = travel_time_relationships[(vec_start_pos_this_purpose + current_cost as i32) as usize];
                let value = node_values_1d[(start_pos as usize) + i];
                proof {
                    lemma_product_fits(value, multiplier);
                    assert(score_upto(ids, times, nv, weights, lookup, count, padding, j + 1, i as int)
                        == score_upto(ids, times, nv, weights, lookup, count, padding, j as int, i as int)
                        + (value as int) * (multiplier as int));
                    assert(i64::MIN <= score_upto(ids, times, nv, weights, lookup, count, padding, j + 1, i as int) <= i64::MAX);
                }
                let updated: i64 = scores[i] + (value as i64) * (multiplier as i64);
                scores.set(i, updated);
                i = i + 1;
            }
        } else {
            assert forall|ii: int| 0 <= ii < 32 implies #[trigger] score_upto(ids, times, nv, weights, lookup, count, padding, j + 1, ii)
                == score_upto(ids, times, nv, weights, lookup, count, padding, j as int, ii) by {}
        }
        if target_destinations_binary_vec[current_node as usize] {
            target_destination_ids.push(current_node);
            target_destination_travel_times.push(current_cost);
        }
        j = j + 1;
    }

    (
        #[verifier::truncate] (travel_times.1.len() as i32),
        start,
        scores,
        target_destination_ids,
        target_destination_travel_times,
    )
}

/// Whether scoring can run on these inputs: every index it reads is there
/// and no partial score leaves `i64`.
#[verifier::loop_isolation(false)]
pub fn scoring_inputs_valid(
    travel_times: &(u32, Vec<u32>, Vec<u16>),
    node_values_1d: &[i32],
    travel_time_relationships: &[i32],
    subpurpose_purpose_lookup: &[i8; 32],
    count_original_nodes: u32,
    node_values_padding_row_count: u32,
    target_destinations_vector: &[u32],
) -> (ok: bool)
    ensures
        ok == scoring_inputs_ok(
            travel_times.1@,
            travel_times.2@,
            node_values_1d@,
            travel_time_relationships@,
            subpurpose_purpose_lookup@,
            count_original_nodes,
            node_values_padding_row_count,
            target_destinations_vector@,
        ),
{
    let ghost ids = travel_times.1@;
    let ghost times = travel_times.2@;
    let ghost nv = node_values_1d@;
    let ghost weights = travel_time_relationships@;
    let ghost lookup = subpurpose_purpose_lookup@;
    let ghost targets = target_destinations_vector@;
    let ghost count = count_original_nodes;
    let ghost padding = node_values_padding_row_count;
    assert(lookup.len() == 32);
    let count_nodes_no_value = node_values_padding_row_count / 32;
    let mut t: usize = 0;
    while t < target_destinations_vector.len()
        invariant
            t <= targets.len(),
            targets == target_destinations_vector@,
            forall|tt: int| 0 <= tt < t ==> #[trigger] targets[tt] < count_original_nodes,
        decreases targets.len() - t,
    {
        if target_destinations_vector[t] >= count_original_nodes {
            return false;
        }
        t = t + 1;
    }
    let destination_ids = &travel_times.1;
    let destination_travel_times = &travel_times.2;
    let m: usize = if destination_ids.len() <= destination_travel_times.len() {
        destination_ids.len()
    } else {
        destination_travel_times.len()
    };
    let mut j: usize = 0;
    while j < m
        invariant
            ids == destination_ids@,
            times == destination_travel_times@,
            lookup == subpurpose_purpose_lookup@,
            lookup.len() == 32,
            count_nodes_no_value == node_values_padding_row_count / 32,
            m == paired_len(ids, times),
            j <= m,
            forall|jj: int| 0 <= jj < j ==> #[trigger] ids[jj] < count_original_nodes,
            forall|jj: int|
                0 <= jj < j && has_values(#[trigger] ids[jj], count_original_nodes, node_values_padding_row_count)
                    ==> ids[jj] * 32 + 32 <= node_values_1d@.len() && ids[jj] * 32 <= u32::MAX,
            forall|jj: int, i: int|
                0 <= jj < j && 0 <= i < 32 && has_values(#[trigger] ids[jj], count_original_nodes, node_values_padding_row_count)
                    ==> 0 <= #[trigger] lookup[i] * 3601 + times[jj] < travel_time_relationships@.len(),
        decreases m - j,
    {
        let node = destination_ids[j];
        let cost = destination_travel_times[j];
        if node >= count_original_nodes {
            assert(ids[j as int] >= count);
            return false;
        }
        if count_original_nodes >= node && node >= count_nodes_no_value {
            if node as u64 * 32 + 32 > node_values_1d.len() as u64 || node as u64 * 32 > u32::MAX as u64 {
                assert(has_values(ids[j as int], count, padding));
                assert(!(ids[j as int] * 32 + 32 <= nv.len() && ids[j as int] * 32 <= u32::MAX));
                return false;
            }
            let mut i: usize = 0;
            while i < 32
                invariant
                    ids == destination_ids@,
                    times == destination_travel_times@,
                    lookup == subpurpose_purpose_lookup@,
                    lookup.len() == 32,
                    0 <= j < m,
                    m == paired_len(ids, times),
                    cost == times[j as int],
                    i <= 32,
                    forall|ii: int| 0 <= ii < i ==> 0 <= #[trigger] lookup[ii] * 3601 + times[j as int] < travel_time_relationships@.len(),
                decreases 32 - i,
            {
                let w: i64 = subpurpose_purpose_lookup[i] as i64 * 3601 + cost as i64;
                if w < 0 || w as u64 >= travel_time_relationships.len() as u64 {
                    assert(has_values(ids[j as int], count, padding));
                    assert(!(0 <= lookup[i as int] * 3601 + times[j as int] < travel_time_relationships@.len()));
                    return false;
                }
                i = i + 1;
            }
        }
        j = j + 1;
    }
    // every index is there: now the partial scores
    let mut partial: [i64; 32] = [0; 32];
    let mut j: usize = 0;
    while j < m
        invariant
            ids == destination_ids@,
            times == destination_travel_times@,
            nv == node_values_1d@,
            weights == travel_time_relationships@,
            lookup == subpurpose_purpose_lookup@,
            count == count_original_nodes,
            padding == node_values_padding_row_count,
            lookup.len() == 32,
            count_nodes_no_value == padding / 32,
            m == paired_len(ids, times),
            j <= m,
            forall|jj: int|
                0 <= jj < m && has_values(#[trigger] ids[jj], count, padding)
                    ==> ids[jj] * 32 + 32 <= nv.len() && ids[jj] * 32 <= u32::MAX,
            forall|jj: int, i: int|
                0 <= jj < m && 0 <= i < 32 && has_values(#[trigger] ids[jj], count, padding)
                    ==> 0 <= #[trigger] lookup[i] * 3601 + times[jj] < weights.len(),
            forall|i: int| 0 <= i < 32 ==> #[trigger] partial@[i] == score_upto(ids, times, nv, weights, lookup, count, padding, j as int, i),
            forall|k: int, i: int|
                0 <= k <= j && 0 <= i < 32 ==> i64::MIN <= #[trigger] score_upto(ids, times, nv, weights, lookup, count, padding, k, i) <= i64::MAX,
        decreases m - j,
    {
        let node = destination_ids[j];
        let cost = destination_travel_times[j];
        let valued = count_original_nodes >= node && node >= count_nodes_no_value;
        let mut i: usize = 0;
        while i < 32
            invariant
                ids == destination_ids@,
                times == destination_travel_times@,
                nv == node_values_1d@,
                weights == travel_time_relationships@,
                lookup == subpurpose_purpose_lookup@,
                lookup.len() == 32,
                node == ids[j as int],
                cost == times[j as int],
                valued == has_values(node, count, padding),
                valued ==> node * 32 + 32 <= nv.len() && node * 32 <= u32::MAX,
                valued ==> forall|ii: int| 0 <= ii < 32 ==> 0 <= #[trigger] lookup[ii] * 3601 + times[j as int] < weights.len(),
                0 <= j < m,
                m == paired_len(ids, times),
                i <= 32,
                forall|ii: int| 0 <= ii < i ==> #[trigger] partial@[ii] == score_upto(ids, times, nv, weights, lookup, count, padding, j + 1, ii),
                forall|ii: int| i <= ii < 32 ==> #[trigger] partial@[ii] == score_upto(ids, times, nv, weights, lookup, count, padding, j as int, ii),
                forall|ii: int| 0 <= ii < i ==> i64::MIN <= #[trigger] score_upto(ids, times, nv, weights, lookup, count, padding, j + 1, ii) <= i64::MAX,
            decreases 32 - i,
        {
            let added: i64 = if valued {
                let weight_ix: i32 = (subpurpose_purpose_lookup[i] as i32) * WEIGHTS_PER_PURPOSE + cost as i32;
                let multiplier = travel_time_relationships[weight_ix as usize];
                let value = node_values_1d[(node * 32) as usize + i];
                proof {
                    lemma_product_fits(value, multiplier);
                }
                (value as i64) * (multiplier as i64)
            } else {
                0
            };
            assert(score_upto(ids, times, nv, weights, lookup, count, padding, j + 1, i as int)
                == score_upto(ids, times, nv, weights, lookup, count, padding, j as int, i as int) + added);
            match partial[i].checked_add(added) {
                Some(sum) => {
                    partial.set(i, sum);
                },
                None => {
                    assert(!(i64::MIN <= score_upto(ids, times, nv, weights, lookup, count, padding, j + 1, i as int) <= i64::MAX));
                    assert(!scoring_inputs_ok(ids, times, nv, weights, lookup, count, padding, target_destinations_vector@));
                    return false;
                },
            }
            i = i + 1;
        }
        j = j + 1;
    }
    true
}

/// The positions of the targets among the first `k` destinations, in order,
/// are the positions that the target lists are read from.
proof fn lemma_target_positions(ids: Seq<u32>, times: Seq<u16>, targets: Seq<u32>, k: int) -> (idx: Seq<int>)
    requires
        0 <= k <= ids.len(),
        k <= times.len(),
    ensures
        idx.len() == target_ids_upto(ids, targets, k).len(),
        idx.len() == target_times_upto(ids, times, targets, k).len(),
        forall|a: int, b: int| 0 <= a < b < idx.len() ==> idx[a] < idx[b],
        forall|l: int|
            0 <= l < idx.len() ==> {
                &&& 0 <= #[trigger] idx[l] < k
                &&& targets.contains(ids[idx[l]])
                &&& target_ids_upto(ids, targets, k)[l] == ids[idx[l]]
                &&& target_times_upto(ids, times, targets, k)[l] == times[idx[l]]
            },
        forall|j: int| 0 <= j < k && targets.contains(#[trigger] ids[j]) ==> exists|l: int| 0 <= l < idx.len() && idx[l] == j,
    decreases k,
{
    if k <= 0 {
        Seq::empty()
    } else {
        let prev = lemma_target_positions(ids, times, targets, k - 1);
        if targets.contains(ids[k - 1]) {
            let idx = prev.push(k - 1);
            assert(idx[prev.len() as int] == k - 1);
            assert forall|j: int| 0 <= j < k && targets.contains(#[trigger] ids[j]) implies exists|l: int|
                0 <= l < idx.len() && idx[l] == j by {
                if j < k - 1 {
                    let l = choose|l: int| 0 <= l < prev.len() && prev[l] == j;
                    assert(idx[l] == j);
                }
            }
            idx
        } else {
            prev
        }
    }
}

/// The target destinations of a scoring are exactly the destinations (the
/// start among them) that are targets, each once, in the order of the
/// search, each with its travel time: position `l` of the returned lists
/// holds destination `idx[l]` and its time, the positions rise, and every
/// destination entry that is a target has a position.
pub proof fn lemma_scoring_targets(
    start: u32,
    ids: Seq<u32>,
    times: Seq<u16>,
    node_values: Seq<i32>,
    weights: Seq<i32>,
    lookup: Seq<i8>,
    count_original_nodes: u32,
    padding: u32,
    targets: Seq<u32>,
    r: (i32, u32, [i64; 32], Vec<u32>, Vec<u16>),
)
    requires
        is_scoring_of(start, ids, times, node_values, weights, lookup, count_original_nodes, padding, targets, r),
    ensures
        exists|idx: Seq<int>|
            {
                let m = if ids.len() <= times.len() {
                    ids.len() as int
                } else {
                    times.len() as int
                };
                &&& #[trigger] idx.len() == r.3@.len()
                &&& idx.len() == r.4@.len()
                &&& forall|a: int, b: int| 0 <= a < b < idx.len() ==> idx[a] < idx[b]
                &&& forall|l: int|
                    0 <= l < idx.len() ==> {
                        &&& 0 <= #[trigger] idx[l] < m
                        &&& targets.contains(ids[idx[l]])
                        &&& r.3@[l] == ids[idx[l]]
                        &&& r.4@[l] == times[idx[l]]
                    }
                &&& forall|j: int|
                    0 <= j < m && targets.contains(#[trigger] ids[j]) ==> exists|l: int| 0 <= l < idx.len() && idx[l] == j
            },
{
    let m = paired_len(ids, times);
    let idx = lemma_target_positions(ids, times, targets, m);
    assert(idx.len() == r.3@.len());
}

} // verus!
