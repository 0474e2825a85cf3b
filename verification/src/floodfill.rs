use vstd::prelude::*;
use vstd::multiset::Multiset;
use crate::bucket_queue::BucketQueue;
use crate::edges::{PtEdges, WalkEdges};
pub use crate::scores::get_all_scores_and_time_to_target_destinations;
use crate::scores::{is_scoring_of, scoring_inputs_ok, scoring_inputs_valid};
use crate::shared::{Cost, EdgePT, NodeID};

verus! {

broadcast use vstd::multiset::group_multiset_axioms, vstd::multiset::group_multiset_properties;

/// Journeys of an hour or longer are not followed.
pub const TIME_LIMIT: u16 = 3600;

/// The data invariant of a network's two graphs: every node has its header
/// entry, every walking edge leads to a node of the graph, and every node
/// whose header marks a timetable has one, whose header names a node of the
/// graph. It is stated of the whole network, so it asks more than one search
/// reads: nodes that the search never reaches, walking edges that would end
/// past the hour, and the headers of stops where no service is caught must
/// be well formed too. `graph_is_valid` checks it.
pub open spec fn valid_graph(walk: Seq<WalkEdges>, pt: Seq<PtEdges>) -> bool {
    &&& forall|n: int| 0 <= n < walk.len() ==> (#[trigger] walk[n]@).len() >= 1
    &&& forall|n: int, k: int|
        0 <= n < walk.len() && 1 <= k < walk[n]@.len() ==> ((#[trigger] walk[n]@[k]).to.0 as int)
            < walk.len()
    &&& forall|n: int|
        0 <= n < walk.len() && (#[trigger] walk[n]@[0]).cost.0 == 1 ==> {
            &&& n < pt.len()
            &&& pt[n]@.len() >= 1
            &&& (pt[n]@[0].leavetime.0 as int) < walk.len()
        }
}

/// The first departure at or after index `k` that leaves no earlier than
/// `arrival`, or the number of entries where there is none.
pub open spec fn first_departure(deps: Seq<EdgePT>, arrival: int, k: int) -> int
    decreases deps.len() - k,
{
    if k < 0 || k >= deps.len() {
        deps.len() as int
    } else if arrival <= deps[k].leavetime.0 {
        k
    } else {
        first_departure(deps, arrival, k + 1)
    }
}

/// The departure found leaves no earlier than the arrival.
proof fn lemma_first_departure(deps: Seq<EdgePT>, arrival: int, k: int)
    requires
        0 <= k,
    ensures
        first_departure(deps, arrival, k) == deps.len() || (k <= first_departure(deps, arrival, k)
            < deps.len() && arrival <= deps[first_departure(deps, arrival, k)].leavetime.0),
    decreases deps.len() - k,
{
    if k < deps.len() && arrival > deps[k].leavetime.0 {
        lemma_first_departure(deps, arrival, k + 1);
    }
}

/// Where the first service that can be caught at a stop takes a traveller
/// who reached the stop after `t` seconds of a trip that started
/// `trip_start_seconds` past midnight, and after how many seconds of the
/// trip it arrives; `None` where no service is left or it arrives at or
/// after `limit`.
pub open spec fn pt_hop_from(deps: Seq<EdgePT>, trip_start_seconds: i32, t: int, limit: int) -> Option<(u32, int)> {
    let arrival = (#[verifier::truncate] (trip_start_seconds as u32)) as int + t;
    let k = first_departure(deps, arrival, 1);
    if k < deps.len() {
        let c = t + (deps[k].leavetime.0 - arrival) + deps[k].cost.0;
        if c < limit {
            Some((deps[0].leavetime.0, c))
        } else {
            None
        }
    } else {
        None
    }
}

/// The public-transport hop from node `m`, reached after `t` seconds, where
/// its header marks a timetable.
pub open spec fn pt_hop(walk: Seq<WalkEdges>, pt: Seq<PtEdges>, trip_start_seconds: i32, m: u32, t: int) -> Option<(u32, int)> {
    if walk[m as int]@[0].cost.0 == 1 {
        pt_hop_from(pt[m as int]@, trip_start_seconds, t, TIME_LIMIT as int)
    } else {
        None
    }
}

/// The node that the `k`-th walking edge of node `m` leads to, and the time
/// of arrival there when `m` was reached after `t` seconds.
pub open spec fn walk_hop(walk: Seq<WalkEdges>, m: u32, t: int, k: int) -> (u32, int) {
    (walk[m as int]@[k].to.0, t + walk[m as int]@[k].cost.0)
}

/// Node `n` is reached `c` seconds into the trip by one walk along an edge
/// or one ride, from node `m` reached after `t` seconds, within the limit.
pub open spec fn arrives(walk: Seq<WalkEdges>, pt: Seq<PtEdges>, trip_start_seconds: i32, m: u32, t: int, n: u32, c: int) -> bool {
    ||| exists|k: int| 1 <= k < walk[m as int]@.len() && #[trigger] walk_hop(walk, m, t, k) == (n, c) && c < TIME_LIMIT
    ||| pt_hop(walk, pt, trip_start_seconds, m, t) == Some((n, c))
}

/// Destination `j` is reached by one hop from an earlier destination at
/// exactly its time.
pub open spec fn reached_from_earlier(
    walk: Seq<WalkEdges>,
    pt: Seq<PtEdges>,
    trip_start_seconds: i32,
    ids: Seq<u32>,
    times: Seq<u16>,
    j: int,
) -> bool {
    exists|i: int|
        0 <= i < j && #[trigger] arrives(walk, pt, trip_start_seconds, ids[i], times[i] as int, ids[j], times[j] as int)
}

/// The destinations of a search from `start`, with their travel times.
///
/// The start comes first with the initial time; no node comes twice; times
/// never decrease; each later destination is reached by one walk or ride
/// from an earlier one at exactly its time; and no walk or ride from a
/// destination reaches, within the limit, a node that is missing or listed
/// with a later time.
pub open spec fn is_search_result(
    walk: Seq<WalkEdges>,
    pt: Seq<PtEdges>,
    trip_start_seconds: i32,
    start: u32,
    init: u16,
    ids: Seq<u32>,
    times: Seq<u16>,
) -> bool {
    &&& ids.len() == times.len()
    &&& ids.len() >= 1
    &&& ids[0] == start
    &&& times[0] == init
    &&& forall|i: int, j: int| 0 <= i < j < ids.len() ==> ids[i] != ids[j]
    &&& forall|i: int, j: int| 0 <= i <= j < ids.len() ==> times[i] <= times[j]
    &&& forall|i: int| 0 <= i < ids.len() ==> (ids[i] as int) < walk.len() && times[i] < TIME_LIMIT
    &&& forall|j: int| 0 < j < ids.len() ==> #[trigger] reached_from_earlier(walk, pt, trip_start_seconds, ids, times, j)
    &&& forall|i: int, k: int|
        0 <= i < ids.len() && 1 <= k < walk[ids[i] as int]@.len()
            && (#[trigger] walk_hop(walk, ids[i], times[i] as int, k)).1 < TIME_LIMIT ==> exists|j: int|
            0 <= j < ids.len() && ids[j] == walk_hop(walk, ids[i], times[i] as int, k).0 && times[j]
                <= walk_hop(walk, ids[i], times[i] as int, k).1
    &&& forall|i: int|
        0 <= i < ids.len() ==> ((#[trigger] pt_hop(walk, pt, trip_start_seconds, ids[i], times[i] as int)) matches Some(h)
            ==> exists|j: int| 0 <= j < ids.len() && ids[j] == h.0 && times[j] <= h.1)
}

/// Queues the first service that can be caught at `current_node` by a
/// traveller who got there `time_so_far` seconds into the trip, where it
/// arrives before `time_limit`.
fn get_pt_connections(
    graph_pt: &Vec<PtEdges>,
    time_so_far: u16,
    queue: &mut BucketQueue,
    time_limit: Cost,
    trip_start_seconds: i32,
    current_node: &NodeID,
)
    requires
        (current_node.0 as int) < graph_pt@.len(),
        graph_pt@[current_node.0 as int]@.len() >= 1,
        old(queue).wf(),
        time_limit.0 as nat <= old(queue).limit(),
    ensures
        final(queue).wf(),
        final(queue).limit() == old(queue).limit(),
        final(queue)@ == match pt_hop_from(graph_pt@[current_node.0 as int]@, trip_start_seconds, time_so_far as int, time_limit.0 as int) {
            Some(x) => old(queue)@.insert((x.1 as u16, x.0)),
            None => old(queue)@,
        },
{
    let deps = &graph_pt[current_node.0 as usize];
    let ghost d = deps@;
    let time_of_arrival_current_node: u64 = (#[verifier::truncate] (trip_start_seconds as u32)) as u64 + time_so_far as u64;
    let ghost arrival = (#[verifier::truncate] (trip_start_seconds as u32)) as int + time_so_far as int;
    let n = deps.len();
    let mut k: usize = 1;
    let mut found: Option<usize> = None;
    while k < n
        invariant_except_break
            found is None,
            first_departure(d, arrival, 1) == first_departure(d, arrival, k as int),
        invariant
            d == deps@,
            n == d.len(),
            1 <= k <= n,
            time_of_arrival_current_node == arrival,
        ensures
            match found {
                Some(f) => f < n && f as int == first_departure(d, arrival, 1),
                None => first_departure(d, arrival, 1) == n,
            },
        decreases n - k,
    {
        let edge = deps.get(k);
        if time_of_arrival_current_node <= edge.leavetime.0 as u64 {
            found = Some(k);
            break;
        }
        k = k + 1;
    }
    proof {
        lemma_first_departure(d, arrival, 1);
    }
    match found {
        Some(f) => {
            let edge = deps.get(f);
            let wait_time_this_stop: u64 = edge.leavetime.0 as u64 - time_of_arrival_current_node;
            let arrival_time_next_stop: u64 = time_so_far as u64 + wait_time_this_stop + edge.cost.0 as u64;
            if arrival_time_next_stop < time_limit.0 as u64 {
                let destination_node = deps.get(0).leavetime.0;
                queue.push(arrival_time_next_stop as u16, destination_node);
            }
        },
        None => {},
    }
}

} // verus!

verus! {

/// How many nodes are still unvisited.
spec fn unvisited(s: Seq<bool>) -> nat
    decreases s.len(),
{
    if s.len() == 0 {
        0
    } else {
        unvisited(s.drop_last()) + if s.last() {
            0nat
        } else {
            1nat
        }
    }
}

/// Marking an unvisited node lowers the count by one.
proof fn lemma_unvisited_mark(s: Seq<bool>, i: int)
    requires
        0 <= i < s.len(),
        !s[i],
    ensures
        unvisited(s.update(i, true)) + 1 == unvisited(s),
    decreases s.len(),
{
    if i == s.len() - 1 {
        assert(s.update(i, true).drop_last() =~= s.drop_last());
    } else {
        lemma_unvisited_mark(s.drop_last(), i);
        assert(s.update(i, true).drop_last() =~= s.drop_last().update(i, true));
    }
}

/// Every queued item is a node of the graph within the limit, no earlier
/// than the last destination, and reached by one hop from a destination;
/// before the first destination the queue holds the start alone.
spec fn queue_ok(
    walk: Seq<WalkEdges>,
    pt: Seq<PtEdges>,
    tss: i32,
    start: u32,
    init: u16,
    ids: Seq<u32>,
    times: Seq<u16>,
    q: Multiset<(u16, u32)>,
) -> bool {
    forall|p: (u16, u32)|
        #[trigger] q.count(p) > 0 ==> {
            &&& (p.1 as int) < walk.len()
            &&& p.0 < TIME_LIMIT
            &&& ids.len() == 0 ==> p == (init, start) && q.count(p) == 1
            &&& ids.len() > 0 ==> times.last() <= p.0
            &&& ids.len() > 0 ==> exists|i: int|
                0 <= i < ids.len() && #[trigger] arrives(walk, pt, tss, ids[i], times[i] as int, p.1, p.0 as int)
        }
}

/// A hop target is already a destination no later than the hop, or queued
/// with the hop's time.
spec fn settled_or_queued(ids: Seq<u32>, times: Seq<u16>, q: Multiset<(u16, u32)>, n: u32, c: int) -> bool {
    ||| exists|j: int| 0 <= j < ids.len() && ids[j] == n && times[j] <= c
    ||| 0 <= c < TIME_LIMIT && q.count((c as u16, n)) > 0
}

/// The walking edges before `upto` of destination `i` lead to settled or
/// queued nodes.
spec fn walk_closed_upto(
    walk: Seq<WalkEdges>,
    ids: Seq<u32>,
    times: Seq<u16>,
    q: Multiset<(u16, u32)>,
    i: int,
    upto: int,
) -> bool {
    forall|k: int|
        1 <= k < upto && k < walk[ids[i] as int]@.len() && (#[trigger] walk_hop(walk, ids[i], times[i] as int, k)).1
            < TIME_LIMIT ==> settled_or_queued(
            ids,
            times,
            q,
            walk_hop(walk, ids[i], times[i] as int, k).0,
            walk_hop(walk, ids[i], times[i] as int, k).1,
        )
}

/// The ride from destination `i` leads to a settled or queued node.
spec fn pt_closed(
    walk: Seq<WalkEdges>,
    pt: Seq<PtEdges>,
    tss: i32,
    ids: Seq<u32>,
    times: Seq<u16>,
    q: Multiset<(u16, u32)>,
    i: int,
) -> bool {
    pt_hop(walk, pt, tss, ids[i], times[i] as int) matches Some(h) ==> settled_or_queued(ids, times, q, h.0, h.1)
}

/// The destinations listed so far, apart from the closure conditions.
spec fn listing_ok(
    walk: Seq<WalkEdges>,
    pt: Seq<PtEdges>,
    tss: i32,
    start: u32,
    init: u16,
    ids: Seq<u32>,
    times: Seq<u16>,
) -> bool {
    &&& ids.len() == times.len()
    &&& ids.len() > 0 ==> ids[0] == start && times[0] == init
    &&& forall|i: int, j: int| 0 <= i < j < ids.len() ==> ids[i] != ids[j]
    &&& forall|i: int, j: int| 0 <= i <= j < ids.len() ==> times[i] <= times[j]
    &&& forall|i: int| 0 <= i < ids.len() ==> (ids[i] as int) < walk.len() && times[i] < TIME_LIMIT
    &&& forall|j: int| 0 < j < ids.len() ==> #[trigger] reached_from_earlier(walk, pt, tss, ids, times, j)
}

/// The state of the search: the visited marks match the destinations, the
/// destinations and the queue are as above, every destination but the last
/// is closed, and the last one is closed along its edges before `kdone` and,
/// where `ptdone`, along its ride.
#[verifier::opaque]
spec fn search_inv(
    walk: Seq<WalkEdges>,
    pt: Seq<PtEdges>,
    tss: i32,
    start: u32,
    init: u16,
    vis: Seq<bool>,
    ids: Seq<u32>,
    times: Seq<u16>,
    q: Multiset<(u16, u32)>,
    kdone: int,
    ptdone: bool,
) -> bool {
    &&& valid_graph(walk, pt)
    &&& (start as int) < walk.len()
    &&& init < TIME_LIMIT
    &&& vis.len() == walk.len()
    &&& forall|n: u32| (n as int) < walk.len() ==> vis[n as int] == ids.contains(n)
    &&& listing_ok(walk, pt, tss, start, init, ids, times)
    &&& queue_ok(walk, pt, tss, start, init, ids, times, q)
    &&& forall|i: int|
        0 <= i < ids.len() - 1 ==> #[trigger] walk_closed_upto(walk, ids, times, q, i, walk[ids[i] as int]@.len() as int)
    &&& forall|i: int| 0 <= i < ids.len() - 1 ==> #[trigger] pt_closed(walk, pt, tss, ids, times, q, i)
    &&& ids.len() > 0 ==> walk_closed_upto(walk, ids, times, q, ids.len() - 1, kdone)
    &&& ids.len() > 0 && ptdone ==> pt_closed(walk, pt, tss, ids, times, q, ids.len() - 1)
}

/// The edges of the last destination that are all closed.
spec fn last_edge_count(walk: Seq<WalkEdges>, ids: Seq<u32>) -> int {
    if ids.len() > 0 {
        walk[ids.last() as int]@.len() as int
    } else {
        0
    }
}

/// What a queued item is.
proof fn lemma_queued_item(
    walk: Seq<WalkEdges>,
    pt: Seq<PtEdges>,
    tss: i32,
    start: u32,
    init: u16,
    vis: Seq<bool>,
    ids: Seq<u32>,
    times: Seq<u16>,
    q: Multiset<(u16, u32)>,
    kdone: int,
    ptdone: bool,
    p: (u16, u32),
)
    requires
        search_inv(walk, pt, tss, start, init, vis, ids, times, q, kdone, ptdone),
        q.count(p) > 0,
    ensures
        (p.1 as int) < walk.len(),
        p.0 < TIME_LIMIT,
        vis.len() == walk.len(),
        vis[p.1 as int] == ids.contains(p.1),
        ids.len() == times.len(),
        valid_graph(walk, pt),
{
    reveal(search_inv);
}

/// The search starts with the start alone in the queue.
proof fn lemma_search_init(
    walk: Seq<WalkEdges>,
    pt: Seq<PtEdges>,
    tss: i32,
    start: u32,
    init: u16,
    vis: Seq<bool>,
    q: Multiset<(u16, u32)>,
)
    requires
        valid_graph(walk, pt),
        (start as int) < walk.len(),
        init < TIME_LIMIT,
        vis.len() == walk.len(),
        forall|n: int| 0 <= n < vis.len() ==> !vis[n],
        q == Multiset::<(u16, u32)>::empty().insert((init, start)),
    ensures
        search_inv(walk, pt, tss, start, init, vis, Seq::empty(), Seq::empty(), q, 0, true),
{
    reveal(search_inv);
    let ids = Seq::<u32>::empty();
    assert forall|n: u32| (n as int) < walk.len() implies vis[n as int] == ids.contains(n) by {
        assert(!ids.contains(n));
    }
}

/// Popping an item whose node was already visited keeps the state.
proof fn lemma_search_skip(
    walk: Seq<WalkEdges>,
    pt: Seq<PtEdges>,
    tss: i32,
    start: u32,
    init: u16,
    vis: Seq<bool>,
    ids: Seq<u32>,
    times: Seq<u16>,
    q: Multiset<(u16, u32)>,
    x: (u16, u32),
)
    requires
        search_inv(walk, pt, tss, start, init, vis, ids, times, q, last_edge_count(walk, ids), true),
        q.count(x) > 0,
        forall|y: (u16, u32)| q.count(y) > 0 ==> x.0 <= y.0,
        vis[x.1 as int],
    ensures
        search_inv(walk, pt, tss, start, init, vis, ids, times, q.remove(x), last_edge_count(walk, ids), true),
{
    reveal(search_inv);
    let q2 = q.remove(x);
    assert(ids.contains(x.1));
    let j0 = choose|j: int| 0 <= j < ids.len() && ids[j] == x.1;
    assert(times[j0] <= times.last());
    assert(times[j0] <= x.0);
    assert forall|n: u32, c: int| settled_or_queued(ids, times, q, n, c) implies settled_or_queued(
        ids,
        times,
        q2,
        n,
        c,
    ) by {
        if !(exists|j: int| 0 <= j < ids.len() && ids[j] == n && times[j] <= c) {
            if (c as u16, n) == x {
                assert(ids[j0] == n && times[j0] <= c);
            } else {
                assert(q2.count((c as u16, n)) == q.count((c as u16, n)));
            }
        }
    }
    assert forall|p: (u16, u32)| #[trigger] q2.count(p) > 0 implies q.count(p) > 0 by {}
    let last = ids.len() - 1;
    assert forall|i: int|
        0 <= i < ids.len() - 1 implies #[trigger] walk_closed_upto(walk, ids, times, q2, i, walk[ids[i] as int]@.len() as int) by {
        assert(walk_closed_upto(walk, ids, times, q, i, walk[ids[i] as int]@.len() as int));
    }
    assert forall|i: int| 0 <= i < ids.len() - 1 implies #[trigger] pt_closed(walk, pt, tss, ids, times, q2, i) by {
        assert(pt_closed(walk, pt, tss, ids, times, q, i));
    }
    if ids.len() > 0 {
        assert(walk_closed_upto(walk, ids, times, q, last, last_edge_count(walk, ids)));
        assert(pt_closed(walk, pt, tss, ids, times, q, last));
    }
}

/// Appending a node reached from a listed one, no earlier than the last
/// time, keeps the listing.
proof fn lemma_listing_push(
    walk: Seq<WalkEdges>,
    pt: Seq<PtEdges>,
    tss: i32,
    start: u32,
    init: u16,
    ids: Seq<u32>,
    times: Seq<u16>,
    n: u32,
    c: u16,
    from: int,
)
    requires
        listing_ok(walk, pt, tss, start, init, ids, times),
        !ids.contains(n),
        (n as int) < walk.len(),
        c < TIME_LIMIT,
        ids.len() == 0 ==> n == start && c == init,
        ids.len() > 0 ==> times.last() <= c,
        ids.len() > 0 ==> 0 <= from < ids.len() && arrives(walk, pt, tss, ids[from], times[from] as int, n, c as int),
    ensures
        listing_ok(walk, pt, tss, start, init, ids.push(n), times.push(c)),
{
    let ids2 = ids.push(n);
    let times2 = times.push(c);
    assert(ids2.len() == times2.len());
    if ids.len() > 0 {
        assert(ids2[0] == ids[0] && times2[0] == times[0]);
    } else {
        assert(ids2[0] == n && times2[0] == c);
    }
    assert forall|i: int, j: int| 0 <= i < j < ids2.len() implies ids2[i] != ids2[j] by {
        if j == ids.len() {
            assert(ids[i] != n);
        } else {
            assert(ids[i] != ids[j]);
        }
    }
    assert forall|i: int, j: int| 0 <= i <= j < ids2.len() implies times2[i] <= times2[j] by {
        if j == ids.len() && i < ids.len() {
            assert(times[i] <= times[ids.len() - 1]);
        } else if j < ids.len() {
            assert(times[i] <= times[j]);
        }
    }
    assert forall|i: int| 0 <= i < ids2.len() implies (ids2[i] as int) < walk.len() && times2[i] < TIME_LIMIT by {
        if i < ids.len() {
            assert((ids[i] as int) < walk.len() && times[i] < TIME_LIMIT);
        }
    }
    assert forall|j: int| 0 < j < ids2.len() implies #[trigger] reached_from_earlier(walk, pt, tss, ids2, times2, j) by {
        if j < ids.len() {
            assert(reached_from_earlier(walk, pt, tss, ids, times, j));
            let i = choose|i: int| 0 <= i < j && #[trigger] arrives(walk, pt, tss, ids[i], times[i] as int, ids[j], times[j] as int);
            assert(arrives(walk, pt, tss, ids2[i], times2[i] as int, ids2[j], times2[j] as int));
        } else {
            assert(arrives(walk, pt, tss, ids2[from], times2[from] as int, ids2[j], times2[j] as int));
        }
    }
}

/// Popping an item whose node is unvisited makes it the next destination.
proof fn lemma_search_settle(
    walk: Seq<WalkEdges>,
    pt: Seq<PtEdges>,
    tss: i32,
    start: u32,
    init: u16,
    vis: Seq<bool>,
    ids: Seq<u32>,
    times: Seq<u16>,
    q: Multiset<(u16, u32)>,
    x: (u16, u32),
)
    requires
        search_inv(walk, pt, tss, start, init, vis, ids, times, q, last_edge_count(walk, ids), true),
        q.count(x) > 0,
        forall|y: (u16, u32)| q.count(y) > 0 ==> x.0 <= y.0,
        !vis[x.1 as int],
    ensures
        search_inv(
            walk,
            pt,
            tss,
            start,
            init,
            vis.update(x.1 as int, true),
            ids.push(x.1),
            times.push(x.0),
            q.remove(x),
            1,
            false,
        ),
{
    reveal(search_inv);
    let q2 = q.remove(x);
    let ids2 = ids.push(x.1);
    let times2 = times.push(x.0);
    let vis2 = vis.update(x.1 as int, true);
    let n = x.1;
    let c = x.0;
    assert(!ids.contains(n));
    assert((n as int) < walk.len() && c < TIME_LIMIT);
    assert(ids.len() == 0 ==> x == (init, start));
    assert(ids.len() > 0 ==> times.last() <= c);
    // visited marks
    assert forall|m: u32| (m as int) < walk.len() implies vis2[m as int] == ids2.contains(m) by {
        if m == n {
            assert(ids2[ids.len() as int] == n);
        } else {
            if ids.contains(m) {
                let j = choose|j: int| 0 <= j < ids.len() && ids[j] == m;
                assert(ids2[j] == m);
            }
            if ids2.contains(m) {
                let j = choose|j: int| 0 <= j < ids2.len() && ids2[j] == m;
                assert(j < ids.len());
                assert(ids[j] == m);
            }
        }
    }
    if ids.len() > 0 {
        let i = choose|i: int| 0 <= i < ids.len() && #[trigger] arrives(walk, pt, tss, ids[i], times[i] as int, n, c as int);
        lemma_listing_push(walk, pt, tss, start, init, ids, times, n, c, i);
    } else {
        lemma_listing_push(walk, pt, tss, start, init, ids, times, n, c, 0);
    }
    assert(listing_ok(walk, pt, tss, start, init, ids2, times2));
    // queue
    assert forall|p: (u16, u32)| #[trigger] q2.count(p) > 0 implies {
        &&& (p.1 as int) < walk.len()
        &&& p.0 < TIME_LIMIT
        &&& ids2.len() == 0 ==> p == (init, start) && q2.count(p) == 1
        &&& ids2.len() > 0 ==> times2.last() <= p.0
        &&& ids2.len() > 0 ==> exists|i: int|
            0 <= i < ids2.len() && #[trigger] arrives(walk, pt, tss, ids2[i], times2[i] as int, p.1, p.0 as int)
    } by {
        assert(q.count(p) > 0);
        if ids.len() == 0 {
            assert(p == x);
        } else {
            let i = choose|i: int| 0 <= i < ids.len() && #[trigger] arrives(walk, pt, tss, ids[i], times[i] as int, p.1, p.0 as int);
            assert(arrives(walk, pt, tss, ids2[i], times2[i] as int, p.1, p.0 as int));
        }
    }
    assert(queue_ok(walk, pt, tss, start, init, ids2, times2, q2));
    // closure
    assert forall|m: u32, h: int| settled_or_queued(ids, times, q, m, h) implies settled_or_queued(
        ids2,
        times2,
        q2,
        m,
        h,
    ) by {
        if exists|j: int| 0 <= j < ids.len() && ids[j] == m && times[j] <= h {
            let j = choose|j: int| 0 <= j < ids.len() && ids[j] == m && times[j] <= h;
            assert(ids2[j] == m && times2[j] <= h);
        } else if (h as u16, m) == x {
            assert(ids2[ids.len() as int] == m && times2[ids.len() as int] <= h);
        } else {
            assert(q2.count((h as u16, m)) == q.count((h as u16, m)));
        }
    }
    assert forall|i: int|
        0 <= i < ids2.len() - 1 implies #[trigger] walk_closed_upto(walk, ids2, times2, q2, i, walk[ids2[i] as int]@.len() as int) by {
        if i < ids.len() - 1 {
            assert(walk_closed_upto(walk, ids, times, q, i, walk[ids[i] as int]@.len() as int));
        } else {
            assert(walk_closed_upto(walk, ids, times, q, i, last_edge_count(walk, ids)));
        }
        assert(ids2[i] == ids[i] && times2[i] == times[i]);
    }
    assert forall|i: int| 0 <= i < ids2.len() - 1 implies #[trigger] pt_closed(walk, pt, tss, ids2, times2, q2, i) by {
        assert(pt_closed(walk, pt, tss, ids, times, q, i));
        assert(ids2[i] == ids[i] && times2[i] == times[i]);
    }
}

/// Queuing (within the limit) the `k`-th walking edge of the last
/// destination closes that edge.
proof fn lemma_search_walk_step(
    walk: Seq<WalkEdges>,
    pt: Seq<PtEdges>,
    tss: i32,
    start: u32,
    init: u16,
    vis: Seq<bool>,
    ids: Seq<u32>,
    times: Seq<u16>,
    q: Multiset<(u16, u32)>,
    k: int,
    q2: Multiset<(u16, u32)>,
)
    requires
        search_inv(walk, pt, tss, start, init, vis, ids, times, q, k, false),
        ids.len() > 0,
        1 <= k < walk[ids.last() as int]@.len(),
        q2 == if walk_hop(walk, ids.last(), times.last() as int, k).1 < TIME_LIMIT {
            q.insert(
                (
                    walk_hop(walk, ids.last(), times.last() as int, k).1 as u16,
                    walk_hop(walk, ids.last(), times.last() as int, k).0,
                ),
            )
        } else {
            q
        },
    ensures
        search_inv(walk, pt, tss, start, init, vis, ids, times, q2, k + 1, false),
{
    reveal(search_inv);
    let last = ids.len() - 1;
    let h = walk_hop(walk, ids.last(), times.last() as int, k);
    assert(ids[last] == ids.last() && times[last] == times.last());
    assert((ids[last] as int) < walk.len());
    assert(walk[ids[last] as int]@[k] == walk[ids[last] as int]@[k]);
    assert forall|p: (u16, u32)| #[trigger] q.count(p) > 0 implies q2.count(p) > 0 by {}
    assert forall|m: u32, c: int| settled_or_queued(ids, times, q, m, c) implies settled_or_queued(
        ids,
        times,
        q2,
        m,
        c,
    ) by {}
    if h.1 < TIME_LIMIT {
        let item = (h.1 as u16, h.0);
        assert(arrives(walk, pt, tss, ids[last], times[last] as int, h.0, h.1));
        assert forall|p: (u16, u32)| #[trigger] q2.count(p) > 0 implies {
            &&& (p.1 as int) < walk.len()
            &&& p.0 < TIME_LIMIT
            &&& ids.len() == 0 ==> p == (init, start) && q2.count(p) == 1
            &&& ids.len() > 0 ==> times.last() <= p.0
            &&& ids.len() > 0 ==> exists|i: int|
                0 <= i < ids.len() && #[trigger] arrives(walk, pt, tss, ids[i], times[i] as int, p.1, p.0 as int)
        } by {
            if p == item {
                assert(arrives(walk, pt, tss, ids[last], times[last] as int, p.1, p.0 as int));
            } else {
                assert(q.count(p) > 0);
            }
        }
        assert(settled_or_queued(ids, times, q2, h.0, h.1));
    }
    assert forall|i: int|
        0 <= i < ids.len() - 1 implies #[trigger] walk_closed_upto(walk, ids, times, q2, i, walk[ids[i] as int]@.len() as int) by {
        assert(walk_closed_upto(walk, ids, times, q, i, walk[ids[i] as int]@.len() as int));
    }
    assert forall|i: int| 0 <= i < ids.len() - 1 implies #[trigger] pt_closed(walk, pt, tss, ids, times, q2, i) by {
        assert(pt_closed(walk, pt, tss, ids, times, q, i));
    }
    assert(walk_closed_upto(walk, ids, times, q, last, k));
    assert forall|kk: int|
        1 <= kk < k + 1 && kk < walk[ids[last] as int]@.len() && (#[trigger] walk_hop(walk, ids[last], times[last] as int, kk)).1
            < TIME_LIMIT implies settled_or_queued(
        ids,
        times,
        q2,
        walk_hop(walk, ids[last], times[last] as int, kk).0,
        walk_hop(walk, ids[last], times[last] as int, kk).1,
    ) by {
        if kk < k {
            assert(settled_or_queued(
                ids,
                times,
                q,
                walk_hop(walk, ids[last], times[last] as int, kk).0,
                walk_hop(walk, ids[last], times[last] as int, kk).1,
            ));
        }
    }
}

/// Queuing the ride of the last destination, if any, closes it.
proof fn lemma_search_pt_step(
    walk: Seq<WalkEdges>,
    pt: Seq<PtEdges>,
    tss: i32,
    start: u32,
    init: u16,
    vis: Seq<bool>,
    ids: Seq<u32>,
    times: Seq<u16>,
    q: Multiset<(u16, u32)>,
    q2: Multiset<(u16, u32)>,
)
    requires
        search_inv(walk, pt, tss, start, init, vis, ids, times, q, last_edge_count(walk, ids), false),
        ids.len() > 0,
        q2 == match pt_hop(walk, pt, tss, ids.last(), times.last() as int) {
            Some(h) => q.insert((h.1 as u16, h.0)),
            None => q,
        },
    ensures
        search_inv(walk, pt, tss, start, init, vis, ids, times, q2, last_edge_count(walk, ids), true),
{
    reveal(search_inv);
    let last = ids.len() - 1;
    assert(ids[last] == ids.last() && times[last] == times.last());
    assert((ids[last] as int) < walk.len());
    assert forall|p: (u16, u32)| #[trigger] q.count(p) > 0 implies q2.count(p) > 0 by {}
    assert forall|m: u32, c: int| settled_or_queued(ids, times, q, m, c) implies settled_or_queued(
        ids,
        times,
        q2,
        m,
        c,
    ) by {}
    match pt_hop(walk, pt, tss, ids.last(), times.last() as int) {
        Some(h) => {
            let item = (h.1 as u16, h.0);
            let m = ids[last] as int;
            assert(walk[m]@[0].cost.0 == 1);
            assert(m < pt.len() && pt[m]@.len() >= 1);
            let deps = pt[m]@;
            let arrival = (#[verifier::truncate] (tss as u32)) as int + times[last] as int;
            lemma_first_departure(deps, arrival, 1);
            assert(0 <= h.1 < TIME_LIMIT);
            assert((h.0 as int) < walk.len());
            assert(arrives(walk, pt, tss, ids[last], times[last] as int, h.0, h.1));
            assert forall|p: (u16, u32)| #[trigger] q2.count(p) > 0 implies {
                &&& (p.1 as int) < walk.len()
                &&& p.0 < TIME_LIMIT
                &&& ids.len() == 0 ==> p == (init, start) && q2.count(p) == 1
                &&& ids.len() > 0 ==> times.last() <= p.0
                &&& ids.len() > 0 ==> exists|i: int|
                    0 <= i < ids.len() && #[trigger] arrives(walk, pt, tss, ids[i], times[i] as int, p.1, p.0 as int)
            } by {
                if p == item {
                    assert(arrives(walk, pt, tss, ids[last], times[last] as int, p.1, p.0 as int));
                } else {
                    assert(q.count(p) > 0);
                }
            }
            assert(settled_or_queued(ids, times, q2, h.0, h.1));
        },
        None => {},
    }
    assert forall|i: int|
        0 <= i < ids.len() - 1 implies #[trigger] walk_closed_upto(walk, ids, times, q2, i, walk[ids[i] as int]@.len() as int) by {
        assert(walk_closed_upto(walk, ids, times, q, i, walk[ids[i] as int]@.len() as int));
    }
    assert forall|i: int| 0 <= i < ids.len() - 1 implies #[trigger] pt_closed(walk, pt, tss, ids, times, q2, i) by {
        assert(pt_closed(walk, pt, tss, ids, times, q, i));
    }
    assert(walk_closed_upto(walk, ids, times, q, last, last_edge_count(walk, ids)));
}

/// With the queue empty, the destinations are the search result.
proof fn lemma_search_finish(
    walk: Seq<WalkEdges>,
    pt: Seq<PtEdges>,
    tss: i32,
    start: u32,
    init: u16,
    vis: Seq<bool>,
    ids: Seq<u32>,
    times: Seq<u16>,
    q: Multiset<(u16, u32)>,
)
    requires
        search_inv(walk, pt, tss, start, init, vis, ids, times, q, last_edge_count(walk, ids), true),
        ids.len() > 0,
        q.len() == 0,
    ensures
        is_search_result(walk, pt, tss, start, init, ids, times),
{
    reveal(search_inv);
    assert(q =~= Multiset::empty());
    let last = ids.len() - 1;
    assert(walk_closed_upto(walk, ids, times, q, last, last_edge_count(walk, ids)));
    assert(pt_closed(walk, pt, tss, ids, times, q, last));
    assert forall|i: int, k: int|
        0 <= i < ids.len() && 1 <= k < walk[ids[i] as int]@.len()
            && (#[trigger] walk_hop(walk, ids[i], times[i] as int, k)).1 < TIME_LIMIT implies exists|j: int|
        0 <= j < ids.len() && ids[j] == walk_hop(walk, ids[i], times[i] as int, k).0 && times[j]
            <= walk_hop(walk, ids[i], times[i] as int, k).1 by {
        let h = walk_hop(walk, ids[i], times[i] as int, k);
        if i < last {
            assert(walk_closed_upto(walk, ids, times, q, i, walk[ids[i] as int]@.len() as int));
        }
        assert(settled_or_queued(ids, times, q, h.0, h.1));
    }
    assert forall|i: int|
        0 <= i < ids.len() implies ((#[trigger] pt_hop(walk, pt, tss, ids[i], times[i] as int)) matches Some(h)
            ==> exists|j: int| 0 <= j < ids.len() && ids[j] == h.0 && times[j] <= h.1) by {
        if i < last {
            assert(pt_closed(walk, pt, tss, ids, times, q, i));
        }
    }
}

/// The destinations reachable within the hour from `start`, which is reached
/// `init_travel_time` seconds into a trip that starts `trip_start_seconds`
/// past midnight, in the order of their travel times, with those times.
///
/// A node's walking list starts with a header whose cost is 1 where the node
/// is also a stop; from a stop the first service that can still be caught
/// is taken. No destinations are returned where the start is already an
/// hour or more away. By `lemma_search_result_unique` the destinations and
/// their times are determined; only the order of destinations reached at
/// the same time is left open.
pub fn get_travel_times(
    graph_walk: &Vec<WalkEdges>,
    graph_pt: &Vec<PtEdges>,
    start: NodeID,
    trip_start_seconds: i32,
    init_travel_time: Cost,
) -> (r: (u32, Vec<u32>, Vec<u16>))
    requires
        init_travel_time.0 < TIME_LIMIT ==> valid_graph(graph_walk@, graph_pt@),
        init_travel_time.0 < TIME_LIMIT ==> (start.0 as int) < graph_walk@.len(),
    ensures
        r.0 == start.0,
        init_travel_time.0 >= TIME_LIMIT ==> r.1@.len() == 0 && r.2@.len() == 0,
        init_travel_time.0 < TIME_LIMIT ==> is_search_result(
            graph_walk@,
            graph_pt@,
            trip_start_seconds,
            start.0,
            init_travel_time.0,
            r.1@,
            r.2@,
        ),
{
    let ghost walk = graph_walk@;
    let ghost pt = graph_pt@;
    let time_limit: Cost = Cost(TIME_LIMIT);
    let mut destination_ids: Vec<u32> = Vec::new();
    let mut destination_travel_times: Vec<u16> = Vec::new();
    // catch where start node is over an hour from centroid
    if init_travel_time.0 >= time_limit.0 {
        return (start.0, destination_ids, destination_travel_times);
    }
    let mut queue = BucketQueue::new(TIME_LIMIT);
    queue.push(init_travel_time.0, start.0);
    let node_count = graph_walk.len();
    let mut nodes_visited: Vec<bool> = Vec::new();
    while nodes_visited.len() < node_count
        invariant
            node_count == walk.len(),
            forall|n: int| 0 <= n < nodes_visited@.len() ==> !nodes_visited@[n],
            nodes_visited@.len() <= node_count,
        decreases node_count - nodes_visited@.len(),
    {
        nodes_visited.push(false);
    }
    proof {
        lemma_search_init(walk, pt, trip_start_seconds, start.0, init_travel_time.0, nodes_visited@, queue@);
    }
    loop
        invariant
            walk == graph_walk@,
            pt == graph_pt@,
            time_limit.0 == TIME_LIMIT,
            queue.wf(),
            queue.limit() == TIME_LIMIT as nat,
            search_inv(
                walk,
                pt,
                trip_start_seconds,
                start.0,
                init_travel_time.0,
                nodes_visited@,
                destination_ids@,
                destination_travel_times@,
                queue@,
                last_edge_count(walk, destination_ids@),
                true,
            ),
            destination_ids@.len() > 0 || queue@.len() > 0,
        ensures
            queue@.len() == 0,
        decreases unvisited(nodes_visited@), queue@.len(),
    {
        let ghost q0 = queue@;
        let popped = queue.pop();
        let (cost, node) = match popped {
            None => {
                break;
            },
            Some(item) => item,
        };
        proof {
            assert(Multiset::singleton((cost, node)).subset_of(q0));
            lemma_queued_item(
                walk,
                pt,
                trip_start_seconds,
                start.0,
                init_travel_time.0,
                nodes_visited@,
                destination_ids@,
                destination_travel_times@,
                q0,
                last_edge_count(walk, destination_ids@),
                true,
                (cost, node),
            );
        }
        if nodes_visited[node as usize] {
            proof {
                lemma_search_skip(
                    walk,
                    pt,
                    trip_start_seconds,
                    start.0,
                    init_travel_time.0,
                    nodes_visited@,
                    destination_ids@,
                    destination_travel_times@,
                    q0,
                    (cost, node),
                );
            }
            continue;
        }
        proof {
            lemma_search_settle(
                walk,
                pt,
                trip_start_seconds,
                start.0,
                init_travel_time.0,
                nodes_visited@,
                destination_ids@,
                destination_travel_times@,
                q0,
                (cost, node),
            );
            lemma_unvisited_mark(nodes_visited@, node as int);
            assert(walk[node as int]@.len() >= 1);
        }
        destination_ids.push(node);
        destination_travel_times.push(cost);
        nodes_visited.set(node as usize, true);
        // Finding adjacent walk nodes
        // skip 1st edge as it has info on whether node also has a PT service
        let edges = &graph_walk[node as usize];
        let edge_count = edges.len();
        let mut k: usize = 1;
        while k < edge_count
            invariant
                walk == graph_walk@,
                *edges == walk[node as int],
                edge_count == walk[node as int]@.len(),
                1 <= k <= edge_count,
                destination_ids@.len() > 0,
                destination_ids@.last() == node,
                destination_travel_times@.last() == cost,
                time_limit.0 == TIME_LIMIT,
                queue.wf(),
                queue.limit() == TIME_LIMIT as nat,
                search_inv(
                    walk,
                    pt,
                    trip_start_seconds,
                    start.0,
                    init_travel_time.0,
                    nodes_visited@,
                    destination_ids@,
                    destination_travel_times@,
                    queue@,
                    k as int,
                    false,
                ),
            decreases edge_count - k,
        {
            let ghost q1 = queue@;
            let edge = edges.get(k);
            let new_cost: u32 = cost as u32 + edge.cost.0 as u32;
            if new_cost < time_limit.0 as u32 {
                queue.push(new_cost as u16, edge.to.0);
            }
            proof {
                lemma_search_walk_step(
                    walk,
                    pt,
                    trip_start_seconds,
                    start.0,
                    init_travel_time.0,
                    nodes_visited@,
                    destination_ids@,
                    destination_travel_times@,
                    q1,
                    k as int,
                    queue@,
                );
            }
            k = k + 1;
        }
        let ghost q2 = queue@;
        // if node has a timetable associated with it: the first value in the first 'edge'
        // will be 1 if it does, and 0 if it doesn't
        if edges.get(0).cost.0 == 1 {
            get_pt_connections(
                graph_pt,
                cost,
                &mut queue,
                time_limit,
                trip_start_seconds,
                &NodeID(node),
            );
        }
        proof {
            lemma_search_pt_step(
                walk,
                pt,
                trip_start_seconds,
                start.0,
                init_travel_time.0,
                nodes_visited@,
                destination_ids@,
                destination_travel_times@,
                q2,
                queue@,
            );
        }
    }
    proof {
        lemma_search_finish(
            walk,
            pt,
            trip_start_seconds,
            start.0,
            init_travel_time.0,
            nodes_visited@,
            destination_ids@,
            destination_travel_times@,
            queue@,
        );
    }
    (start.0, destination_ids, destination_travel_times)
}

/// What a search returns: nothing where the start is already an hour or
/// more away, else the search result.
pub open spec fn is_search_outcome(
    walk: Seq<WalkEdges>,
    pt: Seq<PtEdges>,
    trip_start_seconds: i32,
    start: u32,
    init: u16,
    ids: Seq<u32>,
    times: Seq<u16>,
) -> bool {
    &&& init >= TIME_LIMIT ==> ids.len() == 0 && times.len() == 0
    &&& init < TIME_LIMIT ==> is_search_result(walk, pt, trip_start_seconds, start, init, ids, times)
}

/// The search from one start followed by its scoring: `None` where the
/// scoring inputs do not fit the destinations found (an index that is not
/// there, or a score that leaves `i64`).
pub fn floodfill(
    graph_walk: &Vec<WalkEdges>,
    graph_pt: &Vec<PtEdges>,
    start: NodeID,
    node_values_1d: &[i32],
    travel_time_relationships: &[i32],
    subpurpose_purpose_lookup: &[i8; 32],
    trip_start_seconds: i32,
    init_travel_time: Cost,
    count_original_nodes: u32,
    node_values_padding_row_count: u32,
    target_destinations: &[u32],
) -> (r: Option<(i32, u32, [i64; 32], Vec<u32>, Vec<u16>)>)
    requires
        init_travel_time.0 < TIME_LIMIT ==> valid_graph(graph_walk@, graph_pt@),
        init_travel_time.0 < TIME_LIMIT ==> (start.0 as int) < graph_walk@.len(),
    ensures
        exists|ids: Seq<u32>, times: Seq<u16>|
            {
                &&& is_search_outcome(graph_walk@, graph_pt@, trip_start_seconds, start.0, init_travel_time.0, ids, times)
                &&& (r is Some <==> scoring_inputs_ok(
                    ids,
                    times,
                    node_values_1d@,
                    travel_time_relationships@,
                    subpurpose_purpose_lookup@,
                    count_original_nodes,
                    node_values_padding_row_count,
                    target_destinations@,
                ))
                &&& (r matches Some(x) ==> is_scoring_of(
                    start.0,
                    ids,
                    times,
                    node_values_1d@,
                    travel_time_relationships@,
                    subpurpose_purpose_lookup@,
                    count_original_nodes,
                    node_values_padding_row_count,
                    target_destinations@,
                    x,
                ))
            },
{
    let travel_times = get_travel_times(graph_walk, graph_pt, start, trip_start_seconds, init_travel_time);
    let ok = scoring_inputs_valid(
        &travel_times,
        node_values_1d,
        travel_time_relationships,
        subpurpose_purpose_lookup,
        count_original_nodes,
        node_values_padding_row_count,
        target_destinations,
    );
    if !ok {
        assert(is_search_outcome(graph_walk@, graph_pt@, trip_start_seconds, start.0, init_travel_time.0, travel_times.1@, travel_times.2@));
        return None;
    }
    let scored = get_all_scores_and_time_to_target_destinations(
        &travel_times,
        node_values_1d,
        travel_time_relationships,
        subpurpose_purpose_lookup,
        count_original_nodes,
        node_values_padding_row_count,
        target_destinations,
    );
    assert(is_search_outcome(graph_walk@, graph_pt@, trip_start_seconds, start.0, init_travel_time.0, travel_times.1@, travel_times.2@));
    Some(scored)
}

/// Whether the two graphs are fit for searching (see `valid_graph`).
#[verifier::loop_isolation(false)]
pub fn graph_is_valid(graph_walk: &Vec<WalkEdges>, graph_pt: &Vec<PtEdges>) -> (ok: bool)
    ensures
        ok == valid_graph(graph_walk@, graph_pt@),
{
    let ghost walk = graph_walk@;
    let ghost pt = graph_pt@;
    let node_count = graph_walk.len();
    let mut n: usize = 0;
    while n < node_count
        invariant
            n <= node_count,
            node_count == walk.len(),
            forall|m: int| 0 <= m < n ==> (#[trigger] walk[m]@).len() >= 1,
            forall|m: int, k: int|
                0 <= m < n && 1 <= k < walk[m]@.len() ==> ((#[trigger] walk[m]@[k]).to.0 as int) < walk.len(),
            forall|m: int|
                0 <= m < n && (#[trigger] walk[m]@[0]).cost.0 == 1 ==> {
                    &&& m < pt.len()
                    &&& pt[m]@.len() >= 1
                    &&& (pt[m]@[0].leavetime.0 as int) < walk.len()
                },
        decreases node_count - n,
    {
        let edges = &graph_walk[n];
        let edge_count = edges.len();
        if edge_count < 1 {
            assert(walk[n as int]@.len() < 1);
            return false;
        }
        let mut k: usize = 1;
        while k < edge_count
            invariant
                1 <= k <= edge_count,
                *edges == walk[n as int],
                edge_count == walk[n as int]@.len(),
                forall|kk: int| 1 <= kk < k ==> ((#[trigger] walk[n as int]@[kk]).to.0 as int) < walk.len(),
            decreases edge_count - k,
        {
            if edges.get(k).to.0 as usize >= node_count {
                assert(!((walk[n as int]@[k as int].to.0 as int) < walk.len()));
                return false;
            }
            k = k + 1;
        }
        if edges.get(0).cost.0 == 1 {
            if n >= graph_pt.len() {
                assert(walk[n as int]@[0].cost.0 == 1);
                return false;
            }
            let deps = &graph_pt[n];
            if deps.len() < 1 {
                assert(walk[n as int]@[0].cost.0 == 1);
                return false;
            }
            if deps.get(0).leavetime.0 as usize >= node_count {
                assert(walk[n as int]@[0].cost.0 == 1);
                return false;
            }
        }
        n = n + 1;
    }
    true
}

/// Destination `i` of one list is in the other list with the same time.
pub open spec fn matched_in(ids_a: Seq<u32>, times_a: Seq<u16>, ids_b: Seq<u32>, times_b: Seq<u16>, i: int) -> bool {
    exists|j: int| 0 <= j < ids_b.len() && ids_b[j] == ids_a[i] && times_b[j] == times_a[i]
}

/// A destination of list `a` at time `level` is matched in list `b`, given
/// that every earlier entry of `a` at that time is, and that every entry of
/// either list at an earlier time is.
proof fn lemma_unique_entry(
    walk: Seq<WalkEdges>,
    pt: Seq<PtEdges>,
    tss: i32,
    start: u32,
    init: u16,
    ids_a: Seq<u32>,
    times_a: Seq<u16>,
    ids_b: Seq<u32>,
    times_b: Seq<u16>,
    level: int,
    i: int,
)
    requires
        is_search_result(walk, pt, tss, start, init, ids_a, times_a),
        is_search_result(walk, pt, tss, start, init, ids_b, times_b),
        0 <= i < ids_a.len(),
        times_a[i] == level,
        forall|ia: int| 0 <= ia < ids_a.len() && times_a[ia] < level ==> matched_in(ids_a, times_a, ids_b, times_b, ia),
        forall|jb: int| 0 <= jb < ids_b.len() && times_b[jb] < level ==> matched_in(ids_b, times_b, ids_a, times_a, jb),
        forall|ia: int| 0 <= ia < i && times_a[ia] == level ==> matched_in(ids_a, times_a, ids_b, times_b, ia),
    ensures
        matched_in(ids_a, times_a, ids_b, times_b, i),
{
    let n = ids_a[i];
    let t = times_a[i] as int;
    if i == 0 {
        assert(ids_b[0] == n && times_b[0] == times_a[0]);
        return;
    }
    assert(reached_from_earlier(walk, pt, tss, ids_a, times_a, i));
    let ip = choose|ip: int| 0 <= ip < i && #[trigger] arrives(walk, pt, tss, ids_a[ip], times_a[ip] as int, n, t);
    assert(times_a[ip] <= times_a[i]);
    assert(matched_in(ids_a, times_a, ids_b, times_b, ip));
    let jp = choose|jp: int| 0 <= jp < ids_b.len() && ids_b[jp] == ids_a[ip] && times_b[jp] == times_a[ip];
    let m = ids_a[ip];
    let tp = times_a[ip] as int;
    // the hop from m is one of list b's too, so n is there no later than t
    let j: int;
    if exists|k: int| 1 <= k < walk[m as int]@.len() && #[trigger] walk_hop(walk, m, tp, k) == (n, t) && t < TIME_LIMIT {
        let k = choose|k: int| 1 <= k < walk[m as int]@.len() && #[trigger] walk_hop(walk, m, tp, k) == (n, t) && t < TIME_LIMIT;
        assert(walk_hop(walk, ids_b[jp], times_b[jp] as int, k).1 < TIME_LIMIT);
        j = choose|j: int| 0 <= j < ids_b.len() && ids_b[j] == n && times_b[j] <= t;
    } else {
        assert(pt_hop(walk, pt, tss, m, tp) == Some((n, t)));
        assert(pt_hop(walk, pt, tss, ids_b[jp], times_b[jp] as int) == Some((n, t)));
        j = choose|j: int| 0 <= j < ids_b.len() && ids_b[j] == n && times_b[j] <= t;
    }
    if times_b[j] < level {
        assert(matched_in(ids_b, times_b, ids_a, times_a, j));
        let i2 = choose|i2: int| 0 <= i2 < ids_a.len() && ids_a[i2] == ids_b[j] && times_a[i2] == times_b[j];
        assert(i2 == i);
    }
    assert(ids_b[j] == ids_a[i] && times_b[j] == times_a[i]);
}

/// Every destination of list `a` at time `level`, up to index `i`, is
/// matched in list `b`, given that entries of either list at earlier times
/// are.
proof fn lemma_unique_level(
    walk: Seq<WalkEdges>,
    pt: Seq<PtEdges>,
    tss: i32,
    start: u32,
    init: u16,
    ids_a: Seq<u32>,
    times_a: Seq<u16>,
    ids_b: Seq<u32>,
    times_b: Seq<u16>,
    level: int,
    i: int,
)
    requires
        is_search_result(walk, pt, tss, start, init, ids_a, times_a),
        is_search_result(walk, pt, tss, start, init, ids_b, times_b),
        0 <= i <= ids_a.len(),
        forall|ia: int| 0 <= ia < ids_a.len() && times_a[ia] < level ==> matched_in(ids_a, times_a, ids_b, times_b, ia),
        forall|jb: int| 0 <= jb < ids_b.len() && times_b[jb] < level ==> matched_in(ids_b, times_b, ids_a, times_a, jb),
    ensures
        forall|ia: int| 0 <= ia < i && times_a[ia] == level ==> matched_in(ids_a, times_a, ids_b, times_b, ia),
    decreases i,
{
    if i > 0 {
        lemma_unique_level(walk, pt, tss, start, init, ids_a, times_a, ids_b, times_b, level, i - 1);
        if times_a[i - 1] == level {
            lemma_unique_entry(walk, pt, tss, start, init, ids_a, times_a, ids_b, times_b, level, i - 1);
        }
    }
}

/// Every entry of either list at a time up to `level` is matched in the
/// other.
proof fn lemma_unique_upto(
    walk: Seq<WalkEdges>,
    pt: Seq<PtEdges>,
    tss: i32,
    start: u32,
    init: u16,
    ids_a: Seq<u32>,
    times_a: Seq<u16>,
    ids_b: Seq<u32>,
    times_b: Seq<u16>,
    level: int,
)
    requires
        is_search_result(walk, pt, tss, start, init, ids_a, times_a),
        is_search_result(walk, pt, tss, start, init, ids_b, times_b),
        -1 <= level,
    ensures
        forall|ia: int| 0 <= ia < ids_a.len() && times_a[ia] <= level ==> matched_in(ids_a, times_a, ids_b, times_b, ia),
        forall|jb: int| 0 <= jb < ids_b.len() && times_b[jb] <= level ==> matched_in(ids_b, times_b, ids_a, times_a, jb),
    decreases level + 1,
{
    if level >= 0 {
        lemma_unique_upto(walk, pt, tss, start, init, ids_a, times_a, ids_b, times_b, level - 1);
        lemma_unique_level(walk, pt, tss, start, init, ids_a, times_a, ids_b, times_b, level, ids_a.len() as int);
        lemma_unique_level(walk, pt, tss, start, init, ids_b, times_b, ids_a, times_a, level, ids_b.len() as int);
    }
}

/// The search result is determined by the network, the start and the times:
/// two lists that are both search results hold the same destinations with
/// the same travel times, and can differ only in the order of destinations
/// reached at the same time.
pub proof fn lemma_search_result_unique(
    walk: Seq<WalkEdges>,
    pt: Seq<PtEdges>,
    trip_start_seconds: i32,
    start: u32,
    init: u16,
    ids_a: Seq<u32>,
    times_a: Seq<u16>,
    ids_b: Seq<u32>,
    times_b: Seq<u16>,
)
    requires
        is_search_result(walk, pt, trip_start_seconds, start, init, ids_a, times_a),
        is_search_result(walk, pt, trip_start_seconds, start, init, ids_b, times_b),
    ensures
        ids_a.len() == ids_b.len(),
        forall|ia: int| 0 <= ia < ids_a.len() ==> matched_in(ids_a, times_a, ids_b, times_b, ia),
        forall|jb: int| 0 <= jb < ids_b.len() ==> matched_in(ids_b, times_b, ids_a, times_a, jb),
{
    lemma_unique_upto(walk, pt, trip_start_seconds, start, init, ids_a, times_a, ids_b, times_b, TIME_LIMIT as int);
    assert forall|ia: int| 0 <= ia < ids_a.len() implies matched_in(ids_a, times_a, ids_b, times_b, ia) by {
        assert(times_a[ia] < TIME_LIMIT);
    }
    assert forall|jb: int| 0 <= jb < ids_b.len() implies matched_in(ids_b, times_b, ids_a, times_a, jb) by {
        assert(times_b[jb] < TIME_LIMIT);
    }
    lemma_distinct_matched_len(ids_a, times_a, ids_b, times_b);
    lemma_distinct_matched_len(ids_b, times_b, ids_a, times_a);
}

/// A list without repeats whose entries all appear in another list without
/// repeats is no longer than it.
proof fn lemma_distinct_matched_len(ids_a: Seq<u32>, times_a: Seq<u16>, ids_b: Seq<u32>, times_b: Seq<u16>)
    requires
        forall|i: int, j: int| 0 <= i < j < ids_a.len() ==> ids_a[i] != ids_a[j],
        forall|i: int, j: int| 0 <= i < j < ids_b.len() ==> ids_b[i] != ids_b[j],
        forall|ia: int| 0 <= ia < ids_a.len() ==> matched_in(ids_a, times_a, ids_b, times_b, ia),
    ensures
        ids_a.len() <= ids_b.len(),
{
    assert(ids_a.no_duplicates());
    assert(ids_b.no_duplicates());
    ids_a.unique_seq_to_set();
    ids_b.unique_seq_to_set();
    assert forall|n: u32| ids_a.to_set().contains(n) implies ids_b.to_set().contains(n) by {
        let ia = choose|ia: int| 0 <= ia < ids_a.len() && ids_a[ia] == n;
        assert(matched_in(ids_a, times_a, ids_b, times_b, ia));
        let j = choose|j: int| 0 <= j < ids_b.len() && ids_b[j] == ids_a[ia] && times_b[j] == times_a[ia];
        assert(ids_b.contains(n));
    }
    vstd::set_lib::lemma_len_subset(ids_a.to_set(), ids_b.to_set());
}

/// No node of the walking graph is a stop.
pub open spec fn no_stops(walk: Seq<WalkEdges>) -> bool {
    forall|n: int| 0 <= n < walk.len() ==> (#[trigger] walk[n]@[0]).cost.0 != 1
}

/// The number of leading entries whose time, moved later by `k`, stays
/// under the limit (from index `j` on).
spec fn shifted_prefix_len(times: Seq<u16>, k: int, j: int) -> int
    decreases times.len() - j,
{
    if j < 0 || j >= times.len() {
        times.len() as int
    } else if times[j] + k >= TIME_LIMIT {
        j
    } else {
        shifted_prefix_len(times, k, j + 1)
    }
}

/// In a sorted list, the entries that stay under the limit when moved later
/// by `k` are a prefix.
proof fn lemma_shifted_prefix_len(times: Seq<u16>, k: int, j: int)
    requires
        0 <= j <= times.len(),
        0 <= k,
        forall|a: int, b: int| 0 <= a <= b < times.len() ==> times[a] <= times[b],
        forall|l: int| 0 <= l < j ==> times[l] + k < TIME_LIMIT,
    ensures
        j <= shifted_prefix_len(times, k, j) <= times.len(),
        forall|l: int|
            0 <= l < times.len() ==> (l < shifted_prefix_len(times, k, j) <==> #[trigger] times[l] + k < TIME_LIMIT),
    decreases times.len() - j,
{
    if j < times.len() && times[j] + k < TIME_LIMIT {
        lemma_shifted_prefix_len(times, k, j + 1);
    } else if j < times.len() {
        assert forall|l: int| 0 <= l < times.len() implies (l < j <==> #[trigger] times[l] + k < TIME_LIMIT) by {
            if l >= j {
                assert(times[j] <= times[l]);
            }
        }
    }
}

/// Without stops the trip's start time plays no part, and a later initial
/// time moves every travel time later by the difference: the destinations
/// of a search with initial time `init2` are those of a search with initial
/// time `init1 <= init2`, each `init2 - init1` seconds later, less those that
/// then reach the hour.
pub proof fn lemma_search_result_shift(
    walk: Seq<WalkEdges>,
    pt: Seq<PtEdges>,
    trip_start_1: i32,
    trip_start_2: i32,
    start: u32,
    init1: u16,
    init2: u16,
    ids1: Seq<u32>,
    times1: Seq<u16>,
    ids2: Seq<u32>,
    times2: Seq<u16>,
)
    requires
        no_stops(walk),
        init1 <= init2 < TIME_LIMIT,
        is_search_result(walk, pt, trip_start_1, start, init1, ids1, times1),
        is_search_result(walk, pt, trip_start_2, start, init2, ids2, times2),
    ensures
        forall|j: int|
            0 <= j < ids2.len() ==> exists|i: int|
                0 <= i < ids1.len() && ids1[i] == ids2[j] && times1[i] + (init2 - init1) == #[trigger] times2[j],
        forall|i: int|
            0 <= i < ids1.len() && #[trigger] times1[i] + (init2 - init1) < TIME_LIMIT ==> exists|j: int|
                0 <= j < ids2.len() && ids2[j] == ids1[i] && times2[j] == times1[i] + (init2 - init1),
{
    let k = init2 - init1;
    lemma_shifted_prefix_len(times1, k, 0);
    let p = shifted_prefix_len(times1, k, 0);
    let ids_s = ids1.subrange(0, p);
    let times_s = Seq::new(p as nat, |l: int| (times1[l] + k) as u16);
    assert(times1[0] + k < TIME_LIMIT);
    assert forall|m: u32, t: int, tss: i32| (m as int) < walk.len() implies #[trigger] pt_hop(walk, pt, tss, m, t)
        is None by {
        assert(walk[m as int]@[0].cost.0 != 1);
    }
    // the shifted prefix is a search result from init2
    assert forall|a: int, b: int| 0 <= a <= b < ids_s.len() implies times_s[a] <= times_s[b] by {
        assert(times1[a] <= times1[b]);
    }
    assert forall|j: int| 0 < j < ids_s.len() implies #[trigger] reached_from_earlier(
        walk,
        pt,
        trip_start_2,
        ids_s,
        times_s,
        j,
    ) by {
        assert(ids1[j] == ids1[j]);
        assert(reached_from_earlier(walk, pt, trip_start_1, ids1, times1, j));
        let i = choose|i: int|
            0 <= i < j && #[trigger] arrives(walk, pt, trip_start_1, ids1[i], times1[i] as int, ids1[j], times1[j] as int);
        assert(times1[i] <= times1[j]);
        assert(pt_hop(walk, pt, trip_start_1, ids1[i], times1[i] as int) is None);
        let kk = choose|kk: int|
            1 <= kk < walk[ids1[i] as int]@.len() && #[trigger] walk_hop(walk, ids1[i], times1[i] as int, kk) == (
                ids1[j],
                times1[j] as int,
            ) && times1[j] < TIME_LIMIT;
        assert(walk_hop(walk, ids_s[i], times_s[i] as int, kk) == (ids_s[j], times_s[j] as int));
        assert(arrives(walk, pt, trip_start_2, ids_s[i], times_s[i] as int, ids_s[j], times_s[j] as int));
    }
    assert forall|i: int, kk: int|
        0 <= i < ids_s.len() && 1 <= kk < walk[ids_s[i] as int]@.len() && (#[trigger] walk_hop(
            walk,
            ids_s[i],
            times_s[i] as int,
            kk,
        )).1 < TIME_LIMIT implies exists|j: int|
        0 <= j < ids_s.len() && ids_s[j] == walk_hop(walk, ids_s[i], times_s[i] as int, kk).0 && times_s[j]
            <= walk_hop(walk, ids_s[i], times_s[i] as int, kk).1 by {
        let h1 = walk_hop(walk, ids1[i], times1[i] as int, kk);
        assert(h1.1 < TIME_LIMIT);
        let j = choose|j: int| 0 <= j < ids1.len() && ids1[j] == h1.0 && times1[j] <= h1.1;
        assert(times1[j] + k < TIME_LIMIT);
        assert(j < p);
        assert(ids_s[j] == h1.0 && times_s[j] <= walk_hop(walk, ids_s[i], times_s[i] as int, kk).1);
    }
    assert forall|i: int| 0 <= i < ids_s.len() implies ((#[trigger] pt_hop(
        walk,
        pt,
        trip_start_2,
        ids_s[i],
        times_s[i] as int,
    )) matches Some(h) ==> exists|j: int| 0 <= j < ids_s.len() && ids_s[j] == h.0 && times_s[j] <= h.1) by {
        assert(pt_hop(walk, pt, trip_start_2, ids_s[i], times_s[i] as int) is None);
    }
    assert forall|i: int, j: int| 0 <= i < j < ids_s.len() implies ids_s[i] != ids_s[j] by {
        assert(ids1[i] != ids1[j]);
    }
    assert(is_search_result(walk, pt, trip_start_2, start, init2, ids_s, times_s));
    lemma_search_result_unique(walk, pt, trip_start_2, start, init2, ids_s, times_s, ids2, times2);
    assert forall|j: int| 0 <= j < ids2.len() implies exists|i: int|
        0 <= i < ids1.len() && ids1[i] == ids2[j] && times1[i] + (init2 - init1) == #[trigger] times2[j] by {
        assert(matched_in(ids2, times2, ids_s, times_s, j));
        let i = choose|i: int| 0 <= i < ids_s.len() && ids_s[i] == ids2[j] && times_s[i] == times2[j];
        assert(ids1[i] == ids2[j] && times1[i] + k == times2[j]);
    }
    assert forall|i: int|
        0 <= i < ids1.len() && #[trigger] times1[i] + (init2 - init1) < TIME_LIMIT implies exists|j: int|
        0 <= j < ids2.len() && ids2[j] == ids1[i] && times2[j] == times1[i] + (init2 - init1) by {
        assert(i < p);
        assert(matched_in(ids_s, times_s, ids2, times2, i));
    }
}

/// Where a walk from `start`, reached `t` seconds into the trip, ends and
/// when: at each node it takes the walking edge whose index `steps` gives.
pub open spec fn walk_end(walk: Seq<WalkEdges>, start: u32, t: int, steps: Seq<int>) -> (u32, int)
    decreases steps.len(),
{
    if steps.len() == 0 {
        (start, t)
    } else {
        let prev = walk_end(walk, start, t, steps.drop_last());
        walk_hop(walk, prev.0, prev.1, steps.last())
    }
}

/// Each step of the walk takes a walking edge of the node it has reached.
pub open spec fn is_walk(walk: Seq<WalkEdges>, start: u32, t: int, steps: Seq<int>) -> bool {
    forall|i: int|
        0 <= i < steps.len() ==> {
            let m = walk_end(walk, start, t, steps.take(i)).0;
            &&& (m as int) < walk.len()
            &&& 1 <= #[trigger] steps[i] < walk[m as int]@.len()
        }
}

/// The steps of a walk but its last make a walk, which ends no later.
#[verifier::spinoff_prover]
proof fn lemma_walk_prefix(walk: Seq<WalkEdges>, start: u32, t: int, steps: Seq<int>)
    requires
        steps.len() > 0,
        is_walk(walk, start, t, steps),
    ensures
        is_walk(walk, start, t, steps.drop_last()),
        walk_end(walk, start, t, steps.drop_last()).1 <= walk_end(walk, start, t, steps).1,
        ({
            let m = walk_end(walk, start, t, steps.drop_last()).0;
            &&& (m as int) < walk.len()
            &&& 1 <= steps.last() < walk[m as int]@.len()
        }),
{
    let prev = steps.drop_last();
    assert forall|i: int| 0 <= i < prev.len() implies {
        let m = walk_end(walk, start, t, prev.take(i)).0;
        &&& (m as int) < walk.len()
        &&& 1 <= #[trigger] prev[i] < walk[m as int]@.len()
    } by {
        assert(prev.take(i) =~= steps.take(i));
        assert(prev[i] == steps[i]);
    }
    assert(steps.take(prev.len() as int) =~= prev);
    assert(steps[prev.len() as int] == steps.last());
}

/// A walk of a destination extended by one walking edge is a walk.
#[verifier::spinoff_prover]
proof fn lemma_walk_extend(walk: Seq<WalkEdges>, start: u32, t: int, steps: Seq<int>, k: int)
    requires
        is_walk(walk, start, t, steps),
        (walk_end(walk, start, t, steps).0 as int) < walk.len(),
        1 <= k < walk[walk_end(walk, start, t, steps).0 as int]@.len(),
    ensures
        is_walk(walk, start, t, steps.push(k)),
        walk_end(walk, start, t, steps.push(k)) == walk_hop(
            walk,
            walk_end(walk, start, t, steps).0,
            walk_end(walk, start, t, steps).1,
            k,
        ),
{
    let next = steps.push(k);
    assert(next.drop_last() =~= steps);
    assert forall|i: int| 0 <= i < next.len() implies {
        let m = walk_end(walk, start, t, next.take(i)).0;
        &&& (m as int) < walk.len()
        &&& 1 <= #[trigger] next[i] < walk[m as int]@.len()
    } by {
        if i < steps.len() {
            assert(next.take(i) =~= steps.take(i));
            assert(next[i] == steps[i]);
        } else {
            assert(next.take(i) =~= steps);
        }
    }
}

/// Every walk from the start that ends within the hour ends at a
/// destination listed no later.
proof fn lemma_walk_listed(
    walk: Seq<WalkEdges>,
    pt: Seq<PtEdges>,
    trip_start_seconds: i32,
    start: u32,
    init: u16,
    ids: Seq<u32>,
    times: Seq<u16>,
    steps: Seq<int>,
)
    requires
        is_search_result(walk, pt, trip_start_seconds, start, init, ids, times),
        is_walk(walk, start, init as int, steps),
        walk_end(walk, start, init as int, steps).1 < TIME_LIMIT,
    ensures
        exists|j: int|
            0 <= j < ids.len() && ids[j] == walk_end(walk, start, init as int, steps).0 && times[j]
                <= walk_end(walk, start, init as int, steps).1,
    decreases steps.len(),
{
    if steps.len() == 0 {
        assert(ids[0] == start && times[0] == init);
    } else {
        let prev = steps.drop_last();
        lemma_walk_prefix(walk, start, init as int, steps);
        lemma_walk_listed(walk, pt, trip_start_seconds, start, init, ids, times, prev);
        let p = walk_end(walk, start, init as int, prev);
        let i = choose|i: int| 0 <= i < ids.len() && ids[i] == p.0 && times[i] <= p.1;
        let k = steps.last();
        let h = walk_hop(walk, ids[i], times[i] as int, k);
        assert(h.1 <= walk_end(walk, start, init as int, steps).1);
        let j = choose|j: int| 0 <= j < ids.len() && ids[j] == h.0 && times[j] <= h.1;
        assert(ids[j] == walk_end(walk, start, init as int, steps).0);
    }
}

/// Each destination is reached at its time by a walk from the start, where
/// there are no stops.
proof fn lemma_listed_walk(
    walk: Seq<WalkEdges>,
    pt: Seq<PtEdges>,
    trip_start_seconds: i32,
    start: u32,
    init: u16,
    ids: Seq<u32>,
    times: Seq<u16>,
    j: int,
) -> (steps: Seq<int>)
    requires
        no_stops(walk),
        is_search_result(walk, pt, trip_start_seconds, start, init, ids, times),
        0 <= j < ids.len(),
    ensures
        is_walk(walk, start, init as int, steps),
        walk_end(walk, start, init as int, steps) == (ids[j], times[j] as int),
    decreases j,
{
    if j == 0 {
        Seq::empty()
    } else {
        assert(reached_from_earlier(walk, pt, trip_start_seconds, ids, times, j));
        let i = choose|i: int|
            0 <= i < j && #[trigger] arrives(walk, pt, trip_start_seconds, ids[i], times[i] as int, ids[j], times[j] as int);
        assert(walk[ids[i] as int]@[0].cost.0 != 1);
        assert(pt_hop(walk, pt, trip_start_seconds, ids[i], times[i] as int) is None);
        let k = choose|k: int|
            1 <= k < walk[ids[i] as int]@.len() && #[trigger] walk_hop(walk, ids[i], times[i] as int, k) == (
                ids[j],
                times[j] as int,
            ) && times[j] < TIME_LIMIT;
        let s = lemma_listed_walk(walk, pt, trip_start_seconds, start, init, ids, times, i);
        lemma_walk_extend(walk, start, init as int, s, k);
        s.push(k)
    }
}

/// Without stops, the travel times of a search are its least walking times:
/// each destination is reached at its time by a walk from the start along
/// walking edges, and every such walk that ends within the hour ends at a
/// destination listed at that time or earlier.
pub proof fn lemma_search_result_least_walks(
    walk: Seq<WalkEdges>,
    pt: Seq<PtEdges>,
    trip_start_seconds: i32,
    start: u32,
    init: u16,
    ids: Seq<u32>,
    times: Seq<u16>,
)
    requires
        no_stops(walk),
        is_search_result(walk, pt, trip_start_seconds, start, init, ids, times),
    ensures
        forall|j: int|
            #![trigger ids[j]]
            0 <= j < ids.len() ==> exists|steps: Seq<int>|
                is_walk(walk, start, init as int, steps) && #[trigger] walk_end(walk, start, init as int, steps) == (
                    ids[j],
                    times[j] as int,
                ),
        forall|steps: Seq<int>|
            is_walk(walk, start, init as int, steps) && (#[trigger] walk_end(walk, start, init as int, steps)).1
                < TIME_LIMIT ==> exists|j: int|
                0 <= j < ids.len() && ids[j] == walk_end(walk, start, init as int, steps).0 && times[j]
                    <= walk_end(walk, start, init as int, steps).1,
{
    assert forall|j: int| #![trigger ids[j]] 0 <= j < ids.len() implies exists|steps: Seq<int>|
        is_walk(walk, start, init as int, steps) && #[trigger] walk_end(walk, start, init as int, steps) == (
            ids[j],
            times[j] as int,
        ) by {
        let s = lemma_listed_walk(walk, pt, trip_start_seconds, start, init, ids, times, j);
        assert(walk_end(walk, start, init as int, s) == (ids[j], times[j] as int));
    }
    assert forall|steps: Seq<int>|
        is_walk(walk, start, init as int, steps) && (#[trigger] walk_end(walk, start, init as int, steps)).1
            < TIME_LIMIT implies exists|j: int|
        0 <= j < ids.len() && ids[j] == walk_end(walk, start, init as int, steps).0 && times[j]
            <= walk_end(walk, start, init as int, steps).1 by {
        lemma_walk_listed(walk, pt, trip_start_seconds, start, init, ids, times, steps);
    }
}

/// Every departure from index `k` up to the one found leaves before the
/// arrival.
proof fn lemma_first_departure_least(deps: Seq<EdgePT>, arrival: int, k: int)
    requires
        0 <= k,
    ensures
        forall|j: int| k <= j < first_departure(deps, arrival, k) ==> (#[trigger] deps[j]).leavetime.0 < arrival,
    decreases deps.len() - k,
{
    if k < deps.len() && arrival > deps[k].leavetime.0 {
        lemma_first_departure_least(deps, arrival, k + 1);
    }
}

/// The time past midnight at which a stop reached `t` seconds into a trip
/// that started `trip_start_seconds` past midnight is reached.
pub open spec fn stop_arrival(trip_start_seconds: i32, t: int) -> int {
    (#[verifier::truncate] (trip_start_seconds as u32)) as int + t
}

/// Departure `k` of a stop (index 1 on; the entry at index 0 only names the
/// node its services go to) is the first to leave no earlier than `arrival`.
pub open spec fn first_catchable(deps: Seq<EdgePT>, arrival: int, k: int) -> bool {
    &&& 1 <= k < deps.len()
    &&& arrival <= deps[k].leavetime.0
    &&& forall|j: int| 1 <= j < k ==> (#[trigger] deps[j]).leavetime.0 < arrival
}

/// The time into the trip at which departure `k` of a stop, reached `t`
/// seconds into it, arrives: the time so far, the wait and the ride.
pub open spec fn ride_end(deps: Seq<EdgePT>, trip_start_seconds: i32, t: int, k: int) -> int {
    t + (deps[k].leavetime.0 - stop_arrival(trip_start_seconds, t)) + deps[k].cost.0
}

/// The ride from a stop takes the first catchable service: where departure
/// `k` (index 1 on; the entry at index 0 only names the node the services
/// go to) is the first to leave no earlier than the arrival at the stop,
/// `trip_start_seconds + t` seconds past midnight, the ride goes to the node
/// that entry 0 names and arrives after the time so far, the wait and the
/// ride, where that is under `limit`; there is no ride otherwise.
pub proof fn lemma_pt_hop_first_catchable(deps: Seq<EdgePT>, trip_start_seconds: i32, t: int, limit: int, k: int)
    requires
        first_catchable(deps, stop_arrival(trip_start_seconds, t), k),
    ensures
        pt_hop_from(deps, trip_start_seconds, t, limit) == if ride_end(deps, trip_start_seconds, t, k) < limit {
            Some((deps[0].leavetime.0, ride_end(deps, trip_start_seconds, t, k)))
        } else {
            None::<(u32, int)>
        },
{
    let arrival = stop_arrival(trip_start_seconds, t);
    lemma_first_departure(deps, arrival, 1);
    lemma_first_departure_least(deps, arrival, 1);
    let f = first_departure(deps, arrival, 1);
    if f < k {
        assert(deps[f].leavetime.0 < arrival);
    }
    if f > k {
        assert(deps[k].leavetime.0 < arrival);
    }
    assert(f == k);
}

/// Where every departure of a stop (index 1 on) leaves before the arrival,
/// there is no ride.
pub proof fn lemma_pt_hop_none_catchable(deps: Seq<EdgePT>, trip_start_seconds: i32, t: int, limit: int)
    requires
        forall|j: int| 1 <= j < deps.len() ==> (#[trigger] deps[j]).leavetime.0 < stop_arrival(trip_start_seconds, t),
    ensures
        pt_hop_from(deps, trip_start_seconds, t, limit) is None,
{
    let arrival = stop_arrival(trip_start_seconds, t);
    lemma_first_departure(deps, arrival, 1);
}

/// Node `n` is reached `c` seconds into the trip from node `m`, reached
/// after `t` seconds, along one of `m`'s walking edges, or, where `m` is a
/// stop, by its first catchable service.
pub open spec fn reached_by_hop(
    walk: Seq<WalkEdges>,
    pt: Seq<PtEdges>,
    trip_start_seconds: i32,
    m: u32,
    t: int,
    n: u32,
    c: int,
) -> bool {
    ||| exists|k: int|
        1 <= k < walk[m as int]@.len() && (#[trigger] walk[m as int]@[k]).to.0 == n && t + walk[m as int]@[k].cost.0
            == c
    ||| {
        &&& walk[m as int]@[0].cost.0 == 1
        &&& pt[m as int]@[0].leavetime.0 == n
        &&& exists|k: int|
            #[trigger] first_catchable(pt[m as int]@, stop_arrival(trip_start_seconds, t), k) && ride_end(
                pt[m as int]@,
                trip_start_seconds,
                t,
                k,
            ) == c
    }
}

/// Destination `j` is reached at exactly its time by a hop from an earlier
/// destination.
pub open spec fn hop_from_earlier(
    walk: Seq<WalkEdges>,
    pt: Seq<PtEdges>,
    trip_start_seconds: i32,
    ids: Seq<u32>,
    times: Seq<u16>,
    j: int,
) -> bool {
    exists|i: int|
        0 <= i < j && #[trigger] reached_by_hop(walk, pt, trip_start_seconds, ids[i], times[i] as int, ids[j], times[j] as int)
}

/// The rides of a search take the first catchable service. From every
/// destination that is a stop, where departure `k` (index 1 on) is the first
/// to leave no earlier than the arrival there and the ride arrives within the
/// hour, the node its services go to is a destination, reached no later.
/// And every destination but the start is reached at exactly its time by a
/// walking edge or by the first catchable service from an earlier one.
pub proof fn lemma_search_result_rides(
    walk: Seq<WalkEdges>,
    pt: Seq<PtEdges>,
    trip_start_seconds: i32,
    start: u32,
    init: u16,
    ids: Seq<u32>,
    times: Seq<u16>,
)
    requires
        is_search_result(walk, pt, trip_start_seconds, start, init, ids, times),
    ensures
        forall|i: int, k: int|
            0 <= i < ids.len() && walk[ids[i] as int]@[0].cost.0 == 1 && #[trigger] first_catchable(
                pt[ids[i] as int]@,
                stop_arrival(trip_start_seconds, times[i] as int),
                k,
            ) && ride_end(pt[ids[i] as int]@, trip_start_seconds, times[i] as int, k) < TIME_LIMIT ==> exists|j: int|
                0 <= j < ids.len() && ids[j] == pt[ids[i] as int]@[0].leavetime.0 && times[j] <= ride_end(
                    pt[ids[i] as int]@,
                    trip_start_seconds,
                    times[i] as int,
                    k,
                ),
        forall|j: int| 0 < j < ids.len() ==> #[trigger] hop_from_earlier(walk, pt, trip_start_seconds, ids, times, j),
{
    assert forall|i: int, k: int|
        0 <= i < ids.len() && walk[ids[i] as int]@[0].cost.0 == 1 && #[trigger] first_catchable(
            pt[ids[i] as int]@,
            stop_arrival(trip_start_seconds, times[i] as int),
            k,
        ) && ride_end(pt[ids[i] as int]@, trip_start_seconds, times[i] as int, k) < TIME_LIMIT implies exists|j: int|
        0 <= j < ids.len() && ids[j] == pt[ids[i] as int]@[0].leavetime.0 && times[j] <= ride_end(
            pt[ids[i] as int]@,
            trip_start_seconds,
            times[i] as int,
            k,
        ) by {
        lemma_pt_hop_first_catchable(pt[ids[i] as int]@, trip_start_seconds, times[i] as int, TIME_LIMIT as int, k);
        assert(pt_hop(walk, pt, trip_start_seconds, ids[i], times[i] as int) is Some);
    }
    assert forall|j: int| 0 < j < ids.len() implies #[trigger] hop_from_earlier(
        walk,
        pt,
        trip_start_seconds,
        ids,
        times,
        j,
    ) by {
        let i = lemma_reached_by_hop(walk, pt, trip_start_seconds, start, init, ids, times, j);
    }
}

/// Each destination but the start is reached by a hop from an earlier one.
proof fn lemma_reached_by_hop(
    walk: Seq<WalkEdges>,
    pt: Seq<PtEdges>,
    trip_start_seconds: i32,
    start: u32,
    init: u16,
    ids: Seq<u32>,
    times: Seq<u16>,
    j: int,
) -> (i: int)
    requires
        is_search_result(walk, pt, trip_start_seconds, start, init, ids, times),
        0 < j < ids.len(),
    ensures
        0 <= i < j,
        reached_by_hop(walk, pt, trip_start_seconds, ids[i], times[i] as int, ids[j], times[j] as int),
{
    assert(reached_from_earlier(walk, pt, trip_start_seconds, ids, times, j));
    let i = choose|i: int|
        0 <= i < j && #[trigger] arrives(walk, pt, trip_start_seconds, ids[i], times[i] as int, ids[j], times[j] as int);
    if exists|k: int|
        1 <= k < walk[ids[i] as int]@.len() && #[trigger] walk_hop(walk, ids[i], times[i] as int, k) == (
            ids[j],
            times[j] as int,
        ) && times[j] < TIME_LIMIT {
        let k = choose|k: int|
            1 <= k < walk[ids[i] as int]@.len() && #[trigger] walk_hop(walk, ids[i], times[i] as int, k) == (
                ids[j],
                times[j] as int,
            ) && times[j] < TIME_LIMIT;
        assert(walk[ids[i] as int]@[k].to.0 == ids[j]);
        assert(reached_by_hop(walk, pt, trip_start_seconds, ids[i], times[i] as int, ids[j], times[j] as int));
    } else {
        let deps = pt[ids[i] as int]@;
        let arrival = stop_arrival(trip_start_seconds, times[i] as int);
        assert(pt_hop(walk, pt, trip_start_seconds, ids[i], times[i] as int) == Some((ids[j], times[j] as int)));
        lemma_first_departure(deps, arrival, 1);
        lemma_first_departure_least(deps, arrival, 1);
        let k = first_departure(deps, arrival, 1);
        assert(first_catchable(deps, arrival, k));
        assert(ride_end(deps, trip_start_seconds, times[i] as int, k) == times[j]);
        assert(reached_by_hop(walk, pt, trip_start_seconds, ids[i], times[i] as int, ids[j], times[j] as int));
    }
    i
}

} // verus!
