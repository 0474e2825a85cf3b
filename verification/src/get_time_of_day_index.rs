use vstd::prelude::*;

verus! {

/// Which of the four tables of travel-time weights applies to a trip
/// starting `trip_start_seconds` past midnight: 0 until 10:00, 1 until
/// 16:00, 2 until 19:00, and 3 after that (each boundary second belongs to
/// the earlier table).
pub open spec fn time_of_day_index_spec(trip_start_seconds: i32) -> usize {
    if trip_start_seconds > 3600 * 19 {
        3
    } else if trip_start_seconds > 3600 * 16 {
        2
    } else if trip_start_seconds > 3600 * 10 {
        1
    } else {
        0
    }
}

/// The table of travel-time weights for a trip starting
/// `trip_start_seconds` past midnight.
pub fn get_time_of_day_index(trip_start_seconds: i32) -> (ix: usize)
    ensures
        ix == time_of_day_index_spec(trip_start_seconds),
        ix < 4,
{
    let mut time_of_day_ix: usize = 0;
    if trip_start_seconds > 3600 * 10 {
        time_of_day_ix = 1;
    }
    if trip_start_seconds > 3600 * 16 {
        time_of_day_ix = 2;
    }
    if trip_start_seconds > 3600 * 19 {
        time_of_day_ix = 3;
    }
    time_of_day_ix
}

/// A later start never selects an earlier table.
pub proof fn lemma_time_of_day_index_monotone(earlier: i32, later: i32)
    requires
        earlier <= later,
    ensures
        time_of_day_index_spec(earlier) <= time_of_day_index_spec(later),
{
}

} // verus!
