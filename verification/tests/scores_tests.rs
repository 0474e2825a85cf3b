use rust_connectivity::scores::{get_all_scores_and_time_to_target_destinations, scoring_inputs_valid};

fn lookup_all(purpose: i8) -> [i8; 32] {
    [purpose; 32]
}

#[test]
fn scores_sum_value_times_weight() {
    // nodes 0..4, 32 values each; padding rows 64 => the first 2 nodes carry no value
    let mut node_values = vec![0i32; 4 * 32];
    for i in 0..32 {
        node_values[2 * 32 + i] = i as i32;
        node_values[3 * 32 + i] = 2;
    }
    let mut weights = vec![0i32; 3601];
    weights[10] = 7;
    weights[20] = -3;
    let travel_times = (1u32, vec![1u32, 2, 3], vec![0u16, 10, 20]);
    let lookup = lookup_all(0);
    let targets = [3u32, 0];
    assert!(scoring_inputs_valid(&travel_times, &node_values, &weights, &lookup, 4, 64, &targets));
    let r = get_all_scores_and_time_to_target_destinations(&travel_times, &node_values, &weights, &lookup, 4, 64, &targets);
    assert_eq!(r.0, 3);
    assert_eq!(r.1, 1);
    for i in 0..32 {
        assert_eq!(r.2[i], (i as i64) * 7 + 2 * -3);
    }
    assert_eq!(r.3, vec![3]);
    assert_eq!(r.4, vec![20]);
}

#[test]
fn scores_read_only_paired_entries() {
    let node_values = vec![1i32; 2 * 32];
    let mut weights = vec![0i32; 3601];
    weights[4] = 5;
    // three ids but two times: the third id is not read
    let travel_times = (0u32, vec![0u32, 1, 99], vec![4u16, 4]);
    let lookup = lookup_all(0);
    let r = get_all_scores_and_time_to_target_destinations(&travel_times, &node_values, &weights, &lookup, 2, 0, &[1]);
    assert_eq!(r.0, 3);
    assert_eq!(r.2[0], 10);
    assert_eq!(r.3, vec![1]);
    assert_eq!(r.4, vec![4]);
}

#[test]
fn scoring_inputs_rejected() {
    let node_values = vec![0i32; 32];
    let weights = vec![0i32; 3601];
    let travel_times = (0u32, vec![0u32], vec![0u16]);
    // target beyond the original nodes
    assert!(!scoring_inputs_valid(&travel_times, &node_values, &weights, &lookup_all(0), 1, 0, &[1]));
    // a weight row that is not there
    assert!(!scoring_inputs_valid(&travel_times, &node_values, &weights, &lookup_all(1), 1, 0, &[]));
    // a negative purpose
    assert!(!scoring_inputs_valid(&travel_times, &node_values, &weights, &lookup_all(-1), 1, 0, &[]));
    // node values too short
    assert!(!scoring_inputs_valid(&travel_times, &node_values[..31], &weights, &lookup_all(0), 1, 0, &[]));
    // a destination beyond the original nodes
    let far = (0u32, vec![1u32], vec![0u16]);
    assert!(!scoring_inputs_valid(&far, &node_values, &weights, &lookup_all(0), 1, 0, &[]));
    assert!(scoring_inputs_valid(&travel_times, &node_values, &weights, &lookup_all(0), 1, 0, &[0]));
}
