use coinjoin_analyzer::Partition;
use coinjoin_analyzer::probability::aggregate_counts;
use coinjoin_analyzer::probability::aggregated_in_in_counts;
use coinjoin_analyzer::probability::aggregated_in_out_counts;
use coinjoin_analyzer::probability::aggregated_out_out_counts;
use coinjoin_analyzer::probability::filter_derived_partitions;
use coinjoin_analyzer::probability::in_in_count;
use coinjoin_analyzer::probability::in_out_count;
use coinjoin_analyzer::probability::is_derived;
use coinjoin_analyzer::probability::out_out_count;

#[test]
fn test_is_derived() {
    assert!(is_derived(
        &(
            vec![vec![1, 2, 3], vec![3, 4]],
            vec![vec![1, 2, 3], vec![3, 4]]
        ),
        &(
            vec![vec![1, 2], vec![3], vec![3, 4]],
            vec![vec![1, 2], vec![3], vec![3, 4]]
        )
    ));
    assert!(is_derived(
        &(
            vec![vec![2, 2, 3], vec![3, 4]],
            vec![vec![2, 2, 3], vec![3, 4]]
        ),
        &(
            vec![vec![3, 2], vec![2], vec![3, 4]],
            vec![vec![3, 2], vec![2], vec![3, 4]]
        )
    ));
}

#[test]
fn test_is_derived_rejects_unrelated() {
    // The larger partition's sums cannot be matched down to one leftover
    // pair, so it does not derive the smaller one.
    assert!(!is_derived(
        &(vec![vec![9], vec![1]], vec![vec![9], vec![1]]),
        &(
            vec![vec![2], vec![3], vec![5]],
            vec![vec![2], vec![3], vec![5]]
        )
    ));
}

#[test]
fn test_aggregator_single_mapping() {
    // One mapping with a single input coin and a single output coin of the
    // same value: the pair is always linked.
    let tuples: Vec<(Partition, Partition)> = vec![(vec![vec![7]], vec![vec![7]])];
    let count = in_out_count(&7, &7, &tuples);
    assert_eq!(count, 1);
    let counts = aggregated_in_out_counts(&vec![7], &vec![7], &tuples);
    assert_eq!(counts, vec![1]);
    let (zeros, ones, interior_len, interior_sum, all_sum) = aggregate_counts(&counts, 1);
    assert_eq!(zeros, 0);
    assert_eq!(ones, 1);
    assert_eq!(interior_len, 0);
    assert_eq!(interior_sum, 0);
    assert_eq!(all_sum, 1);
}

#[test]
fn test_pair_link_counts() {
    // Two mappings of [1, 2] against [3]: one keeps the inputs together,
    // the other splits them (admissibility aside, the aggregator takes any
    // mapping set).
    let together: (Partition, Partition) = (vec![vec![1, 2]], vec![vec![3]]);
    let split: (Partition, Partition) = (vec![vec![1], vec![2]], vec![vec![3]]);
    let tuples = vec![together, split];
    assert_eq!(in_in_count(&1, &2, &tuples), 1);
    assert_eq!(out_out_count(&3, &3, &tuples), 2);
    // the in-to-out link holds only where the containing parts agree in sum
    assert_eq!(in_out_count(&1, &3, &tuples), 1);
    let in_in = aggregated_in_in_counts(&vec![1, 2], &tuples);
    assert_eq!(in_in, vec![1]);
    let out_out = aggregated_out_out_counts(&vec![3], &tuples);
    assert_eq!(out_out, Vec::<u64>::new());
}

#[test]
fn test_aggregated_counts_are_input_major() {
    let identity: (Partition, Partition) = (vec![vec![1], vec![2]], vec![vec![1], vec![2]]);
    let tuples = vec![identity];
    let in_out = aggregated_in_out_counts(&vec![1, 2], &vec![1, 2], &tuples);
    assert_eq!(in_out, vec![1, 0, 0, 1]);

    let grouped: (Partition, Partition) = (vec![vec![1, 2], vec![3]], vec![vec![3], vec![3]]);
    let pair_tuples = vec![grouped];
    let in_in = aggregated_in_in_counts(&vec![1, 2, 3], &pair_tuples);
    assert_eq!(in_in, vec![1, 0, 0]);
}

#[test]
fn test_aggregate_counts_statistics() {
    let counts = vec![0, 5, 5, 2, 0, 3];
    let (zeros, ones, interior_len, interior_sum, all_sum) = aggregate_counts(&counts, 5);
    assert_eq!(zeros, 2);
    assert_eq!(ones, 2);
    assert_eq!(interior_len, 2);
    assert_eq!(interior_sum, 5);
    assert_eq!(all_sum, 15);
}

#[test]
fn test_filter_derived_partitions_drops_merged() {
    let small: (Partition, Partition) = (
        vec![vec![1, 2, 3], vec![3, 4]],
        vec![vec![1, 2, 3], vec![3, 4]],
    );
    let large: (Partition, Partition) = (
        vec![vec![1, 2], vec![3], vec![3, 4]],
        vec![vec![1, 2], vec![3], vec![3, 4]],
    );
    let kept = filter_derived_partitions(&vec![small.clone(), large.clone()]);
    assert_eq!(kept.len(), 1);
    assert_eq!(kept[0], large);
}

#[test]
fn test_filter_derived_partitions_keeps_unrelated() {
    let small: (Partition, Partition) = (vec![vec![9], vec![1]], vec![vec![9], vec![1]]);
    let large: (Partition, Partition) = (
        vec![vec![2], vec![3], vec![5]],
        vec![vec![2], vec![3], vec![5]],
    );
    let kept = filter_derived_partitions(&vec![small.clone(), large.clone()]);
    assert_eq!(kept.len(), 2);
    assert_eq!(kept[0], small);
    assert_eq!(kept[1], large);
}
