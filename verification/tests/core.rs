use coinjoin_analyzer::AcceptAllFilter;
use coinjoin_analyzer::Filter;
use coinjoin_analyzer::Partition;
use coinjoin_analyzer::SubsetSumIterator;
use coinjoin_analyzer::SubsetSumsFilter;
use coinjoin_analyzer::SumFilteredPartitionIterator;
use coinjoin_analyzer::TupleIterator;
use coinjoin_analyzer::is_subset_sum;

#[test]
fn test_is_subset_sum() {
    let mut set = vec![1, 2, 3, 4, 5, 6, 7];
    {
        let mut iter = SubsetSumIterator::new(&set);
        while let Some(subsetsum) = iter.next() {
            assert!(
                is_subset_sum(set.as_slice(), &subsetsum),
                "{} is a subset sum of {:?} but is_subset_sum returned false",
                subsetsum,
                set
            );
        }
    }
    set = vec![43, 234, 2, 3453, 32, 23432];
    {
        let mut iter = SubsetSumIterator::new(&set);
        while let Some(subsetsum) = iter.next() {
            assert!(
                is_subset_sum(set.as_slice(), &subsetsum),
                "{} is a subset sum of {:?} but is_subset_sum returned false",
                subsetsum,
                set
            );
        }
    }
    set = vec![0, 23, 434, 4343, 234];
    {
        let mut iter = SubsetSumIterator::new(&set);
        while let Some(subsetsum) = iter.next() {
            assert!(
                is_subset_sum(set.as_slice(), &subsetsum),
                "{} is a subset sum of {:?} but is_subset_sum returned false",
                subsetsum,
                set
            );
        }
    }
}

#[test]
fn test_subset_sum_iterator() {
    let set = vec![1, 2, 3];
    let mut count: u32 = 0;
    let mut iter = SubsetSumIterator::new(&set);
    while let Some(_s) = iter.next() {
        count += 1;
    }
    assert_eq!(count, 2u32.pow(3));

    let set6 = vec![1, 2, 3, 4, 5, 6];
    let mut count6: u32 = 0;
    let mut iter6 = SubsetSumIterator::new(&set6);
    while let Some(_s) = iter6.next() {
        count6 += 1;
    }
    assert_eq!(count6, 2u32.pow(6));

    let empty: Vec<u64> = vec![];
    let mut collected: Vec<u64> = vec![];
    let mut it0 = SubsetSumIterator::new(&empty);
    while let Some(s) = it0.next() {
        collected.push(s);
    }
    assert_eq!(collected, vec![0]);

    let one = vec![1];
    let mut collected1: Vec<u64> = vec![];
    let mut it1 = SubsetSumIterator::new(&one);
    while let Some(s) = it1.next() {
        collected1.push(s);
    }
    assert_eq!(collected1, vec![0, 1]);

    let six = vec![6];
    let mut collected6: Vec<u64> = vec![];
    let mut it6 = SubsetSumIterator::new(&six);
    while let Some(s) = it6.next() {
        collected6.push(s);
    }
    assert_eq!(collected6, vec![0, 6]);

    let pair = vec![1, 2];
    let mut collected_pair: Vec<u64> = vec![];
    let mut itp = SubsetSumIterator::new(&pair);
    while let Some(s) = itp.next() {
        collected_pair.push(s);
    }
    assert_eq!(collected_pair, vec![0, 1, 2, 3]);

    let triple = vec![1, 2, 3];
    let mut collected_triple: Vec<u64> = vec![];
    let mut itt = SubsetSumIterator::new(&triple);
    while let Some(s) = itt.next() {
        collected_triple.push(s);
    }
    assert_eq!(collected_triple, vec![0, 1, 2, 3, 3, 4, 5, 6]);
}

#[test]
fn test_subset_sum_set() {
    let mut set = vec![1, 2, 3];
    {
        let subset_sum_set = SubsetSumsFilter::new(&set);
        assert!(subset_sum_set.contains(&1));
        assert!(subset_sum_set.contains(&2));
        assert!(subset_sum_set.contains(&3));
        assert!(subset_sum_set.contains(&4));
        assert!(subset_sum_set.contains(&5));
        assert!(subset_sum_set.contains(&6));
        assert!(!subset_sum_set.contains(&7));
        assert!(!subset_sum_set.contains(&50));
    }
    set = vec![3, 4, 19];
    let subset_sum_set = SubsetSumsFilter::new(&set);
    assert!(subset_sum_set.contains(&3));
    assert!(subset_sum_set.contains(&4));
    assert!(subset_sum_set.contains(&19));
    assert!(subset_sum_set.contains(&7));
    assert!(subset_sum_set.contains(&22));
    assert!(subset_sum_set.contains(&23));
    assert!(subset_sum_set.contains(&26));
    assert!(!subset_sum_set.contains(&1));
    assert!(!subset_sum_set.contains(&21));
}

#[test]
fn test_sum_filtered_partition_iterator() {
    let set = vec![3, 4, 19];
    let subsetsum = &SubsetSumsFilter::new(&set);
    let mut iter = SumFilteredPartitionIterator::new(vec![1, 3, 18], subsetsum);
    let collected = iter.collect_partitions();
    assert_eq!(
        collected,
        vec![vec![vec![3], vec![1, 18]], vec![vec![1, 3, 18]]]
    );
}

#[test]
fn test_tuple_iterator() {
    let mut collected1: Vec<(Vec<u64>, Vec<u64>)> = vec![];
    let mut it1 = TupleIterator::new(vec![1]);
    while let Some(t) = it1.next() {
        collected1.push(t);
    }
    assert_eq!(collected1, vec![]);

    let mut collected2: Vec<(Vec<u64>, Vec<u64>)> = vec![];
    let mut it2 = TupleIterator::new(vec![1, 2]);
    while let Some(t) = it2.next() {
        collected2.push(t);
    }
    assert_eq!(collected2, vec![(vec![1], vec![2])]);

    let mut collected3: Vec<(Vec<u64>, Vec<u64>)> = vec![];
    let mut it3 = TupleIterator::new(vec![1, 2, 3]);
    while let Some(t) = it3.next() {
        collected3.push(t);
    }
    assert_eq!(
        collected3,
        vec![
            (vec![1, 3], vec![2]),
            (vec![1, 2], vec![3]),
            (vec![1], vec![2, 3])
        ]
    );
}

#[test]
fn test_tuple_iterator_counts_and_anchor() {
    // A set of n coins yields 2^(n-1) - 1 pairs, each anchored at the
    // first coin, and all pairs are distinct.
    let set = vec![10, 20, 30, 40];
    let mut pairs: Vec<(Vec<u64>, Vec<u64>)> = vec![];
    let mut it = TupleIterator::new(set.clone());
    while let Some(t) = it.next() {
        pairs.push(t);
    }
    assert_eq!(pairs.len(), 7);
    for (l, r) in pairs.iter() {
        assert_eq!(l[0], 10);
        assert_eq!(l.len() + r.len(), set.len());
    }
    for a in 0..pairs.len() {
        for b in (a + 1)..pairs.len() {
            assert_ne!(pairs[a], pairs[b]);
        }
    }
}

#[test]
fn test_partition_iterator_bell_counts() {
    // With a filter admitting everything, the enumerator walks every
    // partition: the Bell numbers count them.
    let expected: Vec<(Vec<u64>, usize)> = vec![
        (vec![7], 1),
        (vec![7, 8], 2),
        (vec![7, 8, 9], 5),
        (vec![7, 8, 9, 10], 15),
        (vec![7, 8, 9, 10, 11], 52),
    ];
    for (set, bell) in expected {
        let filter = AcceptAllFilter;
        let mut iter = SumFilteredPartitionIterator::new(set.clone(), &filter);
        let collected = iter.collect_partitions();
        assert_eq!(collected.len(), bell, "wrong partition count for {:?}", set);
        // each partition exactly once, comparing parts as bags
        let mut normalized: Vec<Vec<Vec<u64>>> = vec![];
        for p in collected.iter() {
            let mut parts: Vec<Vec<u64>> = p.clone();
            for part in parts.iter_mut() {
                part.sort();
            }
            parts.sort();
            normalized.push(parts);
        }
        for a in 0..normalized.len() {
            for b in (a + 1)..normalized.len() {
                assert_ne!(normalized[a], normalized[b]);
            }
        }
    }
}

#[test]
fn test_partition_iterator_against_foreign_filter() {
    // Enumerating [3, 5] under the subset sums of [1, 2, 5] yields the
    // two-part split and the trivial partition.
    let reference = vec![1, 2, 5];
    let filter = SubsetSumsFilter::new(&reference);
    let mut iter = SumFilteredPartitionIterator::new(vec![3, 5], &filter);
    let collected = iter.collect_partitions();
    assert_eq!(collected, vec![vec![vec![5], vec![3]], vec![vec![3, 5]]]);
}

fn normalize_pairs(pairs: &Vec<(Partition, Partition)>) -> Vec<(Vec<Vec<u64>>, Vec<Vec<u64>>)> {
    let mut out: Vec<(Vec<Vec<u64>>, Vec<Vec<u64>>)> = vec![];
    for (a, b) in pairs.iter() {
        let mut na = a.clone();
        for part in na.iter_mut() {
            part.sort();
        }
        na.sort();
        let mut nb = b.clone();
        for part in nb.iter_mut() {
            part.sort();
        }
        nb.sort();
        out.push((na, nb));
    }
    out.sort();
    out
}

#[test]
fn test_matcher_identity_mapping() {
    // When the inputs equal the outputs, the mapping set holds the
    // identity pair of singleton partitions.
    let coins = vec![2, 3, 9];
    let tuples = coinjoin_analyzer::matcher::partition_tuples(&coins, &coins);
    assert!(tuples.len() >= 1);
    let identity: Vec<Vec<u64>> = vec![vec![2], vec![3], vec![9]];
    let normalized = normalize_pairs(&tuples);
    let mut found = false;
    for (a, b) in normalized.iter() {
        if *a == identity && *b == identity {
            found = true;
        }
    }
    assert!(found, "identity mapping missing from {:?}", tuples);
}

#[test]
fn test_matcher_input_order_invariance() {
    // Permuting the inputs and outputs permutes nothing essential: the
    // mapping sets agree up to part reordering.
    let first = coinjoin_analyzer::matcher::partition_tuples(&vec![3, 5, 7], &vec![8, 7]);
    let second = coinjoin_analyzer::matcher::partition_tuples(&vec![7, 5, 3], &vec![7, 8]);
    assert_eq!(normalize_pairs(&first), normalize_pairs(&second));
}

#[test]
fn test_partitions_match_is_one_way() {
    // Every part of the first partition must find a sum in the second;
    // unmatched parts of the second are tolerated.
    let a: Partition = vec![vec![1]];
    let b: Partition = vec![vec![1], vec![5]];
    assert!(coinjoin_analyzer::matcher::partitions_match(&a, &b));
    assert!(!coinjoin_analyzer::matcher::partitions_match(&b, &a));
}

#[test]
fn test_partition_counts_follow_positions() {
    // Partitions are enumerated by coin position, not by value: three equal
    // coins still give the five partitions of three positions, of which
    // three print alike.
    let filter = AcceptAllFilter;
    let mut iter = SumFilteredPartitionIterator::new(vec![1, 1, 1], &filter);
    let collected = iter.collect_partitions();
    assert_eq!(collected.len(), 5);
}

#[test]
fn test_self_filter_admits_every_part() {
    // Enumerating a set against the subset sums of that same set admits
    // every part of every yielded partition.
    let set = vec![2, 3, 5];
    let filter = SubsetSumsFilter::new(&set);
    let mut iter = SumFilteredPartitionIterator::new(set.clone(), &filter);
    let collected = iter.collect_partitions();
    for p in collected.iter() {
        for part in p.iter() {
            let total: u64 = part.iter().sum();
            assert!(filter.contains(&total), "part {:?} not admitted", part);
        }
    }
}

#[test]
fn test_trivial_partition_respects_filter() {
    // On tuple exhaustion the enumerator re-tests the filter before
    // emitting the trivial partition: [1, 2] under the subset sums of [1]
    // yields nothing, because no split and not even the whole set has an
    // admitted sum.
    let reference = vec![1];
    let filter = SubsetSumsFilter::new(&reference);
    assert!(!filter.contains(&3));
    let mut iter = SumFilteredPartitionIterator::new(vec![1, 2], &filter);
    let collected = iter.collect_partitions();
    assert_eq!(collected, Vec::<Partition>::new());
}

#[test]
fn test_empty_set_yields_no_partition() {
    // The empty set has no partition into non-empty parts, whatever the
    // filter admits.
    let filter = AcceptAllFilter;
    let mut iter = SumFilteredPartitionIterator::new(vec![], &filter);
    let collected = iter.collect_partitions();
    assert_eq!(collected, Vec::<Partition>::new());
}

#[test]
fn test_realize_subsum() {
    let v = vec![3, 4, 5];
    let r = coinjoin_analyzer::generator::realize_subsum(&v, 5);
    assert_eq!(r, vec![3, 2, 2, 5]);
    let total: u64 = r.iter().sum();
    assert_eq!(total, 12);

    let untouched = coinjoin_analyzer::generator::realize_subsum(&v, 0);
    assert_eq!(untouched, vec![3, 4, 5]);

    let all = coinjoin_analyzer::generator::realize_subsum(&v, 12);
    assert_eq!(all, vec![3, 4, 5]);
}
