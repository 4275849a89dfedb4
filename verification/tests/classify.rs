use std::collections::HashMap;

use knn::classify::{classify_datapoint, classify_datapoint_owned, judge, Verdict};
use knn::tally::Tally;

const T1: [f64; 2] = [1.5, 1.0];
const T2: [f64; 2] = [1.5, 1.5];

// (x, y) datapoints on a small graph
const RECORDS: [([f64; 2], &str); 8] = [
    ([1.0, 1.0], "a"),
    ([2.0, 2.0], "b"),
    ([1.5, 2.5], "a"),
    ([1.0, 3.0], "b"),
    ([2.0, 1.0], "a"),
    ([1.0, 2.0], "b"),
    ([3.0, 1.0], "a"),
    ([2.5, 1.5], "b"),
];

fn euclidean(a_data: &[f64], b_data: &[f64]) -> f64 {
    a_data
        .iter()
        .zip(b_data)
        .map(|(a, b)| (a - b).powf(2.0))
        .sum::<f64>()
        .sqrt()
}

fn manhattan(a_data: &[f64], b_data: &[f64]) -> f64 {
    a_data.iter().zip(b_data).map(|(a, b)| (a - b).abs()).sum::<f64>()
}

fn labels() -> Vec<String> {
    RECORDS.iter().map(|(_, label)| label.to_string()).collect()
}

fn measured<'a>(
    labels: &'a [String],
    algo: fn(&[f64], &[f64]) -> f64,
    datapoint: &[f64],
) -> Vec<(u64, &'a String)> {
    RECORDS
        .iter()
        .zip(labels)
        .map(|((data, _), label)| (algo(datapoint, data).to_bits(), label))
        .collect()
}

fn as_map(groups: &Tally) -> HashMap<String, usize> {
    let mut map = HashMap::new();
    for i in 0..groups.len() {
        map.insert(groups.label(i).clone(), groups.count(i));
    }
    map
}

fn expect(pairs: &[(&str, usize)]) -> HashMap<String, usize> {
    pairs.iter().map(|(label, count)| (label.to_string(), *count)).collect()
}

#[test]
fn classify_datapoint_k2_euclidean_t1() {
    let labels = labels();
    let (_min, groups) = classify_datapoint_owned(2, &measured(&labels, euclidean, &T1));

    let expected = expect(&[("a", 2)]);

    assert_eq!(as_map(&groups), expected);
}

#[test]
fn classify_datapoint_k2_manhattan_t1() {
    let labels = labels();
    let (_min, groups) = classify_datapoint_owned(2, &measured(&labels, manhattan, &T1));

    let expected = expect(&[("a", 2)]);

    assert_eq!(as_map(&groups), expected);
}

#[test]
fn classify_datapoint_k2_euclidean_t2() {
    let labels = labels();
    let (_min, groups) = classify_datapoint_owned(2, &measured(&labels, euclidean, &T2));

    // four datapoints are at the same distance from the query, so the two
    // that vote are the two that come first among the records
    let expected = expect(&[("a", 1), ("b", 1)]);

    assert_eq!(as_map(&groups), expected);
}

#[test]
fn classify_datapoint_k2_manhattan_t2() {
    let labels = labels();
    let (_min, groups) = classify_datapoint_owned(2, &measured(&labels, euclidean, &T2));

    let expected = expect(&[("a", 1), ("b", 1)]);

    assert_eq!(as_map(&groups), expected);
}

#[test]
fn classify_datapoint_k3_euclidean_t1() {
    let labels = labels();
    let (_min, groups) = classify_datapoint_owned(3, &measured(&labels, euclidean, &T1));

    let expected = expect(&[("a", 2), ("b", 1)]);

    assert_eq!(as_map(&groups), expected);
}

#[test]
fn classify_datapoint_k3_manhattan_t1() {
    let labels = labels();
    let (_min, groups) = classify_datapoint_owned(3, &measured(&labels, manhattan, &T1));

    let expected = expect(&[("a", 2), ("b", 1)]);

    assert_eq!(as_map(&groups), expected);
}

#[test]
fn classify_datapoint_k3_euclidean_t2() {
    let labels = labels();
    let (_min, groups) = classify_datapoint_owned(3, &measured(&labels, euclidean, &T2));

    let expected = expect(&[("a", 2), ("b", 1)]);

    assert_eq!(as_map(&groups), expected);
}

#[test]
fn classify_datapoint_k3_manhattan_t2() {
    let labels = labels();
    let (_min, groups) = classify_datapoint_owned(3, &measured(&labels, manhattan, &T2));

    let expected = expect(&[("a", 2), ("b", 1)]);

    assert_eq!(as_map(&groups), expected);
}

#[test]
fn effective_k_is_the_smaller_of_k_and_the_record_count() {
    let labels = labels();
    let records = measured(&labels, euclidean, &T1);
    for k in 0..12 {
        let (min, groups) = classify_datapoint_owned(k, &records);
        assert_eq!(min, k.min(8));
        let votes: usize = (0..groups.len()).map(|i| groups.count(i)).sum();
        assert_eq!(votes, min);
    }
    let (min, groups) = classify_datapoint_owned(usize::MAX, &records);
    assert_eq!(min, 8);
    assert_eq!(as_map(&groups), expect(&[("a", 4), ("b", 4)]));
}

#[test]
fn no_records_give_no_votes() {
    let records: Vec<(u64, &String)> = Vec::new();
    let (min, groups) = classify_datapoint_owned(3, &records);
    assert_eq!(min, 0);
    assert_eq!(groups.len(), 0);
    assert_eq!(groups.largest(), None);
}

#[test]
fn equal_distances_keep_the_order_given() {
    let names: Vec<String> = ["p", "q", "r", "s", "t"].iter().map(|s| s.to_string()).collect();
    let far = 2.0f64.to_bits();
    let near = 1.0f64.to_bits();
    // every record but the last is at the same distance
    let records: Vec<(u64, &String)> =
        vec![(far, &names[0]), (far, &names[1]), (far, &names[2]), (far, &names[3]), (near, &names[4])];
    let mut collected = Vec::new();
    let mut groups = Tally::new();
    let min = classify_datapoint(3, &records, &mut collected, &mut groups);
    assert_eq!(min, 3);
    assert_eq!(collected, vec![4, 0, 1, 2, 3]);
    assert_eq!(groups.len(), 3);
    assert_eq!(groups.label(0).as_str(), "t");
    assert_eq!(groups.label(1).as_str(), "p");
    assert_eq!(groups.label(2).as_str(), "q");
    assert_eq!(groups.get(&names[2]), 0);
    assert_eq!(groups.get(&names[0]), 1);
}

#[test]
fn ranking_matches_a_stable_sort_by_total_order() {
    let values = [
        3.5,
        -0.0,
        0.0,
        f64::NAN,
        -1.0,
        f64::INFINITY,
        3.5,
        f64::NEG_INFINITY,
        -f64::NAN,
        1e-300,
        0.0,
        -1.0,
    ];
    let label = String::from("x");
    let records: Vec<(u64, &String)> = values.iter().map(|v| (v.to_bits(), &label)).collect();
    let mut collected = Vec::new();
    let mut groups = Tally::new();
    classify_datapoint(1, &records, &mut collected, &mut groups);
    let mut expected: Vec<usize> = (0..values.len()).collect();
    expected.sort_by(|a, b| values[*a].total_cmp(&values[*b]));
    assert_eq!(collected, expected);
}

#[test]
fn buffers_are_cleared_before_use() {
    let labels = labels();
    let records = measured(&labels, euclidean, &T1);
    let mut collected = vec![7, 7, 7];
    let mut groups = Tally::new();
    groups.vote(&labels[1]);
    groups.vote(&labels[1]);
    let min = classify_datapoint(2, &records, &mut collected, &mut groups);
    assert_eq!(min, 2);
    assert_eq!(collected.len(), 8);
    assert_eq!(collected[0], 0);
    assert_eq!(collected[1], 4);
    assert_eq!(as_map(&groups), expect(&[("a", 2)]));
}

#[test]
fn tally_keeps_labels_in_the_order_first_met() {
    let names: Vec<String> = ["x", "y", "z"].iter().map(|s| s.to_string()).collect();
    let mut groups = Tally::new();
    for i in [2usize, 0, 2, 1, 0, 2] {
        groups.vote(&names[i]);
    }
    assert_eq!(groups.len(), 3);
    assert_eq!((groups.label(0).as_str(), groups.count(0)), ("z", 3));
    assert_eq!((groups.label(1).as_str(), groups.count(1)), ("x", 2));
    assert_eq!((groups.label(2).as_str(), groups.count(2)), ("y", 1));
    assert_eq!(groups.largest(), Some(0));
    groups.clear();
    assert_eq!(groups.len(), 0);
}

#[test]
fn largest_prefers_the_label_met_first_among_equals() {
    let names: Vec<String> = ["x", "y", "z"].iter().map(|s| s.to_string()).collect();
    let mut groups = Tally::new();
    for i in [1usize, 0, 2, 2, 0] {
        groups.vote(&names[i]);
    }
    // x and z have two votes each; x was met first
    assert_eq!(groups.largest(), Some(1));
    assert_eq!(groups.label(1).as_str(), "x");
}

#[test]
fn judge_compares_the_winner_with_the_label() {
    let labels = labels();
    let records = measured(&labels, euclidean, &T1);
    let mut collected = Vec::new();
    let mut groups = Tally::new();
    let a = String::from("a");
    let b = String::from("b");
    assert_eq!(judge(3, &records, &a, &mut collected, &mut groups), Verdict::Passed);
    assert_eq!(judge(3, &records, &b, &mut collected, &mut groups), Verdict::Failed);
    assert_eq!(judge(0, &records, &a, &mut collected, &mut groups), Verdict::Unknown);
    let none: Vec<(u64, &String)> = Vec::new();
    assert_eq!(judge(3, &none, &a, &mut collected, &mut groups), Verdict::Unknown);
    // at the tie of (1.5, 1.5) with k = 2 the label met first wins: a
    let tied = measured(&labels, euclidean, &T2);
    assert_eq!(judge(2, &tied, &a, &mut collected, &mut groups), Verdict::Passed);
    assert_eq!(judge(2, &tied, &b, &mut collected, &mut groups), Verdict::Failed);
}
