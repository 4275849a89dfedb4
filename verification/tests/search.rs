use knn::classify::Verdict;
use knn::distance::AlgoType;
use knn::fraction::Fraction;
use knn::kvalue::KValue;
use knn::predict::ConfigError;
use knn::record::{collect_data, KnnRecord};
use knn::search::{knn_search, Score, Search, SearchError, SearchResult};

fn euclidean(a_data: &[f64], b_data: &[f64]) -> f64 {
    a_data
        .iter()
        .zip(b_data)
        .map(|(a, b)| (a - b).powf(2.0))
        .sum::<f64>()
        .sqrt()
}

// The first column tells the labels apart, the second says nothing, and the
// third misleads.
fn records() -> Vec<KnnRecord<f64>> {
    let rows: [([f64; 3], &str); 12] = [
        ([0.0, 5.0, 9.0], "a"),
        ([10.0, 5.0, 0.0], "b"),
        ([0.1, 5.0, 1.0], "a"),
        ([10.1, 5.0, 8.0], "b"),
        ([0.2, 5.0, 2.0], "a"),
        ([10.2, 5.0, 7.0], "b"),
        ([0.3, 5.0, 3.0], "a"),
        ([10.3, 5.0, 6.0], "b"),
        ([0.4, 5.0, 4.0], "a"),
        ([10.4, 5.0, 5.0], "b"),
        ([0.5, 5.0, 5.5], "a"),
        ([10.5, 5.0, 4.5], "b"),
    ];
    rows.iter().map(|(data, label)| KnnRecord { data: data.to_vec(), label: label.to_string() }).collect()
}

fn run(records: &[KnnRecord<f64>], search: &mut Search) -> Vec<(Vec<usize>, Score)> {
    let mut trials = Vec::new();
    let mut query = Vec::new();
    let mut other = Vec::new();
    while let Some(trial) = search.pending() {
        assert_eq!(trial.algo, AlgoType::Euclidean);
        let held: Vec<usize> = search.test().clone();
        for t in held {
            collect_data(&records[t], &mut query, &trial.selected, trial.checking);
            let mut distances = Vec::new();
            for r in search.train() {
                collect_data(&records[*r], &mut other, &trial.selected, trial.checking);
                distances.push(euclidean(&query, &other).to_bits());
            }
            search.observe(&distances).unwrap();
        }
        let score = search.conclude().unwrap();
        let mut columns = trial.selected.clone();
        columns.push(trial.checking);
        trials.push((columns, score));
    }
    trials
}

fn steps(results: &[SearchResult]) -> Vec<(usize, usize, usize, Vec<usize>)> {
    results.iter().map(|r| (r.k, r.passed, r.tested, r.cols.clone())).collect()
}

#[test]
fn the_search_chooses_the_telling_column_first() {
    let records = records();
    let k = KValue::from_str("1").unwrap();
    let split = Fraction::new(1, 3).unwrap();
    let vec = records;
    let mut search = knn_search(&vec, 3, &k, split, AlgoType::Euclidean).unwrap();
    assert_eq!(search.test(), &vec![0, 2, 1, 3]);
    assert_eq!(search.train(), &vec![4, 6, 8, 10, 5, 7, 9, 11]);
    let trials = run(&vec, &mut search);
    assert!(search.finished());
    assert!(search.pending().is_none());
    // three trials, then two, then one
    let tried: Vec<Vec<usize>> = trials.iter().map(|t| t.0.clone()).collect();
    assert_eq!(tried[0], vec![0]);
    assert_eq!(tried[1], vec![1]);
    assert_eq!(tried[2], vec![2]);
    assert_eq!(tried.len(), 6);
    assert_eq!(trials[0].1, Score { passed: 4, failed: 0, unknown: 0 });
    // at equal distances the training record given first is the nearest: a
    assert_eq!(trials[1].1, Score { passed: 2, failed: 2, unknown: 0 });
    let results = steps(search.results());
    assert_eq!(results.len(), 3);
    assert_eq!(results[0], (1, 4, 4, vec![0]));
    assert_eq!(results[1].3.len(), 2);
    assert_eq!(results[1].3[0], 0);
    assert_eq!(results[2].3.len(), 3);
    assert_eq!(&results[2].3[..2], &results[1].3[..]);
}

#[test]
fn every_count_makes_as_many_steps_as_there_are_columns() {
    let records = records();
    let k = KValue::from_str("1-5,2").unwrap();
    let split = Fraction::new(1, 4).unwrap();
    let mut search = knn_search(&records, 3, &k, split, AlgoType::Euclidean).unwrap();
    let trials = run(&records, &mut search);
    assert_eq!(trials.len(), 3 * 6);
    let results = search.into_results();
    assert_eq!(results.len(), 9);
    for (i, step) in results.iter().enumerate() {
        assert_eq!(step.k, [1, 3, 5][i / 3]);
        assert_eq!(step.cols.len(), i % 3 + 1);
        assert_eq!(step.tested, 2);
        assert!(step.passed <= step.tested);
        let mut seen = step.cols.clone();
        seen.sort();
        seen.dedup();
        assert_eq!(seen.len(), step.cols.len());
        assert!(step.cols.iter().all(|c| *c < 3));
        if i % 3 > 0 {
            assert_eq!(&step.cols[..i % 3], &results[i - 1].cols[..]);
        }
    }
}

#[test]
fn among_equal_trials_the_first_column_is_chosen() {
    // both columns tell the labels apart equally well
    let rows: [([f64; 2], &str); 8] = [
        ([0.0, 0.0], "a"),
        ([9.0, 9.0], "b"),
        ([0.0, 0.0], "a"),
        ([9.0, 9.0], "b"),
        ([0.0, 0.0], "a"),
        ([9.0, 9.0], "b"),
        ([0.0, 0.0], "a"),
        ([9.0, 9.0], "b"),
    ];
    let records: Vec<KnnRecord<f64>> =
        rows.iter().map(|(d, l)| KnnRecord { data: d.to_vec(), label: l.to_string() }).collect();
    let k = KValue::from_str("1").unwrap();
    let mut search =
        knn_search(&records, 2, &k, Fraction::new(1, 2).unwrap(), AlgoType::Euclidean).unwrap();
    run(&records, &mut search);
    let results = steps(search.results());
    assert_eq!(results, vec![(1, 4, 4, vec![0]), (1, 4, 4, vec![0, 1])]);
}

#[test]
fn without_held_out_records_the_columns_are_taken_in_order() {
    let records = records();
    let k = KValue::from_str("2-3").unwrap();
    let mut search =
        knn_search(&records, 3, &k, Fraction::new(0, 1).unwrap(), AlgoType::Manhattan).unwrap();
    assert!(search.test().is_empty());
    let mut trials = 0;
    while let Some(trial) = search.pending() {
        assert_eq!(trial.algo, AlgoType::Manhattan);
        assert_eq!(search.observe(&vec![0; 12]), Err(SearchError::RowsComplete));
        assert_eq!(search.conclude(), Ok(Score { passed: 0, failed: 0, unknown: 0 }));
        trials += 1;
    }
    assert_eq!(trials, 12);
    assert_eq!(
        steps(search.results()),
        vec![
            (2, 0, 0, vec![0]),
            (2, 0, 0, vec![0, 1]),
            (2, 0, 0, vec![0, 1, 2]),
            (3, 0, 0, vec![0]),
            (3, 0, 0, vec![0, 1]),
            (3, 0, 0, vec![0, 1, 2]),
        ]
    );
}

#[test]
fn without_records_the_search_is_over_at_once() {
    let records: Vec<KnnRecord<f64>> = Vec::new();
    let k = KValue::from_str("3-10").unwrap();
    let mut search =
        knn_search(&records, 2, &k, Fraction::new(1, 4).unwrap(), AlgoType::Euclidean).unwrap();
    assert!(search.finished());
    assert!(search.pending().is_none());
    assert_eq!(search.observe(&vec![]), Err(SearchError::Finished));
    assert_eq!(search.conclude(), Err(SearchError::Finished));
    assert!(search.results().is_empty());
}

#[test]
fn a_search_needs_columns() {
    let records = records();
    let k = KValue::from_str("3").unwrap();
    let refused = knn_search(&records, 0, &k, Fraction::new(1, 4).unwrap(), AlgoType::Euclidean);
    assert!(matches!(refused, Err(ConfigError::NoColumns)));
}

#[test]
fn the_search_refuses_what_is_out_of_turn() {
    let records = records();
    let k = KValue::from_str("1").unwrap();
    let mut search =
        knn_search(&records, 1, &k, Fraction::new(1, 6).unwrap(), AlgoType::Euclidean).unwrap();
    assert_eq!(search.test(), &vec![0, 1]);
    assert_eq!(search.train().len(), 10);
    assert_eq!(search.conclude(), Err(SearchError::RowsMissing));
    assert_eq!(search.observe(&vec![0; 9]), Err(SearchError::WrongLength));
    assert_eq!(search.observe(&vec![0; 11]), Err(SearchError::WrongLength));
    // the training records are 2 4 6 8 10 (a) and 3 5 7 9 11 (b)
    let near_a: Vec<u64> = [1.0f64, 2.0, 3.0, 4.0, 5.0, 9.0, 9.0, 9.0, 9.0, 9.0].iter().map(|d| d.to_bits()).collect();
    assert_eq!(search.observe(&near_a), Ok(Verdict::Passed));
    assert_eq!(search.conclude(), Err(SearchError::RowsMissing));
    assert_eq!(search.observe(&near_a), Ok(Verdict::Failed));
    assert_eq!(search.observe(&near_a), Err(SearchError::RowsComplete));
    assert_eq!(search.conclude(), Ok(Score { passed: 1, failed: 1, unknown: 0 }));
    assert!(search.finished());
    assert_eq!(search.observe(&near_a), Err(SearchError::Finished));
    assert_eq!(search.conclude(), Err(SearchError::Finished));
    assert_eq!(steps(search.results()), vec![(1, 1, 2, vec![0])]);
}

#[test]
fn a_later_trial_wins_only_with_more_right() {
    let records = records();
    let k = KValue::from_str("1").unwrap();
    let mut search =
        knn_search(&records, 3, &k, Fraction::new(1, 6).unwrap(), AlgoType::Euclidean).unwrap();
    let near_a: Vec<u64> = [1u64, 2, 3, 4, 5, 9, 9, 9, 9, 9].to_vec();
    let near_b: Vec<u64> = [9u64, 9, 9, 9, 9, 1, 2, 3, 4, 5].to_vec();
    // held out: record 0 (a) and record 1 (b)
    // column 0: one right; column 1: two right; column 2: two right
    for (first, second) in [(&near_a, &near_a), (&near_a, &near_b), (&near_a, &near_b)] {
        search.observe(first).unwrap();
        search.observe(second).unwrap();
        search.conclude().unwrap();
    }
    assert_eq!(steps(search.results()), vec![(1, 2, 2, vec![1])]);
    let trial = search.pending().unwrap();
    assert_eq!((trial.selected.clone(), trial.checking), (vec![1], 0));
    // columns 0 and 2 are left: none right with 0, none right with 2
    for _ in 0..2 {
        search.observe(&near_b).unwrap();
        search.observe(&near_a).unwrap();
        search.conclude().unwrap();
    }
    assert_eq!(steps(search.results())[1], (1, 0, 2, vec![1, 0]));
    let trial = search.pending().unwrap();
    assert_eq!((trial.selected.clone(), trial.checking), (vec![1, 0], 2));
}
