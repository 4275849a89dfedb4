use knn::fraction::Fraction;
use knn::record::KnnRecord;
use knn::split::split_dataset;

fn records(labels: &[&str]) -> Vec<KnnRecord<f64>> {
    labels
        .iter()
        .enumerate()
        .map(|(i, label)| KnnRecord { data: vec![i as f64], label: label.to_string() })
        .collect()
}

fn fraction(numerator: usize, denominator: usize) -> Fraction {
    Fraction::new(numerator, denominator).unwrap()
}

#[test]
fn groups_come_in_the_order_of_their_first_record() {
    let records = records(&["b", "a", "b", "c", "a", "b", "b", "a", "c", "b"]);
    // b: 0 2 5 6 9, a: 1 4 7, c: 3 8
    let (train, test) = split_dataset(&records, fraction(1, 2));
    assert_eq!(test, vec![0, 2, 1, 3]);
    assert_eq!(train, vec![5, 6, 9, 4, 7, 8]);
}

#[test]
fn a_quarter_is_held_out() {
    let records = records(&["x", "x", "y", "x", "y", "x", "y", "y", "x", "x", "x", "x"]);
    // x: 0 1 3 5 8 9 10 11 (8), y: 2 4 6 7 (4)
    let (train, test) = split_dataset(&records, fraction(1, 4));
    assert_eq!(test, vec![0, 1, 2]);
    assert_eq!(train, vec![3, 5, 8, 9, 10, 11, 4, 6, 7]);
}

#[test]
fn nothing_and_everything_held_out() {
    let records = records(&["a", "b", "a", "c"]);
    let (train, test) = split_dataset(&records, fraction(0, 1));
    assert_eq!(train, vec![0, 2, 1, 3]);
    assert_eq!(test, Vec::<usize>::new());
    let (train, test) = split_dataset(&records, fraction(1, 1));
    assert_eq!(train, Vec::<usize>::new());
    assert_eq!(test, vec![0, 2, 1, 3]);
}

#[test]
fn small_groups_hold_nothing_out() {
    let records = records(&["a", "b", "a", "c", "a", "a"]);
    let (train, test) = split_dataset(&records, fraction(1, 4));
    // a has 4 records and holds 1 out; b and c have 1 record each
    assert_eq!(test, vec![0]);
    assert_eq!(train, vec![2, 4, 5, 1, 3]);
}

#[test]
fn no_records_split_into_nothing() {
    let records: Vec<KnnRecord<f64>> = Vec::new();
    let (train, test) = split_dataset(&records, fraction(1, 4));
    assert!(train.is_empty());
    assert!(test.is_empty());
}

#[test]
fn every_record_is_in_exactly_one_set() {
    let labels = ["a", "b", "c", "a", "a", "b", "d", "a", "c", "c", "b", "a", "a", "d", "a"];
    let records = records(&labels);
    for (numerator, denominator) in [(0, 1), (1, 10), (1, 4), (1, 3), (1, 2), (2, 3), (9, 10), (1, 1)] {
        let (train, test) = split_dataset(&records, fraction(numerator, denominator));
        assert_eq!(train.len() + test.len(), records.len());
        let mut all: Vec<usize> = train.iter().chain(test.iter()).copied().collect();
        all.sort();
        assert_eq!(all, (0..records.len()).collect::<Vec<usize>>());
    }
}

#[test]
fn each_group_holds_out_its_portion() {
    let labels = ["a", "b", "c", "a", "a", "b", "d", "a", "c", "c", "b", "a", "a", "d", "a"];
    let records = records(&labels);
    for (numerator, denominator) in [(0, 1), (1, 10), (1, 4), (1, 3), (1, 2), (2, 3), (9, 10), (1, 1)] {
        let (_, test) = split_dataset(&records, fraction(numerator, denominator));
        for label in ["a", "b", "c", "d", "e"] {
            let size = labels.iter().filter(|l| **l == label).count();
            let held = test.iter().filter(|i| labels[**i] == label).count();
            assert_eq!(held, size * numerator / denominator);
        }
    }
}

#[test]
fn portions_round_down() {
    assert_eq!(fraction(1, 4).portion(8), 2);
    assert_eq!(fraction(1, 4).portion(7), 1);
    assert_eq!(fraction(1, 4).portion(3), 0);
    assert_eq!(fraction(7, 10).portion(10), 7);
    assert_eq!(fraction(29, 100).portion(100), 29);
    assert_eq!(fraction(2, 3).portion(2), 1);
    assert_eq!(fraction(0, 5).portion(1000), 0);
    assert_eq!(fraction(5, 5).portion(1000), 1000);
    assert_eq!(fraction(1, 1).portion(usize::MAX), usize::MAX);
    assert_eq!(fraction(usize::MAX - 1, usize::MAX).portion(usize::MAX), usize::MAX - 1);
    assert_eq!(fraction(1, 2).portion(usize::MAX), usize::MAX / 2);
}

#[test]
fn fractions_lie_between_nothing_and_all() {
    assert!(Fraction::new(1, 0).is_none());
    assert!(Fraction::new(0, 0).is_none());
    assert!(Fraction::new(3, 2).is_none());
    assert!(Fraction::new(0, 1).is_some());
    assert!(Fraction::new(2, 2).is_some());
}
