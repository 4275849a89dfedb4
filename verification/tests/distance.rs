use knn::distance::{nearer, AlgoType};

#[test]
fn nearer_is_the_total_order_on_doubles() {
    let values = [
        -f64::NAN,
        f64::NEG_INFINITY,
        f64::MIN,
        -1.5,
        -f64::MIN_POSITIVE,
        -0.0,
        0.0,
        f64::MIN_POSITIVE,
        1.0,
        1.0000000000000002,
        8.0f64.sqrt(),
        f64::MAX,
        f64::INFINITY,
        f64::NAN,
    ];
    for a in values {
        for b in values {
            let expected = a.total_cmp(&b) == std::cmp::Ordering::Less;
            assert_eq!(nearer(a.to_bits(), b.to_bits()), expected, "{a} before {b}");
        }
    }
}

#[test]
fn nearer_is_strict() {
    assert!(!nearer(4.0f64.to_bits(), 4.0f64.to_bits()));
    assert!(nearer(0, 1));
    assert!(!nearer(1, 0));
    assert!(nearer(u64::MAX, 0));
    assert!(nearer(u64::MAX, 1 << 63));
}

#[test]
fn algorithms_are_told_apart() {
    assert_ne!(AlgoType::Euclidean, AlgoType::Manhattan);
    assert_eq!(AlgoType::Euclidean.clone(), AlgoType::Euclidean);
}
