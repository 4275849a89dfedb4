use knn::kvalue::{KValue, KValueError};

fn sequence(text: &str, total: usize) -> Vec<usize> {
    KValue::from_str(text).unwrap().get_range(total)
}

#[test]
fn single_count() {
    assert_eq!(sequence("3", 100), vec![3]);
}

#[test]
fn range_includes_both_bounds() {
    assert_eq!(sequence("3-5", 100), vec![3, 4, 5]);
}

#[test]
fn range_with_step() {
    assert_eq!(sequence("2-10,3", 100), vec![2, 5, 8]);
}

#[test]
fn range_stays_below_the_record_count() {
    assert_eq!(sequence("5-10", 7), vec![5, 6]);
}

#[test]
fn zero_is_refused() {
    assert_eq!(KValue::from_str("0").unwrap_err(), KValueError::Zero);
    assert_eq!(KValue::from_str("0-5").unwrap_err(), KValueError::LowZero);
    assert_eq!(KValue::from_str("5-2").unwrap_err(), KValueError::LowAboveHigh);
    assert_eq!(KValue::from_str("1-5,0").unwrap_err(), KValueError::StepZero);
}

#[test]
fn every_error_has_its_input() {
    assert_eq!(KValue::from_str("a-5").unwrap_err(), KValueError::LowInvalid);
    assert_eq!(KValue::from_str("-5").unwrap_err(), KValueError::LowInvalid);
    assert_eq!(KValue::from_str("1-b").unwrap_err(), KValueError::HighInvalid);
    assert_eq!(KValue::from_str("1-").unwrap_err(), KValueError::HighInvalid);
    assert_eq!(KValue::from_str("1-2-3").unwrap_err(), KValueError::HighInvalid);
    assert_eq!(KValue::from_str("0-5").unwrap_err(), KValueError::LowZero);
    assert_eq!(KValue::from_str("6-5").unwrap_err(), KValueError::LowAboveHigh);
    assert_eq!(KValue::from_str("1-5,x").unwrap_err(), KValueError::StepInvalid);
    assert_eq!(KValue::from_str("1-5,").unwrap_err(), KValueError::StepInvalid);
    assert_eq!(KValue::from_str("1-5,1,1").unwrap_err(), KValueError::StepInvalid);
    assert_eq!(KValue::from_str("1-5,0").unwrap_err(), KValueError::StepZero);
    assert_eq!(KValue::from_str("5,2").unwrap_err(), KValueError::RangeMissing);
    assert_eq!(KValue::from_str("0").unwrap_err(), KValueError::Zero);
    assert_eq!(KValue::from_str("").unwrap_err(), KValueError::Invalid);
    assert_eq!(KValue::from_str("three").unwrap_err(), KValueError::Invalid);
    assert_eq!(KValue::from_str(" 3").unwrap_err(), KValueError::Invalid);
    assert_eq!(KValue::from_str("3.0").unwrap_err(), KValueError::Invalid);
    assert_eq!(KValue::from_str("\u{663}").unwrap_err(), KValueError::Invalid);
}

#[test]
fn the_step_is_checked_before_the_range() {
    assert_eq!(KValue::from_str("0-5,0").unwrap_err(), KValueError::StepZero);
    assert_eq!(KValue::from_str("x-5,y").unwrap_err(), KValueError::StepInvalid);
    assert_eq!(KValue::from_str("x-5,2").unwrap_err(), KValueError::LowInvalid);
}

#[test]
fn messages() {
    assert_eq!(KValueError::LowInvalid.message(), "failed to parse low value for k range");
    assert_eq!(KValueError::HighInvalid.message(), "failed to parse high value for k range");
    assert_eq!(KValueError::LowZero.message(), "low value for k range cannot be 0");
    assert_eq!(
        KValueError::LowAboveHigh.message(),
        "low value for k range cannot be greater than the high value"
    );
    assert_eq!(KValueError::StepInvalid.message(), "failed to parse step size for k value");
    assert_eq!(KValueError::StepZero.message(), "step size must be larger than 0");
    assert_eq!(
        KValueError::RangeMissing.message(),
        "you must specify a range when using a k range"
    );
    assert_eq!(KValueError::Zero.message(), "k value cannot be 0");
    assert_eq!(KValueError::Invalid.message(), "invalid k value specified");
}

#[test]
fn numbers_may_carry_a_plus_sign_and_leading_zeros() {
    assert_eq!(sequence("+3", 100), vec![3]);
    assert_eq!(sequence("003-+5", 100), vec![3, 4, 5]);
    assert_eq!(KValue::from_str("+").unwrap_err(), KValueError::Invalid);
    assert_eq!(KValue::from_str("++3").unwrap_err(), KValueError::Invalid);
}

#[test]
fn numbers_beyond_the_machine_word_are_refused() {
    let beyond = "340282366920938463463374607431768211456";
    assert_eq!(KValue::from_str(beyond).unwrap_err(), KValueError::Invalid);
    assert_eq!(
        KValue::from_str(&format!("1-{beyond}")).unwrap_err(),
        KValueError::HighInvalid
    );
    let most = usize::MAX.to_string();
    assert_eq!(sequence(&format!("1-{most}"), 4), vec![1, 2, 3]);
    assert_eq!(sequence(&most, 4), Vec::<usize>::new());
    assert_eq!(sequence(&format!("2-{most},{most}"), 10), vec![2]);
}

#[test]
fn parse_range_gives_the_bound_above_the_high_value() {
    assert_eq!(KValue::parse_range("3-5"), Ok(Some((3, 6))));
    assert_eq!(KValue::parse_range("7-7"), Ok(Some((7, 8))));
    assert_eq!(KValue::parse_range("+1-0010"), Ok(Some((1, 11))));
    assert_eq!(KValue::parse_range("35"), Ok(None));
    assert_eq!(KValue::parse_range(""), Ok(None));
    assert_eq!(KValue::parse_range("3-x"), Err(KValueError::HighInvalid));
    assert_eq!(KValue::parse_range("x-3"), Err(KValueError::LowInvalid));
    assert_eq!(KValue::parse_range("0-3"), Err(KValueError::LowZero));
    assert_eq!(KValue::parse_range("4-3"), Err(KValueError::LowAboveHigh));
}

#[test]
fn parse_range_refuses_a_high_value_without_a_bound_above_it() {
    let most = usize::MAX;
    assert_eq!(
        KValue::parse_range(&format!("1-{most}")),
        Err(KValueError::HighTooLarge)
    );
    assert_eq!(
        KValue::parse_range(&format!("{most}-{most}")),
        Err(KValueError::HighTooLarge)
    );
    assert_eq!(
        KValue::parse_range(&format!("1-{}", most - 1)),
        Ok(Some((1, most)))
    );
    // the checks on the low value come first
    assert_eq!(KValue::parse_range(&format!("0-{most}")), Err(KValueError::LowZero));
    assert_eq!(KValueError::HighTooLarge.message(), "high value for k range is too large");
}

#[test]
fn the_sequence_depends_on_the_record_count() {
    let k = KValue::from_str("3-10,2").unwrap();
    assert_eq!(k.get_range(0), Vec::<usize>::new());
    assert_eq!(k.get_range(3), Vec::<usize>::new());
    assert_eq!(k.get_range(4), vec![3]);
    assert_eq!(k.get_range(5), vec![3]);
    assert_eq!(k.get_range(6), vec![3, 5]);
    assert_eq!(k.get_range(10), vec![3, 5, 7, 9]);
    assert_eq!(k.get_range(11), vec![3, 5, 7, 9]);
    assert_eq!(k.get_range(usize::MAX), vec![3, 5, 7, 9]);
    let one = KValue::from_str("1").unwrap();
    assert_eq!(one.get_range(1), Vec::<usize>::new());
    assert_eq!(one.get_range(2), vec![1]);
}
