use knn::record::{map_record, KnnRecord, RecordError};

fn fields(texts: &[&str]) -> Vec<(String, Option<f64>)> {
    texts.iter().map(|t| (t.to_string(), t.parse::<f64>().ok())).collect()
}

fn parts(record: KnnRecord<f64>) -> (Vec<f64>, String) {
    (record.data, record.label)
}

#[test]
fn a_row_becomes_a_record() {
    let row = fields(&["5.1", "3.5", "setosa", "1e-1"]);
    let mapped = map_record(2, &vec![1, 0, 3, 1], 0, &row).unwrap();
    assert_eq!(parts(mapped), (vec![3.5, 5.1, 0.1, 3.5], "setosa".to_string()));
    let mapped = map_record(0, &vec![], 7, &row).unwrap();
    assert_eq!(parts(mapped), (vec![], "5.1".to_string()));
}

#[test]
fn every_record_error_has_its_input() {
    let row = fields(&["5.1", "x", "setosa"]);
    assert_eq!(
        map_record(2, &vec![0, 3], 4, &row).unwrap_err(),
        RecordError::ColumnMissing { column: 3 }
    );
    assert_eq!(
        map_record(2, &vec![0, 1], 4, &row).unwrap_err(),
        RecordError::ColumnInvalid { row: 4, column: 1 }
    );
    assert_eq!(
        map_record(3, &vec![0], 4, &row).unwrap_err(),
        RecordError::LabelMissing { row: 4 }
    );
    assert_eq!(
        map_record(usize::MAX, &vec![usize::MAX], 0, &row).unwrap_err(),
        RecordError::ColumnMissing { column: usize::MAX }
    );
}

#[test]
fn the_first_failing_column_gives_the_record_error() {
    let row = fields(&["5.1", "x", "setosa"]);
    assert_eq!(
        map_record(9, &vec![0, 2, 5], 1, &row).unwrap_err(),
        RecordError::ColumnInvalid { row: 1, column: 2 }
    );
    assert_eq!(
        map_record(9, &vec![5, 1], 1, &row).unwrap_err(),
        RecordError::ColumnMissing { column: 5 }
    );
    assert_eq!(
        map_record(9, &vec![0], 1, &fields(&[])).unwrap_err(),
        RecordError::ColumnMissing { column: 0 }
    );
}
