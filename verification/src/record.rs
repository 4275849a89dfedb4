//! The record store: labelled feature vectors in the order in which they were
//! read, how a row of the table becomes a record, and the projection of a
//! record onto chosen columns.

use vstd::prelude::*;

verus! {

/// One labelled record. The library never computes with the features, so it
/// leaves their type open.
#[derive(Debug)]
pub struct KnnRecord<T> {
    pub data: Vec<T>,
    pub label: String,
}

/// Why a row of the table gives no record.
#[derive(Debug, Clone, Copy, PartialEq, Eq)]
pub enum RecordError {
    /// The row has no field at the position of a data column.
    ColumnMissing { column: usize },
    /// The field at the position of a data column is no number.
    ColumnInvalid { row: usize, column: usize },
    /// The row has no field at the position of the label column.
    LabelMissing { row: usize },
}

/// The numbers of a row at the positions `columns`, in that order; or the
/// error of the first position at which the row has no field or no number.
/// Each field of the row is its text and, where the text is a number, the
/// number.
pub open spec fn features_of<T>(
    columns: Seq<usize>,
    row: usize,
    fields: Seq<(String, Option<T>)>,
) -> Result<Seq<T>, RecordError>
    decreases columns.len(),
{
    if columns.len() == 0 {
        Ok(Seq::empty())
    } else {
        match features_of(columns.drop_last(), row, fields) {
            Err(e) => Err(e),
            Ok(data) => {
                let column = columns.last();
                if column >= fields.len() {
                    Err(RecordError::ColumnMissing { column })
                } else {
                    match fields[column as int].1 {
                        None => Err(RecordError::ColumnInvalid { row, column }),
                        Some(value) => Ok(data.push(value)),
                    }
                }
            },
        }
    }
}

/// The labels of `records`, in the same order.
pub open spec fn record_labels<T>(records: Seq<KnnRecord<T>>) -> Seq<Seq<char>> {
    records.map_values(|r: KnnRecord<T>| r.label@)
}

/// Where the first columns give an error, all of them give the same error.
pub proof fn lemma_features_fail<T>(
    columns: Seq<usize>,
    row: usize,
    fields: Seq<(String, Option<T>)>,
    upto: int,
)
    requires
        0 <= upto <= columns.len(),
        features_of(columns.take(upto), row, fields) is Err,
    ensures
        features_of(columns, row, fields) == features_of(columns.take(upto), row, fields),
    decreases columns.len() - upto,
{
    if upto < columns.len() {
        assert(columns.take(upto + 1).drop_last() =~= columns.take(upto));
        lemma_features_fail(columns, row, fields, upto + 1);
    } else {
        assert(columns.take(upto) =~= columns);
    }
}

/// Makes a record of row `index` of the table: its features are the numbers
/// at the positions `columns`, its label the text at the position `label`.
/// Each field of the row is its text and, where the text is a number, the
/// number. The data columns are looked at in the order given, then the label
/// column; the first that fails gives the error.
pub fn map_record<T: Copy>(
    label: usize,
    columns: &Vec<usize>,
    index: usize,
    record: &Vec<(String, Option<T>)>,
) -> (mapped: Result<KnnRecord<T>, RecordError>)
    ensures
        match features_of(columns@, index, record@) {
            Err(e) => mapped == Err::<KnnRecord<T>, RecordError>(e),
            Ok(data) => if label >= record@.len() {
                mapped == Err::<KnnRecord<T>, RecordError>(RecordError::LabelMissing { row: index })
            } else {
                mapped matches Ok(r) && r.data@ == data && r.label@ == record@[label as int].0@
            },
        },
{
    let mut data: Vec<T> = Vec::new();
    let mut i: usize = 0;
    assert(columns@.take(0) =~= Seq::<usize>::empty());
    while i < columns.len()
        invariant
            i <= columns.len(),
            features_of(columns@.take(i as int), index, record@) == Ok::<Seq<T>, RecordError>(
                data@,
            ),
        decreases columns.len() - i,
    {
        let column = columns[i];
        proof {
            assert(columns@.take(i as int + 1).drop_last() =~= columns@.take(i as int));
            assert(columns@.take(i as int + 1).last() == column);
        }
        if column >= record.len() {
            proof {
                lemma_features_fail(columns@, index, record@, i as int + 1);
            }
            return Err(RecordError::ColumnMissing { column });
        }
        match record[column].1 {
            Some(value) => {
                data.push(value);
            },
            None => {
                proof {
                    lemma_features_fail(columns@, index, record@, i as int + 1);
                }
                return Err(RecordError::ColumnInvalid { row: index, column });
            },
        }
        i += 1;
    }
    assert(columns@.take(columns@.len() as int) =~= columns@);
    if label >= record.len() {
        return Err(RecordError::LabelMissing { row: index });
    }
    Ok(KnnRecord { data, label: record[label].0.clone() })
}

/// The features of a record at the columns `selected`, in that order, and
/// then the feature at the column `checking`.
pub open spec fn gathered<T>(data: Seq<T>, selected: Seq<usize>, checking: usize) -> Seq<T> {
    Seq::new(selected.len(), |i: int| data[selected[i] as int]).push(data[checking as int])
}

/// Projects a record onto the columns `selected` and the column `checking`:
/// `buf` receives the features at these columns, in this order. What it held
/// before is dropped.
pub fn collect_data<T: Copy>(
    record: &KnnRecord<T>,
    buf: &mut Vec<T>,
    selected: &Vec<usize>,
    checking: usize,
)
    requires
        checking < record.data@.len(),
        forall|i: int| 0 <= i < selected@.len() ==> (#[trigger] selected@[i]) < record.data@.len(),
    ensures
        final(buf)@ == gathered(record.data@, selected@, checking),
{
    buf.clear();
    let mut i: usize = 0;
    while i < selected.len()
        invariant
            i <= selected.len(),
            checking < record.data@.len(),
            forall|j: int|
                0 <= j < selected@.len() ==> (#[trigger] selected@[j]) < record.data@.len(),
            buf@ == Seq::new(i as nat, |j: int| record.data@[selected@[j] as int]),
        decreases selected.len() - i,
    {
        buf.push(record.data[selected[i]]);
        i += 1;
        assert(buf@ =~= Seq::new(i as nat, |j: int| record.data@[selected@[j] as int]));
    }
    buf.push(record.data[checking]);
}

/// Projects a record as `collect_data` does, into a vector of its own.
pub fn collect_data_owned<T: Copy>(
    record: &KnnRecord<T>,
    selected: &Vec<usize>,
    checking: usize,
) -> (data: Vec<T>)
    requires
        checking < record.data@.len(),
        forall|i: int| 0 <= i < selected@.len() ==> (#[trigger] selected@[i]) < record.data@.len(),
    ensures
        data@ == gathered(record.data@, selected@, checking),
{
    let mut data: Vec<T> = Vec::new();
    collect_data(record, &mut data, selected, checking);
    data
}

} // verus!
