//! Prediction: the vote tallies for a query, one for every neighbour count.

use vstd::prelude::*;
use crate::classify::{classify_datapoint, effective_k, votes};
use crate::kvalue::KValue;
use crate::ranking::{distances_of, labels_of};
use crate::tally::{tally_of, Tally};

verus! {

/// Why a run is refused before any record is read.
#[derive(Debug, Clone, Copy, PartialEq, Eq)]
pub enum ConfigError {
    /// No data column was asked for.
    NoColumns,
    /// The query has not as many values as there are data columns.
    DatapointMismatch,
}

impl ConfigError {
    /// The message of this error as text.
    pub open spec fn text(&self) -> Seq<char> {
        match self {
            ConfigError::NoColumns => "no columns specified to pull numeric data from"@,
            ConfigError::DatapointMismatch => "number of datapoints does not match number of columns"@,
        }
    }

    /// The message of this error.
    pub fn message(&self) -> (message: &'static str)
        ensures
            message@ == self.text(),
    {
        match self {
            ConfigError::NoColumns => "no columns specified to pull numeric data from",
            ConfigError::DatapointMismatch => "number of datapoints does not match number of columns",
        }
    }
}

/// Refuses a run without data columns.
pub fn check_columns(columns: usize) -> (checked: Result<(), ConfigError>)
    ensures
        checked == if columns == 0 {
            Err::<(), ConfigError>(ConfigError::NoColumns)
        } else {
            Ok::<(), ConfigError>(())
        },
{
    if columns == 0 {
        Err(ConfigError::NoColumns)
    } else {
        Ok(())
    }
}

/// Refuses a query that has not one value for every data column.
pub fn check_datapoint(values: usize, columns: usize) -> (checked: Result<(), ConfigError>)
    ensures
        checked == if values != columns {
            Err::<(), ConfigError>(ConfigError::DatapointMismatch)
        } else {
            Ok::<(), ConfigError>(())
        },
{
    if values != columns {
        Err(ConfigError::DatapointMismatch)
    } else {
        Ok(())
    }
}

/// The classification of the query for one neighbour count: the count asked
/// for, the number of records that voted, and the tally of their votes.
pub struct Prediction<'a> {
    pub k: usize,
    pub min: usize,
    pub groups: Tally<'a>,
}

/// What a prediction run is refused for, if it is: a run without data
/// columns first, then a query that has not one value for every data column.
pub open spec fn refusal(columns: usize, values: usize) -> Option<ConfigError> {
    if columns == 0 {
        Some(ConfigError::NoColumns)
    } else if values != columns {
        Some(ConfigError::DatapointMismatch)
    } else {
        None
    }
}

/// Classifies a query for every neighbour count that `k` gives for the number
/// of records. `columns` is the number of data columns and `values` the
/// number of values of the query. Each pair of `records` holds the distance
/// of a record from the query and the record's label.
///
/// A run without data columns is refused, and so is a query that has not one
/// value for every data column; nothing is classified then.
pub fn knn_predict<'a>(
    columns: usize,
    values: usize,
    k: &KValue,
    records: &Vec<(u64, &'a String)>,
) -> (outcome: Result<Vec<Prediction<'a>>, ConfigError>)
    ensures
        match outcome {
            Err(e) => (columns == 0 || values != columns) && e == if columns == 0 {
                ConfigError::NoColumns
            } else {
                ConfigError::DatapointMismatch
            },
            Ok(predictions) => columns != 0 && values == columns && predictions@.len()
                == k.sequence(records@.len()).len() && forall|i: int|
                0 <= i < predictions@.len() ==> {
                    let asked = k.sequence(records@.len())[i];
                    &&& (#[trigger] predictions@[i]).k == asked
                    &&& predictions@[i].min == effective_k(asked, records@.len())
                    &&& predictions@[i].groups@ == tally_of(
                        votes(asked, distances_of(records@), labels_of(records@)),
                    )
                    &&& predictions@[i].groups.wf()
                },
        },
        outcome is Err <==> refusal(columns, values) is Some,
        outcome matches Err(e) ==> refusal(columns, values) == Some(e),
{
    match check_columns(columns) {
        Err(e) => {
            return Err(e);
        },
        Ok(_) => {},
    }
    match check_datapoint(values, columns) {
        Err(e) => {
            return Err(e);
        },
        Ok(_) => {},
    }
    let ks = k.get_range(records.len());
    let mut predictions: Vec<Prediction<'a>> = Vec::new();
    let mut collected: Vec<usize> = Vec::new();
    let mut i: usize = 0;
    while i < ks.len()
        invariant
            i <= ks.len(),
            ks@ == k.sequence(records@.len()),
            predictions@.len() == i,
            forall|j: int|
                0 <= j < i ==> {
                    let asked = ks@[j];
                    &&& (#[trigger] predictions@[j]).k == asked
                    &&& predictions@[j].min == effective_k(asked, records@.len())
                    &&& predictions@[j].groups@ == tally_of(
                        votes(asked, distances_of(records@), labels_of(records@)),
                    )
                    &&& predictions@[j].groups.wf()
                },
        decreases ks.len() - i,
    {
        let mut groups = Tally::new();
        let min = classify_datapoint(ks[i], records, &mut collected, &mut groups);
        predictions.push(Prediction { k: ks[i], min, groups });
        i += 1;
    }
    Ok(predictions)
}

} // verus!
