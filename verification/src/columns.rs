//! Columns of a table, named by header or by position, and how they are
//! resolved against the header row.

use vstd::prelude::*;
use std::convert::Infallible;
use crate::number::{chars_of, number, parse_number};
use crate::text::first_seen;

verus! {

/// A column as it is asked for.
#[derive(Debug, Clone)]
pub enum ColumnType {
    /// The column under the header of this name.
    Name(String),
    /// The column at this position, counted from 0.
    Index(usize),
}

/// Why columns cannot be resolved.
#[derive(Debug, Clone, PartialEq, Eq)]
pub enum ColumnError {
    /// No header has the name of a data column.
    UnknownColumn(String),
    /// The position of a data column is not below the number of headers.
    ColumnOutOfRange(usize),
    /// No header has the name of the label column.
    UnknownLabel(String),
    /// The position of the label column is not below the number of headers.
    LabelOutOfRange(usize),
    /// A data column is named, and the table has no header row.
    ColumnWithoutHeaders(String),
    /// The label column is named, and the table has no header row.
    LabelWithoutHeaders(String),
}

/// The texts of `names`, in the same order.
pub open spec fn texts_of(names: Seq<String>) -> Seq<Seq<char>> {
    Seq::new(names.len(), |i: int| names[i]@)
}

/// Whether `at` is the last place in `headers` that holds `name`.
pub open spec fn is_last_at(headers: Seq<Seq<char>>, name: Seq<char>, at: int) -> bool {
    &&& 0 <= at < headers.len()
    &&& headers[at] == name
    &&& forall|j: int| at < j < headers.len() ==> headers[j] != name
}

/// The position of the column under the header `name`: where several
/// headers have the name, the last of them.
pub open spec fn position_of(headers: Seq<Seq<char>>, name: Seq<char>) -> Option<int> {
    if exists|at: int| is_last_at(headers, name, at) {
        Some(choose|at: int| is_last_at(headers, name, at))
    } else {
        None
    }
}

/// The number of headers by which positions are checked: the number of
/// distinct header names.
pub open spec fn known(headers: Seq<Seq<char>>) -> nat {
    first_seen(headers).len()
}

/// The position that a data column resolves to. `headers` is the header row,
/// or `None` for a table without one.
pub open spec fn column_of(headers: Option<Seq<Seq<char>>>, column: ColumnType) -> Result<
    usize,
    ColumnError,
> {
    match headers {
        Some(headers) => match column {
            ColumnType::Name(name) => match position_of(headers, name@) {
                Some(at) => Ok(at as usize),
                None => Err(ColumnError::UnknownColumn(name)),
            },
            ColumnType::Index(index) => if index >= known(headers) {
                Err(ColumnError::ColumnOutOfRange(index))
            } else {
                Ok(index)
            },
        },
        None => match column {
            ColumnType::Name(name) => Err(ColumnError::ColumnWithoutHeaders(name)),
            ColumnType::Index(index) => Ok(index),
        },
    }
}

/// The position that the label column resolves to.
pub open spec fn label_of(headers: Option<Seq<Seq<char>>>, label: ColumnType) -> Result<
    usize,
    ColumnError,
> {
    match headers {
        Some(headers) => match label {
            ColumnType::Name(name) => match position_of(headers, name@) {
                Some(at) => Ok(at as usize),
                None => Err(ColumnError::UnknownLabel(name)),
            },
            ColumnType::Index(index) => if index >= known(headers) {
                Err(ColumnError::LabelOutOfRange(index))
            } else {
                Ok(index)
            },
        },
        None => match label {
            ColumnType::Name(name) => Err(ColumnError::LabelWithoutHeaders(name)),
            ColumnType::Index(index) => Ok(index),
        },
    }
}

/// The positions that data columns resolve to, in the order asked for; or
/// the error of the first column that does not resolve.
pub open spec fn columns_of(headers: Option<Seq<Seq<char>>>, retrieve: Seq<ColumnType>) -> Result<
    Seq<usize>,
    ColumnError,
>
    decreases retrieve.len(),
{
    if retrieve.len() == 0 {
        Ok(Seq::empty())
    } else {
        match columns_of(headers, retrieve.drop_last()) {
            Err(e) => Err(e),
            Ok(columns) => match column_of(headers, retrieve.last()) {
                Err(e) => Err(e),
                Ok(at) => Ok(columns.push(at)),
            },
        }
    }
}

/// What the data columns and the label column resolve to: the position of
/// the label column and the positions of the data columns. The data columns
/// are resolved first.
pub open spec fn resolved(
    headers: Option<Seq<Seq<char>>>,
    label: ColumnType,
    retrieve: Seq<ColumnType>,
) -> Result<(usize, Seq<usize>), ColumnError> {
    match columns_of(headers, retrieve) {
        Err(e) => Err(e),
        Ok(columns) => match label_of(headers, label) {
            Err(e) => Err(e),
            Ok(found) => Ok((found, columns)),
        },
    }
}

/// The header row as texts.
pub open spec fn header_texts(headers: Option<&Vec<String>>) -> Option<Seq<Seq<char>>> {
    match headers {
        Some(headers) => Some(texts_of(headers@)),
        None => None,
    }
}

impl ColumnType {
    /// Reads a column from text: a number is a position, any other text a
    /// header name.
    pub fn from_str(given: &str) -> (column: Result<ColumnType, Infallible>)
        ensures
            column is Ok,
            match number(given@) {
                Some(index) => column->Ok_0 == ColumnType::Index(index as usize) && index
                    <= usize::MAX,
                None => column->Ok_0 matches ColumnType::Name(name) && name@ == given@,
            },
    {
        let chars = chars_of(given);
        assert(chars@.subrange(0, chars@.len() as int) =~= given@);
        match parse_number(&chars, 0, chars.len()) {
            Some(index) => Ok(ColumnType::Index(index)),
            None => Ok(ColumnType::Name(given.to_owned())),
        }
    }
}

/// The position of the last header with the name `name`.
fn find_header(headers: &Vec<String>, name: &String) -> (found: Option<usize>)
    ensures
        match position_of(texts_of(headers@), name@) {
            Some(at) => found == Some(at as usize) && at < headers@.len(),
            None => found is None,
        },
{
    let ghost texts = texts_of(headers@);
    let mut at: usize = headers.len();
    while at > 0
        invariant
            at <= headers.len(),
            texts == texts_of(headers@),
            forall|j: int| at <= j < headers.len() ==> texts[j] != name@,
        decreases at,
    {
        at -= 1;
        if headers[at] == *name {
            proof {
                assert(is_last_at(texts, name@, at as int));
                let chosen = choose|c: int| is_last_at(texts, name@, c);
                if chosen < at {
                    assert(texts[at as int] != name@);
                } else if chosen > at {
                    assert(texts[chosen] != name@);
                }
            }
            return Some(at);
        }
    }
    proof {
        if exists|c: int| is_last_at(texts, name@, c) {
            let c = choose|c: int| is_last_at(texts, name@, c);
            assert(texts[c] != name@);
        }
    }
    None
}

/// The number of distinct header names.
fn count_known(headers: &Vec<String>) -> (count: usize)
    ensures
        count == known(texts_of(headers@)),
{
    let ghost texts = texts_of(headers@);
    let mut firsts: Vec<usize> = Vec::new();
    let mut i: usize = 0;
    assert(texts.take(0) =~= Seq::<Seq<char>>::empty());
    while i < headers.len()
        invariant
            i <= headers.len(),
            texts == texts_of(headers@),
            firsts@.len() == first_seen(texts.take(i as int)).len(),
            firsts@.len() <= i,
            forall|g: int|
                0 <= g < firsts@.len() ==> (#[trigger] firsts@[g]) < i && texts[firsts@[g] as int]
                    == first_seen(texts.take(i as int))[g],
        decreases headers.len() - i,
    {
        let ghost seen = first_seen(texts.take(i as int));
        proof {
            assert(texts.take(i as int + 1).drop_last() =~= texts.take(i as int));
        }
        let mut g: usize = 0;
        let mut met = false;
        while g < firsts.len()
            invariant_except_break
                !met,
                forall|h: int| 0 <= h < g ==> seen[h] != texts[i as int],
            invariant
                g <= firsts.len(),
                i < headers.len(),
                texts == texts_of(headers@),
                firsts@.len() == seen.len(),
                forall|h: int|
                    0 <= h < firsts@.len() ==> (#[trigger] firsts@[h]) < i && texts[firsts@[h] as int]
                        == seen[h],
            ensures
                met ==> seen.contains(texts[i as int]),
                !met ==> !seen.contains(texts[i as int]),
            decreases firsts.len() - g,
        {
            if headers[firsts[g]] == headers[i] {
                met = true;
                assert(seen[g as int] == texts[i as int]);
                break ;
            }
            g += 1;
        }
        if !met {
            firsts.push(i);
        }
        i += 1;
    }
    assert(texts.take(headers@.len() as int) =~= texts);
    firsts.len()
}

/// Resolves one column against the header row. `label` says whether the
/// errors are those of the label column or those of a data column.
fn resolve(headers: Option<&Vec<String>>, known: usize, column: &ColumnType, label: bool) -> (at:
    Result<usize, ColumnError>)
    requires
        headers matches Some(h) ==> known == self::known(texts_of(h@)),
    ensures
        label ==> at == label_of(header_texts(headers), *column),
        !label ==> at == column_of(header_texts(headers), *column),
{
    match headers {
        Some(header_row) => match column {
            ColumnType::Name(name) => match find_header(header_row, name) {
                Some(at) => Ok(at),
                None => if label {
                    Err(ColumnError::UnknownLabel(name.clone()))
                } else {
                    Err(ColumnError::UnknownColumn(name.clone()))
                },
            },
            ColumnType::Index(index) => if *index >= known {
                if label {
                    Err(ColumnError::LabelOutOfRange(*index))
                } else {
                    Err(ColumnError::ColumnOutOfRange(*index))
                }
            } else {
                Ok(*index)
            },
        },
        None => match column {
            ColumnType::Name(name) => if label {
                Err(ColumnError::LabelWithoutHeaders(name.clone()))
            } else {
                Err(ColumnError::ColumnWithoutHeaders(name.clone()))
            },
            ColumnType::Index(index) => Ok(*index),
        },
    }
}

/// Resolves the data columns and the label column of a table. `headers` is
/// the header row, or `None` for a table without one.
///
/// With a header row, a named column is the column under the last header of
/// that name, and a position must be below the number of distinct header
/// names. Without one, a position stands as it is and a name is an error. The
/// data columns are resolved in the order given, then the label column; the
/// first that fails gives the error.
///
/// Returns the position of the label column and the positions of the data
/// columns.
pub fn get_columns_and_label(
    headers: Option<&Vec<String>>,
    label: &ColumnType,
    retrieve: &Vec<ColumnType>,
) -> (found: Result<(usize, Vec<usize>), ColumnError>)
    ensures
        match resolved(header_texts(headers), *label, retrieve@) {
            Ok((at, columns)) => found matches Ok((label_at, data)) && label_at == at && data@
                == columns,
            Err(e) => found == Err::<(usize, Vec<usize>), ColumnError>(e),
        },
{
    let known: usize = match headers {
        Some(header_row) => count_known(header_row),
        None => 0,
    };
    let ghost texts = header_texts(headers);
    let mut columns: Vec<usize> = Vec::new();
    let mut i: usize = 0;
    assert(retrieve@.take(0) =~= Seq::<ColumnType>::empty());
    while i < retrieve.len()
        invariant
            i <= retrieve.len(),
            texts == header_texts(headers),
            headers matches Some(h) ==> known == self::known(texts_of(h@)),
            columns_of(texts, retrieve@.take(i as int)) == Ok::<Seq<usize>, ColumnError>(columns@),
        decreases retrieve.len() - i,
    {
        proof {
            assert(retrieve@.take(i as int + 1).drop_last() =~= retrieve@.take(i as int));
            assert(retrieve@.take(i as int + 1).last() == retrieve@[i as int]);
        }
        match resolve(headers, known, &retrieve[i], false) {
            Ok(at) => {
                columns.push(at);
            },
            Err(e) => {
                proof {
                    lemma_columns_fail(texts, retrieve@, i as int + 1);
                }
                return Err(e);
            },
        }
        i += 1;
    }
    assert(retrieve@.take(retrieve@.len() as int) =~= retrieve@);
    match resolve(headers, known, label, true) {
        Ok(at) => Ok((at, columns)),
        Err(e) => Err(e),
    }
}

/// Where the first columns do not resolve, all of them do not, and the error
/// is the same.
pub proof fn lemma_columns_fail(
    headers: Option<Seq<Seq<char>>>,
    retrieve: Seq<ColumnType>,
    upto: int,
)
    requires
        0 <= upto <= retrieve.len(),
        columns_of(headers, retrieve.take(upto)) is Err,
    ensures
        columns_of(headers, retrieve) == columns_of(headers, retrieve.take(upto)),
    decreases retrieve.len() - upto,
{
    if upto < retrieve.len() {
        assert(retrieve.take(upto + 1).drop_last() =~= retrieve.take(upto));
        lemma_columns_fail(headers, retrieve, upto + 1);
    } else {
        assert(retrieve.take(upto) =~= retrieve);
    }
}

} // verus!
