//! The greedy forward search for feature columns. For every neighbour count
//! it starts without columns and adds, step by step, the column with which
//! the held-out records are classified best.
//!
//! The search decides; it measures nothing. Whoever runs it asks what is to
//! be tried, measures the distances of each held-out record from the
//! training records over the columns on trial, and hands them in.

use vstd::prelude::*;
use vstd::arithmetic::div_mod::lemma_fundamental_div_mod_converse;
use crate::classify::{judge, verdict_of, Verdict};
use crate::distance::AlgoType;
use crate::fraction::Fraction;
use crate::kvalue::KValue;
use crate::predict::ConfigError;
use crate::ranking::{distances_of, labels_of};
use crate::record::{record_labels, KnnRecord};
use crate::split::{
    labels_at, lemma_split_complete, positions, split_dataset, test_set, train_set,
};
use crate::tally::Tally;

verus! {

/// Why the search refuses a call.
#[derive(Debug, Clone, Copy, PartialEq, Eq)]
pub enum SearchError {
    /// The search has ended.
    Finished,
    /// Every held-out record was observed already.
    RowsComplete,
    /// Not every held-out record was observed yet.
    RowsMissing,
    /// The distances are not as many as the training records.
    WrongLength,
}

/// The outcome of one trial: how many held-out records were classified
/// rightly, wrongly, and not at all.
#[derive(Debug, Clone, Copy, PartialEq, Eq)]
pub struct Score {
    pub passed: usize,
    pub failed: usize,
    pub unknown: usize,
}

/// What is to be tried next: the neighbour count, the distance to measure,
/// the columns chosen so far and the column on trial.
#[derive(Debug)]
pub struct Trial {
    pub k: usize,
    pub algo: AlgoType,
    pub selected: Vec<usize>,
    pub checking: usize,
}

/// One step of the search: the neighbour count, the columns chosen up to and
/// with this step, and how many of the held-out records were classified
/// rightly with them.
#[derive(Debug)]
pub struct SearchResult {
    pub k: usize,
    pub passed: usize,
    pub tested: usize,
    pub cols: Vec<usize>,
}

/// A step of the search as a mathematical value.
pub struct ResultView {
    pub k: usize,
    pub passed: nat,
    pub tested: nat,
    pub cols: Seq<usize>,
}

impl View for SearchResult {
    type V = ResultView;

    open spec fn view(&self) -> ResultView {
        ResultView {
            k: self.k,
            passed: self.passed as nat,
            tested: self.tested as nat,
            cols: self.cols@,
        }
    }
}

/// The columns `0..columns`, ascending.
pub open spec fn all_columns(columns: nat) -> Seq<usize> {
    Seq::new(columns, |c: int| c as usize)
}

/// Whether the trial at `place` is the best of the trials with the scores
/// `scores`: no trial classified more records rightly, and every earlier trial
/// classified fewer rightly.
pub open spec fn is_best(scores: Seq<nat>, place: int) -> bool {
    &&& 0 <= place < scores.len()
    &&& forall|j: int| 0 <= j < scores.len() ==> (#[trigger] scores[j]) <= scores[place]
    &&& forall|j: int| 0 <= j < place ==> (#[trigger] scores[j]) < scores[place]
}

/// The state of a search as a mathematical value.
pub struct SearchView {
    /// The distance that is measured.
    pub algo: AlgoType,
    /// The number of columns to choose from.
    pub columns: nat,
    /// The neighbour counts to go through.
    pub ks: Seq<usize>,
    /// The label of every record.
    pub labels: Seq<Seq<char>>,
    /// The positions of the training records.
    pub train: Seq<int>,
    /// The positions of the held-out records.
    pub test: Seq<int>,
    /// How many neighbour counts are done.
    pub round: nat,
    /// The columns chosen in this round, in the order in which they were chosen.
    pub selected: Seq<usize>,
    /// The columns not chosen yet.
    pub available: Seq<usize>,
    /// How many of the available columns were tried in this step.
    pub cursor: nat,
    /// How many held-out records were observed in this trial.
    pub row: nat,
    /// How many of them were classified rightly.
    pub passed: nat,
    /// How many of them were classified wrongly.
    pub failed: nat,
    /// How many of them were not classified.
    pub unknown: nat,
    /// The best trial of this step so far: its place among the available
    /// columns, and how many records it classified rightly.
    pub best: Option<(nat, nat)>,
    /// How many records each trial of this step that has ended classified
    /// rightly, in the order of the trials.
    pub scores: Seq<nat>,
    /// The steps made.
    pub results: Seq<ResultView>,
}

impl SearchView {
    /// The state in which a search starts.
    pub open spec fn start(
        algo: AlgoType,
        columns: nat,
        ks: Seq<usize>,
        labels: Seq<Seq<char>>,
        train: Seq<int>,
        test: Seq<int>,
    ) -> SearchView {
        SearchView {
            algo,
            columns,
            ks,
            labels,
            train,
            test,
            round: 0,
            selected: Seq::empty(),
            available: all_columns(columns),
            cursor: 0,
            row: 0,
            passed: 0,
            failed: 0,
            unknown: 0,
            best: None,
            scores: Seq::empty(),
            results: Seq::empty(),
        }
    }

    /// Whether every neighbour count is done.
    pub open spec fn finished(self) -> bool {
        self.round >= self.ks.len()
    }

    /// The neighbour count of this round.
    pub open spec fn k(self) -> usize {
        self.ks[self.round as int]
    }

    /// The column on trial.
    pub open spec fn checking(self) -> usize {
        self.available[self.cursor as int]
    }

    /// The labels of the training records.
    pub open spec fn train_labels(self) -> Seq<Seq<char>> {
        labels_at(self.labels, self.train)
    }

    /// The label of the held-out record that is observed next.
    pub open spec fn actual(self) -> Seq<char> {
        self.labels[self.test[self.row as int]]
    }

    /// The verdict on the held-out record that is observed next, when the
    /// training records are at `distances` from it.
    pub open spec fn verdict(self, distances: Seq<u64>) -> Verdict {
        verdict_of(self.k(), distances, self.train_labels(), self.actual())
    }

    /// The state after one more held-out record was observed.
    pub open spec fn observed(self, verdict: Verdict) -> SearchView {
        SearchView {
            row: self.row + 1,
            passed: if verdict == Verdict::Passed {
                self.passed + 1
            } else {
                self.passed
            },
            failed: if verdict == Verdict::Failed {
                self.failed + 1
            } else {
                self.failed
            },
            unknown: if verdict == Verdict::Unknown {
                self.unknown + 1
            } else {
                self.unknown
            },
            ..self
        }
    }

    /// How many records each trial of this step classified rightly, the trial
    /// that ends now included.
    pub open spec fn tried(self) -> Seq<nat> {
        self.scores.push(self.passed)
    }

    /// The best trial of this step, the one that ends now included. A later
    /// trial is better only if it classified more records rightly.
    pub open spec fn standing(self) -> (nat, nat) {
        match self.best {
            Some((place, passed)) => if self.passed > passed {
                (self.cursor, self.passed)
            } else {
                (place, passed)
            },
            None => (self.cursor, self.passed),
        }
    }

    /// The step that is made when the last available column was tried: the
    /// columns chosen with it, and the score of the best trial.
    pub open spec fn step(self) -> ResultView {
        ResultView {
            k: self.k(),
            passed: self.standing().1,
            tested: self.test.len(),
            cols: self.selected.push(self.available[self.standing().0 as int]),
        }
    }

    /// The state after the trial has ended. While columns are left to try,
    /// the next one comes on trial. After the last one the column of the best
    /// trial moves from the available to the chosen columns, and a step is
    /// made; when that was the last column, the round ends and the next
    /// begins without chosen columns.
    pub open spec fn concluded(self) -> SearchView {
        if self.cursor + 1 < self.available.len() {
            SearchView {
                cursor: self.cursor + 1,
                row: 0,
                passed: 0,
                failed: 0,
                unknown: 0,
                best: Some(self.standing()),
                scores: self.tried(),
                ..self
            }
        } else if self.available.len() > 1 {
            SearchView {
                selected: self.step().cols,
                available: self.available.remove(self.standing().0 as int),
                cursor: 0,
                row: 0,
                passed: 0,
                failed: 0,
                unknown: 0,
                best: None,
                scores: Seq::empty(),
                results: self.results.push(self.step()),
                ..self
            }
        } else {
            SearchView {
                round: self.round + 1,
                selected: Seq::empty(),
                available: all_columns(self.columns),
                cursor: 0,
                row: 0,
                passed: 0,
                failed: 0,
                unknown: 0,
                best: None,
                scores: Seq::empty(),
                results: self.results.push(self.step()),
                ..self
            }
        }
    }

    /// Whether the columns of step `i` continue those of the step before:
    /// a step holds one column more than the step before it, and the first
    /// step of a round holds one column.
    pub open spec fn step_follows(self, i: int) -> bool {
        let step = self.results[i];
        &&& step.k == self.ks[i / (self.columns as int)]
        &&& step.cols.len() == i % (self.columns as int) + 1
        &&& step.cols.no_duplicates()
        &&& forall|c: int| 0 <= c < step.cols.len() ==> (#[trigger] step.cols[c]) < self.columns
        &&& step.tested == self.test.len()
        &&& step.passed <= step.tested
        &&& i % (self.columns as int) > 0 ==> step.cols.drop_last() == self.results[i - 1].cols
    }

    /// What holds of every state that a search is in.
    pub open spec fn wf(self) -> bool {
        &&& 1 <= self.columns <= usize::MAX
        &&& self.round <= self.ks.len()
        &&& forall|p: int| 0 <= p < self.train.len() ==> 0 <= #[trigger] self.train[p] < self.labels.len()
        &&& forall|p: int| 0 <= p < self.test.len() ==> 0 <= #[trigger] self.test[p] < self.labels.len()
        &&& self.selected.len() + self.available.len() == self.columns
        &&& (self.selected + self.available).no_duplicates()
        &&& forall|c: int|
            0 <= c < self.selected.len() ==> (#[trigger] self.selected[c]) < self.columns
        &&& forall|c: int|
            0 <= c < self.available.len() ==> (#[trigger] self.available[c]) < self.columns
        &&& self.cursor < self.available.len()
        &&& self.row <= self.test.len()
        &&& self.passed + self.failed + self.unknown == self.row
        &&& self.best is Some <==> self.cursor > 0
        &&& self.best matches Some((place, passed)) ==> place < self.cursor && passed
            <= self.test.len()
        &&& self.scores.len() == self.cursor
        &&& self.best matches Some((place, passed)) ==> is_best(self.scores, place as int)
            && self.scores[place as int] == passed
        &&& self.finished() ==> self.selected.len() == 0 && self.cursor == 0 && self.row == 0
        &&& self.results.len() == self.round * self.columns + self.selected.len()
        &&& forall|i: int| 0 <= i < self.results.len() ==> #[trigger] self.step_follows(i)
        &&& self.selected.len() > 0 ==> self.results.last().cols == self.selected
    }
}

/// The columns `0..columns` are as many as `columns`, each below `columns`,
/// and none twice.
pub proof fn lemma_all_columns(columns: nat)
    requires
        columns <= usize::MAX,
    ensures
        all_columns(columns).len() == columns,
        all_columns(columns).no_duplicates(),
        forall|c: int| 0 <= c < columns ==> (#[trigger] all_columns(columns)[c]) == c,
{
}

/// A search starts in a state of which `wf` holds.
pub proof fn lemma_start_wf(
    algo: AlgoType,
    columns: nat,
    ks: Seq<usize>,
    labels: Seq<Seq<char>>,
    train: Seq<int>,
    test: Seq<int>,
)
    requires
        1 <= columns <= usize::MAX,
        forall|p: int| 0 <= p < train.len() ==> 0 <= #[trigger] train[p] < labels.len(),
        forall|p: int| 0 <= p < test.len() ==> 0 <= #[trigger] test[p] < labels.len(),
    ensures
        SearchView::start(algo, columns, ks, labels, train, test).wf(),
{
    let start = SearchView::start(algo, columns, ks, labels, train, test);
    lemma_all_columns(columns);
    assert(start.selected + start.available =~= all_columns(columns));
    assert(0 * columns == 0);
}

/// Observing a held-out record keeps `wf`.
pub proof fn lemma_observed_wf(state: SearchView, verdict: Verdict)
    requires
        state.wf(),
        !state.finished(),
        state.row < state.test.len(),
    ensures
        state.observed(verdict).wf(),
{
    let after = state.observed(verdict);
    assert forall|i: int| 0 <= i < after.results.len() implies #[trigger] after.step_follows(
        i,
    ) by {
        assert(state.step_follows(i));
    }
}

/// The best trial of a step is the one that classified the most records
/// rightly of all trials of the step up to now, and of several such the one
/// that came first.
pub proof fn lemma_standing(state: SearchView)
    requires
        state.wf(),
    ensures
        state.tried().len() == state.cursor + 1,
        is_best(state.tried(), state.standing().0 as int),
        state.tried()[state.standing().0 as int] == state.standing().1,
        state.standing().1 <= state.test.len(),
{
    let tried = state.tried();
    let place = state.standing().0 as int;
    match state.best {
        Some((before, passed)) => {
            assert(is_best(state.scores, before as int));
            assert forall|j: int| 0 <= j < tried.len() implies (#[trigger] tried[j])
                <= tried[place] by {
                if j < state.scores.len() {
                    assert(tried[j] == state.scores[j]);
                    assert(state.scores[j] <= state.scores[before as int]);
                }
            }
            assert forall|j: int| 0 <= j < place implies (#[trigger] tried[j]) < tried[place] by {
                assert(tried[j] == state.scores[j]);
                if place < state.scores.len() {
                    assert(state.scores[j] < state.scores[place]);
                } else {
                    assert(state.scores[j] <= state.scores[before as int]);
                }
            }
        },
        None => {},
    }
}

/// Progress: when the last available column was tried, the search makes
/// exactly one step. The step holds the columns chosen before and one
/// column more, which was available and not chosen before.
pub proof fn lemma_step(state: SearchView)
    requires
        state.wf(),
        !state.finished(),
        state.row == state.test.len(),
        state.cursor + 1 == state.available.len(),
    ensures
        state.concluded().results == state.results.push(state.step()),
        state.step().cols.len() == state.selected.len() + 1,
        state.step().cols.drop_last() == state.selected,
        state.available.contains(state.step().cols.last()),
        !state.selected.contains(state.step().cols.last()),
        state.step().cols.no_duplicates(),
        state.standing().0 < state.available.len(),
        state.standing().1 <= state.test.len(),
        state.tried().len() == state.available.len(),
        is_best(state.tried(), state.standing().0 as int),
        state.step().passed == state.tried()[state.standing().0 as int],
        state.step().cols.last() == state.available[state.standing().0 as int],
{
    lemma_standing(state);
    let place = state.standing().0 as int;
    let column = state.available[place];
    let cols = state.step().cols;
    let all = state.selected + state.available;
    assert(cols.drop_last() =~= state.selected);
    assert(all[state.selected.len() + place] == column);
    if state.selected.contains(column) {
        let at = choose|at: int| 0 <= at < state.selected.len() && state.selected[at] == column;
        assert(all[at] == column);
    }
    assert forall|a: int, b: int| 0 <= a < cols.len() && 0 <= b < cols.len() && a != b implies cols[a]
        != cols[b] by {
        assert(cols[a] == all[if a < state.selected.len() {
            a
        } else {
            state.selected.len() + place
        }]);
        assert(cols[b] == all[if b < state.selected.len() {
            b
        } else {
            state.selected.len() + place
        }]);
    }
}

/// Ending a trial keeps `wf`.
pub proof fn lemma_concluded_wf(state: SearchView)
    requires
        state.wf(),
        !state.finished(),
        state.row == state.test.len(),
    ensures
        state.concluded().wf(),
{
    let after = state.concluded();
    let columns = state.columns as int;
    lemma_standing(state);
    if state.cursor + 1 < state.available.len() {
        assert forall|i: int| 0 <= i < after.results.len() implies #[trigger] after.step_follows(
            i,
        ) by {
            assert(state.step_follows(i));
        }
    } else {
        lemma_step(state);
        let step = state.step();
        let place = state.standing().0 as int;
        let at = state.results.len() as int;
        let chosen = state.selected.len() as int;
        lemma_fundamental_div_mod_converse(at, columns, state.round as int, chosen);
        assert forall|c: int| 0 <= c < step.cols.len() implies (#[trigger] step.cols[c])
            < state.columns by {
            if c < chosen {
                assert(step.cols[c] == state.selected[c]);
            }
        }
        assert forall|i: int| 0 <= i < after.results.len() implies #[trigger] after.step_follows(
            i,
        ) by {
            if i < at {
                assert(state.step_follows(i));
                assert(after.results[i] == state.results[i]);
                if i > 0 {
                    assert(after.results[i - 1] == state.results[i - 1]);
                }
            } else {
                assert(after.results[i] == step);
                if chosen > 0 {
                    assert(after.results[i - 1] == state.results.last());
                }
            }
        }
        if state.available.len() > 1 {
            let left = state.available.remove(place);
            let all = state.selected + state.available;
            let now = after.selected + after.available;
            assert forall|a: int, b: int| 0 <= a < now.len() && 0 <= b < now.len() && a
                != b implies now[a] != now[b] by {
                let from = |x: int|
                    if x < chosen {
                        x
                    } else if x == chosen {
                        chosen + place
                    } else if x - chosen - 1 < place {
                        x - 1
                    } else {
                        x
                    };
                assert(now[a] == all[from(a)]);
                assert(now[b] == all[from(b)]);
                assert(from(a) != from(b));
            }
            assert forall|c: int| 0 <= c < after.available.len() implies (
            #[trigger] after.available[c]) < state.columns by {
                if c < place {
                    assert(after.available[c] == state.available[c]);
                } else {
                    assert(after.available[c] == state.available[c + 1]);
                }
            }
            assert(after.results.last() == step);
        } else {
            lemma_all_columns(state.columns);
            assert(after.selected + after.available =~= all_columns(state.columns));
            assert((state.round + 1) * columns == state.round * columns + columns)
                by (nonlinear_arith);
            assert(chosen + 1 == columns);
        }
    }
}

/// Every call moves a search forward, so that it ends. What lies ahead of a
/// search that has not ended is, in this order: the neighbour counts not done,
/// the columns not chosen in this round, the columns not tried in this step,
/// and the held-out records not observed in this trial. Observing a record
/// leaves one record less and the rest as it was. Ending a trial leaves one
/// column less to try, or else one column less to choose, or else one
/// neighbour count less; what comes behind in the order starts anew. None of
/// the four goes below 0, so no search goes on for ever.
pub proof fn lemma_progress(state: SearchView, verdict: Verdict)
    requires
        state.wf(),
        !state.finished(),
    ensures
        state.round < state.ks.len(),
        state.cursor < state.available.len() <= state.columns,
        state.row <= state.test.len(),
        state.row < state.test.len() ==> {
            let after = state.observed(verdict);
            &&& after.round == state.round
            &&& after.available == state.available
            &&& after.cursor == state.cursor
            &&& after.row == state.row + 1
            &&& after.row <= after.test.len()
        },
        state.row == state.test.len() ==> {
            let after = state.concluded();
            ||| {
                &&& after.round == state.round
                &&& after.available == state.available
                &&& after.cursor == state.cursor + 1
                &&& after.cursor < after.available.len()
            }
            ||| {
                &&& after.round == state.round
                &&& 1 <= after.available.len() == state.available.len() - 1
            }
            ||| {
                &&& after.round == state.round + 1
                &&& after.round <= after.ks.len()
            }
        },
        state.row < state.test.len() ==> decreases_to!(
            state.ks.len() - state.round,
            state.available.len(),
            state.available.len() - state.cursor,
            state.test.len() - state.row
            =>
            state.observed(verdict).ks.len() - state.observed(verdict).round,
            state.observed(verdict).available.len(),
            state.observed(verdict).available.len() - state.observed(verdict).cursor,
            state.observed(verdict).test.len() - state.observed(verdict).row
        ),
        state.row == state.test.len() ==> decreases_to!(
            state.ks.len() - state.round,
            state.available.len(),
            state.available.len() - state.cursor,
            state.test.len() - state.row
            =>
            state.concluded().ks.len() - state.concluded().round,
            state.concluded().available.len(),
            state.concluded().available.len() - state.concluded().cursor,
            state.concluded().test.len() - state.concluded().row
        ),
{
    if state.row == state.test.len() {
        lemma_concluded_wf(state);
        lemma_standing(state);
    } else {
        lemma_observed_wf(state, verdict);
    }
}

/// Termination: a search that has ended made, for every neighbour count, as
/// many steps as there are columns.
pub proof fn lemma_finished(state: SearchView)
    requires
        state.wf(),
        state.finished(),
    ensures
        state.results.len() == state.ks.len() * state.columns,
{
}

/// A greedy forward search over the columns of labelled records.
pub struct Search<'a> {
    algo: AlgoType,
    columns: usize,
    ks: Vec<usize>,
    labels: Vec<&'a String>,
    train: Vec<usize>,
    test: Vec<usize>,
    round: usize,
    selected: Vec<usize>,
    available: Vec<usize>,
    cursor: usize,
    row: usize,
    passed: usize,
    failed: usize,
    unknown: usize,
    best: Option<(usize, usize)>,
    scores: Vec<usize>,
    results: Vec<SearchResult>,
}

impl<'a> View for Search<'a> {
    type V = SearchView;

    closed spec fn view(&self) -> SearchView {
        SearchView {
            algo: self.algo,
            columns: self.columns as nat,
            ks: self.ks@,
            labels: self.labels@.map_values(|l: &String| l@),
            train: positions(self.train@),
            test: positions(self.test@),
            round: self.round as nat,
            selected: self.selected@,
            available: self.available@,
            cursor: self.cursor as nat,
            row: self.row as nat,
            passed: self.passed as nat,
            failed: self.failed as nat,
            unknown: self.unknown as nat,
            best: match self.best {
                Some((place, passed)) => Some((place as nat, passed as nat)),
                None => None,
            },
            scores: self.scores@.map_values(|score: usize| score as nat),
            results: self.results@.map_values(|r: SearchResult| r@),
        }
    }
}

/// The columns `0..columns`, ascending.
fn columns_upto(columns: usize) -> (all: Vec<usize>)
    ensures
        all@ == all_columns(columns as nat),
{
    let mut all: Vec<usize> = Vec::new();
    let mut c: usize = 0;
    while c < columns
        invariant
            c <= columns,
            all@ == all_columns(c as nat),
        decreases columns - c,
    {
        all.push(c);
        c += 1;
        assert(all@ =~= all_columns(c as nat));
    }
    all
}

/// A copy of `columns`.
fn copy_of(columns: &Vec<usize>) -> (copy: Vec<usize>)
    ensures
        copy@ == columns@,
{
    let mut copy: Vec<usize> = Vec::new();
    let mut c: usize = 0;
    while c < columns.len()
        invariant
            c <= columns.len(),
            copy@ == columns@.take(c as int),
        decreases columns.len() - c,
    {
        copy.push(columns[c]);
        c += 1;
        assert(copy@ =~= columns@.take(c as int));
    }
    assert(columns@.take(columns@.len() as int) =~= columns@);
    copy
}

/// Starts a search over `columns` feature columns. The records are split
/// into training records and held-out records as `split_dataset` splits
/// them, and the neighbour counts are those that `k` gives for the number of
/// training records. Refuses a search without columns.
pub fn knn_search<'a, T>(
    records: &'a Vec<KnnRecord<T>>,
    columns: usize,
    k: &KValue,
    split: Fraction,
    algo: AlgoType,
) -> (search: Result<Search<'a>, ConfigError>)
    ensures
        columns == 0 <==> search is Err,
        search matches Err(e) ==> e == ConfigError::NoColumns,
        search matches Ok(s) ==> s@.wf() && s@ == SearchView::start(
            algo,
            columns as nat,
            k.sequence(train_set(record_labels(records@), split).len()),
            record_labels(records@),
            train_set(record_labels(records@), split),
            test_set(record_labels(records@), split),
        ),
{
    if columns == 0 {
        return Err(ConfigError::NoColumns);
    }
    let (train, test) = split_dataset(records, split);
    let ks = k.get_range(train.len());
    let mut labels: Vec<&'a String> = Vec::new();
    let mut i: usize = 0;
    while i < records.len()
        invariant
            i <= records.len(),
            labels@.len() == i,
            labels@.map_values(|l: &String| l@) == record_labels(records@).take(i as int),
        decreases records.len() - i,
    {
        let ghost prior = labels@;
        labels.push(&records[i].label);
        i += 1;
        assert forall|j: int| 0 <= j < i implies labels@.map_values(|l: &String| l@)[j]
            == record_labels(records@)[j] by {
            if j < i - 1 {
                assert(prior.map_values(|l: &String| l@)[j] == record_labels(records@).take(
                    i - 1,
                )[j]);
            }
        }
        assert(labels@.map_values(|l: &String| l@) =~= record_labels(records@).take(i as int));
    }
    assert(record_labels(records@).take(records@.len() as int) =~= record_labels(records@));
    let search = Search {
        algo,
        columns,
        ks,
        labels,
        train,
        test,
        round: 0,
        selected: Vec::new(),
        available: columns_upto(columns),
        cursor: 0,
        row: 0,
        passed: 0,
        failed: 0,
        unknown: 0,
        best: None,
        scores: Vec::new(),
        results: Vec::new(),
    };
    proof {
        let labels = record_labels(records@);
        lemma_split_complete(labels, split);
        lemma_start_wf(
            algo,
            columns as nat,
            k.sequence(train_set(labels, split).len()),
            labels,
            train_set(labels, split),
            test_set(labels, split),
        );
        assert(search@.results =~= Seq::<ResultView>::empty());
        assert(search@.scores =~= Seq::<nat>::empty());
        assert(positions(search.train@).len() == search.train@.len());
    }
    Ok(search)
}

impl<'a> Search<'a> {
    /// The positions of the training records, in the order in which their
    /// distances are handed in.
    pub fn train(&self) -> (train: &Vec<usize>)
        ensures
            positions(train@) == self@.train,
    {
        &self.train
    }

    /// The positions of the held-out records, in the order in which they are
    /// observed.
    pub fn test(&self) -> (test: &Vec<usize>)
        ensures
            positions(test@) == self@.test,
    {
        &self.test
    }

    /// The steps made so far.
    pub fn results(&self) -> (results: &Vec<SearchResult>)
        ensures
            results@.map_values(|r: SearchResult| r@) == self@.results,
    {
        &self.results
    }

    /// Whether the search has ended.
    pub fn finished(&self) -> (done: bool)
        ensures
            done == self@.finished(),
    {
        self.round >= self.ks.len()
    }

    /// What is on trial; `None` when the search has ended.
    pub fn pending(&self) -> (trial: Option<Trial>)
        requires
            self@.wf(),
        ensures
            trial is None <==> self@.finished(),
            trial matches Some(t) ==> t.k == self@.k() && t.algo == self@.algo && t.selected@
                == self@.selected && t.checking == self@.checking(),
    {
        if self.round >= self.ks.len() {
            None
        } else {
            Some(
                Trial {
                    k: self.ks[self.round],
                    algo: self.algo,
                    selected: copy_of(&self.selected),
                    checking: self.available[self.cursor],
                },
            )
        }
    }

    /// Observes the next held-out record: `distances` holds the distance of
    /// every training record from it, in the order of `train`, measured over
    /// the columns on trial. The record is classified by the nearest `k`
    /// training records and counted by the verdict.
    ///
    /// Refuses, and changes nothing, when the search has ended, when every
    /// held-out record was observed in this trial, or when the distances are
    /// not as many as the training records.
    pub fn observe(&mut self, distances: &Vec<u64>) -> (outcome: Result<Verdict, SearchError>)
        requires
            old(self)@.wf(),
        ensures
            final(self)@.wf(),
            match outcome {
                Ok(verdict) => {
                    &&& !old(self)@.finished()
                    &&& old(self)@.row < old(self)@.test.len()
                    &&& distances@.len() == old(self)@.train.len()
                    &&& verdict == old(self)@.verdict(distances@)
                    &&& final(self)@ == old(self)@.observed(verdict)
                },
                Err(e) => {
                    &&& final(self)@ == old(self)@
                    &&& e == if old(self)@.finished() {
                        SearchError::Finished
                    } else if old(self)@.row >= old(self)@.test.len() {
                        SearchError::RowsComplete
                    } else {
                        SearchError::WrongLength
                    }
                    &&& old(self)@.finished() || old(self)@.row >= old(self)@.test.len()
                        || distances@.len() != old(self)@.train.len()
                },
            },
    {
        if self.round >= self.ks.len() {
            return Err(SearchError::Finished);
        }
        if self.row >= self.test.len() {
            return Err(SearchError::RowsComplete);
        }
        if distances.len() != self.train.len() {
            return Err(SearchError::WrongLength);
        }
        let ghost before = self@;
        let mut measured: Vec<(u64, &'a String)> = Vec::new();
        let mut j: usize = 0;
        while j < distances.len()
            invariant
                j <= distances.len() == self.train.len(),
                measured@.len() == j,
                self@ == before,
                before.wf(),
                distances_of(measured@) == distances@.take(j as int),
                labels_of(measured@) == before.train_labels().take(j as int),
            decreases distances.len() - j,
        {
            assert(0 <= before.train[j as int] < before.labels.len());
            let ghost prior = measured@;
            measured.push((distances[j], self.labels[self.train[j]]));
            j += 1;
            assert forall|i: int| 0 <= i < j implies distances_of(measured@)[i] == distances@[i]
                && labels_of(measured@)[i] == before.train_labels()[i] by {
                if i < j - 1 {
                    assert(distances_of(prior)[i] == distances@.take(j - 1)[i]);
                    assert(labels_of(prior)[i] == before.train_labels().take(j - 1)[i]);
                }
            }
            assert(distances_of(measured@) =~= distances@.take(j as int));
            assert(labels_of(measured@) =~= before.train_labels().take(j as int));
        }
        assert(distances@.take(distances@.len() as int) =~= distances@);
        assert(before.train_labels().take(before.train.len() as int) =~= before.train_labels());
        assert(0 <= before.test[self.row as int] < before.labels.len());
        let actual: &String = self.labels[self.test[self.row]];
        let mut collected: Vec<usize> = Vec::new();
        let mut groups = Tally::new();
        let verdict = judge(self.ks[self.round], &measured, actual, &mut collected, &mut groups);
        self.row = self.row + 1;
        match verdict {
            Verdict::Passed => {
                self.passed = self.passed + 1;
            },
            Verdict::Failed => {
                self.failed = self.failed + 1;
            },
            Verdict::Unknown => {
                self.unknown = self.unknown + 1;
            },
        }
        proof {
            lemma_observed_wf(before, verdict);
            assert(self@ == before.observed(verdict));
        }
        Ok(verdict)
    }

    /// Ends the trial when every held-out record was observed, and returns
    /// its score. The search goes on as `SearchView::concluded` says: to the
    /// next available column, to the next step or to the next neighbour
    /// count.
    ///
    /// Refuses, and changes nothing, when the search has ended or when a
    /// held-out record is still to be observed.
    pub fn conclude(&mut self) -> (outcome: Result<Score, SearchError>)
        requires
            old(self)@.wf(),
        ensures
            final(self)@.wf(),
            match outcome {
                Ok(score) => {
                    &&& !old(self)@.finished()
                    &&& old(self)@.row == old(self)@.test.len()
                    &&& score.passed == old(self)@.passed
                    &&& score.failed == old(self)@.failed
                    &&& score.unknown == old(self)@.unknown
                    &&& final(self)@ == old(self)@.concluded()
                },
                Err(e) => {
                    &&& final(self)@ == old(self)@
                    &&& e == if old(self)@.finished() {
                        SearchError::Finished
                    } else {
                        SearchError::RowsMissing
                    }
                    &&& old(self)@.finished() || old(self)@.row < old(self)@.test.len()
                },
            },
    {
        if self.round >= self.ks.len() {
            return Err(SearchError::Finished);
        }
        if self.row < self.test.len() {
            return Err(SearchError::RowsMissing);
        }
        let ghost before = self@;
        proof {
            lemma_concluded_wf(before);
        }
        let score = Score { passed: self.passed, failed: self.failed, unknown: self.unknown };
        let standing: (usize, usize) = match self.best {
            Some((place, passed)) => if self.passed > passed {
                (self.cursor, self.passed)
            } else {
                (place, passed)
            },
            None => (self.cursor, self.passed),
        };
        assert(standing.0 == before.standing().0 && standing.1 == before.standing().1);
        self.row = 0;
        self.passed = 0;
        self.failed = 0;
        self.unknown = 0;
        if self.cursor + 1 < self.available.len() {
            self.cursor = self.cursor + 1;
            self.best = Some(standing);
            self.scores.push(score.passed);
            assert(self@.scores =~= before.tried());
            assert(self@ == before.concluded());
        } else {
            proof {
                lemma_step(before);
            }
            let column = self.available.remove(standing.0);
            self.selected.push(column);
            let step = SearchResult {
                k: self.ks[self.round],
                passed: standing.1,
                tested: self.test.len(),
                cols: copy_of(&self.selected),
            };
            assert(step@ == before.step());
            self.results.push(step);
            assert(self@.results =~= before.results.push(before.step()));
            self.cursor = 0;
            self.best = None;
            self.scores.clear();
            assert(self@.scores =~= Seq::<nat>::empty());
            if self.available.len() == 0 {
                self.round = self.round + 1;
                self.selected = Vec::new();
                self.available = columns_upto(self.columns);
                assert(self@.selected =~= Seq::<usize>::empty());
            }
            assert(self@.results =~= before.results.push(before.step()));
            assert(self@ == before.concluded());
        }
        Ok(score)
    }

    /// Ends the search and hands out the steps made.
    pub fn into_results(self) -> (results: Vec<SearchResult>)
        ensures
            results@.map_values(|r: SearchResult| r@) == self@.results,
    {
        self.results
    }
}

} // verus!
