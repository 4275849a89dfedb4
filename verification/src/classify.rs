//! The voting rule: rank the measured records by distance, take the nearest
//! `k`, and count how often each label occurs among them.

use vstd::prelude::*;
use crate::ranking::{distances_of, is_ranking, labels_of, rank, ranking};
use crate::tally::{lemma_tally_of, lemma_tally_push, tally_of, votes_for, winner, Tally};
use crate::text::{lemma_occurrences_bound, occurrences};

verus! {

/// How many neighbours vote when `k` are asked for and `available` records
/// exist: the smaller of the two.
pub open spec fn effective_k(k: usize, available: nat) -> nat {
    if k <= available {
        k as nat
    } else {
        available
    }
}

/// The labels of the `count` records that `order` names first.
pub open spec fn nearest_labels(labels: Seq<Seq<char>>, order: Seq<usize>, count: nat) -> Seq<
    Seq<char>,
> {
    Seq::new(count, |p: int| labels[order[p] as int])
}

/// The votes cast when the nearest `k` records vote: their labels, from the
/// nearest on. Record `i` is at `distances[i]` and carries `labels[i]`.
pub open spec fn votes(k: usize, distances: Seq<u64>, labels: Seq<Seq<char>>) -> Seq<Seq<char>> {
    nearest_labels(labels, ranking(distances), effective_k(k, distances.len()))
}

/// How the classification of a record whose label is known ends.
#[derive(Debug, Clone, Copy, PartialEq, Eq)]
pub enum Verdict {
    /// The label with the most votes is the record's own.
    Passed,
    /// Another label has the most votes.
    Failed,
    /// Nothing voted.
    Unknown,
}

/// The verdict on a record that carries `actual`, when the nearest `k` of
/// the measured records vote. Of several labels with the most votes, the one
/// met first among the nearest records counts.
pub open spec fn verdict_of(
    k: usize,
    distances: Seq<u64>,
    labels: Seq<Seq<char>>,
    actual: Seq<char>,
) -> Verdict {
    let tally = tally_of(votes(k, distances, labels));
    match winner(tally) {
        None => Verdict::Unknown,
        Some(i) => if tally[i].0 == actual {
            Verdict::Passed
        } else {
            Verdict::Failed
        },
    }
}

/// As many votes are cast as `effective_k` says: never more than asked for,
/// never more than there are records. Without records nothing is voted for.
pub proof fn lemma_votes(k: usize, distances: Seq<u64>, labels: Seq<Seq<char>>)
    ensures
        votes(k, distances, labels).len() == effective_k(k, distances.len()),
        effective_k(k, distances.len()) <= k,
        effective_k(k, distances.len()) <= distances.len(),
        distances.len() == 0 ==> effective_k(k, distances.len()) == 0 && tally_of(
            votes(k, distances, labels),
        ) == Seq::<(Seq<char>, nat)>::empty(),
{
    if distances.len() == 0 {
        assert(tally_of(votes(k, distances, labels)) =~= Seq::<(Seq<char>, nat)>::empty());
    }
}

/// Classifies from measured records: each pair holds the distance of a
/// record from the query and the record's label. The nearest `k` records
/// vote, or all of them where there are fewer than `k`; records at the same
/// distance are taken in the order given.
///
/// Returns the number of records that voted. `collected` receives the
/// positions of all records from the nearest to the farthest, `groups` the
/// tally of the votes; what the two held before is dropped.
pub fn classify_datapoint<'a>(
    k: usize,
    records: &Vec<(u64, &'a String)>,
    collected: &mut Vec<usize>,
    groups: &mut Tally<'a>,
) -> (min: usize)
    ensures
        min == effective_k(k, records@.len()),
        is_ranking(distances_of(records@), final(collected)@),
        final(groups)@ == tally_of(votes(k, distances_of(records@), labels_of(records@))),
        final(groups).wf(),
        records@.len() == 0 ==> final(groups)@.len() == 0,
{
    proof {
        lemma_votes(k, distances_of(records@), labels_of(records@));
        lemma_tally_of(votes(k, distances_of(records@), labels_of(records@)));
    }
    *collected = rank(records);
    groups.clear();
    let min = if k <= records.len() {
        k
    } else {
        records.len()
    };
    let ghost labels = labels_of(records@);
    let mut p: usize = 0;
    while p < min
        invariant
            p <= min <= records.len(),
            labels == labels_of(records@),
            is_ranking(distances_of(records@), collected@),
            groups@ == tally_of(nearest_labels(labels, collected@, p as nat)),
        decreases min - p,
    {
        let label = records[collected[p]].1;
        proof {
            let cast = nearest_labels(labels, collected@, p as nat);
            lemma_tally_of(cast);
            lemma_occurrences_bound(cast, label@);
            assert(votes_for(tally_of(cast), label@) == occurrences(cast, label@));
            lemma_tally_push(cast, label@);
            assert(nearest_labels(labels, collected@, (p + 1) as nat) =~= cast.push(label@));
        }
        groups.vote(label);
        p += 1;
    }
    min
}

/// Classifies as `classify_datapoint` does, with a tally of its own.
/// Returns the number of records that voted, and the tally.
pub fn classify_datapoint_owned<'a>(k: usize, records: &Vec<(u64, &'a String)>) -> (result: (
    usize,
    Tally<'a>,
))
    ensures
        result.0 == effective_k(k, records@.len()),
        result.1@ == tally_of(votes(k, distances_of(records@), labels_of(records@))),
        result.1.wf(),
        records@.len() == 0 ==> result.1@.len() == 0,
{
    let mut groups = Tally::new();
    let mut collected: Vec<usize> = Vec::new();
    let min = classify_datapoint(k, records, &mut collected, &mut groups);
    (min, groups)
}

/// Classifies a record whose label is known from measured records, as
/// `classify_datapoint` does, and says whether the label with the most votes
/// is the record's own.
pub fn judge<'a>(
    k: usize,
    records: &Vec<(u64, &'a String)>,
    actual: &String,
    collected: &mut Vec<usize>,
    groups: &mut Tally<'a>,
) -> (verdict: Verdict)
    ensures
        verdict == verdict_of(k, distances_of(records@), labels_of(records@), actual@),
        is_ranking(distances_of(records@), final(collected)@),
        final(groups)@ == tally_of(votes(k, distances_of(records@), labels_of(records@))),
        final(groups).wf(),
{
    classify_datapoint(k, records, collected, groups);
    match groups.largest() {
        None => Verdict::Unknown,
        Some(i) => {
            if *groups.label(i) == *actual {
                Verdict::Passed
            } else {
                Verdict::Failed
            }
        },
    }
}

} // verus!
