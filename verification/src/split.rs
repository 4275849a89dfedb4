//! The stratified split: each label group gives its first records to the
//! test set and keeps the rest for training.

use vstd::prelude::*;
use crate::fraction::{lemma_portion_bound, Fraction};
use crate::record::{record_labels, KnnRecord};
use vstd::set_lib::{lemma_int_range, set_int_range};
use crate::text::{
    first_seen, lemma_first_seen_contains, lemma_first_seen_distinct, lemma_occurrences_joined,
    lemma_occurrences_uniform, occurrences,
};

verus! {

/// The positions below `upto` that carry `label`, ascending.
pub open spec fn members(labels: Seq<Seq<char>>, label: Seq<char>, upto: nat) -> Seq<int>
    decreases upto,
{
    if upto == 0 {
        Seq::empty()
    } else {
        let before = members(labels, label, (upto - 1) as nat);
        if labels[upto - 1] == label {
            before.push(upto - 1)
        } else {
            before
        }
    }
}

/// The label group of `label`: the positions of all records that carry it,
/// ascending.
pub open spec fn group(labels: Seq<Seq<char>>, label: Seq<char>) -> Seq<int> {
    members(labels, label, labels.len())
}

/// How many records of the group of `label` are held out for testing.
pub open spec fn quota(labels: Seq<Seq<char>>, fraction: Fraction, label: Seq<char>) -> nat {
    fraction.portion_of(group(labels, label).len())
}

/// What the group of `label` gives to the test set: its first records, as
/// many as its quota.
pub open spec fn held_out(labels: Seq<Seq<char>>, fraction: Fraction, label: Seq<char>) -> Seq<
    int,
> {
    group(labels, label).take(quota(labels, fraction, label) as int)
}

/// What the group of `label` keeps for training: all after its quota.
pub open spec fn kept(labels: Seq<Seq<char>>, fraction: Fraction, label: Seq<char>) -> Seq<int> {
    group(labels, label).skip(quota(labels, fraction, label) as int)
}

/// What the groups of `groups` give to the test set, group after group.
pub open spec fn gather_test(
    labels: Seq<Seq<char>>,
    fraction: Fraction,
    groups: Seq<Seq<char>>,
) -> Seq<int>
    decreases groups.len(),
{
    if groups.len() == 0 {
        Seq::empty()
    } else {
        gather_test(labels, fraction, groups.drop_last()) + held_out(
            labels,
            fraction,
            groups.last(),
        )
    }
}

/// What the groups of `groups` keep for training, group after group.
pub open spec fn gather_train(
    labels: Seq<Seq<char>>,
    fraction: Fraction,
    groups: Seq<Seq<char>>,
) -> Seq<int>
    decreases groups.len(),
{
    if groups.len() == 0 {
        Seq::empty()
    } else {
        gather_train(labels, fraction, groups.drop_last()) + kept(labels, fraction, groups.last())
    }
}

/// The test set: the held-out records of every label group, the groups in
/// the order in which their labels first occur.
pub open spec fn test_set(labels: Seq<Seq<char>>, fraction: Fraction) -> Seq<int> {
    gather_test(labels, fraction, first_seen(labels))
}

/// The training set: the kept records of every label group, the groups in
/// the order in which their labels first occur.
pub open spec fn train_set(labels: Seq<Seq<char>>, fraction: Fraction) -> Seq<int> {
    gather_train(labels, fraction, first_seen(labels))
}

/// Positions as mathematical integers.
pub open spec fn positions(v: Seq<usize>) -> Seq<int> {
    v.map_values(|i: usize| i as int)
}

/// The members of a group are positions below the bound, and carry the
/// group's label.
pub proof fn lemma_members(labels: Seq<Seq<char>>, label: Seq<char>, upto: nat)
    requires
        upto <= labels.len(),
    ensures
        members(labels, label, upto).len() <= upto,
        forall|p: int|
            0 <= p < members(labels, label, upto).len() ==> 0 <= #[trigger] members(
                labels,
                label,
                upto,
            )[p] < upto && labels[members(labels, label, upto)[p]] == label,
        forall|p: int, q: int|
            0 <= p < q < members(labels, label, upto).len() ==> members(labels, label, upto)[p]
                < members(labels, label, upto)[q],
        forall|i: int|
            0 <= i < upto && labels[i] == label ==> members(labels, label, upto).contains(i),
    decreases upto,
{
    if upto > 0 {
        let before = members(labels, label, (upto - 1) as nat);
        lemma_members(labels, label, (upto - 1) as nat);
        let now = members(labels, label, upto);
        assert forall|i: int| 0 <= i < upto && labels[i] == label implies now.contains(i) by {
            if i < upto - 1 {
                let p = choose|p: int| 0 <= p < before.len() && before[p] == i;
                assert(now[p] == i);
            } else {
                assert(now[now.len() - 1] == i);
            }
        }
    }
}

/// The labels of the records at the positions `at`, in the same order.
pub open spec fn labels_at(labels: Seq<Seq<char>>, at: Seq<int>) -> Seq<Seq<char>> {
    Seq::new(at.len(), |p: int| labels[at[p]])
}

/// A label group has as many members as its label has occurrences.
pub proof fn lemma_group_size(labels: Seq<Seq<char>>, label: Seq<char>, upto: nat)
    requires
        upto <= labels.len(),
    ensures
        members(labels, label, upto).len() == occurrences(labels.take(upto as int), label),
    decreases upto,
{
    if upto > 0 {
        lemma_group_size(labels, label, (upto - 1) as nat);
        assert(labels.take(upto as int).drop_last() =~= labels.take(upto - 1));
    }
}

/// What a group holds out and what it keeps: together the whole group, the
/// held-out part as long as the quota, no position twice, and every
/// position that of a record with the group's label.
pub proof fn lemma_group_parts(labels: Seq<Seq<char>>, fraction: Fraction, label: Seq<char>)
    requires
        fraction.wf(),
    ensures
        held_out(labels, fraction, label) + kept(labels, fraction, label) == group(labels, label),
        held_out(labels, fraction, label).len() == quota(labels, fraction, label),
        quota(labels, fraction, label) <= group(labels, label).len(),
        (held_out(labels, fraction, label) + kept(labels, fraction, label)).no_duplicates(),
        forall|p: int|
            0 <= p < group(labels, label).len() ==> 0 <= #[trigger] group(labels, label)[p]
                < labels.len() && labels[group(labels, label)[p]] == label,
{
    let g = group(labels, label);
    lemma_members(labels, label, labels.len());
    lemma_portion_bound(fraction, g.len());
    assert(held_out(labels, fraction, label) + kept(labels, fraction, label) =~= g);
    assert forall|p: int, q: int| 0 <= p < g.len() && 0 <= q < g.len() && p != q implies g[p]
        != g[q] by {
        if p < q {
            assert(g[p] < g[q]);
        } else {
            assert(g[q] < g[p]);
        }
    }
}

/// What distinct groups give and keep: no position twice, each position
/// that of a record whose label is among the groups, and every record with
/// such a label among them.
proof fn lemma_gather(labels: Seq<Seq<char>>, fraction: Fraction, groups: Seq<Seq<char>>)
    requires
        fraction.wf(),
        groups.no_duplicates(),
    ensures
        (gather_train(labels, fraction, groups) + gather_test(
            labels,
            fraction,
            groups,
        )).no_duplicates(),
        forall|p: int|
            0 <= p < gather_test(labels, fraction, groups).len() ==> 0 <= #[trigger] gather_test(
                labels,
                fraction,
                groups,
            )[p] < labels.len() && groups.contains(
                labels[gather_test(labels, fraction, groups)[p]],
            ),
        forall|p: int|
            0 <= p < gather_train(labels, fraction, groups).len() ==> 0 <= #[trigger] gather_train(
                labels,
                fraction,
                groups,
            )[p] < labels.len() && groups.contains(
                labels[gather_train(labels, fraction, groups)[p]],
            ),
        forall|i: int|
            0 <= i < labels.len() && groups.contains(labels[i]) ==> #[trigger] (gather_train(
                labels,
                fraction,
                groups,
            ) + gather_test(labels, fraction, groups)).contains(i),
    decreases groups.len(),
{
    if groups.len() > 0 {
        let rest = groups.drop_last();
        let label = groups.last();
        lemma_gather(labels, fraction, rest);
        lemma_group_parts(labels, fraction, label);
        let test_rest = gather_test(labels, fraction, rest);
        let train_rest = gather_train(labels, fraction, rest);
        let held = held_out(labels, fraction, label);
        let keep = kept(labels, fraction, label);
        let test = gather_test(labels, fraction, groups);
        let train = gather_train(labels, fraction, groups);
        let g = group(labels, label);
        let q = quota(labels, fraction, label) as int;
        assert(test == test_rest + held);
        assert(train == train_rest + keep);
        assert(!rest.contains(label)) by {
            if rest.contains(label) {
                let at = choose|at: int| 0 <= at < rest.len() && rest[at] == label;
                assert(groups[at] == groups[groups.len() - 1]);
            }
        }
        assert forall|h: int| 0 <= h < rest.len() implies groups.contains(#[trigger] rest[h]) by {
            assert(groups[h] == rest[h]);
        }
        assert(groups.contains(label)) by {
            assert(groups[groups.len() - 1] == label);
        }
        assert forall|p: int| 0 <= p < held.len() implies 0 <= #[trigger] held[p] < labels.len()
            && labels[held[p]] == label by {
            assert(held[p] == g[p]);
        }
        assert forall|p: int| 0 <= p < keep.len() implies 0 <= #[trigger] keep[p] < labels.len()
            && labels[keep[p]] == label by {
            assert(keep[p] == g[q + p]);
        }
        assert forall|p: int| 0 <= p < test.len() implies 0 <= #[trigger] test[p] < labels.len()
            && groups.contains(labels[test[p]]) by {
            if p < test_rest.len() {
                assert(test[p] == test_rest[p]);
                let at = choose|at: int|
                    0 <= at < rest.len() && rest[at] == labels[test_rest[p]];
                assert(groups.contains(rest[at]));
            } else {
                assert(test[p] == held[p - test_rest.len()]);
            }
        }
        assert forall|p: int| 0 <= p < train.len() implies 0 <= #[trigger] train[p] < labels.len()
            && groups.contains(labels[train[p]]) by {
            if p < train_rest.len() {
                assert(train[p] == train_rest[p]);
                let at = choose|at: int|
                    0 <= at < rest.len() && rest[at] == labels[train_rest[p]];
                assert(groups.contains(rest[at]));
            } else {
                assert(train[p] == keep[p - train_rest.len()]);
            }
        }
        let all_rest = train_rest + test_rest;
        let all = train + test;
        // Each position of the whole is one of the rest or one of this group.
        assert forall|p: int| 0 <= p < all.len() implies (exists|r: int|
            0 <= r < all_rest.len() && all_rest[r] == #[trigger] all[p]) || (exists|r: int|
            0 <= r < g.len() && g[r] == all[p]) by {
            if p < train_rest.len() {
                assert(all_rest[p] == all[p]);
            } else if p < train.len() {
                assert(g[q + (p - train_rest.len())] == all[p]);
            } else if p < train.len() + test_rest.len() {
                assert(all_rest[train_rest.len() + (p - train.len())] == all[p]);
            } else {
                assert(g[p - train.len() - test_rest.len()] == all[p]);
            }
        }
        assert forall|a: int, b: int| 0 <= a < all.len() && 0 <= b < all.len() && a != b implies all[a]
            != all[b] by {
            lemma_joined_distinct(train_rest, keep, test_rest, held, g, q, labels, label, rest, a, b);
        }
        assert forall|i: int| 0 <= i < labels.len() && groups.contains(labels[i]) implies #[trigger] all.contains(
            i,
        ) by {
            if labels[i] == label {
                lemma_members(labels, label, labels.len());
                assert(g.contains(i));
                let r = choose|r: int| 0 <= r < g.len() && g[r] == i;
                if r < q {
                    assert(all[train.len() + test_rest.len() + r] == i);
                } else {
                    assert(all[train_rest.len() + (r - q)] == i);
                }
            } else {
                let at = choose|at: int| 0 <= at < groups.len() && groups[at] == labels[i];
                assert(rest[at] == labels[i]);
                assert(rest.contains(labels[i]));
                assert(all_rest.contains(i));
                let r = choose|r: int| 0 <= r < all_rest.len() && all_rest[r] == i;
                if r < train_rest.len() {
                    assert(all[r] == i);
                } else {
                    assert(all[train.len() + (r - train_rest.len())] == i);
                }
            }
        }
    } else {
        assert(gather_train(labels, fraction, groups) + gather_test(labels, fraction, groups)
            =~= Seq::<int>::empty());
    }
}

/// Two positions of the joined sequence hold different records: those of the
/// earlier groups differ among themselves and carry other labels than those
/// of this group, which differ among themselves too.
proof fn lemma_joined_distinct(
    train_rest: Seq<int>,
    keep: Seq<int>,
    test_rest: Seq<int>,
    held: Seq<int>,
    g: Seq<int>,
    q: int,
    labels: Seq<Seq<char>>,
    label: Seq<char>,
    rest: Seq<Seq<char>>,
    a: int,
    b: int,
)
    requires
        0 <= q <= g.len(),
        held == g.take(q),
        keep == g.skip(q),
        g.no_duplicates(),
        (train_rest + test_rest).no_duplicates(),
        !rest.contains(label),
        forall|p: int| 0 <= p < g.len() ==> 0 <= #[trigger] g[p] < labels.len() && labels[g[p]] == label,
        forall|p: int|
            0 <= p < test_rest.len() ==> 0 <= #[trigger] test_rest[p] < labels.len() && rest.contains(
                labels[test_rest[p]],
            ),
        forall|p: int|
            0 <= p < train_rest.len() ==> 0 <= #[trigger] train_rest[p] < labels.len()
                && rest.contains(labels[train_rest[p]]),
        0 <= a < (train_rest + keep + (test_rest + held)).len(),
        0 <= b < (train_rest + keep + (test_rest + held)).len(),
        a != b,
    ensures
        (train_rest + keep + (test_rest + held))[a] != (train_rest + keep + (test_rest + held))[b],
{
    let all = train_rest + keep + (test_rest + held);
    let all_rest = train_rest + test_rest;
    let t = train_rest.len() as int;
    let k = keep.len() as int;
    let e = test_rest.len() as int;
    // Where each position comes from: a position of the rest, or one of the group.
    let from_rest = |p: int| p < t || (t + k <= p < t + k + e);
    let rest_at = |p: int|
        if p < t {
            p
        } else {
            p - k
        };
    let group_at = |p: int|
        if p < t + k {
            q + (p - t)
        } else {
            p - t - k - e
        };
    assert(forall|p: int| 0 <= p < all.len() && from_rest(p) ==> all[p] == all_rest[rest_at(p)]);
    assert(forall|p: int| 0 <= p < all.len() && !from_rest(p) ==> all[p] == g[group_at(p)]);
    if from_rest(a) && from_rest(b) {
        assert(rest_at(a) != rest_at(b));
        assert(all_rest[rest_at(a)] != all_rest[rest_at(b)]);
    } else if !from_rest(a) && !from_rest(b) {
        assert(group_at(a) != group_at(b));
        assert(g[group_at(a)] != g[group_at(b)]);
    } else if from_rest(a) {
        assert(rest.contains(labels[all_rest[rest_at(a)]]));
        assert(labels[g[group_at(b)]] == label);
    } else {
        assert(rest.contains(labels[all_rest[rest_at(b)]]));
        assert(labels[g[group_at(a)]] == label);
    }
}

/// The split is complete: the two sets together hold every record, and none
/// twice.
pub proof fn lemma_split_complete(labels: Seq<Seq<char>>, fraction: Fraction)
    requires
        fraction.wf(),
    ensures
        train_set(labels, fraction).len() + test_set(labels, fraction).len() == labels.len(),
        (train_set(labels, fraction) + test_set(labels, fraction)).no_duplicates(),
        forall|i: int|
            0 <= i < labels.len() ==> #[trigger] (train_set(labels, fraction) + test_set(
                labels,
                fraction,
            )).contains(i),
        forall|p: int|
            0 <= p < train_set(labels, fraction).len() ==> 0 <= #[trigger] train_set(
                labels,
                fraction,
            )[p] < labels.len(),
        forall|p: int|
            0 <= p < test_set(labels, fraction).len() ==> 0 <= #[trigger] test_set(
                labels,
                fraction,
            )[p] < labels.len(),
{
    let groups = first_seen(labels);
    let train = train_set(labels, fraction);
    let test = test_set(labels, fraction);
    let all = train + test;
    let n = labels.len() as int;
    lemma_first_seen_distinct(labels);
    lemma_gather(labels, fraction, groups);
    assert forall|i: int| 0 <= i < labels.len() implies #[trigger] all.contains(i) by {
        lemma_first_seen_contains(labels, labels[i]);
        assert(labels.contains(labels[i]));
    }
    all.unique_seq_to_set();
    lemma_int_range(0, n);
    assert(all.to_set() =~= set_int_range(0, n)) by {
        assert forall|x: int| all.to_set().contains(x) implies set_int_range(0, n).contains(x) by {
            let p = choose|p: int| 0 <= p < all.len() && all[p] == x;
            if p < train.len() {
                assert(all[p] == train[p]);
            } else {
                assert(all[p] == test[p - train.len()]);
            }
        }
        assert forall|x: int| set_int_range(0, n).contains(x) implies all.to_set().contains(x) by {
            assert(all.contains(x));
        }
    }
}

/// The split is stratified: of the records with a given label, the test set
/// holds the fraction's portion, and the training set the others.
pub proof fn lemma_split_stratified(labels: Seq<Seq<char>>, fraction: Fraction, label: Seq<char>)
    requires
        fraction.wf(),
    ensures
        occurrences(labels_at(labels, test_set(labels, fraction)), label) == fraction.portion_of(
            occurrences(labels, label),
        ),
        occurrences(labels_at(labels, train_set(labels, fraction)), label) == occurrences(
            labels,
            label,
        ) - fraction.portion_of(occurrences(labels, label)),
{
    let groups = first_seen(labels);
    lemma_first_seen_distinct(labels);
    lemma_gathered_occurrences(labels, fraction, groups, label);
    lemma_group_size(labels, label, labels.len());
    assert(labels.take(labels.len() as int) =~= labels);
    lemma_first_seen_contains(labels, label);
    lemma_group_parts(labels, fraction, label);
}

/// How often a label occurs among what distinct groups give and keep: the
/// quota of its group and the rest of its group, if its group is among them.
proof fn lemma_gathered_occurrences(
    labels: Seq<Seq<char>>,
    fraction: Fraction,
    groups: Seq<Seq<char>>,
    label: Seq<char>,
)
    requires
        fraction.wf(),
        groups.no_duplicates(),
    ensures
        occurrences(labels_at(labels, gather_test(labels, fraction, groups)), label) == if groups.contains(
            label,
        ) {
            quota(labels, fraction, label)
        } else {
            0
        },
        occurrences(labels_at(labels, gather_train(labels, fraction, groups)), label)
            == if groups.contains(label) {
            group(labels, label).len() - quota(labels, fraction, label)
        } else {
            0
        },
    decreases groups.len(),
{
    if groups.len() > 0 {
        let rest = groups.drop_last();
        let last = groups.last();
        lemma_gathered_occurrences(labels, fraction, rest, label);
        lemma_group_parts(labels, fraction, last);
        let g = group(labels, last);
        let q = quota(labels, fraction, last) as int;
        let held = held_out(labels, fraction, last);
        let keep = kept(labels, fraction, last);
        let test_rest = gather_test(labels, fraction, rest);
        let train_rest = gather_train(labels, fraction, rest);
        assert(labels_at(labels, test_rest + held) =~= labels_at(labels, test_rest) + labels_at(
            labels,
            held,
        ));
        assert(labels_at(labels, train_rest + keep) =~= labels_at(labels, train_rest) + labels_at(
            labels,
            keep,
        ));
        lemma_occurrences_joined(labels_at(labels, test_rest), labels_at(labels, held), label);
        lemma_occurrences_joined(labels_at(labels, train_rest), labels_at(labels, keep), label);
        assert forall|p: int| 0 <= p < held.len() implies labels_at(labels, held)[p] == last by {
            assert(held[p] == g[p]);
        }
        assert forall|p: int| 0 <= p < keep.len() implies labels_at(labels, keep)[p] == last by {
            assert(keep[p] == g[q + p]);
        }
        lemma_occurrences_uniform(labels_at(labels, held), last, label);
        lemma_occurrences_uniform(labels_at(labels, keep), last, label);
        assert(groups.contains(last)) by {
            assert(groups[groups.len() - 1] == last);
        }
        if rest.contains(label) {
            let at = choose|at: int| 0 <= at < rest.len() && rest[at] == label;
            assert(groups[at] == label);
            assert(label != last);
        } else if groups.contains(label) {
            let at = choose|at: int| 0 <= at < groups.len() && groups[at] == label;
            if at < groups.len() - 1 {
                assert(rest[at] == label);
            }
            assert(label == last);
        }
    } else {
        assert(labels_at(labels, gather_test(labels, fraction, groups)) =~= Seq::<
            Seq<char>,
        >::empty());
        assert(labels_at(labels, gather_train(labels, fraction, groups)) =~= Seq::<
            Seq<char>,
        >::empty());
    }
}

/// Finds the label groups: for each group, in the order in which the labels
/// first occur, the position of its first record; and for each record, the
/// number of its group.
fn label_groups<T>(records: &Vec<KnnRecord<T>>) -> (found: (Vec<usize>, Vec<usize>))
    ensures
        found.0@.len() == first_seen(record_labels(records@)).len(),
        forall|g: int|
            0 <= g < found.0@.len() ==> (#[trigger] found.0@[g]) < records@.len() && records@[found.0@[g] as int].label@
                == first_seen(record_labels(records@))[g],
        found.1@.len() == records@.len(),
        forall|i: int|
            0 <= i < records@.len() ==> (#[trigger] found.1@[i]) < found.0@.len() && first_seen(
                record_labels(records@),
            )[found.1@[i] as int] == records@[i].label@,
{
    let ghost labels = record_labels(records@);
    let mut leaders: Vec<usize> = Vec::new();
    let mut ids: Vec<usize> = Vec::new();
    let mut i: usize = 0;
    assert(labels.take(0) =~= Seq::<Seq<char>>::empty());
    while i < records.len()
        invariant
            i <= records.len(),
            labels == record_labels(records@),
            leaders@.len() == first_seen(labels.take(i as int)).len(),
            forall|g: int|
                0 <= g < leaders@.len() ==> (#[trigger] leaders@[g]) < i && labels[leaders@[g] as int]
                    == first_seen(labels.take(i as int))[g],
            ids@.len() == i,
            forall|j: int|
                0 <= j < i ==> (#[trigger] ids@[j]) < leaders@.len() && first_seen(
                    labels.take(i as int),
                )[ids@[j] as int] == labels[j],
        decreases records.len() - i,
    {
        let ghost seen = first_seen(labels.take(i as int));
        let ghost next = labels.take(i as int + 1);
        proof {
            assert(next.drop_last() =~= labels.take(i as int));
            assert(next.last() == labels[i as int]);
        }
        let mut g: usize = 0;
        let mut id: Option<usize> = None;
        while g < leaders.len()
            invariant_except_break
                id is None,
                forall|h: int| 0 <= h < g ==> seen[h] != labels[i as int],
            invariant
                g <= leaders.len(),
                i < records.len(),
                labels == record_labels(records@),
                leaders@.len() == seen.len(),
                forall|h: int|
                    0 <= h < leaders@.len() ==> (#[trigger] leaders@[h]) < i && labels[leaders@[h] as int]
                        == seen[h],
            ensures
                id matches Some(h) ==> h < leaders.len() && seen[h as int] == labels[i as int],
                id is None ==> forall|h: int| 0 <= h < seen.len() ==> seen[h] != labels[i as int],
            decreases leaders.len() - g,
        {
            if records[leaders[g]].label == records[i].label {
                id = Some(g);
                break ;
            }
            g += 1;
        }
        match id {
            Some(h) => {
                assert(seen.contains(labels[i as int]));
                ids.push(h);
            },
            None => {
                assert(!seen.contains(labels[i as int]));
                ids.push(leaders.len());
                leaders.push(i);
            },
        }
        i += 1;
    }
    assert(labels.take(records@.len() as int) =~= labels);
    (leaders, ids)
}

/// Splits the records into a training set and a test set, label group by
/// label group. The groups come in the order in which their labels first
/// occur, the records of a group in the order given. Of a group of `n`
/// records the first `split.portion_of(n)` go to the test set and the others
/// to the training set. Both sets hold positions in `records`; the training
/// set comes first in the result.
pub fn split_dataset<T>(records: &Vec<KnnRecord<T>>, split: Fraction) -> (parts: (
    Vec<usize>,
    Vec<usize>,
))
    ensures
        split.wf(),
        positions(parts.0@) == train_set(record_labels(records@), split),
        positions(parts.1@) == test_set(record_labels(records@), split),
{
    let ghost labels = record_labels(records@);
    let ghost groups = first_seen(labels);
    let (leaders, ids) = label_groups(records);
    let mut train: Vec<usize> = Vec::new();
    let mut test: Vec<usize> = Vec::new();
    let n = records.len();
    let mut g: usize = 0;
    proof {
        lemma_first_seen_distinct(labels);
        assert(groups.take(0) =~= Seq::<Seq<char>>::empty());
        assert(positions(train@) =~= Seq::<int>::empty());
        assert(positions(test@) =~= Seq::<int>::empty());
        use_type_invariant(split);
    }
    while g < leaders.len()
        invariant
            g <= leaders.len(),
            split.wf(),
            n == records@.len(),
            labels == record_labels(records@),
            groups == first_seen(labels),
            groups.no_duplicates(),
            leaders@.len() == groups.len(),
            ids@.len() == n,
            forall|i: int|
                0 <= i < n ==> (#[trigger] ids@[i]) < leaders@.len() && groups[ids@[i] as int]
                    == labels[i],
            positions(train@) == gather_train(labels, split, groups.take(g as int)),
            positions(test@) == gather_test(labels, split, groups.take(g as int)),
        decreases leaders.len() - g,
    {
        let ghost label = groups[g as int];
        let ghost train_before = positions(train@);
        let ghost test_before = positions(test@);
        // The size of the group.
        let mut size: usize = 0;
        let mut i: usize = 0;
        while i < n
            invariant
                i <= n,
                n == records@.len(),
                labels == record_labels(records@),
                g < leaders@.len() == groups.len(),
                groups.no_duplicates(),
                label == groups[g as int],
                ids@.len() == n,
                forall|j: int|
                    0 <= j < n ==> (#[trigger] ids@[j]) < leaders@.len() && groups[ids@[j] as int]
                        == labels[j],
                size == members(labels, label, i as nat).len(),
                size <= i,
            decreases n - i,
        {
            if ids[i] == g {
                size += 1;
            }
            i += 1;
        }
        let share = split.portion(size);
        // The first `share` records of the group are held out.
        let mut taken: usize = 0;
        let mut i: usize = 0;
        proof {
            assert(positions(test@) =~= test_before + members(labels, label, 0).take(0));
            assert(positions(train@) =~= train_before + members(labels, label, 0).skip(0));
        }
        while i < n
            invariant
                i <= n,
                n == records@.len(),
                labels == record_labels(records@),
                g < leaders@.len() == groups.len(),
                groups.no_duplicates(),
                label == groups[g as int],
                ids@.len() == n,
                forall|j: int|
                    0 <= j < n ==> (#[trigger] ids@[j]) < leaders@.len() && groups[ids@[j] as int]
                        == labels[j],
                members(labels, label, i as nat).len() <= i,
                taken <= share,
                taken <= members(labels, label, i as nat).len(),
                taken == share || taken == members(labels, label, i as nat).len(),
                positions(test@) == test_before + members(labels, label, i as nat).take(
                    taken as int,
                ),
                positions(train@) == train_before + members(labels, label, i as nat).skip(
                    taken as int,
                ),
            decreases n - i,
        {
            let ghost before = members(labels, label, i as nat);
            let ghost after = members(labels, label, (i + 1) as nat);
            if ids[i] == g {
                assert(after == before.push(i as int));
                if taken < share {
                    let ghost held = positions(test@);
                    test.push(i);
                    taken += 1;
                    proof {
                        assert(taken == after.len());
                        assert(after.take(taken as int) =~= before.take(taken - 1).push(i as int));
                        assert(after.skip(taken as int) =~= before.skip(taken - 1));
                        assert(positions(test@) =~= held.push(i as int));
                        assert(held.push(i as int) =~= test_before + after.take(taken as int));
                    }
                } else {
                    let ghost held = positions(train@);
                    train.push(i);
                    proof {
                        assert(after.take(taken as int) =~= before.take(taken as int));
                        assert(after.skip(taken as int) =~= before.skip(taken as int).push(
                            i as int,
                        ));
                        assert(positions(train@) =~= held.push(i as int));
                        assert(held.push(i as int) =~= train_before + after.skip(taken as int));
                    }
                }
            } else {
                assert(after == before);
            }
            i += 1;
        }
        proof {
            let upto = groups.take(g as int + 1);
            assert(upto.drop_last() =~= groups.take(g as int));
            assert(upto.last() == label);
            assert(taken == share);
        }
        g += 1;
    }
    assert(groups.take(leaders@.len() as int) =~= groups);
    (train, test)
}

} // verus!
