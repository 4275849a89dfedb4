//! Ranking measured records by distance: a stable ascending sort of their
//! positions.

use vstd::prelude::*;
use vstd::set_lib::{lemma_int_range, lemma_subset_equality, set_int_range};
use crate::distance::{nearer, order_key};

verus! {


/// The distances of a sequence of measured records, in the same order.
pub open spec fn distances_of(records: Seq<(u64, &String)>) -> Seq<u64> {
    records.map_values(|r: (u64, &String)| r.0)
}

/// The labels of a sequence of measured records, in the same order.
pub open spec fn labels_of(records: Seq<(u64, &String)>) -> Seq<Seq<char>> {
    records.map_values(|r: (u64, &String)| r.1@)
}

/// Whether record `i` is ranked ahead of record `j`: its distance is smaller,
/// or the distances are equal and `i` came first.
pub open spec fn ranks_before(distances: Seq<u64>, i: int, j: int) -> bool {
    order_key(distances[i]) < order_key(distances[j]) || (order_key(distances[i]) == order_key(
        distances[j],
    ) && i < j)
}

/// Whether `order` lists the positions `lo..hi` of `distances`, each once, from
/// the nearest to the farthest, equal distances in the order given.
pub open spec fn ranks_range(distances: Seq<u64>, order: Seq<usize>, lo: int, hi: int) -> bool {
    &&& order.len() == hi - lo
    &&& forall|p: int| 0 <= p < order.len() ==> lo <= #[trigger] order[p] < hi
    &&& forall|p: int, q: int|
        0 <= p < q < order.len() ==> ranks_before(distances, order[p] as int, order[q] as int)
}

/// Whether `order` is the ranking of all of `distances`: a stable ascending
/// sort of the positions.
pub open spec fn is_ranking(distances: Seq<u64>, order: Seq<usize>) -> bool {
    ranks_range(distances, order, 0, distances.len() as int)
}

/// The ranking of `distances`: the one sequence that `is_ranking` accepts.
pub open spec fn ranking(distances: Seq<u64>) -> Seq<usize> {
    choose|order: Seq<usize>| is_ranking(distances, order)
}

/// A ranking names no position twice.
pub proof fn lemma_ranking_distinct(distances: Seq<u64>, order: Seq<usize>)
    requires
        is_ranking(distances, order),
    ensures
        order.no_duplicates(),
{
    assert forall|p: int, q: int| 0 <= p < order.len() && 0 <= q < order.len() && p != q implies order[p]
        != order[q] by {
        if p < q {
            assert(ranks_before(distances, order[p] as int, order[q] as int));
        } else {
            assert(ranks_before(distances, order[q] as int, order[p] as int));
        }
    }
}

/// A ranking names every position of `distances`.
pub proof fn lemma_ranking_complete(distances: Seq<u64>, order: Seq<usize>, i: int)
    requires
        is_ranking(distances, order),
        0 <= i < distances.len(),
    ensures
        order.contains(i as usize),
{
    let n = distances.len() as int;
    let positions = order.map_values(|x: usize| x as int);
    lemma_ranking_distinct(distances, order);
    assert(positions.no_duplicates());
    positions.unique_seq_to_set();
    lemma_int_range(0, n);
    assert(positions.to_set().subset_of(set_int_range(0, n))) by {
        assert forall|x: int| positions.to_set().contains(x) implies set_int_range(0, n).contains(
            x,
        ) by {
            let p = choose|p: int| 0 <= p < positions.len() && positions[p] == x;
            assert(0 <= order[p] < n);
        }
    }
    vstd::seq_lib::seq_to_set_is_finite(positions);
    lemma_subset_equality(positions.to_set(), set_int_range(0, n));
    assert(set_int_range(0, n).contains(i));
    assert(positions.to_set().contains(i));
    let p = choose|p: int| 0 <= p < positions.len() && positions[p] == i;
    assert(order[p] == i as usize);
}

/// Two rankings of the same distances agree up to any position.
proof fn lemma_ranking_prefix(distances: Seq<u64>, a: Seq<usize>, b: Seq<usize>, upto: int)
    requires
        is_ranking(distances, a),
        is_ranking(distances, b),
        0 <= upto <= distances.len(),
    ensures
        forall|p: int| 0 <= p < upto ==> a[p] == b[p],
    decreases upto,
{
    if upto > 0 {
        lemma_ranking_prefix(distances, a, b, upto - 1);
        let p = upto - 1;
        if a[p] != b[p] {
            lemma_ranking_distinct(distances, a);
            lemma_ranking_distinct(distances, b);
            lemma_ranking_complete(distances, a, b[p] as int);
            lemma_ranking_complete(distances, b, a[p] as int);
            let qa = choose|q: int| 0 <= q < a.len() && a[q] == b[p];
            let qb = choose|q: int| 0 <= q < b.len() && b[q] == a[p];
            // Neither can sit before `p`, where the two sequences agree.
            if qa < p {
                assert(b[qa] == a[qa]);
                assert(b[qa] == b[p]);
                assert(false);
            }
            if qb < p {
                assert(a[qb] == b[qb]);
                assert(a[qb] == a[p]);
                assert(false);
            }
            assert(qa > p && qb > p);
            assert(ranks_before(distances, a[p] as int, a[qa] as int));
            assert(ranks_before(distances, b[p] as int, b[qb] as int));
            assert(false);
        }
    }
}

/// There is only one ranking of given distances.
pub proof fn lemma_ranking_unique(distances: Seq<u64>, a: Seq<usize>, b: Seq<usize>)
    requires
        is_ranking(distances, a),
        is_ranking(distances, b),
    ensures
        a == b,
{
    lemma_ranking_prefix(distances, a, b, distances.len() as int);
    assert(a =~= b);
}

/// Whatever `is_ranking` accepts is the ranking.
pub proof fn lemma_ranking_is(distances: Seq<u64>, order: Seq<usize>)
    requires
        is_ranking(distances, order),
    ensures
        order == ranking(distances),
{
    lemma_ranking_unique(distances, order, ranking(distances));
}

/// Stability: of two records at the same distance, the one given first is
/// ranked first.
pub proof fn lemma_ranking_stable(distances: Seq<u64>, order: Seq<usize>, p: int, q: int)
    requires
        is_ranking(distances, order),
        0 <= p < order.len(),
        0 <= q < order.len(),
        order_key(distances[order[p] as int]) == order_key(distances[order[q] as int]),
        order[p] < order[q],
    ensures
        p < q,
{
    if q < p {
        assert(ranks_before(distances, order[q] as int, order[p] as int));
    }
}

/// A ranking is ascending: no record is ranked behind a farther one.
pub proof fn lemma_ranking_ascending(distances: Seq<u64>, order: Seq<usize>, p: int, q: int)
    requires
        is_ranking(distances, order),
        0 <= p <= q < order.len(),
    ensures
        order_key(distances[order[p] as int]) <= order_key(distances[order[q] as int]),
{
    if p < q {
        assert(ranks_before(distances, order[p] as int, order[q] as int));
    }
}

fn merge_ranked(
    records: &Vec<(u64, &String)>,
    left: &Vec<usize>,
    right: &Vec<usize>,
    lo: usize,
    mid: usize,
    hi: usize,
) -> (out: Vec<usize>)
    requires
        lo <= mid <= hi <= records.len(),
        ranks_range(distances_of(records@), left@, lo as int, mid as int),
        ranks_range(distances_of(records@), right@, mid as int, hi as int),
    ensures
        ranks_range(distances_of(records@), out@, lo as int, hi as int),
{
    let ghost d = distances_of(records@);
    let mut out: Vec<usize> = Vec::new();
    let mut i: usize = 0;
    let mut j: usize = 0;
    while i < left.len() || j < right.len()
        invariant
            lo <= mid <= hi <= records.len(),
            d == distances_of(records@),
            ranks_range(d, left@, lo as int, mid as int),
            ranks_range(d, right@, mid as int, hi as int),
            i <= left.len(),
            j <= right.len(),
            out.len() == i + j,
            forall|p: int| 0 <= p < out.len() ==> lo <= #[trigger] out[p] < hi,
            forall|p: int, q: int|
                0 <= p < q < out.len() ==> ranks_before(d, out[p] as int, out[q] as int),
            forall|p: int, q: int|
                0 <= p < out.len() && i <= q < left.len() ==> ranks_before(
                    d,
                    out[p] as int,
                    left[q] as int,
                ),
            forall|p: int, q: int|
                0 <= p < out.len() && j <= q < right.len() ==> ranks_before(
                    d,
                    out[p] as int,
                    right[q] as int,
                ),
        decreases left.len() - i + right.len() - j,
    {
        let take_right = if i == left.len() {
            true
        } else if j == right.len() {
            false
        } else {
            nearer(records[right[j]].0, records[left[i]].0)
        };
        if take_right {
            let x = right[j];
            assert forall|q: int| i <= q < left.len() implies ranks_before(
                d,
                x as int,
                left[q] as int,
            ) by {
                assert(ranks_before(d, x as int, left[i as int] as int));
                if q > i {
                    assert(ranks_before(d, left[i as int] as int, left[q] as int));
                }
            }
            assert forall|q: int| j < q < right.len() implies ranks_before(
                d,
                x as int,
                right[q] as int,
            ) by {
                assert(ranks_before(d, right[j as int] as int, right[q] as int));
            }
            out.push(x);
            j += 1;
        } else {
            let x = left[i];
            assert forall|q: int| j <= q < right.len() implies ranks_before(
                d,
                x as int,
                right[q] as int,
            ) by {
                assert(x < mid <= right[j as int]);
                assert(ranks_before(d, x as int, right[j as int] as int));
                if q > j {
                    assert(ranks_before(d, right[j as int] as int, right[q] as int));
                }
            }
            assert forall|q: int| i < q < left.len() implies ranks_before(
                d,
                x as int,
                left[q] as int,
            ) by {
                assert(ranks_before(d, left[i as int] as int, left[q] as int));
            }
            out.push(x);
            i += 1;
        }
    }
    out
}

fn rank_range(records: &Vec<(u64, &String)>, lo: usize, hi: usize) -> (out: Vec<usize>)
    requires
        lo <= hi <= records.len(),
    ensures
        ranks_range(distances_of(records@), out@, lo as int, hi as int),
    decreases hi - lo,
{
    let mut out: Vec<usize> = Vec::new();
    if hi - lo == 0 {
        out
    } else if hi - lo == 1 {
        out.push(lo);
        out
    } else {
        let mid: usize = lo + (hi - lo) / 2;
        let left = rank_range(records, lo, mid);
        let right = rank_range(records, mid, hi);
        merge_ranked(records, &left, &right, lo, mid, hi)
    }
}

/// Ranks the measured records from the nearest to the farthest. Records at
/// the same distance keep the order in which they were given.
pub fn rank(records: &Vec<(u64, &String)>) -> (order: Vec<usize>)
    ensures
        is_ranking(distances_of(records@), order@),
        order@ == ranking(distances_of(records@)),
{
    let order = rank_range(records, 0, records.len());
    proof {
        lemma_ranking_is(distances_of(records@), order@);
    }
    order
}

} // verus!
