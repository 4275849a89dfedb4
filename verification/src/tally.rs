//! The vote tally: how often each label occurs among the nearest records,
//! the labels kept in the order in which they were first met.

use vstd::prelude::*;
use crate::text::{first_seen, lemma_first_seen_contains, lemma_first_seen_distinct, occurrences};

verus! {

/// The tally of `votes`: each distinct label, in the order of first
/// occurrence, with the number of votes it got.
pub open spec fn tally_of(votes: Seq<Seq<char>>) -> Seq<(Seq<char>, nat)> {
    first_seen(votes).map_values(|label: Seq<char>| (label, occurrences(votes, label)))
}

/// Whether some entry of `entries` is for `label`.
pub open spec fn has_label(entries: Seq<(Seq<char>, nat)>, label: Seq<char>) -> bool {
    exists|i: int| 0 <= i < entries.len() && (#[trigger] entries[i]).0 == label
}

/// Whether `i` is the position of the first entry for `label`.
pub open spec fn is_entry_of(entries: Seq<(Seq<char>, nat)>, label: Seq<char>, i: int) -> bool {
    &&& 0 <= i < entries.len()
    &&& entries[i].0 == label
    &&& forall|j: int| 0 <= j < i ==> (#[trigger] entries[j]).0 != label
}

/// The position of the first entry for `label`.
pub open spec fn entry_of(entries: Seq<(Seq<char>, nat)>, label: Seq<char>) -> int {
    choose|i: int| is_entry_of(entries, label, i)
}

/// Where some entry is for `label`, `entry_of` gives the first such entry.
pub proof fn lemma_entry_of(entries: Seq<(Seq<char>, nat)>, label: Seq<char>)
    requires
        has_label(entries, label),
    ensures
        is_entry_of(entries, label, entry_of(entries, label)),
{
    let some = choose|i: int| 0 <= i < entries.len() && (#[trigger] entries[i]).0 == label;
    lemma_first_entry(entries, label, some);
}

proof fn lemma_first_entry(entries: Seq<(Seq<char>, nat)>, label: Seq<char>, upto: int)
    requires
        0 <= upto < entries.len(),
        entries[upto].0 == label,
    ensures
        exists|i: int| is_entry_of(entries, label, i),
    decreases upto,
{
    if exists|j: int| 0 <= j < upto && (#[trigger] entries[j]).0 == label {
        let j = choose|j: int| 0 <= j < upto && (#[trigger] entries[j]).0 == label;
        lemma_first_entry(entries, label, j);
    } else {
        assert(is_entry_of(entries, label, upto));
    }
}

/// The first entry for a label is the only position that `is_entry_of`
/// accepts.
pub proof fn lemma_entry_unique(entries: Seq<(Seq<char>, nat)>, label: Seq<char>, i: int, j: int)
    requires
        is_entry_of(entries, label, i),
        is_entry_of(entries, label, j),
    ensures
        i == j,
{
    if i < j {
        assert(entries[i].0 != label);
    } else if j < i {
        assert(entries[j].0 != label);
    }
}

/// The number of votes that `entries` holds for `label`.
pub open spec fn votes_for(entries: Seq<(Seq<char>, nat)>, label: Seq<char>) -> nat {
    if has_label(entries, label) {
        entries[entry_of(entries, label)].1
    } else {
        0
    }
}

/// `entries` after one more vote for `label`: its entry counts one more, or
/// a new entry with one vote is added at the end.
pub open spec fn with_vote(entries: Seq<(Seq<char>, nat)>, label: Seq<char>) -> Seq<
    (Seq<char>, nat),
> {
    if has_label(entries, label) {
        let i = entry_of(entries, label);
        entries.update(i, (label, entries[i].1 + 1))
    } else {
        entries.push((label, 1nat))
    }
}

/// No label has two entries, and no entry is without a vote.
pub open spec fn well_formed(entries: Seq<(Seq<char>, nat)>) -> bool {
    &&& forall|i: int, j: int|
        0 <= i < entries.len() && 0 <= j < entries.len() && i != j ==> (#[trigger] entries[i]).0 != (
        #[trigger] entries[j]).0
    &&& forall|i: int| 0 <= i < entries.len() ==> (#[trigger] entries[i]).1 > 0
}

/// One more vote keeps a tally well formed.
pub proof fn lemma_with_vote(entries: Seq<(Seq<char>, nat)>, label: Seq<char>)
    requires
        well_formed(entries),
    ensures
        well_formed(with_vote(entries, label)),
{
    let after = with_vote(entries, label);
    if has_label(entries, label) {
        lemma_entry_of(entries, label);
        let at = entry_of(entries, label);
        assert forall|i: int, j: int|
            0 <= i < after.len() && 0 <= j < after.len() && i != j implies (#[trigger] after[i]).0
            != (#[trigger] after[j]).0 by {
            assert(after[i].0 == entries[i].0);
            assert(after[j].0 == entries[j].0);
        }
        assert forall|i: int| 0 <= i < after.len() implies (#[trigger] after[i]).1 > 0 by {
            if i != at {
                assert(after[i] == entries[i]);
            }
        }
    } else {
        assert forall|i: int, j: int|
            0 <= i < after.len() && 0 <= j < after.len() && i != j implies (#[trigger] after[i]).0
            != (#[trigger] after[j]).0 by {
            if i < entries.len() && j < entries.len() {
                assert(after[i] == entries[i]);
                assert(after[j] == entries[j]);
            } else if i < entries.len() {
                assert(after[i] == entries[i]);
                assert(entries[i].0 != label);
            } else {
                assert(after[j] == entries[j]);
                assert(entries[j].0 != label);
            }
        }
        assert forall|i: int| 0 <= i < after.len() implies (#[trigger] after[i]).1 > 0 by {
            if i < entries.len() {
                assert(after[i] == entries[i]);
            }
        }
    }
}

/// Whether entry `i` wins: no entry has more votes, and every earlier entry
/// has fewer.
pub open spec fn is_winner(entries: Seq<(Seq<char>, nat)>, i: int) -> bool {
    &&& 0 <= i < entries.len()
    &&& forall|j: int| 0 <= j < entries.len() ==> (#[trigger] entries[j]).1 <= entries[i].1
    &&& forall|j: int| 0 <= j < i ==> (#[trigger] entries[j]).1 < entries[i].1
}

/// The winning entry, if there is any entry.
pub open spec fn winner(entries: Seq<(Seq<char>, nat)>) -> Option<int> {
    if entries.len() == 0 {
        None
    } else {
        Some(choose|i: int| is_winner(entries, i))
    }
}

/// Only one entry wins.
pub proof fn lemma_winner_unique(entries: Seq<(Seq<char>, nat)>, i: int, j: int)
    requires
        is_winner(entries, i),
        is_winner(entries, j),
    ensures
        i == j,
{
    if i < j {
        assert(entries[i].1 < entries[j].1);
        assert(entries[j].1 <= entries[i].1);
    } else if j < i {
        assert(entries[j].1 < entries[i].1);
        assert(entries[i].1 <= entries[j].1);
    }
}

/// The tally of any votes is well formed, and holds for each label the
/// number of its votes.
pub proof fn lemma_tally_of(votes: Seq<Seq<char>>)
    ensures
        well_formed(tally_of(votes)),
        forall|label: Seq<char>| #[trigger]
            votes_for(tally_of(votes), label) == occurrences(votes, label),
{
    let t = tally_of(votes);
    let fs = first_seen(votes);
    lemma_first_seen_distinct(votes);
    assert forall|i: int| 0 <= i < t.len() implies (#[trigger] t[i]).1 > 0 by {
        assert(fs.contains(fs[i]));
        lemma_first_seen_contains(votes, fs[i]);
    }
    assert forall|label: Seq<char>| #[trigger]
        votes_for(t, label) == occurrences(votes, label) by {
        lemma_first_seen_contains(votes, label);
        if has_label(t, label) {
            lemma_entry_of(t, label);
            let i = entry_of(t, label);
            assert(t[i].0 == fs[i]);
        } else {
            if fs.contains(label) {
                let i = choose|i: int| 0 <= i < fs.len() && fs[i] == label;
                assert(t[i].0 == label);
            }
        }
    }
}

/// One more vote changes the tally as `with_vote` says.
pub proof fn lemma_tally_push(votes: Seq<Seq<char>>, label: Seq<char>)
    ensures
        tally_of(votes.push(label)) == with_vote(tally_of(votes), label),
{
    let more = votes.push(label);
    assert(more.drop_last() =~= votes);
    assert(more.last() == label);
    let fs = first_seen(votes);
    let t = tally_of(votes);
    lemma_first_seen_distinct(votes);
    lemma_first_seen_contains(votes, label);
    assert forall|other: Seq<char>| occurrences(more, other) == occurrences(votes, other) + if label
        == other {
        1nat
    } else {
        0nat
    } by {}
    if fs.contains(label) {
        let i = choose|i: int| 0 <= i < fs.len() && fs[i] == label;
        assert(t[i].0 == label);
        assert(has_label(t, label));
        lemma_entry_of(t, label);
        let e = entry_of(t, label);
        assert(t[e].0 == fs[e]);
        assert(e == i);
        assert(tally_of(more) =~= with_vote(t, label));
    } else {
        if has_label(t, label) {
            lemma_entry_of(t, label);
            let e = entry_of(t, label);
            assert(fs[e] == label);
            assert(false);
        }
        assert(tally_of(more) =~= with_vote(t, label));
    }
}

/// A vote tally. It starts empty and takes one vote at a time. No label has
/// two entries, and every entry has at least one vote.
pub struct Tally<'a> {
    entries: Vec<(&'a String, usize)>,
}

impl<'a> View for Tally<'a> {
    type V = Seq<(Seq<char>, nat)>;

    /// The entries in the order in which their labels were first met.
    closed spec fn view(&self) -> Seq<(Seq<char>, nat)> {
        self.entries@.map_values(|e: (&String, usize)| (e.0@, e.1 as nat))
    }
}

impl<'a> Tally<'a> {
    /// What holds of every tally: no label has two entries, and no entry is
    /// without a vote. `new` and `clear` establish it, and `vote` keeps it.
    pub open spec fn wf(&self) -> bool {
        well_formed(self@)
    }

    /// An empty tally.
    pub fn new() -> (tally: Self)
        ensures
            tally@ == Seq::<(Seq<char>, nat)>::empty(),
            tally.wf(),
    {
        let tally = Tally { entries: Vec::new() };
        assert(tally@ =~= Seq::<(Seq<char>, nat)>::empty());
        tally
    }

    /// Forgets every vote.
    pub fn clear(&mut self)
        ensures
            final(self)@ == Seq::<(Seq<char>, nat)>::empty(),
            final(self).wf(),
    {
        self.entries.clear();
        assert(self@ =~= Seq::<(Seq<char>, nat)>::empty());
    }

    /// The number of distinct labels.
    pub fn len(&self) -> (n: usize)
        ensures
            n == self@.len(),
    {
        self.entries.len()
    }

    /// The label of entry `i`.
    pub fn label(&self, i: usize) -> (label: &'a String)
        requires
            i < self@.len(),
        ensures
            label@ == self@[i as int].0,
    {
        self.entries[i].0
    }

    /// The votes of entry `i`.
    pub fn count(&self, i: usize) -> (count: usize)
        requires
            i < self@.len(),
        ensures
            count == self@[i as int].1,
    {
        self.entries[i].1
    }

    /// The position of the entry for `label`, if it has one.
    fn find(&self, label: &String) -> (at: Option<usize>)
        ensures
            at is Some <==> has_label(self@, label@),
            at matches Some(i) ==> i == entry_of(self@, label@) && i < self@.len(),
    {
        let mut i: usize = 0;
        while i < self.entries.len()
            invariant
                i <= self.entries.len(),
                self.entries@.len() == self@.len(),
                forall|j: int| 0 <= j < i ==> (#[trigger] self@[j]).0 != label@,
            decreases self.entries.len() - i,
        {
            if *self.entries[i].0 == *label {
                proof {
                    assert(is_entry_of(self@, label@, i as int));
                    lemma_entry_of(self@, label@);
                    lemma_entry_unique(self@, label@, i as int, entry_of(self@, label@));
                }
                return Some(i);
            }
            i += 1;
        }
        None
    }

    /// The votes that `label` got; 0 where it got none.
    pub fn get(&self, label: &String) -> (count: usize)
        ensures
            count == votes_for(self@, label@),
    {
        match self.find(label) {
            Some(i) => self.entries[i].1,
            None => 0,
        }
    }

    /// Counts one vote for `label`.
    pub fn vote(&mut self, label: &'a String)
        requires
            old(self).wf(),
            votes_for(old(self)@, label@) < usize::MAX,
        ensures
            final(self)@ == with_vote(old(self)@, label@),
            final(self).wf(),
    {
        proof {
            lemma_with_vote(self@, label@);
        }
        match self.find(label) {
            Some(i) => {
                let count = self.entries[i].1;
                self.entries.set(i, (label, count + 1));
                assert(self@ =~= with_vote(old(self)@, label@));
            },
            None => {
                self.entries.push((label, 1));
                assert(self@ =~= with_vote(old(self)@, label@));
            },
        }
    }

    /// The entry with the most votes; among several with the most, the one
    /// whose label was met first. `None` where nothing was voted for.
    pub fn largest(&self) -> (best: Option<usize>)
        ensures
            best is None <==> self@.len() == 0,
            best matches Some(i) ==> is_winner(self@, i as int),
            best matches Some(i) ==> winner(self@) == Some(i as int),
    {
        if self.entries.len() == 0 {
            return None;
        }
        let mut best: usize = 0;
        let mut i: usize = 1;
        while i < self.entries.len()
            invariant
                1 <= i <= self.entries.len(),
                self.entries@.len() == self@.len(),
                best < i,
                forall|j: int| 0 <= j < i ==> (#[trigger] self@[j]).1 <= self@[best as int].1,
                forall|j: int| 0 <= j < best ==> (#[trigger] self@[j]).1 < self@[best as int].1,
            decreases self.entries.len() - i,
        {
            if self.entries[i].1 > self.entries[best].1 {
                best = i;
            }
            i += 1;
        }
        proof {
            assert(is_winner(self@, best as int));
            let w = choose|w: int| is_winner(self@, w);
            lemma_winner_unique(self@, w, best as int);
        }
        Some(best)
    }
}

} // verus!
