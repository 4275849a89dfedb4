//! Sequences of texts: how often a text occurs, and which texts occur.

use vstd::prelude::*;

verus! {

/// How often `text` occurs in `texts`.
pub open spec fn occurrences(texts: Seq<Seq<char>>, text: Seq<char>) -> nat
    decreases texts.len(),
{
    if texts.len() == 0 {
        0
    } else {
        occurrences(texts.drop_last(), text) + if texts.last() == text {
            1nat
        } else {
            0nat
        }
    }
}

/// The distinct texts of `texts`, in the order of their first occurrence.
pub open spec fn first_seen(texts: Seq<Seq<char>>) -> Seq<Seq<char>>
    decreases texts.len(),
{
    if texts.len() == 0 {
        Seq::empty()
    } else {
        let before = first_seen(texts.drop_last());
        if before.contains(texts.last()) {
            before
        } else {
            before.push(texts.last())
        }
    }
}

/// A text is among the first seen exactly if it occurs, and it occurs
/// exactly if its number of occurrences is not 0.
pub proof fn lemma_first_seen_contains(texts: Seq<Seq<char>>, text: Seq<char>)
    ensures
        first_seen(texts).contains(text) <==> texts.contains(text),
        texts.contains(text) <==> occurrences(texts, text) > 0,
    decreases texts.len(),
{
    if texts.len() > 0 {
        let rest = texts.drop_last();
        lemma_first_seen_contains(rest, text);
        let before = first_seen(rest);
        if texts.contains(text) {
            let i = choose|i: int| 0 <= i < texts.len() && texts[i] == text;
            if i < texts.len() - 1 {
                assert(rest[i] == text);
                assert(rest.contains(text));
            }
        }
        if rest.contains(text) {
            let i = choose|i: int| 0 <= i < rest.len() && rest[i] == text;
            assert(texts[i] == text);
        }
        if texts.last() == text {
            assert(texts[texts.len() - 1] == text);
            if !before.contains(text) {
                assert(before.push(text)[before.len() as int] == text);
            }
        } else if before.contains(text) {
            let i = choose|i: int| 0 <= i < before.len() && before[i] == text;
            if !before.contains(texts.last()) {
                assert(before.push(texts.last())[i] == text);
            }
        } else if !before.contains(texts.last()) {
            if before.push(texts.last()).contains(text) {
                let i = choose|i: int|
                    0 <= i < before.push(texts.last()).len() && before.push(texts.last())[i]
                        == text;
                if i < before.len() {
                    assert(before[i] == text);
                }
            }
        }
    }
}

/// No text is first seen twice.
pub proof fn lemma_first_seen_distinct(texts: Seq<Seq<char>>)
    ensures
        first_seen(texts).no_duplicates(),
    decreases texts.len(),
{
    if texts.len() > 0 {
        lemma_first_seen_distinct(texts.drop_last());
        let before = first_seen(texts.drop_last());
        if !before.contains(texts.last()) {
            let now = before.push(texts.last());
            assert forall|i: int, j: int|
                0 <= i < now.len() && 0 <= j < now.len() && i != j implies now[i] != now[j] by {
                if i < before.len() && j < before.len() {
                    assert(before[i] != before[j]);
                } else if i < before.len() {
                    assert(before.contains(before[i]));
                } else {
                    assert(before.contains(before[j]));
                }
            }
        }
    }
}

/// A text occurs in two sequences joined as often as in both together.
pub proof fn lemma_occurrences_joined(a: Seq<Seq<char>>, b: Seq<Seq<char>>, text: Seq<char>)
    ensures
        occurrences(a + b, text) == occurrences(a, text) + occurrences(b, text),
    decreases b.len(),
{
    if b.len() == 0 {
        assert(a + b =~= a);
    } else {
        assert((a + b).drop_last() =~= a + b.drop_last());
        lemma_occurrences_joined(a, b.drop_last(), text);
    }
}

/// Where every text is `only`, `only` occurs as often as the sequence is
/// long, and no other text occurs.
pub proof fn lemma_occurrences_uniform(texts: Seq<Seq<char>>, only: Seq<char>, text: Seq<char>)
    requires
        forall|i: int| 0 <= i < texts.len() ==> texts[i] == only,
    ensures
        occurrences(texts, text) == if text == only {
            texts.len()
        } else {
            0
        },
    decreases texts.len(),
{
    if texts.len() > 0 {
        lemma_occurrences_uniform(texts.drop_last(), only, text);
    }
}

/// No text occurs more often than the sequence is long.
pub proof fn lemma_occurrences_bound(texts: Seq<Seq<char>>, text: Seq<char>)
    ensures
        occurrences(texts, text) <= texts.len(),
    decreases texts.len(),
{
    if texts.len() > 0 {
        lemma_occurrences_bound(texts.drop_last(), text);
    }
}

} // verus!
