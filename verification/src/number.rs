//! Decimal numbers in text, and the places at which text is split.

use vstd::prelude::*;

verus! {

/// Whether `c` is one of the ten decimal digits.
pub open spec fn is_digit(c: char) -> bool {
    '0' <= c && c <= '9'
}

/// The value of a decimal digit; 0 for any other character.
pub open spec fn digit_value(c: char) -> nat {
    if is_digit(c) {
        (c as nat - '0' as nat) as nat
    } else {
        0
    }
}

/// Whether `text` holds decimal digits only.
pub open spec fn all_digits(text: Seq<char>) -> bool {
    forall|i: int| 0 <= i < text.len() ==> is_digit(#[trigger] text[i])
}

/// The value of a sequence of decimal digits, the most significant first.
pub open spec fn decimal(digits: Seq<char>) -> nat
    decreases digits.len(),
{
    if digits.len() == 0 {
        0
    } else {
        decimal(digits.drop_last()) * 10 + digit_value(digits.last())
    }
}

/// The digits of a number: the text without a leading plus sign. A plus sign
/// alone is no sign.
pub open spec fn digits_of(text: Seq<char>) -> Seq<char> {
    if text.len() >= 2 && text[0] == '+' {
        text.skip(1)
    } else {
        text
    }
}

/// The number that `text` denotes: one or more decimal digits, with or
/// without a plus sign before them, whose value fits in `usize`. `None` for
/// any other text.
pub open spec fn number(text: Seq<char>) -> Option<nat> {
    let digits = digits_of(text);
    if digits.len() > 0 && all_digits(digits) && decimal(digits) <= usize::MAX {
        Some(decimal(digits))
    } else {
        None
    }
}

/// Whether `at` is the first place in `text` that holds `mark`.
pub open spec fn is_first_at(text: Seq<char>, mark: char, at: int) -> bool {
    &&& 0 <= at < text.len()
    &&& text[at] == mark
    &&& forall|j: int| 0 <= j < at ==> text[j] != mark
}

/// The text before and the text after the first `mark`; `None` where `text`
/// holds no `mark`.
pub open spec fn split_once(text: Seq<char>, mark: char) -> Option<(Seq<char>, Seq<char>)> {
    if exists|at: int| is_first_at(text, mark, at) {
        let at = choose|at: int| is_first_at(text, mark, at);
        Some((text.take(at), text.skip(at + 1)))
    } else {
        None
    }
}

/// A value grows with every digit that is put behind it.
pub proof fn lemma_decimal_grows(digits: Seq<char>, upto: int)
    requires
        0 <= upto <= digits.len(),
    ensures
        decimal(digits.take(upto)) <= decimal(digits),
    decreases digits.len() - upto,
{
    if upto < digits.len() {
        lemma_decimal_grows(digits, upto + 1);
        assert(digits.take(upto + 1).drop_last() =~= digits.take(upto));
    } else {
        assert(digits.take(upto) =~= digits);
    }
}

/// The characters of `text`.
pub fn chars_of(text: &str) -> (chars: Vec<char>)
    ensures
        chars@ == text@,
{
    broadcast use vstd::string::group_string_axioms;

    let mut chars: Vec<char> = Vec::new();
    for c in it: text.chars()
        invariant
            it.seq() == text@,
            chars@ == it.seq().take(it.index()),
    {
        chars.push(c);
    }
    chars
}

/// The first place from `from` on, and before `to`, that holds `mark`.
pub fn find_first(chars: &Vec<char>, from: usize, to: usize, mark: char) -> (found: Option<usize>)
    requires
        from <= to <= chars.len(),
    ensures
        found matches Some(at) ==> from <= at < to && is_first_at(
            chars@.subrange(from as int, to as int),
            mark,
            at - from,
        ),
        found is None ==> split_once(chars@.subrange(from as int, to as int), mark) is None,
        found matches Some(at) ==> split_once(chars@.subrange(from as int, to as int), mark)
            == Some(
            (chars@.subrange(from as int, at as int), chars@.subrange(at + 1, to as int)),
        ),
{
    let ghost text = chars@.subrange(from as int, to as int);
    let mut at: usize = from;
    while at < to
        invariant
            from <= at <= to <= chars.len(),
            text == chars@.subrange(from as int, to as int),
            forall|j: int| 0 <= j < at - from ==> text[j] != mark,
        decreases to - at,
    {
        if chars[at] == mark {
            proof {
                assert(is_first_at(text, mark, at - from));
                let chosen = choose|c: int| is_first_at(text, mark, c);
                assert(chosen == at - from) by {
                    if chosen < at - from {
                        assert(text[chosen] != mark);
                    } else if chosen > at - from {
                        assert(text[at - from] != mark);
                    }
                }
                assert(text.take(at - from) =~= chars@.subrange(from as int, at as int));
                assert(text.skip(at - from + 1) =~= chars@.subrange(at + 1, to as int));
            }
            return Some(at);
        }
        at += 1;
    }
    proof {
        if exists|c: int| is_first_at(text, mark, c) {
            let c = choose|c: int| is_first_at(text, mark, c);
            assert(text[c] != mark);
        }
    }
    None
}

/// Reads the number that the characters from `from` on, and before `to`,
/// denote.
pub fn parse_number(chars: &Vec<char>, from: usize, to: usize) -> (value: Option<usize>)
    requires
        from <= to <= chars.len(),
    ensures
        value matches Some(v) ==> number(chars@.subrange(from as int, to as int)) == Some(
            v as nat,
        ),
        value is None ==> number(chars@.subrange(from as int, to as int)) is None,
{
    let ghost text = chars@.subrange(from as int, to as int);
    let start: usize = if to - from >= 2 && chars[from] == '+' {
        from + 1
    } else {
        from
    };
    let ghost digits = digits_of(text);
    assert(digits =~= chars@.subrange(start as int, to as int));
    if start == to {
        return None;
    }
    let mut value: usize = 0;
    let mut at: usize = start;
    while at < to
        invariant
            from <= start <= at <= to <= chars.len(),
            text == chars@.subrange(from as int, to as int),
            digits == digits_of(text),
            digits == chars@.subrange(start as int, to as int),
            all_digits(digits.take(at - start)),
            value == decimal(digits.take(at - start)),
        decreases to - at,
    {
        let c = chars[at];
        let ghost before = digits.take(at - start);
        let ghost now = digits.take(at - start + 1);
        proof {
            assert(now.drop_last() =~= before);
            assert(now.last() == c);
            assert(digits[at - start] == c);
        }
        if !(c >= '0' && c <= '9') {
            assert(!is_digit(digits[at - start]));
            return None;
        }
        let digit: usize = (c as u32 - '0' as u32) as usize;
        assert(digit == digit_value(c));
        proof {
            lemma_decimal_grows(digits, at - start + 1);
        }
        let shifted = match value.checked_mul(10) {
            Some(shifted) => shifted,
            None => {
                assert(decimal(now) > usize::MAX);
                return None;
            },
        };
        value = match shifted.checked_add(digit) {
            Some(sum) => sum,
            None => {
                assert(decimal(now) > usize::MAX);
                return None;
            },
        };
        assert forall|i: int| 0 <= i < now.len() implies is_digit(#[trigger] now[i]) by {
            if i < before.len() {
                assert(before[i] == now[i]);
            }
        }
        at += 1;
    }
    assert(digits.take(to - start) =~= digits);
    Some(value)
}

} // verus!
