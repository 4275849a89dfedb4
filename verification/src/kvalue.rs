//! The neighbour counts to try: one count, or a range of counts with a step.

use vstd::prelude::*;
use crate::number::{chars_of, find_first, number, parse_number, split_once};

verus! {

/// Why a text does not name neighbour counts.
#[derive(Debug, Clone, Copy, PartialEq, Eq)]
pub enum KValueError {
    /// The text before the hyphen is no number.
    LowInvalid,
    /// The text behind the hyphen is no number.
    HighInvalid,
    /// The range starts at 0.
    LowZero,
    /// The range starts above its end.
    LowAboveHigh,
    /// The range ends at the largest number that the machine holds, so that
    /// no bound above its end can be given.
    HighTooLarge,
    /// The text behind the comma is no number.
    StepInvalid,
    /// The step is 0.
    StepZero,
    /// A step is given without a range.
    RangeMissing,
    /// The single count is 0.
    Zero,
    /// The text is neither a range nor a number.
    Invalid,
}

impl KValueError {
    /// The message of this error as text.
    pub open spec fn text(&self) -> Seq<char> {
        match self {
            KValueError::LowInvalid => "failed to parse low value for k range"@,
            KValueError::HighInvalid => "failed to parse high value for k range"@,
            KValueError::LowZero => "low value for k range cannot be 0"@,
            KValueError::LowAboveHigh => "low value for k range cannot be greater than the high value"@,
            KValueError::HighTooLarge => "high value for k range is too large"@,
            KValueError::StepInvalid => "failed to parse step size for k value"@,
            KValueError::StepZero => "step size must be larger than 0"@,
            KValueError::RangeMissing => "you must specify a range when using a k range"@,
            KValueError::Zero => "k value cannot be 0"@,
            KValueError::Invalid => "invalid k value specified"@,
        }
    }

    /// The message of this error.
    pub fn message(&self) -> (message: &'static str)
        ensures
            message@ == self.text(),
    {
        match self {
            KValueError::LowInvalid => "failed to parse low value for k range",
            KValueError::HighInvalid => "failed to parse high value for k range",
            KValueError::LowZero => "low value for k range cannot be 0",
            KValueError::LowAboveHigh => "low value for k range cannot be greater than the high value",
            KValueError::HighTooLarge => "high value for k range is too large",
            KValueError::StepInvalid => "failed to parse step size for k value",
            KValueError::StepZero => "step size must be larger than 0",
            KValueError::RangeMissing => "you must specify a range when using a k range",
            KValueError::Zero => "k value cannot be 0",
            KValueError::Invalid => "invalid k value specified",
        }
    }
}

/// What a text of the form `low-high` denotes: the two bounds, both
/// included. `Ok(None)` where the text holds no hyphen.
pub open spec fn range_of(text: Seq<char>) -> Result<Option<(nat, nat)>, KValueError> {
    match split_once(text, '-') {
        None => Ok(None),
        Some((low, high)) => match number(low) {
            None => Err(KValueError::LowInvalid),
            Some(low) => match number(high) {
                None => Err(KValueError::HighInvalid),
                Some(high) => if low == 0 {
                    Err(KValueError::LowZero)
                } else if low > high {
                    Err(KValueError::LowAboveHigh)
                } else {
                    Ok(Some((low, high)))
                },
            },
        },
    }
}

/// The bounds that a text of the form `low-high` denotes: the first count, and
/// the bound above the last count, `high + 1`. `Ok(None)` where the text holds
/// no hyphen. Where `high` is the largest number that the machine holds, the
/// bound above it cannot be given, and the text is refused.
pub open spec fn bounds_of(text: Seq<char>) -> Result<Option<(nat, nat)>, KValueError> {
    match range_of(text) {
        Err(e) => Err(e),
        Ok(None) => Ok(None),
        Ok(Some((low, high))) => if high >= usize::MAX {
            Err(KValueError::HighTooLarge)
        } else {
            Ok(Some((low, high + 1)))
        },
    }
}

/// What a text denotes as neighbour counts: the first count, the last count
/// that is allowed, and the step. The text is `n`, `low-high` or
/// `low-high,step`.
pub open spec fn counts_of(text: Seq<char>) -> Result<(nat, nat, nat), KValueError> {
    match split_once(text, ',') {
        Some((range, step)) => match number(step) {
            None => Err(KValueError::StepInvalid),
            Some(step) => if step == 0 {
                Err(KValueError::StepZero)
            } else {
                match range_of(range) {
                    Err(e) => Err(e),
                    Ok(None) => Err(KValueError::RangeMissing),
                    Ok(Some((low, high))) => Ok((low, high, step)),
                }
            },
        },
        None => match range_of(text) {
            Err(e) => Err(e),
            Ok(Some((low, high))) => Ok((low, high, 1nat)),
            Ok(None) => match number(text) {
                Some(k) => if k == 0 {
                    Err(KValueError::Zero)
                } else {
                    Ok((k, k, 1nat))
                },
                None => Err(KValueError::Invalid),
            },
        },
    }
}

/// The neighbour counts to try: every `step`-th count from `low` on, below
/// `high`.
#[derive(Debug, Clone, Copy)]
pub struct KValue {
    low: usize,
    last: usize,
    step: usize,
}

impl KValue {
    /// The first count.
    pub closed spec fn low(&self) -> nat {
        self.low as nat
    }

    /// The bound: every count is below it.
    pub closed spec fn high(&self) -> nat {
        (self.last + 1) as nat
    }

    /// The distance between two counts.
    pub closed spec fn step(&self) -> nat {
        self.step as nat
    }

    /// The first count is at least 1 and below the bound, and the step is at
    /// least 1.
    pub open spec fn wf(&self) -> bool {
        1 <= self.low() < self.high() && 1 <= self.step()
    }

    #[verifier::type_invariant]
    pub closed spec fn valid(self) -> bool {
        1 <= self.low <= self.last && 1 <= self.step
    }

    /// The bound that holds when `total` records are there: no count reaches
    /// `total`.
    pub open spec fn bound(&self, total: nat) -> nat {
        if total <= self.high() {
            total
        } else {
            self.high()
        }
    }

    /// How many counts there are to try when `total` records are there.
    pub open spec fn count(&self, total: nat) -> nat {
        if self.low() < self.bound(total) {
            ((self.bound(total) - self.low() - 1) / (self.step() as int) + 1) as nat
        } else {
            0
        }
    }

    /// The count that is tried after `i` others.
    pub open spec fn kth(&self, i: int) -> int {
        self.low() + i * self.step()
    }

    /// The counts to try when `total` records are there, ascending.
    pub open spec fn sequence(&self, total: nat) -> Seq<usize> {
        Seq::new(self.count(total), |i: int| self.kth(i) as usize)
    }

    /// Reads the bounds of a range `low-high`: the first count `low`, and the
    /// bound `high + 1`, below which every count of the range lies. `Ok(None)`
    /// where the text holds no hyphen. A range that ends at the largest
    /// number that the machine holds is refused with
    /// `KValueError::HighTooLarge`, since the bound above it cannot be given.
    pub fn parse_range(given: &str) -> (range: Result<Option<(usize, usize)>, KValueError>)
        ensures
            match bounds_of(given@) {
                Err(e) => range == Err::<Option<(usize, usize)>, KValueError>(e),
                Ok(None) => range == Ok::<Option<(usize, usize)>, KValueError>(None),
                Ok(Some((low, bound))) => range == Ok::<Option<(usize, usize)>, KValueError>(
                    Some((low as usize, bound as usize)),
                ) && low < bound <= usize::MAX,
            },
    {
        let chars = chars_of(given);
        assert(chars@.subrange(0, chars@.len() as int) =~= given@);
        match Self::range_in(&chars, 0, chars.len()) {
            Err(e) => Err(e),
            Ok(None) => Ok(None),
            Ok(Some((low, high))) => {
                if high == usize::MAX {
                    Err(KValueError::HighTooLarge)
                } else {
                    Ok(Some((low, high + 1)))
                }
            },
        }
    }

    /// Reads the two numbers of a range `low-high`, both included.
    fn range_in(chars: &Vec<char>, from: usize, to: usize) -> (range: Result<
        Option<(usize, usize)>,
        KValueError,
    >)
        requires
            from <= to <= chars.len(),
        ensures
            match range_of(chars@.subrange(from as int, to as int)) {
                Err(e) => range == Err::<Option<(usize, usize)>, KValueError>(e),
                Ok(None) => range == Ok::<Option<(usize, usize)>, KValueError>(None),
                Ok(Some((low, high))) => range == Ok::<Option<(usize, usize)>, KValueError>(
                    Some((low as usize, high as usize)),
                ) && low <= usize::MAX && high <= usize::MAX,
            },
    {
        match find_first(chars, from, to, '-') {
            None => Ok(None),
            Some(at) => {
                let low = match parse_number(chars, from, at) {
                    Some(low) => low,
                    None => {
                        return Err(KValueError::LowInvalid);
                    },
                };
                let high = match parse_number(chars, at + 1, to) {
                    Some(high) => high,
                    None => {
                        return Err(KValueError::HighInvalid);
                    },
                };
                if low == 0 {
                    return Err(KValueError::LowZero);
                }
                if low > high {
                    return Err(KValueError::LowAboveHigh);
                }
                Ok(Some((low, high)))
            },
        }
    }

    /// Reads neighbour counts from text: a single count `n`, a range
    /// `low-high` with both bounds included, or a range with a step,
    /// `low-high,step`. A count of 0, a range that starts above its end and
    /// a step of 0 are refused, and so is a step without a range.
    pub fn from_str(given: &str) -> (parsed: Result<KValue, KValueError>)
        ensures
            match counts_of(given@) {
                Err(e) => parsed == Err::<KValue, KValueError>(e),
                Ok((low, high, step)) => parsed matches Ok(k) && k.wf() && k.low() == low
                    && k.high() == high + 1 && k.step() == step,
            },
    {
        let chars = chars_of(given);
        let len = chars.len();
        assert(chars@.subrange(0, len as int) =~= given@);
        match find_first(&chars, 0, len, ',') {
            Some(at) => {
                let step = match parse_number(&chars, at + 1, len) {
                    Some(step) => step,
                    None => {
                        return Err(KValueError::StepInvalid);
                    },
                };
                if step == 0 {
                    return Err(KValueError::StepZero);
                }
                match Self::range_in(&chars, 0, at) {
                    Err(e) => Err(e),
                    Ok(None) => Err(KValueError::RangeMissing),
                    Ok(Some((low, high))) => Ok(KValue { low, last: high, step }),
                }
            },
            None => match Self::range_in(&chars, 0, len) {
                Err(e) => Err(e),
                Ok(Some((low, high))) => Ok(KValue { low, last: high, step: 1 }),
                Ok(None) => match parse_number(&chars, 0, len) {
                    Some(k) => {
                        if k == 0 {
                            Err(KValueError::Zero)
                        } else {
                            Ok(KValue { low: k, last: k, step: 1 })
                        }
                    },
                    None => Err(KValueError::Invalid),
                },
            },
        }
    }

    /// The counts to try when `total` records are there: the first count, and
    /// then every `step`-th, as long as the count is below the bound and
    /// below `total`.
    pub fn get_range(&self, total: usize) -> (ks: Vec<usize>)
        ensures
            self.wf(),
            ks@ == self.sequence(total as nat),
    {
        proof {
            use_type_invariant(self);
            lemma_sequence(*self, total as nat);
        }
        let bound: usize = if total <= self.last {
            total
        } else {
            self.last + 1
        };
        let count: usize = if self.low < bound {
            (bound - self.low - 1) / self.step + 1
        } else {
            0
        };
        let mut ks: Vec<usize> = Vec::new();
        let mut i: usize = 0;
        while i < count
            invariant
                i <= count,
                self.wf(),
                count == self.count(total as nat),
                ks@ == self.sequence(total as nat).take(i as int),
                self.sequence(total as nat).len() == count,
                forall|j: int| 0 <= j < count ==> 0 <= #[trigger] self.kth(j) <= usize::MAX,
                self.low() == self.low,
                self.step() == self.step,
            decreases count - i,
        {
            assert(0 <= self.kth(i as int) <= usize::MAX);
            assert(0 <= i * self.step <= self.kth(i as int)) by (nonlinear_arith)
                requires
                    self.kth(i as int) == self.low + i * self.step,
            ;
            let k: usize = self.low + i * self.step;
            ks.push(k);
            i += 1;
            assert(ks@ =~= self.sequence(total as nat).take(i as int));
        }
        assert(ks@ =~= self.sequence(total as nat));
        ks
    }
}

/// The counts to try ascend by the step from the first count and stay below
/// the bound and below the number of records; the next count in line would
/// not.
pub proof fn lemma_sequence(k: KValue, total: nat)
    requires
        k.wf(),
    ensures
        k.sequence(total).len() == k.count(total),
        forall|i: int| 0 <= i < k.count(total) ==> k.low() <= #[trigger] k.kth(i) < k.bound(total),
        forall|i: int| 0 <= i < k.count(total) ==> (#[trigger] k.sequence(total)[i]) == k.kth(i),
        k.kth(k.count(total) as int) >= k.bound(total),
        k.bound(total) <= total,
        k.bound(total) <= k.high() <= usize::MAX + 1,
{
    let low = k.low() as int;
    let step = k.step() as int;
    let bound = k.bound(total) as int;
    let count = k.count(total) as int;
    let x = bound - low - 1;
    let q = x / step;
    if low < bound {
        vstd::arithmetic::div_mod::lemma_fundamental_div_mod(x, step);
        vstd::arithmetic::div_mod::lemma_mod_bound(x, step);
        assert(step * q == q * step) by (nonlinear_arith);
        assert(0 <= q) by (nonlinear_arith)
            requires
                q * step + x % step == x,
                0 <= x % step < step,
                0 <= x,
                1 <= step,
        ;
        assert(count == q + 1);
        assert((q + 1) * step == q * step + step) by (nonlinear_arith);
        assert(count * step == q * step + step);
    } else {
        assert(0 * step == 0);
        assert(count == 0);
    }
    assert forall|i: int| 0 <= i < k.count(total) implies k.low() <= #[trigger] k.kth(i)
        < k.bound(total) by {
        assert(i * step <= q * step) by (nonlinear_arith)
            requires
                i <= q,
                step >= 1,
        ;
        assert(0 <= i * step) by (nonlinear_arith)
            requires
                0 <= i,
                1 <= step,
        ;
        assert(i * k.step() == i * step);
        assert(low + i * step < bound);
    }
}

} // verus!
