//! The share of each label group that is held out for testing.

use vstd::prelude::*;
use vstd::arithmetic::div_mod::{lemma_div_is_ordered, lemma_div_multiples_vanish};

verus! {

/// A fraction between 0 and 1, both included.
#[derive(Clone, Copy, Debug)]
pub struct Fraction {
    numerator: usize,
    denominator: usize,
}

impl Fraction {
    /// The numerator.
    pub closed spec fn numerator(&self) -> nat {
        self.numerator as nat
    }

    /// The denominator.
    pub closed spec fn denominator(&self) -> nat {
        self.denominator as nat
    }

    /// The denominator is not zero and the fraction is at most 1.
    pub open spec fn wf(&self) -> bool {
        0 < self.denominator() && self.numerator() <= self.denominator()
    }

    #[verifier::type_invariant]
    pub open spec fn valid(self) -> bool {
        self.wf()
    }

    /// The whole part of this fraction of `n`.
    pub open spec fn portion_of(&self, n: nat) -> nat {
        (n * self.numerator() / self.denominator()) as nat
    }

    /// The fraction `numerator / denominator`, unless the denominator is 0
    /// or the fraction is above 1.
    pub fn new(numerator: usize, denominator: usize) -> (fraction: Option<Self>)
        ensures
            fraction is Some <==> 0 < denominator && numerator <= denominator,
            fraction matches Some(f) ==> f.wf() && f.numerator() == numerator && f.denominator()
                == denominator,
    {
        if denominator == 0 || numerator > denominator {
            None
        } else {
            Some(Fraction { numerator, denominator })
        }
    }

    /// The whole part of this fraction of `n`: `n` times the numerator,
    /// divided by the denominator, rounded down.
    pub fn portion(&self, n: usize) -> (part: usize)
        ensures
            part == self.portion_of(n as nat),
            part <= n,
            self.wf(),
    {
        proof {
            use_type_invariant(self);
            lemma_portion_bound(*self, n as nat);
        }
        let limit: u128 = 0xffff_ffff_ffff_ffff;
        let wide_n: u128 = n as u128;
        let wide_numerator: u128 = self.numerator as u128;
        assert(wide_n * wide_numerator <= limit * limit) by (nonlinear_arith)
            requires
                wide_n <= limit,
                wide_numerator <= limit,
        ;
        let part: u128 = wide_n * wide_numerator / (self.denominator as u128);
        part as usize
    }
}

/// No portion of `n` is more than `n`.
pub proof fn lemma_portion_bound(fraction: Fraction, n: nat)
    requires
        fraction.wf(),
    ensures
        fraction.portion_of(n) <= n,
{
    let num = fraction.numerator() as int;
    let den = fraction.denominator() as int;
    assert(n * num <= n * den) by (nonlinear_arith)
        requires
            0 <= num <= den,
            0 <= n,
    ;
    lemma_div_is_ordered(n * num, n * den, den);
    assert(n * den == den * n) by (nonlinear_arith);
    lemma_div_multiples_vanish(n as int, den);
    assert(0 <= n * num) by (nonlinear_arith)
        requires
            0 <= num,
            0 <= n,
    ;
    assert(0 <= (n * num) / den) by (nonlinear_arith)
        requires
            0 <= n * num,
            0 < den,
    ;
}

} // verus!
