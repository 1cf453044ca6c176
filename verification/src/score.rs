//! Exact rational similarity scores.
//!
//! A similarity value is a rational number in `[0, 1]`, kept as an explicit
//! numerator/denominator pair so that every comparison the locator makes is
//! exact. Comparisons cross-multiply in `u128`, which cannot overflow for
//! `u64` operands.

use vstd::prelude::*;

verus! {

/// A rational number `num / den`; well-formed values lie in `[0, 1]`.
#[derive(Clone, Copy, Debug)]
pub struct Score {
    pub num: u64,
    pub den: u64,
}

/// `an/ad <= bn/bd`, by cross-multiplication (sound when both
/// denominators are positive).
pub open spec fn frac_le(an: int, ad: int, bn: int, bd: int) -> bool {
    an * bd <= bn * ad
}

/// `an/ad < bn/bd`, by cross-multiplication.
pub open spec fn frac_lt(an: int, ad: int, bn: int, bd: int) -> bool {
    an * bd < bn * ad
}

/// The product of two `u64` values fits in a `u128`.
proof fn lemma_u64_mul_fits(a: u64, b: u64)
    ensures
        a as int * b as int <= u64::MAX as int * u64::MAX as int,
{
    assert(a as int * b as int <= u64::MAX as int * u64::MAX as int) by (nonlinear_arith)
        requires
            a as int <= u64::MAX as int,
            b as int <= u64::MAX as int,
            0 <= a as int,
            0 <= b as int,
    ;
}

impl Score {
    /// The score denotes a rational in `[0, 1]`.
    pub open spec fn wf(self) -> bool {
        0 < self.den && self.num <= self.den
    }

    /// The certain score `1`.
    pub fn one() -> (r: Score)
        ensures
            r.num == 1 && r.den == 1,
    {
        Score { num: 1, den: 1 }
    }

    /// The null score `0`.
    pub fn zero() -> (r: Score)
        ensures
            r.num == 0 && r.den == 1,
    {
        Score { num: 0, den: 1 }
    }

    /// `self >= other` as rationals.
    pub fn ge(&self, other: &Score) -> (r: bool)
        ensures
            r == frac_le(other.num as int, other.den as int, self.num as int, self.den as int),
    {
        proof {
            lemma_u64_mul_fits(other.num, self.den);
            lemma_u64_mul_fits(self.num, other.den);
        }
        (other.num as u128) * (self.den as u128) <= (self.num as u128) * (other.den as u128)
    }

    /// `self > other` as rationals.
    pub fn gt(&self, other: &Score) -> (r: bool)
        ensures
            r == frac_lt(other.num as int, other.den as int, self.num as int, self.den as int),
    {
        proof {
            lemma_u64_mul_fits(other.num, self.den);
            lemma_u64_mul_fits(self.num, other.den);
        }
        (other.num as u128) * (self.den as u128) < (self.num as u128) * (other.den as u128)
    }
}

/// Ordering by cross-multiplication is transitive when all denominators are
/// positive.
pub proof fn lemma_frac_le_trans(an: int, ad: int, bn: int, bd: int, cn: int, cd: int)
    requires
        0 < ad,
        0 < bd,
        0 < cd,
        frac_le(an, ad, bn, bd),
        frac_le(bn, bd, cn, cd),
    ensures
        frac_le(an, ad, cn, cd),
{
    assert(an * bd * cd <= bn * ad * cd) by (nonlinear_arith)
        requires
            an * bd <= bn * ad,
            0 < cd,
    ;
    assert(bn * cd * ad <= cn * bd * ad) by (nonlinear_arith)
        requires
            bn * cd <= cn * bd,
            0 < ad,
    ;
    assert(an * bd * cd == an * cd * bd && bn * ad * cd == bn * cd * ad && cn * bd * ad == cn * ad
        * bd) by (nonlinear_arith);
    assert(an * cd * bd <= cn * ad * bd);
    assert(an * cd <= cn * ad) by (nonlinear_arith)
        requires
            an * cd * bd <= cn * ad * bd,
            0 < bd,
    ;
}

} // verus!
