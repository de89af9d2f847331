//! Fractions as whole numbers of millionths.
//!
//! Identities, depths, span fractions, weights and thresholds are all held as
//! integers that count millionths, so that 1.0 is [`SCALE`] and every result
//! is exact up to the rounding that its contract states.

use vstd::prelude::*;

verus! {

/// How many millionths make one.
pub const SCALE: u64 = 1_000_000;

/// `x` brought into the range from 0 to 1.
pub open spec fn clamp01_spec(x: int) -> int {
    if x < 0 {
        0
    } else if x > SCALE {
        SCALE as int
    } else {
        x
    }
}

/// The quotient `num / den` in millionths, rounded down; 0 when `den` is 0.
pub open spec fn ratio(num: nat, den: nat) -> nat {
    if den == 0 {
        0
    } else {
        num * SCALE as nat / den
    }
}

/// A quotient of a part by the whole is at most one, and 0 when the whole is
/// empty.
pub proof fn lemma_ratio_unit(num: nat, den: nat)
    ensures
        den == 0 ==> ratio(num, den) == 0,
        num == 0 ==> ratio(num, den) == 0,
        num <= den ==> ratio(num, den) <= SCALE,
        num < den ==> ratio(num, den) < SCALE,
        num == den && den > 0 ==> ratio(num, den) == SCALE,
        ratio(num, den) <= num * SCALE,
{
    if den > 0 {
        assert(num == 0 ==> num * SCALE as nat / den == 0) by (nonlinear_arith)
            requires
                den > 0,
        ;
        assert(num <= den ==> num * SCALE as nat / den <= SCALE as nat) by (nonlinear_arith)
            requires
                den > 0,
        ;
        assert(num == den ==> num * SCALE as nat / den == SCALE as nat) by (nonlinear_arith)
            requires
                den > 0,
        ;
        assert(num < den ==> num * SCALE as nat / den < SCALE as nat) by (nonlinear_arith)
            requires
                den > 0,
        ;
        assert(num * SCALE as nat / den <= num * SCALE as nat) by (nonlinear_arith)
            requires
                den > 0,
        ;
    }
}

/// The quotient `num / den` in millionths, rounded down; 0 when `den` is 0.
pub fn ratio_of(num: u64, den: u64) -> (r: u128)
    ensures
        r == ratio(num as nat, den as nat),
        r <= num as nat * SCALE as nat,
{
    if den == 0 {
        0
    } else {
        assert(num as nat * SCALE as nat <= u128::MAX) by (nonlinear_arith)
            requires
                num <= u64::MAX,
                SCALE == 1_000_000,
        ;
        let scaled: u128 = (num as u128) * (SCALE as u128);
        assert(scaled / (den as u128) <= scaled) by (nonlinear_arith)
            requires
                den >= 1,
        ;
        scaled / (den as u128)
    }
}

/// `x` brought into the range from 0 to 1.
pub fn clamp01(x: i128) -> (r: u64)
    ensures
        r == clamp01_spec(x as int),
        r <= SCALE,
{
    if x < 0 {
        0
    } else if x > SCALE as i128 {
        SCALE
    } else {
        x as u64
    }
}

} // verus!
