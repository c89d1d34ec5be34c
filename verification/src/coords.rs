//! Fixed-point coordinates and the rounding rule shared by every emitted
//! coordinate: round half away from zero.

use vstd::arithmetic::div_mod::{
    lemma_div_decreases, lemma_div_is_ordered, lemma_div_multiples_vanish_fancy,
    lemma_div_pos_is_pos,
};
use vstd::prelude::*;

verus! {

/// A coordinate in decimicro degrees (1e-7 degrees per unit):
/// `lat = 591234568` stands for latitude 59.1234568.
#[derive(Clone, Copy, Debug, PartialEq, Eq, Structural)]
pub struct Coord {
    pub lat: i64,
    pub lon: i64,
}

/// Quotient of `num / den` rounded half away from zero, for `den > 0`.
pub open spec fn spec_round_div_away(num: int, den: int) -> int {
    if num >= 0 {
        (num + den / 2) / den
    } else {
        -(((-num) + den / 2) / den)
    }
}

/// The rounded quotient of a non-negative dividend never exceeds the dividend.
proof fn lemma_round_quotient_bounds(n: int, d: int)
    requires
        n >= 0,
        d >= 1,
    ensures
        0 <= (n + d / 2) / d <= n,
{
    let h = d / 2;
    lemma_div_decreases(d, 2);
    lemma_div_pos_is_pos(n + h, d);
    assert(n <= d * n) by (nonlinear_arith)
        requires
            n >= 0,
            d >= 1,
    ;
    lemma_div_is_ordered(n + h, d * n + h, d);
    lemma_div_multiples_vanish_fancy(n, h, d);
}

/// A coordinate that 32-bit node storage can produce.
pub open spec fn coord_in_range(c: Coord) -> bool {
    -2147483648 <= c.lat <= 2147483647 && -2147483648 <= c.lon <= 2147483647
}

/// A representative point: a stored coordinate or a rounded mean of some,
/// so either bound may be reached.
pub open spec fn point_in_range(c: Coord) -> bool {
    -2147483648 <= c.lat <= 2147483648 && -2147483648 <= c.lon <= 2147483648
}

/// A bound on the dividend, relative to the divisor, bounds the rounded
/// quotient: `|num| <= den * bound` gives `|quotient| <= bound`.
pub proof fn lemma_round_div_bound(num: int, den: int, bound: int)
    requires
        den >= 1,
        bound >= 0,
        -(den * bound) <= num <= den * bound,
    ensures
        -bound <= spec_round_div_away(num, den) <= bound,
{
    if den >= 2 {
        lemma_div_decreases(den, 2);
    }
    if num >= 0 {
        lemma_div_pos_is_pos(num + den / 2, den);
        lemma_div_is_ordered(num + den / 2, den * bound + (den - 1), den);
        lemma_div_multiples_vanish_fancy(bound, den - 1, den);
    } else {
        lemma_div_pos_is_pos((-num) + den / 2, den);
        lemma_div_is_ordered((-num) + den / 2, den * bound + (den - 1), den);
        lemma_div_multiples_vanish_fancy(bound, den - 1, den);
    }
}

/// Rounds `num / den` like [`round_div_away`], over the wide integers the
/// centroid sums need.
pub(crate) fn round_div_away_wide(num: i128, den: i128) -> (r: i128)
    requires
        den > 0,
        num < i128::MAX - den,
        num > i128::MIN + den,
    ensures
        r == spec_round_div_away(num as int, den as int),
{
    if num >= 0 {
        proof {
            lemma_round_quotient_bounds(num as int, den as int);
        }
        (num + den / 2) / den
    } else {
        proof {
            lemma_round_quotient_bounds(-(num as int), den as int);
        }
        let neg: i128 = -num;
        -((neg + den / 2) / den)
    }
}

/// Rounds `num / den` to the nearest integer, halves away from zero.
pub fn round_div_away(num: i64, den: i64) -> (r: i64)
    requires
        den > 0,
    ensures
        r == spec_round_div_away(num as int, den as int),
{
    let d: i128 = den as i128;
    if num >= 0 {
        proof {
            lemma_round_quotient_bounds(num as int, den as int);
        }
        let q: i128 = (num as i128 + d / 2) / d;
        q as i64
    } else {
        proof {
            lemma_round_quotient_bounds(-(num as int), den as int);
        }
        let neg: i128 = -(num as i128);
        let q: i128 = (neg + d / 2) / d;
        (-q) as i64
    }
}

} // verus!
