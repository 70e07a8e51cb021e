//! Fixed-point arithmetic: 256-bit exact multiply-then-divide and an
//! 18-place decimal type.
use vstd::prelude::*;
use vstd::arithmetic::div_mod::{lemma_div_is_ordered, lemma_div_by_multiple, lemma_div_pos_is_pos};
use vstd::arithmetic::mul::{lemma_mul_inequality, lemma_mul_nonnegative};

verus! {

/// Scale of a [`Decimal`]: one whole unit is this many atomics.
pub const DECIMAL_FRACTIONAL: u128 = 1_000_000_000_000_000_000;

/// `floor(value * numerator / denominator)` over unbounded integers.
pub open spec fn mul_div(value: int, numerator: int, denominator: int) -> int
    recommends
        denominator > 0,
{
    (value * numerator) / denominator
}

/// `multiply_ratio` succeeds: the denominator is not zero and the quotient
/// fits in 128 bits.
pub open spec fn mul_div_fits(value: u128, numerator: u128, denominator: u128) -> bool {
    denominator != 0 && mul_div(value as int, numerator as int, denominator as int) <= u128::MAX
}

/// `mul_div` is non-negative on non-negative arguments.
pub proof fn lemma_mul_div_nonneg(a: int, b: int, c: int)
    requires
        0 <= a,
        0 <= b,
        0 < c,
    ensures
        0 <= mul_div(a, b, c),
{
    lemma_mul_nonnegative(a, b);
    lemma_div_pos_is_pos(a * b, c);
}

/// `mul_div` grows with its first argument.
pub proof fn lemma_mul_div_mono(a1: int, a2: int, b: int, c: int)
    requires
        0 <= a1 <= a2,
        0 <= b,
        0 < c,
    ensures
        mul_div(a1, b, c) <= mul_div(a2, b, c),
{
    lemma_mul_inequality(a1, a2, b);
    lemma_div_is_ordered(a1 * b, a2 * b, c);
}

/// Scaling by `b / c` with `b <= c` never increases a value; with
/// `b == c` it keeps it.
pub proof fn lemma_mul_div_at_most(a: int, b: int, c: int)
    requires
        0 <= a,
        0 <= b <= c,
        0 < c,
    ensures
        mul_div(a, b, c) <= a,
        b == c ==> mul_div(a, b, c) == a,
{
    assert(a * b <= a * c) by {
        lemma_mul_inequality(b, c, a);
    }
    lemma_div_is_ordered(a * b, a * c, c);
    lemma_div_by_multiple(a, c);
}

/// Relies on cosmwasm_std::Uint128::checked_multiply_ratio: the product is
/// formed in 256 bits and divided with truncation; it fails on a zero
/// denominator and on a quotient that does not fit in 128 bits.
#[verifier::external_body]
pub(crate) fn multiply_ratio(value: u128, numerator: u128, denominator: u128) -> (r: Option<u128>)
    ensures
        r == (if mul_div_fits(value, numerator, denominator) {
            Some(mul_div(value as int, numerator as int, denominator as int) as u128)
        } else {
            None::<u128>
        }),
{
    cosmwasm_std::Uint128::new(value).checked_multiply_ratio(numerator, denominator).ok().map(
        |q| q.u128(),
    )
}

/// A non-negative fixed-point number with 18 decimal places, held as its
/// count of atomics (`value = atomics / 10^18`).
#[derive(Clone, Copy, Debug, PartialEq, Eq, Structural)]
pub struct Decimal {
    pub atomics: u128,
}

impl Decimal {
    /// The decimal whose atomics are `atomics`.
    pub fn raw(atomics: u128) -> (r: Decimal)
        ensures
            r.atomics == atomics,
    {
        Decimal { atomics }
    }

    /// `numerator / denominator`, rounded down to 18 places; `None` on a zero
    /// denominator or a value too large to hold.
    pub fn checked_from_ratio(numerator: u128, denominator: u128) -> (r: Option<Decimal>)
        ensures
            r == (if mul_div_fits(numerator, DECIMAL_FRACTIONAL, denominator) {
                Some(
                    Decimal {
                        atomics: mul_div(
                            numerator as int,
                            DECIMAL_FRACTIONAL as int,
                            denominator as int,
                        ) as u128,
                    },
                )
            } else {
                None::<Decimal>
            }),
    {
        match multiply_ratio(numerator, DECIMAL_FRACTIONAL, denominator) {
            Some(atomics) => Some(Decimal { atomics }),
            None => None,
        }
    }
    /// The product, rounded down to 18 places; `None` when too large.
    pub fn checked_mul(self, other: Decimal) -> (r: Option<Decimal>)
        ensures
            r == (if mul_div_fits(self.atomics, other.atomics, DECIMAL_FRACTIONAL) {
                Some(
                    Decimal {
                        atomics: mul_div(
                            self.atomics as int,
                            other.atomics as int,
                            DECIMAL_FRACTIONAL as int,
                        ) as u128,
                    },
                )
            } else {
                None::<Decimal>
            }),
    {
        match multiply_ratio(self.atomics, other.atomics, DECIMAL_FRACTIONAL) {
            Some(atomics) => Some(Decimal { atomics }),
            None => None,
        }
    }
}

} // verus!
