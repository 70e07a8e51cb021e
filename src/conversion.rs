//! Pricing one conversion: divide by the rate, scale to the output's
//! decimals, add the referral bonus, and hold the mint under a cap that is a
//! fraction of the output's total supply.
use vstd::prelude::*;
use crate::math::{DECIMAL_FRACTIONAL, Decimal, lemma_mul_div_nonneg, mul_div, multiply_ratio};

verus! {

/// A fraction `numerator / denominator`.
#[derive(Clone, Copy, Debug, PartialEq, Eq, Structural)]
pub struct Ratio {
    pub numerator: u128,
    pub denominator: u128,
}

/// What one conversion pays out.
#[derive(Clone, Copy, Debug, PartialEq, Eq, Structural)]
pub struct Conversion {
    /// Input divided by the rate, in the output's smallest units.
    pub base_scaled: u128,
    /// Referral bonus, paid to the user and again to the referrer.
    pub bonus: u128,
    /// What the user receives: `base_scaled + bonus`.
    pub user_total: u128,
    /// What the referrer receives: `bonus`.
    pub referrer_amount: u128,
    /// The rate the conversion used.
    pub rate_used: Decimal,
}

/// Why a conversion cannot be priced.
#[derive(Clone, Copy, Debug, PartialEq, Eq, Structural)]
pub enum ConversionError {
    /// The rate is zero.
    ZeroRate,
    /// The bonus or cap fraction has a zero denominator.
    ZeroDenominator,
    /// An amount does not fit in 128 bits.
    Overflow,
    /// The mint would exceed the supply-relative cap.
    SafetyLimitExceeded,
}

/// `floor(input / rate)` in whole output units before scaling.
pub open spec fn base_of(input: u128, rate: Decimal) -> int {
    mul_div(input as int, DECIMAL_FRACTIONAL as int, rate.atomics as int)
}

/// The bonus on `base_scaled`: zero without a referral.
pub open spec fn bonus_of(base_scaled: int, referral: Option<Ratio>) -> int {
    match referral {
        Some(q) => mul_div(base_scaled, q.numerator as int, q.denominator as int),
        None => 0,
    }
}

/// The most that one conversion may mint.
pub open spec fn mint_limit(total_supply: u128, cap: Ratio) -> int {
    mul_div(total_supply as int, cap.numerator as int, cap.denominator as int)
}

/// The full pricing of a conversion, or the first reason it fails.
pub open spec fn conversion_of(
    input: u128,
    rate: Decimal,
    scale: u128,
    referral: Option<Ratio>,
    total_supply: u128,
    cap: Ratio,
) -> Result<Conversion, ConversionError> {
    if rate.atomics == 0 {
        Err(ConversionError::ZeroRate)
    } else if cap.denominator == 0 || (referral matches Some(q) && q.denominator == 0) {
        Err(ConversionError::ZeroDenominator)
    } else {
        let base = base_of(input, rate);
        let scaled = base * scale;
        let bonus = bonus_of(scaled, referral);
        let total = scaled + bonus + bonus;
        if base > u128::MAX || scaled > u128::MAX || total > u128::MAX {
            Err(ConversionError::Overflow)
        } else if total > mint_limit(total_supply, cap) {
            Err(ConversionError::SafetyLimitExceeded)
        } else {
            Ok(
                Conversion {
                    base_scaled: scaled as u128,
                    bonus: bonus as u128,
                    user_total: (scaled + bonus) as u128,
                    referrer_amount: bonus as u128,
                    rate_used: rate,
                },
            )
        }
    }
}

/// Prices converting `input` smallest units at `rate`, scaling by `scale`,
/// with the bonus fraction `referral` when a referral applies, under a cap
/// of `cap` times `total_supply` on the total minted (user and referrer
/// together). A mint equal to the cap is allowed.
pub fn compute_conversion(
    input: u128,
    rate: Decimal,
    scale: u128,
    referral: Option<Ratio>,
    total_supply: u128,
    cap: Ratio,
) -> (r: Result<Conversion, ConversionError>)
    ensures
        r == conversion_of(input, rate, scale, referral, total_supply, cap),
{
    if rate.atomics == 0 {
        return Err(ConversionError::ZeroRate);
    }
    if cap.denominator == 0 {
        return Err(ConversionError::ZeroDenominator);
    }
    if let Some(q) = referral {
        if q.denominator == 0 {
            return Err(ConversionError::ZeroDenominator);
        }
    }
    let base = match multiply_ratio(input, DECIMAL_FRACTIONAL, rate.atomics) {
        Some(b) => b,
        None => {
            return Err(ConversionError::Overflow);
        },
    };
    proof {
        lemma_mul_div_nonneg(input as int, DECIMAL_FRACTIONAL as int, rate.atomics as int);
        assert(base as int * scale as int >= 0) by (nonlinear_arith);
    }
    let scaled = match base.checked_mul(scale) {
        Some(x) => x,
        None => {
            return Err(ConversionError::Overflow);
        },
    };
    let bonus = match referral {
        Some(q) => {
            proof {
                lemma_mul_div_nonneg(scaled as int, q.numerator as int, q.denominator as int);
            }
            match multiply_ratio(scaled, q.numerator, q.denominator) {
                Some(b) => b,
                None => {
                    return Err(ConversionError::Overflow);
                },
            }
        },
        None => 0,
    };
    let user_total = match scaled.checked_add(bonus) {
        Some(x) => x,
        None => {
            return Err(ConversionError::Overflow);
        },
    };
    let total = match user_total.checked_add(bonus) {
        Some(x) => x,
        None => {
            return Err(ConversionError::Overflow);
        },
    };
    if let Some(limit) = multiply_ratio(total_supply, cap.numerator, cap.denominator) {
        if total > limit {
            return Err(ConversionError::SafetyLimitExceeded);
        }
    }
    Ok(Conversion { base_scaled: scaled, bonus, user_total, referrer_amount: bonus, rate_used: rate })
}

} // verus!
