use ustc_swap::conversion::{compute_conversion, ConversionError, Ratio};
use ustc_swap::math::Decimal;

const E18: u128 = 1_000_000_000_000_000_000;

fn rate(numerator: u128, denominator: u128) -> Decimal {
    Decimal::checked_from_ratio(numerator, denominator).unwrap()
}

fn five_percent() -> Ratio {
    Ratio { numerator: 5, denominator: 100 }
}

#[test]
fn six_decimal_input_scales_to_eighteen() {
    let c = compute_conversion(15_000_000, rate(15, 10), 1_000_000_000_000, None, 200 * E18, five_percent())
        .unwrap();
    assert_eq!(c.base_scaled, 10 * E18);
    assert_eq!(c.bonus, 0);
    assert_eq!(c.user_total, 10 * E18);
    assert_eq!(c.referrer_amount, 0);
    assert_eq!(c.rate_used, rate(15, 10));
}

#[test]
fn referral_adds_ten_percent_to_each_side() {
    let bonus = Ratio { numerator: 10, denominator: 100 };
    let c = compute_conversion(
        15_000_000,
        rate(15, 10),
        1_000_000_000_000,
        Some(bonus),
        1_000 * E18,
        five_percent(),
    )
    .unwrap();
    assert_eq!(c.base_scaled, 10 * E18);
    assert_eq!(c.bonus, E18);
    assert_eq!(c.user_total, 11 * E18);
    assert_eq!(c.referrer_amount, E18);
}

#[test]
fn safety_cap_allows_equality_and_rejects_one_more() {
    let one = rate(1, 1);
    let at_cap = compute_conversion(10 * E18, one, 1, None, 200 * E18, five_percent());
    assert_eq!(at_cap.unwrap().user_total, 10 * E18);
    let over = compute_conversion(10 * E18 + 1, one, 1, None, 200 * E18, five_percent());
    assert_eq!(over, Err(ConversionError::SafetyLimitExceeded));
    // The decimal example lands exactly on the cap as well.
    let example =
        compute_conversion(15_000_000, rate(15, 10), 1_000_000_000_000, None, 200 * E18, five_percent());
    assert_eq!(example.unwrap().base_scaled, 10 * E18);
}

#[test]
fn cap_counts_the_referrer_share() {
    // 10 + 1 + 1 = 12 units minted against a cap of 10.
    let bonus = Ratio { numerator: 10, denominator: 100 };
    let r = compute_conversion(
        15_000_000,
        rate(15, 10),
        1_000_000_000_000,
        Some(bonus),
        200 * E18,
        five_percent(),
    );
    assert_eq!(r, Err(ConversionError::SafetyLimitExceeded));
}

#[test]
fn base_is_rounded_down() {
    // 10 / 3 = 3.33..., floor 3; then scaled.
    let c = compute_conversion(10, rate(3, 1), 7, None, u128::MAX, Ratio { numerator: 1, denominator: 1 })
        .unwrap();
    assert_eq!(c.base_scaled, 21);
    let bonus = Ratio { numerator: 1, denominator: 3 };
    let c = compute_conversion(10, rate(1, 1), 1, Some(bonus), u128::MAX, Ratio { numerator: 1, denominator: 1 })
        .unwrap();
    assert_eq!(c.bonus, 3);
    assert_eq!(c.user_total, 13);
}

#[test]
fn conversion_errors() {
    let cap = Ratio { numerator: 1, denominator: 1 };
    assert_eq!(
        compute_conversion(1, Decimal::raw(0), 1, None, 100, cap),
        Err(ConversionError::ZeroRate)
    );
    assert_eq!(
        compute_conversion(1, rate(1, 1), 1, None, 100, Ratio { numerator: 1, denominator: 0 }),
        Err(ConversionError::ZeroDenominator)
    );
    assert_eq!(
        compute_conversion(1, rate(1, 1), 1, Some(Ratio { numerator: 1, denominator: 0 }), 100, cap),
        Err(ConversionError::ZeroDenominator)
    );
    // Base too large for 128 bits.
    assert_eq!(
        compute_conversion(u128::MAX, Decimal::raw(1), 1, None, u128::MAX, cap),
        Err(ConversionError::Overflow)
    );
    // Scaling overflows.
    assert_eq!(
        compute_conversion(u128::MAX / 2, rate(1, 1), 3, None, u128::MAX, cap),
        Err(ConversionError::Overflow)
    );
    // User plus referrer overflows.
    assert_eq!(
        compute_conversion(
            u128::MAX / 2,
            rate(1, 1),
            1,
            Some(Ratio { numerator: 1, denominator: 1 }),
            u128::MAX,
            cap
        ),
        Err(ConversionError::Overflow)
    );
}

#[test]
fn cap_larger_than_any_amount_never_binds() {
    let r = compute_conversion(
        u128::MAX,
        rate(1, 1),
        1,
        None,
        u128::MAX,
        Ratio { numerator: 3, denominator: 1 },
    );
    assert_eq!(r.unwrap().user_total, u128::MAX);
}
