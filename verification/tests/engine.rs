//! Tests of the arithmetic engine: swap output, coefficient derivation,
//! the quadratic solver, and the ratio reduction.

use gofi::bignum::BigUint;
use gofi::decimal::scale_reduce;
use gofi::unipool::{get_y_out, optimal_ay_in, quadratic_root, reserves_to_coefficients};
use gofi::ArbitrageError;

fn big(decimal: &str) -> BigUint {
    BigUint::from_decimal(decimal.as_bytes()).unwrap()
}

// Floating-point ratio on top of the verified integer reduction; the float
// division itself stays outside the library.
fn scale(num_a: u128, num_b: u128) -> f64 {
    match scale_reduce(num_a, num_b) {
        None => 0.0,
        Some((a, b)) => a as f64 / b as f64,
    }
}

#[test]
fn test_scale() {
    assert_eq!(scale(1_u128, 1_u128), 1.0);
    assert_eq!(scale(10_u128, 10_u128), 1.0);
    assert_eq!(scale(2_u128.pow(127), 2_u128.pow(127)), 1.0);
    assert_eq!(scale(2_u128.pow(52), 1_u128), 4503599627370496.0);
    assert_eq!(scale(2_u128.pow(53), 1_u128), 0.0); // more than a 52 bit difference is a ratio of zero
    assert_eq!(scale(2_u128.pow(53), 2_u128), 4503599627370496.0); // half a 53 bit number is 52 bits
    assert_eq!(scale(10_u128, 1_u128), 10.0);
    assert_eq!(scale(1_u128, 10_u128), 0.1);
}

#[test]
fn test_quadratic_root() {
    // -b +- sqrt(b^2 - 4ac) / 2a
    // delta = b^2 - 4ac
    // a real root exists when b^2 > 4ac
    let a = big("278237260324");
    let b = big("48739336800000000");
    let c = big("2421143007360000000000");
    let root = quadratic_root(&a, &b, &c);
    assert_eq!(root, 40371);

    let a = big("7010956849340041661775550609684450681");
    let b = big("2719085318207604654461411506480024329673136");
    let c = big("1695220225124043972868953930979927881452999219");
    let root = quadratic_root(&a, &b, &c);
    assert_eq!(root, 622);
}

#[test]
fn test_get_y_out() {
    let dx = 10;
    let x = 100;
    let y = 50;
    assert_eq!(get_y_out(dx, x, y).unwrap(), 4)
}

#[test]
fn test_optimal_ay_in() {
    let ax = 310000;
    let ay = 210000;
    let bx = 220000;
    let by = 320000;

    let ay_in = optimal_ay_in(ax, ay, bx, by).unwrap();
    assert_eq!(ay_in, 40371, "ay_in");

    let s1_adx = get_y_out(ay_in, ay, ax).unwrap();
    let s2_ady = get_y_out(s1_adx, bx, by).unwrap();

    let profit = s2_ady - ay_in;
    assert_eq!(profit, 18608, "profit");
}

#[test]
fn test_reserves_to_coefficients() {
    let fee_points = 30;
    let ax = 310000;
    let ay = 210000;
    let bx = 220000;
    let by = 320000;
    let (a, b, c) = reserves_to_coefficients(ax, ay, bx, by, fee_points).unwrap();
    assert_eq!(a, big("278237260324"), "a");
    assert_eq!(b, big("48739336800000000"), "b");
    assert_eq!(c, big("2421143007360000000000"), "c");
}

#[test]
fn quadratic_root_with_unit_leading_coefficient() {
    // t^2 + 338318*t - 169 = 0: the positive root is just below 0.0005, so
    // its floor is zero; the magnitude of the (discarded) negative root is
    // near 338318.
    let a = BigUint::from_u64(1);
    let b = big("338318");
    let c = big("169");
    assert_eq!(quadratic_root(&a, &b, &c), 0);
}

#[test]
fn swap_output_never_drains_the_pool() {
    let cases: [(u128, u128, u128); 5] = [
        (1, 1, 1),
        (u128::MAX, 1, u128::MAX),
        (u128::MAX, u128::MAX, u128::MAX),
        (123456789, 1000, 7),
        (1, u128::MAX, u128::MAX),
    ];
    for (dx, x, y) in cases {
        let out = get_y_out(dx, x, y).unwrap();
        assert!(out < y);
    }
}

#[test]
fn swap_output_is_monotonic_in_the_input() {
    let x = 310000;
    let y = 210000;
    let mut prev = 0;
    for dx in 0..2000 {
        let out = get_y_out(dx, x, y).unwrap();
        assert!(out >= prev);
        prev = out;
    }
}

#[test]
fn swap_with_collapsed_denominator_is_division_by_zero() {
    assert_eq!(get_y_out(0, 0, 50), Err(ArbitrageError::DivisionByZero));
    assert_eq!(get_y_out(0, 7, 50).unwrap(), 0);
    assert_eq!(get_y_out(3, 0, 50).unwrap(), 50);
}

#[test]
fn zero_reserves_are_rejected() {
    assert_eq!(
        optimal_ay_in(0, 210000, 220000, 320000),
        Err(ArbitrageError::DivisionByZero)
    );
    assert_eq!(
        optimal_ay_in(310000, 0, 220000, 320000),
        Err(ArbitrageError::DivisionByZero)
    );
    assert_eq!(
        optimal_ay_in(310000, 210000, 0, 320000),
        Err(ArbitrageError::DivisionByZero)
    );
    assert_eq!(
        optimal_ay_in(310000, 210000, 220000, 0),
        Err(ArbitrageError::DivisionByZero)
    );
}

#[test]
fn vanishing_leading_coefficient_is_division_by_zero() {
    // Reserves of one unit on each first asset make K round down to zero.
    assert_eq!(optimal_ay_in(1, 1, 1, 10), Err(ArbitrageError::DivisionByZero));
}

#[test]
fn correctly_priced_pair_has_no_arbitrage() {
    // Pool A dearer than pool B: the fee-free cross term already dominates.
    assert_eq!(
        optimal_ay_in(220000, 320000, 310000, 210000),
        Err(ArbitrageError::NoArbitrage)
    );
}

#[test]
fn thin_spread_is_no_arbitrage_after_fee() {
    // A 0.1% spread is profitable before the 0.3% fee but not after it.
    assert_eq!(
        optimal_ay_in(100000, 100000, 100000, 100100),
        Err(ArbitrageError::NoArbitrageAfterFee)
    );
}

#[test]
fn oversized_coefficients_are_reported_as_overflow() {
    let ax = 1u128 << 120;
    let ay = 1u128 << 119;
    let bx = 1u128 << 119;
    let by = 1u128 << 120;
    assert_eq!(optimal_ay_in(ax, ay, bx, by), Err(ArbitrageError::Overflow));
}

#[test]
fn coefficient_vector_reproduces_exactly() {
    // K = 9970*220000/10000 + 9970^2*310000/10^8 = 219340 + 308142 = 527482.
    let (a, b, c) = reserves_to_coefficients(310000, 210000, 220000, 320000, 30).unwrap();
    assert_eq!(a, big("278237260324")); // 527482^2
    assert_eq!(b, big("48739336800000000")); // 2*527482*210000*220000
    assert_eq!(c, big("2421143007360000000000"));
}

#[test]
fn scale_reduce_keeps_small_operands_exact() {
    assert_eq!(scale_reduce(10, 4), Some((10, 4)));
    assert_eq!(scale_reduce(1, 1), Some((1, 1)));
    assert_eq!(scale_reduce(2_u128.pow(52), 1), Some((2_u64.pow(52), 1)));
}

#[test]
fn scale_reduce_signals_negligible_ratios() {
    assert_eq!(scale_reduce(2_u128.pow(53), 1), None);
    assert_eq!(scale_reduce(1, 2_u128.pow(53)), None);
    assert_eq!(scale_reduce(2_u128.pow(53), 2), Some((2_u64.pow(52), 1)));
    assert_eq!(scale_reduce(2_u128.pow(127), 2_u128.pow(127) + 1), Some((2_u64.pow(52), 2_u64.pow(52))));
}
