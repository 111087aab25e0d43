//! The arbitrage arithmetic engine for constant-product pools.
//!
//! `get_y_out` is the fee-adjusted swap-output formula. From the reserves of
//! a cheap pool A and a dear pool B, `reserves_to_coefficients` derives the
//! quadratic `A*t^2 + B*t - negC = 0` whose positive root is the optimal
//! input amount, carrying the provably non-positive constant term as the
//! non-negative magnitude `negC`. `quadratic_root` solves it with an exact
//! integer square root, and `optimal_ay_in` chains the two. All arithmetic
//! is exact: no intermediate is ever rounded except by the floor divisions
//! that the formulas themselves prescribe.

use vstd::prelude::*;
use vstd::arithmetic::div_mod::lemma_fundamental_div_mod;
use crate::ArbitrageError;
use crate::bignum::BigUint;
use crate::bignum::pow64;
use crate::bignum::sqrt_floor;

verus! {

/// Fee charged by both pools, in basis points out of 10,000.
pub const POOL_FEE_BASIS_POINTS: u8 = 30;

/// A value clamped to the largest 128-bit quantity.
pub open spec fn saturate_u128(v: nat) -> u128 {
    if v > u128::MAX {
        u128::MAX
    } else {
        v as u128
    }
}

/// Output of selling `dx` of the first asset into a pool with reserves
/// `(x, y)`: `floor(997*dx*y / (1000*x + 997*dx))`, matching the on-chain
/// constant-product formula with a 0.3% fee folded into the 997/1000 ratio.
pub open spec fn swap_out(dx: int, x: int, y: int) -> int {
    if x * 1000 + dx * 997 == 0 {
        0
    } else {
        (dx * 997 * y) / (x * 1000 + dx * 997)
    }
}

/// The fee multiplier numerator over 10,000: `10000 - fee_points`.
pub open spec fn fee_mult(fee_points: int) -> int {
    10000 - fee_points
}

/// `K = (1-f)*bx + (1-f)^2*ax` in exact basis-point arithmetic.
pub open spec fn pool_k(ax: int, bx: int, fee_points: int) -> int {
    (bx * fee_mult(fee_points)) / 10000 + (ax * (fee_mult(fee_points) * fee_mult(fee_points)))
        / 100000000
}

/// Leading coefficient `A = K^2`.
pub open spec fn coef_a(ax: int, bx: int, fee_points: int) -> int {
    pool_k(ax, bx, fee_points) * pool_k(ax, bx, fee_points)
}

/// Linear coefficient `B = 2*K*ay*bx`.
pub open spec fn coef_b(ax: int, ay: int, bx: int, fee_points: int) -> int {
    pool_k(ax, bx, fee_points) * 2 * ay * bx
}

/// Fee-free cross term `(ay*bx)^2`.
pub open spec fn cross_c1(ay: int, bx: int) -> int {
    ay * ay * bx * bx
}

/// Raw four-reserve product `ax*ay*bx*by`.
pub open spec fn cross_raw(ax: int, ay: int, bx: int, by: int) -> int {
    ax * ay * bx * by
}

/// Fee-adjusted cross term `(1-f)^2 * ax*ay*bx*by` in exact basis points.
pub open spec fn cross_c2(ax: int, ay: int, bx: int, by: int, fee_points: int) -> int {
    (cross_raw(ax, ay, bx, by) * (fee_mult(fee_points) * fee_mult(fee_points))) / 100000000
}

/// Largest working width of a derived coefficient.
pub open spec fn coef_limit() -> nat {
    pow64(4)
}

/// Value-level description of coefficient derivation: either the error that
/// classifies why no equation exists, or the exact coefficient triple.
pub open spec fn derive_spec(ax: int, ay: int, bx: int, by: int, fee_points: int) -> Result<
    (nat, nat, nat),
    ArbitrageError,
> {
    let c1 = cross_c1(ay, bx);
    let c21 = cross_raw(ax, ay, bx, by);
    let c2 = cross_c2(ax, ay, bx, by, fee_points);
    let a = coef_a(ax, bx, fee_points);
    let b = coef_b(ax, ay, bx, fee_points);
    if c1 > c2 {
        if c1 < c21 {
            Err(ArbitrageError::NoArbitrageAfterFee)
        } else {
            Err(ArbitrageError::NoArbitrage)
        }
    } else if a >= coef_limit() || b >= coef_limit() || c2 - c1 >= coef_limit() {
        Err(ArbitrageError::Overflow)
    } else {
        Ok(((a as nat), (b as nat), ((c2 - c1) as nat)))
    }
}

/// Discriminant `B^2 + 4*A*negC` of `A*t^2 + B*t - negC = 0`; non-negative
/// by construction because the constant term is carried as a magnitude.
pub open spec fn quad_delta(a: nat, b: nat, neg_c: nat) -> nat {
    b * b + a * neg_c * 4
}

/// Positive root `(isqrt(delta) - B) / (2*A)`, rounded down.
pub open spec fn quad_root(a: nat, b: nat, neg_c: nat) -> nat {
    if a == 0 {
        0
    } else {
        ((sqrt_floor(quad_delta(a, b, neg_c)) - b) / ((a * 2) as int)) as nat
    }
}

/// Value-level description of the whole optimal-input computation.
pub open spec fn optimal_spec(ax: int, ay: int, bx: int, by: int) -> Result<
    u128,
    ArbitrageError,
> {
    if ax == 0 || ay == 0 || bx == 0 || by == 0 {
        Err(ArbitrageError::DivisionByZero)
    } else {
        match derive_spec(ax, ay, bx, by, POOL_FEE_BASIS_POINTS as int) {
            Err(e) => Err(e),
            Ok((a, b, neg_c)) => if a == 0 {
                Err(ArbitrageError::DivisionByZero)
            } else {
                Ok(saturate_u128(quad_root(a, b, neg_c)))
            },
        }
    }
}

/// Constant-product swap output, fee-adjusted.
///
/// The denominator collapses only when `x` and `dx` are both zero, which is
/// reported instead of crashing the caller. The output never drains the
/// pool: it is at most `y`, and strictly below `y` whenever `x, y > 0`.
pub fn get_y_out(dx: u128, x: u128, y: u128) -> (r: Result<u128, ArbitrageError>)
    ensures
        r is Ok <==> (dx > 0 || x > 0),
        r is Err ==> r == Err::<u128, ArbitrageError>(ArbitrageError::DivisionByZero),
        r matches Ok(v) ==> v == swap_out(dx as int, x as int, y as int) && v <= y,
        x > 0 && y > 0 ==> (r matches Ok(v) && v < y),
        dx == 0 && x > 0 ==> (r matches Ok(v) && v == 0),
{
    if dx == 0 && x == 0 {
        return Err(ArbitrageError::DivisionByZero);
    }
    let num = BigUint::from_u128(dx).mul_small(997).mul(&BigUint::from_u128(y));
    let den = BigUint::from_u128(x).mul_small(1000).add(&BigUint::from_u128(dx).mul_small(997));
    proof {
        assert(num@ == (dx as int) * 997 * (y as int));
        assert(den@ == (x as int) * 1000 + (dx as int) * 997);
        assert(den@ > 0);
    }
    let q = num.div_floor(&den);
    proof {
        let numv = num@ as int;
        let denv = den@ as int;
        let qv = q@ as int;
        lemma_fundamental_div_mod(numv, denv);
        let rem = numv % denv;
        assert(0 <= rem < denv) by (nonlinear_arith)
            requires
                denv > 0,
                rem == numv % denv,
        ;
        assert(qv <= y) by (nonlinear_arith)
            requires
                numv == denv * qv + rem,
                0 <= rem,
                0 <= qv,
                numv == (dx as int) * 997 * (y as int),
                denv == (x as int) * 1000 + (dx as int) * 997,
                denv > 0,
        ;
        if x > 0 && y > 0 {
            assert(qv < y) by (nonlinear_arith)
                requires
                    numv == denv * qv + rem,
                    0 <= rem,
                    0 <= qv,
                    numv == (dx as int) * 997 * (y as int),
                    denv == (x as int) * 1000 + (dx as int) * 997,
                    x >= 1,
                    y >= 1,
            ;
        }
        if dx == 0 {
            assert(numv == 0) by (nonlinear_arith)
                requires
                    numv == (dx as int) * 997 * (y as int),
                    dx == 0,
            ;
            assert(qv == 0) by (nonlinear_arith)
                requires
                    numv == denv * qv + rem,
                    0 <= rem < denv,
                    0 <= qv,
                    numv == 0,
                    denv > 0,
            ;
        }
    }
    Ok(q.to_u128_saturating())
}

/// Derives the quadratic coefficients `(A, B, negC)` from the reserves of
/// the cheap pool `(ax, ay)` and the dear pool `(bx, by)` at the given fee.
///
/// The result is exactly `derive_spec`: the two no-arbitrage outcomes are
/// distinguished, and a coefficient that would exceed the 256-bit working
/// width is reported as `Overflow` rather than silently wrapped.
pub fn reserves_to_coefficients(ax: u128, ay: u128, bx: u128, by: u128, fee_points: u8) -> (r:
    Result<(BigUint, BigUint, BigUint), ArbitrageError>)
    ensures
        ({
            let expected = derive_spec(ax as int, ay as int, bx as int, by as int,
                fee_points as int);
            match r {
                Ok((a, b, neg_c)) => expected == Ok::<(nat, nat, nat), ArbitrageError>(
                    (a@, b@, neg_c@),
                ) && a@ < coef_limit() && b@ < coef_limit() && neg_c@ < coef_limit(),
                Err(e) => expected == Err::<(nat, nat, nat), ArbitrageError>(e),
            }
        }),
{
    let fee: u64 = 10000 - fee_points as u64;
    proof {
        assert((fee as int) * (fee as int) <= 100000000) by (nonlinear_arith)
            requires
                fee <= 10000,
        ;
    }
    let fee2: u64 = fee * fee;
    let axb = BigUint::from_u128(ax);
    let ayb = BigUint::from_u128(ay);
    let bxb = BigUint::from_u128(bx);
    let byb = BigUint::from_u128(by);
    let tenk = BigUint::from_u64(10000);
    let tenk2 = BigUint::from_u64(100000000);
    let k1 = bxb.mul_small(fee).div_floor(&tenk);
    let k2 = axb.mul_small(fee2).div_floor(&tenk2);
    let k = k1.add(&k2);
    proof {
        assert(k@ == pool_k(ax as int, bx as int, fee_points as int));
    }
    let a = k.mul(&k);
    let b = k.mul_small(2).mul(&ayb).mul(&bxb);
    proof {
        assert(b@ == coef_b(ax as int, ay as int, bx as int, fee_points as int));
    }
    let c1 = ayb.mul(&ayb).mul(&bxb).mul(&bxb);
    let c21 = axb.mul(&ayb).mul(&bxb).mul(&byb);
    let c2 = c21.mul_small(fee2).div_floor(&tenk2);
    if c2.lt(&c1) {
        if c1.lt(&c21) {
            Err(ArbitrageError::NoArbitrageAfterFee)
        } else {
            Err(ArbitrageError::NoArbitrage)
        }
    } else {
        let neg_c = c2.sub(&c1);
        let limit = BigUint::from_u64(1).shl_limbs(4);
        proof {
            assert(limit@ == 1 * pow64(4)) by (nonlinear_arith)
                requires
                    limit@ == 1 * pow64(4),
            ;
            assert(limit@ == coef_limit()) by (nonlinear_arith)
                requires
                    limit@ == 1 * pow64(4),
            ;
        }
        if !a.lt(&limit) || !b.lt(&limit) || !neg_c.lt(&limit) {
            Err(ArbitrageError::Overflow)
        } else {
            Ok((a, b, neg_c))
        }
    }
}

/// The economically meaningful (positive) root of `A*t^2 + B*t - negC = 0`,
/// computed with widened exact arithmetic and an exact integer square root,
/// then clamped to 128 bits.
///
/// A zero leading coefficient would collapse the `2*A` denominator, so it
/// is excluded; `optimal_ay_in` screens it out before calling.
pub fn quadratic_root(pos_a: &BigUint, pos_b: &BigUint, neg_c: &BigUint) -> (r: u128)
    requires
        pos_a@ > 0,
    ensures
        r == saturate_u128(quad_root(pos_a@, pos_b@, neg_c@)),
{
    let d1 = pos_b.mul(pos_b);
    let d2 = pos_a.mul(neg_c).mul_small(4);
    let delta = d1.add(&d2);
    proof {
        assert(delta@ == quad_delta(pos_a@, pos_b@, neg_c@));
    }
    let s = delta.isqrt();
    proof {
        assert(s@ >= pos_b@) by (nonlinear_arith)
            requires
                s@ * s@ <= delta@,
                delta@ < (s@ + 1) * (s@ + 1),
                delta@ >= pos_b@ * pos_b@,
        ;
    }
    let num = s.sub(pos_b);
    let den = pos_a.mul_small(2);
    proof {
        assert(den@ > 0);
    }
    let root = num.div_floor(&den);
    root.to_u128_saturating()
}

/// Optimal amount of pool A's second asset to sell in, for the fixed pool
/// fee. Degenerate inputs (a zero reserve, or reserves so small that the
/// leading coefficient vanishes) are rejected as `DivisionByZero`; the
/// other failures propagate from the derivation.
pub fn optimal_ay_in(ax: u128, ay: u128, bx: u128, by: u128) -> (r: Result<u128, ArbitrageError>)
    ensures
        r == optimal_spec(ax as int, ay as int, bx as int, by as int),
{
    if ax == 0 || ay == 0 || bx == 0 || by == 0 {
        return Err(ArbitrageError::DivisionByZero);
    }
    match reserves_to_coefficients(ax, ay, bx, by, POOL_FEE_BASIS_POINTS) {
        Err(e) => Err(e),
        Ok((a, b, neg_c)) => {
            if a.is_zero() {
                Err(ArbitrageError::DivisionByZero)
            } else {
                Ok(quadratic_root(&a, &b, &neg_c))
            }
        },
    }
}

/// For positive reserves the swap output lies in `[0, y)`: a pool can
/// never be fully drained, whatever the input amount.
pub proof fn lemma_swap_out_bounds(dx: int, x: int, y: int)
    requires
        dx >= 0,
        x > 0,
        y > 0,
    ensures
        0 <= swap_out(dx, x, y) < y,
{
    let n = dx * 997 * y;
    let d = x * 1000 + dx * 997;
    let q = n / d;
    lemma_fundamental_div_mod(n, d);
    let rem = n % d;
    assert(0 <= rem < d) by (nonlinear_arith)
        requires
            d > 0,
            rem == n % d,
    ;
    assert(0 <= q < y) by (nonlinear_arith)
        requires
            n == d * q + rem,
            0 <= rem < d,
            n == dx * 997 * y,
            d == x * 1000 + dx * 997,
            dx >= 0,
            x >= 1,
            y >= 1,
    ;
}

/// The swap output is monotonically non-decreasing in the input amount, for
/// fixed positive reserves.
pub proof fn lemma_swap_out_monotonic(dx1: int, dx2: int, x: int, y: int)
    requires
        0 <= dx1 <= dx2,
        x > 0,
        y >= 0,
    ensures
        swap_out(dx1, x, y) <= swap_out(dx2, x, y),
{
    let n1 = dx1 * 997 * y;
    let d1 = x * 1000 + dx1 * 997;
    let n2 = dx2 * 997 * y;
    let d2 = x * 1000 + dx2 * 997;
    let q1 = n1 / d1;
    let q2 = n2 / d2;
    lemma_fundamental_div_mod(n1, d1);
    lemma_fundamental_div_mod(n2, d2);
    let r1 = n1 % d1;
    let r2 = n2 % d2;
    assert(0 <= r1 < d1 && 0 <= r2 < d2) by (nonlinear_arith)
        requires
            d1 > 0,
            d2 > 0,
            r1 == n1 % d1,
            r2 == n2 % d2,
    ;
    assert(n1 * d2 <= n2 * d1) by (nonlinear_arith)
        requires
            n1 == dx1 * 997 * y,
            n2 == dx2 * 997 * y,
            d1 == x * 1000 + dx1 * 997,
            d2 == x * 1000 + dx2 * 997,
            0 <= dx1 <= dx2,
            x > 0,
            y >= 0,
    ;
    assert(q1 >= 0) by (nonlinear_arith)
        requires
            n1 == d1 * q1 + r1,
            0 <= r1 < d1,
            d1 > 0,
            n1 >= 0,
    ;
    assert(q1 <= q2) by (nonlinear_arith)
        requires
            n1 == d1 * q1 + r1,
            n2 == d2 * q2 + r2,
            0 <= r1 < d1,
            0 <= r2 < d2,
            d1 > 0,
            d2 > 0,
            q1 >= 0,
            n1 * d2 <= n2 * d1,
    ;
}

} // verus!
