//! Precision-preserving reduction of a ratio of two large integers.
//!
//! A 64-bit float keeps 52 fraction bits, so dividing two 128-bit integers
//! after a naive cast loses the low bits of both. Instead, both operands
//! are right-shifted by the same amount until the larger one fits in 53
//! bits; the quotient of the reduced operands is then safe to take in
//! floating point. When the shift would discard every significant bit of
//! either operand the ratio is reported as negligible (`None`) rather than
//! as a misleading figure. This module holds the exact integer reduction;
//! taking the final floating-point quotient is the caller's affair, and
//! nothing in the engine itself ever consumes it.

use vstd::prelude::*;
use vstd::arithmetic::div_mod::lemma_div_denominator;
use vstd::arithmetic::div_mod::lemma_fundamental_div_mod;
use vstd::arithmetic::power2::lemma2_to64;
use vstd::arithmetic::power2::lemma_pow2_adds;
use vstd::arithmetic::power2::lemma_pow2_pos;
use vstd::arithmetic::power2::lemma_pow2_strictly_increases;
use vstd::arithmetic::power2::pow2;

verus! {

/// `k` is the index of the highest set bit of `n`.
pub open spec fn is_bit_len_minus_one(k: nat, n: nat) -> bool {
    pow2(k) <= n < pow2(k + 1)
}

/// Index of the highest set bit (floor of the base-2 logarithm).
pub open spec fn ilog2(n: nat) -> nat {
    choose|k: nat| is_bit_len_minus_one(k, n)
}

/// The highest set bit index is unique, so any witness pins `ilog2`.
pub proof fn lemma_ilog2_unique(n: nat, k: nat)
    requires
        is_bit_len_minus_one(k, n),
    ensures
        ilog2(n) == k,
        is_bit_len_minus_one(ilog2(n), n),
{
    assert(is_bit_len_minus_one(ilog2(n), n)) by {
        assert(exists|j: nat| is_bit_len_minus_one(j, n));
    }
    let j = ilog2(n);
    if j < k {
        if j + 1 < k {
            lemma_pow2_strictly_increases(j + 1, k);
        }
        assert(pow2(j + 1) <= pow2(k));
        assert(pow2(k) <= n < pow2(j + 1));
    } else if k < j {
        if k + 1 < j {
            lemma_pow2_strictly_increases(k + 1, j);
        }
        assert(pow2(k + 1) <= pow2(j));
        assert(pow2(j) <= n < pow2(k + 1));
    }
}

/// How far both operands of a ratio must be shifted right so that the
/// larger one keeps at most 53 significant bits.
pub open spec fn scale_shift(a: nat, b: nat) -> nat {
    let big = if ilog2(a) >= ilog2(b) {
        ilog2(a)
    } else {
        ilog2(b)
    };
    if big > 52 {
        (big - 52) as nat
    } else {
        0
    }
}

/// The reduction signals a negligible ratio exactly when the bit lengths
/// of the two operands differ by 53 or more: then every significant bit of
/// the smaller operand would be shifted away, and `scale_reduce` answers
/// `None` instead of a misleading figure.
pub proof fn lemma_scale_zero_signal(a: nat, b: nat)
    ensures
        (scale_shift(a, b) > ilog2(a) || scale_shift(a, b) > ilog2(b)) <==> (ilog2(a) >= ilog2(b)
            + 53 || ilog2(b) >= ilog2(a) + 53),
{
}

/// Equal positive operands always survive the reduction, with equal
/// results, so their ratio is reported as exactly one.
pub proof fn lemma_scale_self(n: nat)
    ensures
        scale_shift(n, n) <= ilog2(n),
{
}

/// `pow2(128)` is one past the largest `u128`.
proof fn lemma_pow2_128_bound()
    ensures
        pow2(128) == 0x1_0000_0000_0000_0000_0000_0000_0000_0000,
{
    lemma2_to64();
    lemma_pow2_adds(64, 64);
    assert(pow2(64) * pow2(64) == 0x1_0000_0000_0000_0000_0000_0000_0000_0000) by (nonlinear_arith)
        requires
            pow2(64) == 0x1_0000_0000_0000_0000,
    ;
}

/// Index of the highest set bit of a positive 128-bit integer.
fn ilog2_u128(n: u128) -> (r: u32)
    requires
        n > 0,
    ensures
        r as nat == ilog2(n as nat),
        is_bit_len_minus_one(r as nat, n as nat),
        r <= 127,
{
    let mut v: u128 = n;
    let mut k: u32 = 0;
    proof {
        lemma2_to64();
    }
    while v >= 2
        invariant
            1 <= v,
            k <= 127,
            v as nat == (n as nat) / pow2(k as nat),
            n > 0,
        decreases v,
    {
        proof {
            let p = pow2(k as nat);
            lemma_pow2_pos(k as nat);
            lemma_fundamental_div_mod(n as int, p as int);
            lemma_pow2_adds(k as nat, 1);
            lemma2_to64();
            // v >= 2 here, so n >= 2 * pow2(k) = pow2(k + 1); hence k + 1 stays below 128.
            assert((n as nat) >= 2 * p) by (nonlinear_arith)
                requires
                    n as int == (p as int) * ((n as int) / (p as int)) + (n as int) % (p as int),
                    (n as int) % (p as int) >= 0,
                    (n as int) / (p as int) >= 2,
                    p > 0,
            ;
            lemma_pow2_128_bound();
            if k + 1 >= 128 {
                lemma_pow2_strictly_increases(128, k as nat + 1);
                assert(false);
            }
            lemma_div_denominator(n as int, p as int, 2);
        }
        v = v / 2;
        k = k + 1;
    }
    proof {
        let p = pow2(k as nat);
        lemma_pow2_pos(k as nat);
        lemma_fundamental_div_mod(n as int, p as int);
        lemma_pow2_adds(k as nat, 1);
        lemma2_to64();
        assert((n as nat) < p * 2) by (nonlinear_arith)
            requires
                n as int == (p as int) * ((n as int) / (p as int)) + (n as int) % (p as int),
                (n as int) % (p as int) < p,
                (n as int) / (p as int) == 1,
                p > 0,
        ;
        assert((n as nat) >= p) by (nonlinear_arith)
            requires
                n as int == (p as int) * ((n as int) / (p as int)) + (n as int) % (p as int),
                (n as int) % (p as int) >= 0,
                (n as int) / (p as int) == 1,
                p > 0,
        ;
        lemma_ilog2_unique(n as nat, k as nat);
    }
    k
}

/// `2^e` for exponents below the 128-bit width.
fn pow2_u128(e: u32) -> (r: u128)
    requires
        e <= 127,
    ensures
        r as nat == pow2(e as nat),
{
    let mut p: u128 = 1;
    let mut i: u32 = 0;
    proof {
        lemma2_to64();
    }
    while i < e
        invariant
            i <= e,
            e <= 127,
            p as nat == pow2(i as nat),
        decreases e - i,
    {
        proof {
            lemma_pow2_adds(i as nat, 1);
            lemma2_to64();
            lemma_pow2_128_bound();
            lemma_pow2_strictly_increases(i as nat + 1, 128);
        }
        p = p * 2;
        i = i + 1;
    }
    p
}

/// Shifts both operands of the ratio `num_a / num_b` right by
/// `scale_shift` bits, so that each fits in 53 bits and the float quotient
/// of the results loses nothing more. `None` is the deliberate
/// "negligible ratio" signal: it comes exactly when the shift exceeds the
/// highest set bit of one operand, that is, when the bit lengths of the
/// operands differ by 53 or more.
pub fn scale_reduce(num_a: u128, num_b: u128) -> (r: Option<(u64, u64)>)
    requires
        num_a > 0,
        num_b > 0,
    ensures
        r is Some <==> scale_shift(num_a as nat, num_b as nat) <= ilog2(num_a as nat)
            && scale_shift(num_a as nat, num_b as nat) <= ilog2(num_b as nat),
        r matches Some((ra, rb)) ==> {
            let shift = scale_shift(num_a as nat, num_b as nat);
            &&& ra == (num_a as nat) / pow2(shift)
            &&& rb == (num_b as nat) / pow2(shift)
            &&& 1 <= ra < pow2(53)
            &&& 1 <= rb < pow2(53)
        },
        num_a == num_b ==> (r matches Some((ra, rb)) && ra == rb),
{
    let al2 = ilog2_u128(num_a);
    let bl2 = ilog2_u128(num_b);
    let big = if al2 >= bl2 {
        al2
    } else {
        bl2
    };
    let drop: u32 = if big > 52 {
        big - 52
    } else {
        0
    };
    proof {
        assert(drop as nat == scale_shift(num_a as nat, num_b as nat));
    }
    if drop > al2 || drop > bl2 {
        return None;
    }
    let p = pow2_u128(drop);
    proof {
        lemma_pow2_pos(drop as nat);
    }
    let ra = num_a / p;
    let rb = num_b / p;
    proof {
        vstd::arithmetic::power2::lemma2_to64_rest();
        lemma_reduced_operand_bounds(num_a as nat, al2 as nat, drop as nat);
        lemma_reduced_operand_bounds(num_b as nat, bl2 as nat, drop as nat);
    }
    Some((ra as u64, rb as u64))
}

/// A positive operand shifted right by at most its own highest bit index
/// keeps at least one bit; shifted by the reduction amount it keeps at
/// most 53 bits.
proof fn lemma_reduced_operand_bounds(n: nat, l: nat, shift: nat)
    requires
        is_bit_len_minus_one(l, n),
        shift <= l,
        l - shift <= 52,
    ensures
        1 <= n / pow2(shift) < pow2(53),
{
    let p = pow2(shift);
    lemma_pow2_pos(shift);
    lemma_fundamental_div_mod(n as int, p as int);
    lemma_pow2_adds(shift, (l - shift) as nat);
    lemma_pow2_adds(shift, (l - shift + 1) as nat);
    if l - shift + 1 <= 53 {
        if l - shift + 1 < 53 {
            lemma_pow2_strictly_increases((l - shift + 1) as nat, 53);
        }
    }
    // n < pow2(l + 1) == pow2(shift) * pow2(l - shift + 1), so the quotient
    // stays under pow2(l - shift + 1) <= pow2(53); n >= pow2(l) == pow2(shift)
    // * pow2(l - shift) keeps the quotient at least 1.
    lemma_pow2_pos((l - shift) as nat);
    assert(n / p >= 1 && n / p < pow2((l - shift + 1) as nat)) by (nonlinear_arith)
        requires
            n as int == (p as int) * ((n as int) / (p as int)) + (n as int) % (p as int),
            0 <= (n as int) % (p as int) < p,
            p > 0,
            n >= p * pow2((l - shift) as nat),
            n < p * pow2((l - shift + 1) as nat),
            pow2((l - shift) as nat) >= 1,
    ;
}

} // verus!
