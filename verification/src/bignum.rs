//! Arbitrary-precision unsigned integers on little-endian 64-bit limbs.
//!
//! The engine needs products of four 128-bit reserve quantities and the
//! discriminant of a quadratic in those products, so intermediate values
//! reach several hundred bits. This module provides the handful of exact
//! operations the engine uses, each specified against the mathematical
//! value of the limb sequence.

use vstd::prelude::*;
use vstd::arithmetic::div_mod::lemma_fundamental_div_mod;
use vstd::arithmetic::div_mod::lemma_fundamental_div_mod_converse;
use vstd::arithmetic::power2::lemma2_to64;
use vstd::arithmetic::power2::lemma_pow2_adds;
use vstd::arithmetic::power2::lemma_pow2_pos;
use vstd::arithmetic::power2::pow2;

verus! {

/// One more than the largest limb: the base of the positional encoding.
pub const LIMB_BASE: u128 = 0x1_0000_0000_0000_0000;

/// `2^(64*e)`: the place value of limb `e`.
pub open spec fn pow64(e: nat) -> nat {
    pow2(64 * e)
}

/// Mathematical value of a little-endian limb sequence.
pub open spec fn limbs_val(s: Seq<u64>) -> nat
    decreases s.len(),
{
    if s.len() == 0 {
        0
    } else {
        (limbs_val(s.drop_last()) + s.last() * pow64((s.len() - 1) as nat)) as nat
    }
}

/// The limb at position `i`, reading positions past the end as zero.
pub open spec fn limb_at(s: Seq<u64>, i: int) -> u64 {
    if 0 <= i < s.len() {
        s[i]
    } else {
        0
    }
}

/// Value of the first `i` limbs (all of them once `i` reaches the length).
pub open spec fn prefix_val(s: Seq<u64>, i: int) -> nat {
    limbs_val(s.take(if i <= s.len() { i } else { s.len() as int }))
}

pub proof fn lemma_pow64_zero()
    ensures
        pow64(0) == 1,
{
    lemma2_to64();
}

pub proof fn lemma_pow64_succ(e: nat)
    ensures
        pow64(e + 1) == pow64(e) * (LIMB_BASE as nat),
{
    lemma_pow2_adds(64 * e, 64);
    lemma2_to64();
}

pub proof fn lemma_pow64_pos(e: nat)
    ensures
        pow64(e) >= 1,
{
    lemma_pow2_pos(64 * e);
}

/// Appending a limb adds its place value.
pub proof fn lemma_val_push(s: Seq<u64>, x: u64)
    ensures
        limbs_val(s.push(x)) == limbs_val(s) + x * pow64(s.len()),
{
    assert(s.push(x).drop_last() =~= s);
    assert(s.push(x).last() == x);
}

/// Extending a prefix by one limb adds that limb's place value.
pub proof fn lemma_prefix_val_succ(s: Seq<u64>, i: int)
    requires
        0 <= i,
    ensures
        prefix_val(s, i + 1) == prefix_val(s, i) + limb_at(s, i) * pow64(i as nat),
{
    if i < s.len() {
        assert(s.take(i + 1).drop_last() =~= s.take(i));
        assert(s.take(i + 1).last() == s[i]);
    } else {
        assert(limb_at(s, i) == 0);
    }
}

/// The whole sequence is its own prefix once `i` reaches the length.
pub proof fn lemma_prefix_val_all(s: Seq<u64>, i: int)
    requires
        s.len() <= i,
    ensures
        prefix_val(s, i) == limbs_val(s),
{
    assert(s.take(s.len() as int) =~= s);
}

/// A limb sequence is bounded by the place value just past its end.
pub proof fn lemma_val_bound(s: Seq<u64>)
    ensures
        limbs_val(s) < pow64(s.len()),
    decreases s.len(),
{
    if s.len() == 0 {
        lemma_pow64_zero();
    } else {
        let n = (s.len() - 1) as nat;
        lemma_val_bound(s.drop_last());
        lemma_pow64_succ(n);
        assert(s.last() * pow64(n) <= (LIMB_BASE - 1) * pow64(n)) by (nonlinear_arith)
            requires
                s.last() <= LIMB_BASE - 1,
                pow64(n) >= 0,
        ;
        assert((LIMB_BASE - 1) * pow64(n) == LIMB_BASE * pow64(n) - pow64(n)) by (nonlinear_arith);
        assert(pow64(n) * (LIMB_BASE as nat) == (LIMB_BASE as nat) * pow64(n)) by (nonlinear_arith);
    }
}

/// Prefixes never exceed the value of the whole sequence.
pub proof fn lemma_prefix_val_le(s: Seq<u64>, i: int)
    requires
        0 <= i,
    ensures
        prefix_val(s, i) <= limbs_val(s),
    decreases s.len() - i,
{
    if i < s.len() {
        lemma_prefix_val_succ(s, i);
        lemma_prefix_val_le(s, i + 1);
        assert(limb_at(s, i) * pow64(i as nat) >= 0) by (nonlinear_arith);
    } else {
        lemma_prefix_val_all(s, i);
    }
}

/// Unsigned integer of arbitrary width, as the engine's working number type.
#[derive(Clone, Debug)]
pub struct BigUint {
    limbs: Vec<u64>,
}

impl View for BigUint {
    type V = nat;

    closed spec fn view(&self) -> nat {
        limbs_val(self.limbs@)
    }
}

impl BigUint {
    pub fn from_u64(x: u64) -> (r: BigUint)
        ensures
            r@ == x,
    {
        let limbs: Vec<u64> = vec![x];
        proof {
            assert(limbs@ =~= seq![x]);
            assert(seq![x].drop_last() =~= Seq::<u64>::empty());
            assert(limbs_val(Seq::<u64>::empty()) == 0);
            lemma_pow64_zero();
            assert(limbs_val(seq![x]) == 0 + x * 1);
        }
        BigUint { limbs }
    }

    pub fn from_u128(x: u128) -> (r: BigUint)
        ensures
            r@ == x,
    {
        let lo = (x % LIMB_BASE) as u64;
        let hi = (x / LIMB_BASE) as u64;
        let limbs: Vec<u64> = vec![lo, hi];
        proof {
            lemma_fundamental_div_mod(x as int, LIMB_BASE as int);
            assert(limbs@ =~= seq![lo, hi]);
            assert(seq![lo, hi].drop_last() =~= seq![lo]);
            assert(seq![lo].drop_last() =~= Seq::<u64>::empty());
            assert(limbs_val(Seq::<u64>::empty()) == 0);
            lemma_pow64_zero();
            lemma_pow64_succ(0);
            assert(limbs_val(seq![lo]) == 0 + lo * 1);
            assert(limbs_val(seq![lo, hi]) == limbs_val(seq![lo]) + hi * pow64(1));
            assert(hi * pow64(1) == x - lo) by (nonlinear_arith)
                requires
                    pow64(1) == LIMB_BASE,
                    hi == x / LIMB_BASE,
                    lo == x % LIMB_BASE,
                    x == (LIMB_BASE as int) * ((x as int) / (LIMB_BASE as int)) + (x as int) % (
                    LIMB_BASE as int),
            ;
        }
        BigUint { limbs }
    }

    /// Exact sum.
    pub fn add(&self, other: &BigUint) -> (r: BigUint)
        ensures
            r@ == self@ + other@,
    {
        let a = &self.limbs;
        let b = &other.limbs;
        let n = if a.len() > b.len() {
            a.len()
        } else {
            b.len()
        };
        let mut out: Vec<u64> = Vec::new();
        let mut carry: u64 = 0;
        let mut i: usize = 0;
        proof {
            lemma_pow64_zero();
            assert(out@.take(0) =~= Seq::<u64>::empty());
        }
        while i < n
            invariant
                i <= n,
                a.len() <= n,
                b.len() <= n,
                out@.len() == i,
                carry <= 1,
                limbs_val(out@) + carry * pow64(i as nat) == prefix_val(a@, i as int) + prefix_val(
                    b@,
                    i as int,
                ),
            decreases n - i,
        {
            let la: u64 = if i < a.len() {
                a[i]
            } else {
                0
            };
            let lb: u64 = if i < b.len() {
                b[i]
            } else {
                0
            };
            let t: u128 = la as u128 + lb as u128 + carry as u128;
            let limb = (t % LIMB_BASE) as u64;
            let c2 = (t / LIMB_BASE) as u64;
            proof {
                let p = pow64(i as nat);
                lemma_fundamental_div_mod(t as int, LIMB_BASE as int);
                lemma_prefix_val_succ(a@, i as int);
                lemma_prefix_val_succ(b@, i as int);
                lemma_val_push(out@, limb);
                lemma_pow64_succ(i as nat);
                assert(limbs_val(out@) + limb * p + c2 * (p * (LIMB_BASE as nat)) == prefix_val(
                    a@,
                    i as int,
                ) + la * p + prefix_val(b@, i as int) + lb * p) by (nonlinear_arith)
                    requires
                        limbs_val(out@) + carry * p == prefix_val(a@, i as int) + prefix_val(
                            b@,
                            i as int,
                        ),
                        t == la + lb + carry,
                        t == (LIMB_BASE as int) * ((t as int) / (LIMB_BASE as int)) + (t as int) % (
                        LIMB_BASE as int),
                        limb == t % LIMB_BASE,
                        c2 == t / LIMB_BASE,
                        p >= 0,
                ;
            }
            out.push(limb);
            carry = c2;
            i += 1;
        }
        if carry > 0 {
            proof {
                lemma_val_push(out@, carry);
            }
            out.push(carry);
        }
        proof {
            lemma_prefix_val_all(a@, n as int);
            lemma_prefix_val_all(b@, n as int);
        }
        BigUint { limbs: out }
    }

    /// Strict order on values.
    pub fn lt(&self, other: &BigUint) -> (r: bool)
        ensures
            r == (self@ < other@),
    {
        let (_, borrow) = sub_limbs(&self.limbs, &other.limbs);
        borrow
    }

    /// Exact difference; the subtrahend must not exceed the minuend.
    pub fn sub(&self, other: &BigUint) -> (r: BigUint)
        requires
            other@ <= self@,
        ensures
            r@ == self@ - other@,
    {
        let (out, _) = sub_limbs(&self.limbs, &other.limbs);
        BigUint { limbs: out }
    }

    /// Whether the value is zero.
    pub fn is_zero(&self) -> (r: bool)
        ensures
            r == (self@ == 0),
    {
        let z = BigUint::from_u64(0);
        !z.lt(self)
    }

    /// Exact product with a single limb.
    pub fn mul_small(&self, m: u64) -> (r: BigUint)
        ensures
            r@ == self@ * m,
    {
        let a = &self.limbs;
        let mut out: Vec<u64> = Vec::new();
        let mut carry: u64 = 0;
        let mut i: usize = 0;
        proof {
            lemma_pow64_zero();
            assert(a@.take(0) =~= Seq::<u64>::empty());
            assert(prefix_val(a@, 0) * m == 0) by (nonlinear_arith)
                requires
                    prefix_val(a@, 0) == 0,
            ;
        }
        while i < a.len()
            invariant
                i <= a.len(),
                out@.len() == i,
                limbs_val(out@) + carry * pow64(i as nat) == prefix_val(a@, i as int) * m,
            decreases a.len() - i,
        {
            let la = a[i];
            proof {
                assert((la as int) * (m as int) + carry < 0x1_0000_0000_0000_0000_0000_0000_0000_0000)
                    by (nonlinear_arith)
                    requires
                        la <= 0xffff_ffff_ffff_ffff,
                        m <= 0xffff_ffff_ffff_ffff,
                        carry <= 0xffff_ffff_ffff_ffff,
                ;
            }
            let t: u128 = la as u128 * m as u128 + carry as u128;
            let limb = (t % LIMB_BASE) as u64;
            let c2 = (t / LIMB_BASE) as u64;
            proof {
                let p = pow64(i as nat);
                lemma_fundamental_div_mod(t as int, LIMB_BASE as int);
                lemma_prefix_val_succ(a@, i as int);
                lemma_val_push(out@, limb);
                lemma_pow64_succ(i as nat);
                assert(limbs_val(out@) + limb * p + c2 * (p * (LIMB_BASE as nat)) == (prefix_val(
                    a@,
                    i as int,
                ) + a@[i as int] * p) * m) by (nonlinear_arith)
                    requires
                        limbs_val(out@) + carry * p == prefix_val(a@, i as int) * m,
                        t == a@[i as int] * m + carry,
                        t == (LIMB_BASE as int) * ((t as int) / (LIMB_BASE as int)) + (t as int) % (
                        LIMB_BASE as int),
                        limb == t % LIMB_BASE,
                        c2 == t / LIMB_BASE,
                        p >= 0,
                ;
            }
            out.push(limb);
            carry = c2;
            i += 1;
        }
        if carry > 0 {
            proof {
                lemma_val_push(out@, carry);
            }
            out.push(carry);
        }
        proof {
            lemma_prefix_val_all(a@, a.len() as int);
        }
        BigUint { limbs: out }
    }

    /// Exact product with the `k`-th limb place value, by prepending zeros.
    pub fn shl_limbs(&self, k: usize) -> (r: BigUint)
        ensures
            r@ == self@ * pow64(k as nat),
    {
        let a = &self.limbs;
        let mut out: Vec<u64> = Vec::new();
        let mut i: usize = 0;
        proof {
            lemma_pow64_zero();
        }
        while i < k
            invariant
                i <= k,
                out@.len() == i,
                limbs_val(out@) == 0,
            decreases k - i,
        {
            proof {
                lemma_val_push(out@, 0);
            }
            out.push(0);
            i += 1;
        }
        let mut j: usize = 0;
        proof {
            assert(a@.take(0) =~= Seq::<u64>::empty());
            assert(prefix_val(a@, 0) * pow64(k as nat) == 0) by (nonlinear_arith)
                requires
                    prefix_val(a@, 0) == 0,
            ;
        }
        while j < a.len()
            invariant
                j <= a.len(),
                out@.len() == k + j,
                limbs_val(out@) == prefix_val(a@, j as int) * pow64(k as nat),
            decreases a.len() - j,
        {
            proof {
                let pk = pow64(k as nat);
                let pj = pow64(j as nat);
                lemma_prefix_val_succ(a@, j as int);
                lemma_val_push(out@, a@[j as int]);
                lemma_pow64_adds(k as nat, j as nat);
                assert(limbs_val(out@) + a@[j as int] * (pk * pj) == (prefix_val(a@, j as int)
                    + a@[j as int] * pj) * pk) by (nonlinear_arith)
                    requires
                        limbs_val(out@) == prefix_val(a@, j as int) * pk,
                ;
            }
            out.push(a[j]);
            j += 1;
        }
        proof {
            lemma_prefix_val_all(a@, a.len() as int);
        }
        BigUint { limbs: out }
    }

    /// Exact product.
    pub fn mul(&self, other: &BigUint) -> (r: BigUint)
        ensures
            r@ == self@ * other@,
    {
        let a = &self.limbs;
        let mut acc = BigUint::from_u64(0);
        let mut i: usize = 0;
        proof {
            lemma_pow64_zero();
            assert(a@.take(0) =~= Seq::<u64>::empty());
            assert(prefix_val(a@, 0) * other@ == 0) by (nonlinear_arith)
                requires
                    prefix_val(a@, 0) == 0,
            ;
        }
        while i < a.len()
            invariant
                i <= a.len(),
                acc@ == prefix_val(a@, i as int) * other@,
            decreases a.len() - i,
        {
            let part = other.mul_small(a[i]).shl_limbs(i);
            proof {
                let p = pow64(i as nat);
                lemma_prefix_val_succ(a@, i as int);
                assert(acc@ + (other@ * a@[i as int]) * p == (prefix_val(a@, i as int)
                    + a@[i as int] * p) * other@) by (nonlinear_arith)
                    requires
                        acc@ == prefix_val(a@, i as int) * other@,
                ;
            }
            acc = acc.add(&part);
            i += 1;
        }
        proof {
            lemma_prefix_val_all(a@, a.len() as int);
        }
        acc
    }

    /// Exact halving (floor).
    pub fn div2(&self) -> (r: BigUint)
        ensures
            r@ == self@ / 2,
    {
        let a = &self.limbs;
        let mut out: Vec<u64> = Vec::new();
        let mut i: usize = 0;
        proof {
            lemma_pow64_zero();
        }
        while i < a.len()
            invariant
                i <= a.len(),
                out@.len() == i,
                2 * limbs_val(out@) + (limb_at(a@, 0) % 2) == prefix_val(a@, i as int) + (limb_at(
                    a@,
                    i as int,
                ) % 2) * pow64(i as nat),
            decreases a.len() - i,
        {
            let cur = a[i];
            let next: u64 = if i + 1 < a.len() {
                a[i + 1]
            } else {
                0
            };
            let limb: u64 = cur / 2 + (next % 2) * 0x8000_0000_0000_0000;
            proof {
                let p = pow64(i as nat);
                lemma_prefix_val_succ(a@, i as int);
                lemma_val_push(out@, limb);
                lemma_pow64_succ(i as nat);
                assert(2 * (limbs_val(out@) + limb * p) + (limb_at(a@, 0) % 2) == prefix_val(
                    a@,
                    i as int,
                ) + limb_at(a@, i as int) * p + (limb_at(a@, (i + 1) as int) % 2) * (p * (
                LIMB_BASE as nat))) by (nonlinear_arith)
                    requires
                        2 * limbs_val(out@) + (limb_at(a@, 0) % 2) == prefix_val(a@, i as int) + (
                        limb_at(a@, i as int) % 2) * p,
                        limb == limb_at(a@, i as int) / 2 + (limb_at(a@, (i + 1) as int) % 2)
                            * 0x8000_0000_0000_0000,
                        limb_at(a@, i as int) == 2 * (limb_at(a@, i as int) / 2) + (limb_at(
                            a@,
                            i as int,
                        ) % 2),
                        p >= 0,
                ;
            }
            out.push(limb);
            i += 1;
        }
        proof {
            lemma_prefix_val_all(a@, a.len() as int);
            assert(limb_at(a@, a.len() as int) == 0);
            lemma_fundamental_div_mod_converse(
                limbs_val(a@) as int,
                2,
                limbs_val(out@) as int,
                (limb_at(a@, 0) % 2) as int,
            );
        }
        BigUint { limbs: out }
    }
}

/// `r` is the floor of the square root of `n`.
pub open spec fn is_sqrt_floor(r: nat, n: nat) -> bool {
    r * r <= n < (r + 1) * (r + 1)
}

/// The floor of the square root, as a mathematical function.
pub open spec fn sqrt_floor(n: nat) -> nat {
    choose|r: nat| is_sqrt_floor(r, n)
}

/// Every natural number has a floor square root.
pub proof fn lemma_sqrt_floor_exists(n: nat)
    ensures
        is_sqrt_floor(sqrt_floor(n), n),
    decreases n,
{
    if n == 0 {
        assert(0 * 0 == 0 && (0 + 1) * (0 + 1) == 1) by (nonlinear_arith);
        assert(is_sqrt_floor(0, 0));
    } else {
        lemma_sqrt_floor_exists((n - 1) as nat);
        let r = sqrt_floor((n - 1) as nat);
        if n < (r + 1) * (r + 1) {
            assert(is_sqrt_floor(r, n));
        } else {
            assert(is_sqrt_floor(r + 1, n)) by (nonlinear_arith)
                requires
                    r * r <= n - 1,
                    n - 1 < (r + 1) * (r + 1),
                    (r + 1) * (r + 1) <= n,
            ;
        }
    }
}

/// The floor square root is unique.
pub proof fn lemma_sqrt_floor_unique(n: nat, r: nat)
    requires
        is_sqrt_floor(r, n),
    ensures
        r == sqrt_floor(n),
{
    lemma_sqrt_floor_exists(n);
    let s = sqrt_floor(n);
    if r < s {
        assert(false) by (nonlinear_arith)
            requires
                r < s,
                s * s <= n,
                n < (r + 1) * (r + 1),
        ;
    } else if s < r {
        assert(false) by (nonlinear_arith)
            requires
                s < r,
                r * r <= n,
                n < (s + 1) * (s + 1),
        ;
    }
}

impl BigUint {
    /// The value, clamped to the largest 128-bit quantity.
    pub fn to_u128_saturating(&self) -> (r: u128)
        ensures
            self@ <= u128::MAX ==> r == self@,
            self@ > u128::MAX ==> r == u128::MAX,
    {
        let a = &self.limbs;
        proof {
            lemma_pow64_zero();
            lemma_pow64_succ(0);
            lemma_pow64_succ(1);
            assert(a@.take(0) =~= Seq::<u64>::empty());
            lemma_prefix_val_succ(a@, 0);
            lemma_prefix_val_succ(a@, 1);
        }
        let mut i: usize = 2;
        while i < a.len()
            invariant
                2 <= i,
                i <= a.len() || i == 2,
                self@ == limbs_val(a@),
                prefix_val(a@, i as int) == prefix_val(a@, 2),
            decreases a.len() - i,
        {
            proof {
                lemma_prefix_val_succ(a@, i as int);
                if limb_at(a@, i as int) == 0 {
                    assert(limb_at(a@, i as int) * pow64(i as nat) == 0) by (nonlinear_arith)
                        requires
                            limb_at(a@, i as int) == 0,
                    ;
                }
            }
            if a[i] != 0 {
                proof {
                    let p = pow64(i as nat);
                    lemma_prefix_val_le(a@, i + 1);
                    lemma_pow64_le(2, i as nat);
                    lemma_pow64_zero();
                    lemma_pow64_succ(0);
                    lemma_pow64_succ(1);
                    assert((LIMB_BASE as nat) * (LIMB_BASE as nat)
                        == 0x1_0000_0000_0000_0000_0000_0000_0000_0000) by (nonlinear_arith);
                    assert(pow64(2) == 0x1_0000_0000_0000_0000_0000_0000_0000_0000);
                    assert(a@[i as int] * p >= p) by (nonlinear_arith)
                        requires
                            a@[i as int] >= 1,
                            p >= 0,
                    ;
                    assert(prefix_val(a@, i + 1) >= a@[i as int] * p);
                    assert(limbs_val(a@) >= prefix_val(a@, i + 1));
                    assert(self@ == limbs_val(a@));
                    assert(self@ >= pow64(2));
                    assert(self@ > u128::MAX);
                }
                return u128::MAX;
            }
            i += 1;
        }
        proof {
            lemma_prefix_val_all(a@, i as int);
        }
        let lo: u64 = if a.len() > 0 {
            a[0]
        } else {
            0
        };
        let hi: u64 = if a.len() > 1 {
            a[1]
        } else {
            0
        };
        lo as u128 + hi as u128 * LIMB_BASE
    }

    /// Floor quotient, by binary search over the unique value `q` with
    /// `q * d <= self < (q + 1) * d`.
    pub fn div_floor(&self, d: &BigUint) -> (r: BigUint)
        requires
            d@ > 0,
        ensures
            r@ == self@ / d@,
    {
        let one = BigUint::from_u64(1);
        let mut lo = BigUint::from_u64(0);
        let mut hi = self.add(&one);
        proof {
            assert(lo@ * d@ <= self@) by (nonlinear_arith)
                requires
                    lo@ == 0,
            ;
            assert(self@ < hi@ * d@) by (nonlinear_arith)
                requires
                    hi@ == self@ + 1,
                    d@ >= 1,
            ;
        }
        loop
            invariant
                one@ == 1,
                d@ > 0,
                lo@ * d@ <= self@,
                self@ < hi@ * d@,
                lo@ < hi@,
            ensures
                lo@ * d@ <= self@ < (lo@ + 1) * d@,
            decreases hi@ - lo@,
        {
            let lo1 = lo.add(&one);
            if !lo1.lt(&hi) {
                proof {
                    assert(hi@ == lo@ + 1);
                }
                break ;
            }
            let mid = lo.add(&hi).div2();
            let prod = mid.mul(d);
            proof {
                assert(lo@ + 1 <= mid@ && mid@ + 1 <= hi@);
            }
            if !self.lt(&prod) {
                lo = mid;
            } else {
                hi = mid;
            }
        }
        proof {
            assert((lo@ + 1) * d@ == lo@ * d@ + d@) by (nonlinear_arith);
            lemma_fundamental_div_mod_converse(
                self@ as int,
                d@ as int,
                lo@ as int,
                self@ - lo@ * d@,
            );
        }
        lo
    }

    /// Floor of the square root, by binary search.
    pub fn isqrt(&self) -> (r: BigUint)
        ensures
            is_sqrt_floor(r@, self@),
            r@ == sqrt_floor(self@),
    {
        let one = BigUint::from_u64(1);
        let mut lo = BigUint::from_u64(0);
        let mut hi = self.add(&one);
        proof {
            assert(lo@ * lo@ <= self@) by (nonlinear_arith)
                requires
                    lo@ == 0,
            ;
            assert(self@ < hi@ * hi@) by (nonlinear_arith)
                requires
                    hi@ == self@ + 1,
            ;
        }
        loop
            invariant
                one@ == 1,
                lo@ * lo@ <= self@,
                self@ < hi@ * hi@,
                lo@ < hi@,
            ensures
                lo@ * lo@ <= self@ < (lo@ + 1) * (lo@ + 1),
            decreases hi@ - lo@,
        {
            let lo1 = lo.add(&one);
            if !lo1.lt(&hi) {
                proof {
                    assert(hi@ == lo@ + 1);
                }
                break ;
            }
            let mid = lo.add(&hi).div2();
            let prod = mid.mul(&mid);
            proof {
                assert(lo@ + 1 <= mid@ && mid@ + 1 <= hi@);
            }
            if !self.lt(&prod) {
                lo = mid;
            } else {
                hi = mid;
            }
        }
        proof {
            lemma_sqrt_floor_unique(self@, lo@);
        }
        lo
    }
}

/// Whether `b` is the code of a decimal digit.
pub open spec fn is_dec_digit(b: u8) -> bool {
    48 <= b <= 57
}

/// Whether `s` is a non-empty string of decimal digit codes.
pub open spec fn is_decimal_string(s: Seq<u8>) -> bool {
    s.len() > 0 && (forall|i: int| 0 <= i < s.len() ==> is_dec_digit(#[trigger] s[i]))
}

/// The number denoted by a most-significant-first string of digit codes.
pub open spec fn dec_val(s: Seq<u8>) -> nat
    decreases s.len(),
{
    if s.len() == 0 {
        0
    } else {
        (dec_val(s.drop_last()) * 10 + (s.last() - 48)) as nat
    }
}

impl BigUint {
    /// Parses a most-significant-first decimal digit string, such as the
    /// bytes of a numeric literal.
    pub fn from_decimal(digits: &[u8]) -> (r: Option<BigUint>)
        ensures
            r is Some <==> is_decimal_string(digits@),
            r matches Some(v) ==> v@ == dec_val(digits@),
    {
        if digits.len() == 0 {
            return None;
        }
        let mut acc = BigUint::from_u64(0);
        let mut i: usize = 0;
        proof {
            assert(digits@.take(0) =~= Seq::<u8>::empty());
        }
        while i < digits.len()
            invariant
                i <= digits@.len(),
                acc@ == dec_val(digits@.take(i as int)),
                forall|j: int| 0 <= j < i ==> is_dec_digit(#[trigger] digits@[j]),
            decreases digits@.len() - i,
        {
            let b = digits[i];
            if b < 48 || b > 57 {
                return None;
            }
            let scaled = acc.mul_small(10);
            acc = scaled.add(&BigUint::from_u64((b - 48) as u64));
            proof {
                assert(digits@.take(i + 1).drop_last() =~= digits@.take(i as int));
                assert(digits@.take(i + 1).last() == digits@[i as int]);
            }
            i += 1;
        }
        proof {
            assert(digits@.take(digits@.len() as int) =~= digits@);
        }
        Some(acc)
    }
}

impl PartialEq for BigUint {
    /// Values compare as the numbers they denote, independent of how many
    /// zero limbs trail them.
    fn eq(&self, other: &BigUint) -> (r: bool) {
        !self.lt(other) && !other.lt(self)
    }
}

impl vstd::std_specs::cmp::PartialEqSpecImpl for BigUint {
    open spec fn obeys_eq_spec() -> bool {
        true
    }

    open spec fn eq_spec(&self, other: &BigUint) -> bool {
        self@ == other@
    }
}

/// Limb-wise subtraction with borrow. When no borrow remains the limbs hold
/// the exact difference; the borrow flag is the strict order on the values.
fn sub_limbs(a: &Vec<u64>, b: &Vec<u64>) -> (r: (Vec<u64>, bool))
    ensures
        r.1 == (limbs_val(a@) < limbs_val(b@)),
        !r.1 ==> limbs_val(r.0@) == limbs_val(a@) - limbs_val(b@),
{
    let n = if a.len() > b.len() {
        a.len()
    } else {
        b.len()
    };
    let mut out: Vec<u64> = Vec::new();
    let mut borrow: u64 = 0;
    let mut i: usize = 0;
    proof {
        lemma_pow64_zero();
    }
    while i < n
        invariant
            i <= n,
            a@.len() <= n,
            b@.len() <= n,
            out@.len() == i,
            borrow <= 1,
            limbs_val(out@) as int == prefix_val(a@, i as int) - prefix_val(b@, i as int) + (
            borrow as int) * pow64(i as nat),
        decreases n - i,
    {
        let la: u64 = if i < a.len() {
            a[i]
        } else {
            0
        };
        let lb: u64 = if i < b.len() {
            b[i]
        } else {
            0
        };
        let t: u128 = LIMB_BASE + la as u128 - lb as u128 - borrow as u128;
        let limb = (t % LIMB_BASE) as u64;
        let q = (t / LIMB_BASE) as u64;
        let nb: u64 = 1 - q;
        proof {
            let p = pow64(i as nat);
            lemma_fundamental_div_mod(t as int, LIMB_BASE as int);
            lemma_prefix_val_succ(a@, i as int);
            lemma_prefix_val_succ(b@, i as int);
            lemma_val_push(out@, limb);
            lemma_pow64_succ(i as nat);
            assert(limbs_val(out@) + limb * p == prefix_val(a@, i as int) + la * p - (prefix_val(
                b@,
                i as int,
            ) + lb * p) + (nb as int) * (p * (LIMB_BASE as nat))) by (nonlinear_arith)
                requires
                    limbs_val(out@) as int == prefix_val(a@, i as int) - prefix_val(b@, i as int)
                        + (borrow as int) * p,
                    t == LIMB_BASE + la - lb - borrow,
                    t == (LIMB_BASE as int) * ((t as int) / (LIMB_BASE as int)) + (t as int) % (
                    LIMB_BASE as int),
                    limb == t % LIMB_BASE,
                    q == t / LIMB_BASE,
                    nb == 1 - q,
                    p >= 0,
            ;
        }
        out.push(limb);
        borrow = nb;
        i += 1;
    }
    proof {
        lemma_prefix_val_all(a@, n as int);
        lemma_prefix_val_all(b@, n as int);
        lemma_val_bound(out@);
    }
    (out, borrow == 1)
}

/// Place values multiply when exponents add.
pub proof fn lemma_pow64_adds(e1: nat, e2: nat)
    ensures
        pow64(e1 + e2) == pow64(e1) * pow64(e2),
{
    lemma_pow2_adds(64 * e1, 64 * e2);
}

/// Place values are monotone in the exponent.
pub proof fn lemma_pow64_le(e1: nat, e2: nat)
    requires
        e1 <= e2,
    ensures
        pow64(e1) <= pow64(e2),
{
    lemma_pow64_adds(e1, (e2 - e1) as nat);
    lemma_pow64_pos((e2 - e1) as nat);
    assert(pow64(e1) * pow64((e2 - e1) as nat) >= pow64(e1) * 1) by (nonlinear_arith)
        requires
            pow64((e2 - e1) as nat) >= 1,
            pow64(e1) >= 0,
    ;
}

} // verus!
