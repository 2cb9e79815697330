//! IEEE 754 numbers held as their bit patterns and computed in integers:
//! rounding, sums, reciprocals, roots, the total order and fixed-point notation.
use vstd::arithmetic::div_mod::lemma_fundamental_div_mod_converse;
use vstd::arithmetic::power2::*;
use vstd::prelude::*;
use vstd::string::*;

use crate::text::{decimal, decimal_text, digit, digit_char};

verus! {

/// A single-precision number, as its bit pattern.
#[derive(Debug, Clone, Copy, PartialEq, Eq, Structural)]
pub struct Single {
    pub bits: u32,
}

/// A double-precision number, as its bit pattern.
#[derive(Debug, Clone, Copy, PartialEq, Eq, Structural)]
pub struct Double {
    pub bits: u64,
}

// ---------------------------------------------------------------- rounding

/// `a / b` rounded to the nearest whole number, halves to the even one.
pub open spec fn half_even(a: nat, b: nat) -> nat {
    let whole = a / b;
    let rest = a % b;
    if 2 * rest < b || (2 * rest == b && whole % 2 == 0) {
        whole
    } else {
        whole + 1
    }
}

/// `p / q` rounded to a binary number `m * 2^e` whose significand `m` lies
/// between `low` and `2 * low`.
pub open spec fn rounded(p: nat, q: nat, low: nat) -> (nat, int)
    decreases
            (if p >= 2 * (low * q) {
                p - 2 * (low * q) + 1
            } else if p < low * q {
                low * q - p
            } else {
                0
            }),
{
    if p == 0 || q == 0 || low == 0 {
        (0, 0)
    } else if p >= 2 * (low * q) {
        proof {
            assert(low * (2 * q) == 2 * (low * q)) by (nonlinear_arith);
            assert(low * q > 0) by (nonlinear_arith)
                requires
                    low > 0,
                    q > 0,
            ;
        }
        let (m, e) = rounded(p, 2 * q, low);
        (m, e + 1)
    } else if p < low * q {
        let (m, e) = rounded(2 * p, q, low);
        (m, e - 1)
    } else {
        (half_even(p, q), 0)
    }
}

/// The least significand of a single.
pub open spec fn single_low() -> nat {
    0x80_0000
}

/// The least significand of a double.
pub open spec fn double_low() -> nat {
    0x10_0000_0000_0000
}

/// Rounds `p / q` in integers.
fn round_ratio(p: u128, q: u128, low: u128) -> (rounding: (u128, i32))
    requires
        0 < p < 0x1_0000_0000_0000_0000_0000_0000_0000,
        0 < q <= 0x200_0000,
        0 < low <= 0x10_0000_0000_0000,
    ensures
        rounding.0 == rounded(p as nat, q as nat, low as nat).0,
        rounding.1 == rounded(p as nat, q as nat, low as nat).1,
{
    let mut top: u128 = p;
    let mut bottom: u128 = q;
    let mut shift: i32 = 0;
    proof {
        lemma2_to64();
        lemma2_to64_rest();
        lemma_pow2_adds(64, 48);
        assert(low * q <= 0x10_0000_0000_0000 * 0x200_0000) by (nonlinear_arith)
            requires
                low <= 0x10_0000_0000_0000,
                q <= 0x200_0000,
        ;
    }
    while top / 2 >= low * bottom
        invariant
            0 < top == p < 0x1_0000_0000_0000_0000_0000_0000_0000,
            0 < bottom,
            low * bottom <= 0x1_0000_0000_0000_0000_0000_0000_0000,
            0 < low,
            0 <= shift <= 112,
            bottom >= pow2(shift as nat),
            rounded(p as nat, q as nat, low as nat).0 == rounded(
                top as nat,
                bottom as nat,
                low as nat,
            ).0,
            rounded(p as nat, q as nat, low as nat).1 == shift + rounded(
                top as nat,
                bottom as nat,
                low as nat,
            ).1,
        decreases top as int - low * bottom,
    {
        proof {
            lemma2_to64();
            lemma2_to64_rest();
            lemma_pow2_adds(64, 48);
            lemma_pow2_unfold((shift + 1) as nat);
            assert(low * (2 * bottom) == 2 * (low * bottom)) by (nonlinear_arith);
            assert(low * bottom >= bottom) by (nonlinear_arith)
                requires
                    low > 0,
                    bottom > 0,
            ;
            if shift >= 112 {
                assert(pow2(112) == pow2(64) * pow2(48));
                assert(false);
            }
        }
        bottom = 2 * bottom;
        shift = shift + 1;
    }
    let ghost down = shift;
    while top < low * bottom
        invariant
            0 < top,
            0 < bottom,
            low * bottom <= 0x1_0000_0000_0000_0000_0000_0000_0000,
            top < 2 * (low * bottom),
            0 < low,
            0 <= down <= 112,
            -112 <= shift - down <= 0,
            top >= pow2((down - shift) as nat),
            rounded(p as nat, q as nat, low as nat).0 == rounded(
                top as nat,
                bottom as nat,
                low as nat,
            ).0,
            rounded(p as nat, q as nat, low as nat).1 == shift + rounded(
                top as nat,
                bottom as nat,
                low as nat,
            ).1,
        decreases
                (if top < low * bottom {
                    low * bottom - top
                } else {
                    0
                }),
    {
        proof {
            lemma2_to64();
            lemma2_to64_rest();
            lemma_pow2_adds(64, 48);
            lemma_pow2_unfold((down - shift + 1) as nat);
            if shift - down <= -112 {
                assert(false);
            }
        }
        top = 2 * top;
        shift = shift - 1;
    }
    let whole: u128 = top / bottom;
    let rest: u128 = top % bottom;
    if rest < bottom - rest || (rest == bottom - rest && whole % 2 == 0) {
        (whole, shift)
    } else {
        assert(whole <= top) by (nonlinear_arith)
            requires
                whole == top / bottom,
                bottom > 0,
                top >= 0,
        ;
        (whole + 1, shift)
    }
}

/// A quotient between `low` and `2 * low` rounds to a number between them.
proof fn lemma_half_even(a: nat, b: nat, low: nat)
    requires
        b > 0,
        low * b <= a < 2 * (low * b),
    ensures
        low <= half_even(a, b) <= 2 * low,
{
    let whole = a / b;
    let rest = a % b;
    assert(a == b * whole + rest && rest < b) by (nonlinear_arith)
        requires
            b > 0,
            whole == a / b,
            rest == a % b,
    ;
    assert(low <= whole) by (nonlinear_arith)
        requires
            low * b <= a,
            a == b * whole + rest,
            rest < b,
            b > 0,
    ;
    assert(whole < 2 * low) by (nonlinear_arith)
        requires
            a < 2 * (low * b),
            a == b * whole + rest,
            b > 0,
    ;
}

/// The scaling of a non-negative exponent.
pub open spec fn fits_up(p: nat, q: nat, low: nat, m: nat, e: int) -> bool {
    &&& low * (q * pow2(e as nat)) <= p < 2 * (low * (q * pow2(e as nat)))
    &&& m == half_even(p, q * pow2(e as nat))
}

/// The scaling of a negative exponent.
pub open spec fn fits_down(p: nat, q: nat, low: nat, m: nat, e: int) -> bool {
    &&& low * q <= p * pow2((-e) as nat) < 2 * (low * q)
    &&& m == half_even(p * pow2((-e) as nat), q)
}

/// What rounding does: the significand is in range, and scaling by the exponent
/// leaves less than half a unit to it.
pub proof fn lemma_rounded(p: nat, q: nat, low: nat)
    requires
        p > 0,
        q > 0,
        low > 0,
    ensures
        ({
            let (m, e) = rounded(p, q, low);
            &&& low <= m <= 2 * low
            &&& e >= 0 ==> fits_up(p, q, low, m, e)
            &&& e < 0 ==> fits_down(p, q, low, m, e)
            &&& p >= low * q ==> e >= 0
            &&& p < 2 * (low * q) ==> e <= 0
        }),
    decreases
            (if p >= 2 * (low * q) {
                p - 2 * (low * q) + 1
            } else if p < low * q {
                low * q - p
            } else {
                0
            }),
{
    let (m, e) = rounded(p, q, low);
    lemma2_to64();
    assert(low * q > 0) by (nonlinear_arith)
        requires
            low > 0,
            q > 0,
    ;
    if p >= 2 * (low * q) {
        assert(low * (2 * q) == 2 * (low * q)) by (nonlinear_arith);
        lemma_rounded(p, 2 * q, low);
        let (m1, e1) = rounded(p, 2 * q, low);
        assert(e1 >= 0);
        lemma_pow2_unfold(e as nat);
        assert((2 * q) * pow2(e1 as nat) == q * pow2(e as nat)) by (nonlinear_arith)
            requires
                pow2(e as nat) == 2 * pow2(e1 as nat),
        ;
    } else if p < low * q {
        lemma_rounded(2 * p, q, low);
        let (m1, e1) = rounded(2 * p, q, low);
        assert(e1 <= 0);
        lemma_pow2_unfold((-e) as nat);
        if e1 == 0 {
            assert(q * pow2(0) == q) by (nonlinear_arith)
                requires
                    pow2(0) == 1,
            ;
            assert(pow2(1) == 2);
            assert(p * pow2(1) == 2 * p) by (nonlinear_arith)
                requires
                    pow2(1) == 2,
            ;
        } else {
            assert((2 * p) * pow2((-e1) as nat) == p * pow2((-e) as nat)) by (nonlinear_arith)
                requires
                    pow2((-e) as nat) == 2 * pow2((-e1) as nat),
            ;
        }
    } else {
        lemma_half_even(p, q, low);
        assert(q * pow2(0) == q) by (nonlinear_arith)
            requires
                pow2(0) == 1,
        ;
    }
}

/// An upper bound on what is rounded bounds the exponent.
proof fn lemma_exponent_below(p: nat, q: nat, low: nat, k: nat)
    requires
        p > 0,
        q > 0,
        low > 0,
        p < low * (q * pow2(k)),
    ensures
        rounded(p, q, low).1 < k,
{
    lemma_rounded(p, q, low);
    let e = rounded(p, q, low).1;
    if e >= k {
        if e > k {
            lemma_pow2_strictly_increases(k, e as nat);
        }
        assert(low * (q * pow2(k)) <= low * (q * pow2(e as nat))) by (nonlinear_arith)
            requires
                pow2(k) <= pow2(e as nat),
        ;
    }
}

/// A lower bound on what is rounded bounds the exponent.
proof fn lemma_exponent_above(p: nat, q: nat, low: nat, k: nat)
    requires
        p > 0,
        q > 0,
        low > 0,
        p * pow2(k) >= low * q,
    ensures
        rounded(p, q, low).1 >= -(k as int),
{
    lemma_rounded(p, q, low);
    let e = rounded(p, q, low).1;
    if e < -(k as int) {
        lemma_pow2_unfold((-e) as nat);
        let j = (-e - 1) as nat;
        if k < j {
            lemma_pow2_strictly_increases(k, j);
        }
        assert(p * pow2((-e) as nat) >= 2 * (low * q)) by (nonlinear_arith)
            requires
                pow2((-e) as nat) == 2 * pow2(j),
                pow2(k) <= pow2(j),
                p * pow2(k) >= low * q,
        ;
    }
}

/// Doubling what is rounded raises the exponent by one.
proof fn lemma_doubled(p: nat, q: nat, low: nat)
    requires
        p > 0,
        q > 0,
        low > 0,
    ensures
        rounded(2 * p, q, low) == (rounded(p, q, low).0, rounded(p, q, low).1 + 1),
    decreases
            (if p >= 2 * (low * q) {
                p - 2 * (low * q) + 1
            } else {
                0
            }),
{
    assert(low * (2 * q) == 2 * (low * q)) by (nonlinear_arith);
    assert(low * q > 0) by (nonlinear_arith)
        requires
            low > 0,
            q > 0,
    ;
    if p >= 2 * (low * q) {
        lemma_doubled(p, 2 * q, low);
    } else if p >= low * q {
        let w = p / q;
        let r = p % q;
        assert(p == q * w + r && r < q) by (nonlinear_arith)
            requires
                q > 0,
                w == p / q,
                r == p % q,
        ;
        assert(2 * p == w * (2 * q) + 2 * r) by (nonlinear_arith)
            requires
                p == q * w + r,
        ;
        lemma_fundamental_div_mod_converse(2 * p as int, 2 * q as int, w as int, 2 * r as int);
        assert(half_even(2 * p, 2 * q) == half_even(p, q));
        assert(rounded(2 * p, 2 * q, low) == (half_even(2 * p, 2 * q), 0int));
    }
}

/// Scaling what is rounded by a power of two moves the exponent alone.
proof fn lemma_scaled(p: nat, q: nat, low: nat, k: nat)
    requires
        p > 0,
        q > 0,
        low > 0,
    ensures
        p * pow2(k) > 0,
        rounded(p * pow2(k), q, low) == (rounded(p, q, low).0, rounded(p, q, low).1 + k),
    decreases k,
{
    lemma_pow2_pos(k);
    assert(p * pow2(k) > 0) by (nonlinear_arith)
        requires
            p > 0,
            pow2(k) > 0,
    ;
    if k == 0 {
        lemma2_to64();
        assert(p * 1 == p);
    } else {
        let j = (k - 1) as nat;
        lemma_scaled(p, q, low, j);
        lemma_pow2_unfold(k);
        assert(p * pow2(k) == 2 * (p * pow2(j))) by (nonlinear_arith)
            requires
                pow2(k) == 2 * pow2(j),
        ;
        lemma_doubled(p * pow2(j), q, low);
    }
}

/// A scale that brings the quotient into range is the one that rounding takes.
pub proof fn lemma_rounds_at(p: nat, q: nat, low: nat, k: nat)
    requires
        p > 0,
        q > 0,
        low > 0,
        low * q <= p * pow2(k) < 2 * (low * q),
    ensures
        rounded(p, q, low) == (half_even(p * pow2(k), q), -(k as int)),
{
    lemma_scaled(p, q, low, k);
    assert(rounded(p * pow2(k), q, low) == (half_even(p * pow2(k), q), 0int));
}

/// Rounding to whole numbers keeps the order of quotients.
proof fn lemma_half_even_monotone(a1: nat, b1: nat, a2: nat, b2: nat)
    requires
        b1 > 0,
        b2 > 0,
        a1 * b2 <= a2 * b1,
    ensures
        half_even(a1, b1) <= half_even(a2, b2),
{
    let w1 = a1 / b1;
    let r1 = a1 % b1;
    let w2 = a2 / b2;
    let r2 = a2 % b2;
    assert(a1 == b1 * w1 + r1 && r1 < b1) by (nonlinear_arith)
        requires
            b1 > 0,
            w1 == a1 / b1,
            r1 == a1 % b1,
    ;
    assert(a2 == b2 * w2 + r2 && r2 < b2) by (nonlinear_arith)
        requires
            b2 > 0,
            w2 == a2 / b2,
            r2 == a2 % b2,
    ;
    assert((b1 * w1 + r1) * b2 == b1 * b2 * w1 + r1 * b2) by (nonlinear_arith);
    assert((b2 * w2 + r2) * b1 == b1 * b2 * w2 + r2 * b1) by (nonlinear_arith);
    assert(b1 * b2 * w1 + r1 * b2 <= b1 * b2 * w2 + r2 * b1);
    assert(w1 <= w2) by (nonlinear_arith)
        requires
            b1 * b2 * w1 + r1 * b2 <= b1 * b2 * w2 + r2 * b1,
            r2 < b2,
            b1 > 0,
            b2 > 0,
    {
        if w1 > w2 {
            assert(b1 * b2 * w1 >= b1 * b2 * (w2 + 1));
            assert(b1 * b2 * (w2 + 1) == b1 * b2 * w2 + b1 * b2);
            assert(r2 * b1 < b2 * b1);
            assert(b2 * b1 == b1 * b2);
            assert(r1 * b2 >= 0);
        }
    }
    if w1 == w2 {
        assert(r1 * b2 <= r2 * b1);
        assert(2 * r1 > b1 ==> 2 * r2 > b2) by (nonlinear_arith)
            requires
                r1 * b2 <= r2 * b1,
                b1 > 0,
                b2 > 0,
        {
            if 2 * r1 > b1 {
                assert((2 * r1) * b2 > b1 * b2);
                assert((2 * r2) * b1 > b1 * b2);
                if 2 * r2 <= b2 {
                    assert((2 * r2) * b1 <= b2 * b1);
                }
            }
        }
        assert(2 * r1 >= b1 ==> 2 * r2 >= b2) by (nonlinear_arith)
            requires
                r1 * b2 <= r2 * b1,
                b1 > 0,
                b2 > 0,
        {
            if 2 * r1 >= b1 {
                assert((2 * r1) * b2 >= b1 * b2);
                assert((2 * r2) * b1 >= b1 * b2);
                if 2 * r2 < b2 {
                    assert((2 * r2) * b1 < b2 * b1);
                }
            }
        }
    }
}

/// The place of a rounded number among the rounded numbers.
pub open spec fn place(rounding: (nat, int), low: nat) -> int {
    rounding.1 * low + rounding.0
}

/// Rounding keeps the order of quotients.
proof fn lemma_rounded_monotone(p1: nat, q1: nat, p2: nat, q2: nat, low: nat)
    requires
        p1 > 0,
        q1 > 0,
        p2 > 0,
        q2 > 0,
        low > 0,
        p1 * q2 <= p2 * q1,
    ensures
        place(rounded(p1, q1, low), low) <= place(rounded(p2, q2, low), low),
{
    let (m1, e1) = rounded(p1, q1, low);
    let (m2, e2) = rounded(p2, q2, low);
    let s = ((if e1 < 0 { -e1 } else { 0 }) + (if e2 < 0 { -e2 } else { 0 })) as nat;
    let unit = pow2(s);
    lemma_scaled(p1, q1, low, s);
    lemma_scaled(p2, q2, low, s);
    let n1 = p1 * unit;
    let n2 = p2 * unit;
    lemma_rounded(n1, q1, low);
    lemma_rounded(n2, q2, low);
    let f1 = e1 + s;
    let f2 = e2 + s;
    assert(n1 * q2 <= n2 * q1) by (nonlinear_arith)
        requires
            p1 * q2 <= p2 * q1,
            n1 == p1 * unit,
            n2 == p2 * unit,
    ;
    let u1 = pow2(f1 as nat);
    let u2 = pow2(f2 as nat);
    if f1 > f2 {
        lemma_pow2_unfold((f2 + 1) as nat);
        if f1 > f2 + 1 {
            lemma_pow2_strictly_increases((f2 + 1) as nat, f1 as nat);
        }
        assert(n1 * q2 > n2 * q1) by (nonlinear_arith)
            requires
                u1 >= 2 * u2,
                low * (q1 * u1) <= n1,
                n2 < 2 * (low * (q2 * u2)),
                q1 > 0,
                q2 > 0,
                low > 0,
        {
            assert(n1 * q2 >= low * (q1 * u1) * q2);
            assert(low * (q1 * u1) * q2 == low * q1 * q2 * u1);
            assert(low * q1 * q2 * u1 >= low * q1 * q2 * (2 * u2));
            assert(n2 * q1 < 2 * (low * (q2 * u2)) * q1);
            assert(2 * (low * (q2 * u2)) * q1 == low * q1 * q2 * (2 * u2));
        }
        assert(false);
    } else if f1 == f2 {
        lemma_pow2_pos(f1 as nat);
        assert(q1 * u1 > 0) by (nonlinear_arith)
            requires
                q1 > 0,
                u1 > 0,
        ;
        assert(q2 * u1 > 0) by (nonlinear_arith)
            requires
                q2 > 0,
                u1 > 0,
        ;
        assert(n1 * (q2 * u1) <= n2 * (q1 * u1)) by (nonlinear_arith)
            requires
                n1 * q2 <= n2 * q1,
                u1 > 0,
        ;
        lemma_half_even_monotone(n1, q1 * u1, n2, q2 * u1);
    } else {
        assert(e1 * low + 2 * low <= e2 * low + low) by (nonlinear_arith)
            requires
                e1 + 1 <= e2,
        ;
    }
}

// ---------------------------------------------------------------- singles

/// The bit pattern of positive infinity.
pub open spec fn infinity() -> int {
    0x7f80_0000
}

/// The bit pattern of `m * 2^e`, infinity where it is too large.
pub open spec fn pack_single(m: nat, e: int) -> int {
    let bits = (e + 149) * 0x80_0000 + m;
    if bits >= infinity() {
        infinity()
    } else {
        bits
    }
}

/// The significand of a positive normal number.
pub open spec fn significand(bits: int) -> nat {
    (0x80_0000 + bits % 0x80_0000) as nat
}

/// The exponent that goes with the significand.
pub open spec fn exponent(bits: int) -> int {
    bits / 0x80_0000 - 150
}

/// A positive number that is neither subnormal nor too large.
pub open spec fn is_normal(bits: int) -> bool {
    0x80_0000 <= bits < infinity()
}

/// The single nearest to a whole number.
pub open spec fn single_of(n: nat) -> int {
    let (m, e) = rounded(n, 1, single_low());
    pack_single(m, e)
}

/// The single nearest to `1 / a`.
pub open spec fn reciprocal_of(a: int) -> int {
    let (m, e) = rounded(1, significand(a), single_low());
    pack_single(m, e - exponent(a))
}

/// The number in units of the smallest one, `2^-149`.
pub open spec fn value(bits: int) -> nat {
    if bits == 0 {
        0
    } else {
        significand(bits) * pow2((exponent(bits) + 149) as nat)
    }
}

/// The single nearest to a number of units.
pub open spec fn nearest(units: nat) -> int {
    if units == 0 {
        0
    } else {
        let (m, e) = rounded(units, 1, single_low());
        pack_single(m, e - 149)
    }
}

/// The single nearest to the sum of two numbers that are not negative.
pub open spec fn sum_of(a: int, b: int) -> int {
    if a == infinity() || b == infinity() {
        infinity()
    } else {
        nearest(value(a) + value(b))
    }
}

/// The sum of two normal numbers, the first with the larger exponent, computed in
/// units of the last place of the second.
spec fn aligned_sum(a: int, b: int) -> int {
    let gap = (exponent(a) - exponent(b)) as nat;
    let (m, e) = rounded(significand(a) * pow2(gap) + significand(b), 1, single_low());
    pack_single(m, e + exponent(b))
}

/// Zero, a positive normal number, or infinity.
pub open spec fn is_sound(bits: int) -> bool {
    bits == 0 || is_normal(bits) || bits == infinity()
}

/// Packing undoes unpacking.
proof fn lemma_repack(a: int)
    requires
        is_normal(a),
    ensures
        pack_single(significand(a), exponent(a)) == a,
        single_low() <= significand(a) < 2 * single_low(),
        -149 <= exponent(a) <= 104,
{
}

/// Where a packed number is a normal one, its exponent is that of the rounding
/// or one more.
proof fn lemma_packed(m: nat, e: int)
    requires
        single_low() <= m <= 2 * single_low(),
        e >= -149,
    ensures
        is_normal(pack_single(m, e)) || pack_single(m, e) == infinity(),
        is_normal(pack_single(m, e)) ==> e <= exponent(pack_single(m, e)) <= e + 1,
        e <= 103 ==> is_normal(pack_single(m, e)),
{
}

/// Packs a rounded number.
fn pack(m: u128, e: i32) -> (packed: Single)
    requires
        single_low() <= m <= 2 * single_low(),
        -149 <= e <= 1000,
    ensures
        packed.bits == pack_single(m as nat, e as int),
{
    let bits: u64 = (e + 149) as u64 * 0x80_0000 + m as u64;
    if bits >= 0x7f80_0000 {
        Single { bits: 0x7f80_0000 }
    } else {
        Single { bits: bits as u32 }
    }
}

/// A whole number of 64 bits has a normal nearest single.
pub proof fn lemma_single_range(n: nat)
    requires
        0 < n <= u64::MAX,
    ensures
        is_normal(single_of(n)),
        -23 <= exponent(single_of(n)) <= 41,
        single_low() <= rounded(n, 1, single_low()).0 <= 2 * single_low(),
        -23 <= rounded(n, 1, single_low()).1 <= 40,
{
    lemma2_to64();
    lemma2_to64_rest();
    lemma_rounded(n, 1, single_low());
    assert(single_low() * (1 * pow2(41)) == 0x1_0000_0000_0000_0000) by (nonlinear_arith)
        requires
            pow2(41) == 0x200_0000_0000,
            single_low() == 0x80_0000,
    ;
    lemma_exponent_below(n, 1, single_low(), 41);
    assert(n * pow2(23) >= single_low() * 1) by (nonlinear_arith)
        requires
            n > 0,
            pow2(23) == 0x80_0000,
            single_low() == 0x80_0000,
    ;
    lemma_exponent_above(n, 1, single_low(), 23);
    let (m, e) = rounded(n, 1, single_low());
    lemma_packed(m, e);
}

/// The single nearest to a positive whole number.
pub fn single_from(n: u64) -> (single: Single)
    requires
        n > 0,
    ensures
        single.bits == single_of(n as nat),
        is_normal(single.bits as int),
        -23 <= exponent(single.bits as int) <= 41,
{
    let (m, e) = round_ratio(n as u128, 1, 0x80_0000);
    proof {
        lemma_single_range(n as nat);
    }
    pack(m, e)
}

/// The reciprocal of a number of middling size is normal.
pub proof fn lemma_reciprocal_range(a: int)
    requires
        is_normal(a),
        exponent(a) <= 100,
    ensures
        is_sound(reciprocal_of(a)),
        exponent(a) >= -100 ==> is_normal(reciprocal_of(a)),
        single_low() <= rounded(1, significand(a), single_low()).0 <= 2 * single_low(),
        -47 <= rounded(1, significand(a), single_low()).1 <= 0,
{
    let s = significand(a);
    lemma2_to64();
    lemma2_to64_rest();
    lemma_rounded(1, s, single_low());
    assert(1 * pow2(47) >= single_low() * s) by (nonlinear_arith)
        requires
            pow2(47) == 0x8000_0000_0000,
            single_low() == 0x80_0000,
            s <= 0x100_0000,
    ;
    lemma_exponent_above(1, s, single_low(), 47);
    assert(single_low() * s > 2) by (nonlinear_arith)
        requires
            single_low() == 0x80_0000,
            s >= 1,
    ;
    let (m, e) = rounded(1, s, single_low());
    lemma_packed(m, e - exponent(a));
}

/// The single nearest to `1 / a`.
pub fn reciprocal(a: Single) -> (single: Single)
    requires
        is_normal(a.bits as int),
        exponent(a.bits as int) <= 100,
    ensures
        single.bits == reciprocal_of(a.bits as int),
        is_sound(single.bits as int),
{
    let m: u128 = (0x80_0000 + a.bits % 0x80_0000) as u128;
    let e: i32 = (a.bits / 0x80_0000) as i32 - 150;
    proof {
        lemma_reciprocal_range(a.bits as int);
    }
    let (rm, re) = round_ratio(1, m, 0x80_0000);
    pack(rm, re - e)
}

/// A number too small to reach half a unit leaves the larger one unchanged.
proof fn lemma_absorbed(a: int, b: int)
    requires
        is_normal(a),
        is_normal(b),
        exponent(a) - exponent(b) >= 26,
    ensures
        aligned_sum(a, b) == a,
{
    let gap = (exponent(a) - exponent(b)) as nat;
    let sa = significand(a);
    let sb = significand(b);
    let unit = pow2(gap);
    let low = single_low();
    let p = sa * unit + sb;
    lemma2_to64();
    if gap > 26 {
        lemma_pow2_strictly_increases(26, gap);
    }
    lemma_repack(a);
    lemma_repack(b);
    assert(low * unit <= p && p < 2 * (low * unit)) by (nonlinear_arith)
        requires
            p == sa * unit + sb,
            low <= sa < 2 * low,
            sb < unit,
    ;
    assert(p > 0) by (nonlinear_arith)
        requires
            p == sa * unit + sb,
            sb > 0,
    ;
    lemma_rounded(p, 1, low);
    let (m, e) = rounded(p, 1, low);
    lemma_pow2_unfold(gap + 1);
    assert(low * (1 * pow2(gap + 1)) == 2 * (low * unit)) by (nonlinear_arith)
        requires
            pow2(gap + 1) == 2 * unit,
    ;
    lemma_exponent_below(p, 1, low, gap + 1);
    assert(low * 1 <= p) by (nonlinear_arith)
        requires
            low * unit <= p,
            unit >= 1,
            low > 0,
    ;
    assert(e >= 0);
    if e < gap {
        lemma_pow2_unfold((e + 1) as nat);
        if e + 1 < gap {
            lemma_pow2_strictly_increases((e + 1) as nat, gap);
        }
        assert(2 * (low * (1 * pow2(e as nat))) <= low * unit) by (nonlinear_arith)
            requires
                2 * pow2(e as nat) <= unit,
        ;
    }
    assert(e == gap);
    assert(p / unit == sa && p % unit == sb) by {
        lemma_fundamental_div_mod_converse(
            p as int,
            unit as int,
            sa as int,
            sb as int,
        );
    }
    assert(1 * unit == unit);
    assert(m == half_even(p, unit));
    assert(2 * sb < unit);
    assert(m == sa);
}

/// The exponent of a sum is at most two more than that of the larger number.
proof fn lemma_sum_range(a: int, b: int)
    requires
        is_normal(a),
        is_normal(b),
        exponent(a) >= exponent(b),
    ensures
        ({
            let gap = (exponent(a) - exponent(b)) as nat;
            let p = significand(a) * pow2(gap) + significand(b);
            let (m, e) = rounded(p, 1, single_low());
            &&& single_low() <= m <= 2 * single_low()
            &&& 0 <= e <= gap + 1
            &&& single_low() <= p < 2 * single_low() * pow2(gap + 1)
        }),
{
    let gap = (exponent(a) - exponent(b)) as nat;
    let sa = significand(a);
    let sb = significand(b);
    let unit = pow2(gap);
    let low = single_low();
    let p = sa * unit + sb;
    lemma_repack(a);
    lemma_repack(b);
    lemma2_to64();
    lemma_pow2_unfold(gap + 1);
    lemma_pow2_unfold(gap + 2);
    lemma_pow2_pos(gap);
    assert(low <= p && p < 2 * low * (2 * unit)) by (nonlinear_arith)
        requires
            p == sa * unit + sb,
            low <= sa < 2 * low,
            sb < 2 * low,
            unit >= 1,
    ;
    assert(low * (1 * pow2(gap + 2)) == 2 * low * (2 * unit)) by (nonlinear_arith)
        requires
            pow2(gap + 2) == 2 * (2 * unit),
    ;
    lemma_rounded(p, 1, low);
    lemma_exponent_below(p, 1, low, gap + 2);
}

/// A normal number is the one nearest to its own value.
pub proof fn lemma_value_back(a: int)
    requires
        is_normal(a),
    ensures
        nearest(value(a)) == a,
        value(a) > 0,
{
    lemma_repack(a);
    let sa = significand(a);
    let k = (exponent(a) + 149) as nat;
    lemma2_to64();
    assert(rounded(sa, 1, single_low()) == (sa, 0int)) by {
        assert(sa / 1 == sa && sa % 1 == 0);
    }
    lemma_scaled(sa, 1, single_low(), k);
}

/// Computing in units of the last place gives the nearest single.
proof fn lemma_aligned(a: int, b: int)
    requires
        is_normal(a),
        is_normal(b),
        exponent(a) >= exponent(b),
    ensures
        aligned_sum(a, b) == nearest(value(a) + value(b)),
{
    lemma_repack(a);
    lemma_repack(b);
    let gap = (exponent(a) - exponent(b)) as nat;
    let k = (exponent(b) + 149) as nat;
    let p = significand(a) * pow2(gap) + significand(b);
    lemma_pow2_adds(gap, k);
    assert(value(a) + value(b) == p * pow2(k)) by (nonlinear_arith)
        requires
            value(a) == significand(a) * pow2(gap + k),
            pow2(gap + k) == pow2(gap) * pow2(k),
            value(b) == significand(b) * pow2(k),
            p == significand(a) * pow2(gap) + significand(b),
    ;
    lemma_sum_range(a, b);
    lemma_scaled(p, 1, single_low(), k);
}

/// The sum of two numbers of middling size is normal.
pub proof fn lemma_sum_normal(a: int, b: int)
    requires
        is_normal(a),
        is_normal(b),
        exponent(a) <= 100,
        exponent(b) <= 100,
    ensures
        is_normal(sum_of(a, b)),
        exponent(sum_of(a, b)) <= 102,
        exponent(a) >= exponent(b) ==> exponent(b) <= exponent(sum_of(a, b)) <= exponent(a) + 2,
        exponent(a) <= exponent(b) ==> exponent(a) <= exponent(sum_of(a, b)) <= exponent(b) + 2,
{
    let (x, y) = if exponent(a) >= exponent(b) {
        (a, b)
    } else {
        (b, a)
    };
    lemma_aligned(x, y);
    lemma_sum_range(x, y);
    let gap = (exponent(x) - exponent(y)) as nat;
    let (m, e) = rounded(significand(x) * pow2(gap) + significand(y), 1, single_low());
    lemma_packed(m, e + exponent(y));
}

/// The sum of two normal numbers, the first with the larger exponent.
fn add_aligned(a: Single, b: Single) -> (sum: Single)
    requires
        is_normal(a.bits as int),
        is_normal(b.bits as int),
        exponent(a.bits as int) >= exponent(b.bits as int),
    ensures
        sum.bits == aligned_sum(a.bits as int, b.bits as int),
        is_normal(sum.bits as int) || sum.bits == infinity(),
        is_normal(sum.bits as int) ==> exponent(sum.bits as int) <= exponent(a.bits as int) + 2,
        exponent(a.bits as int) <= 100 ==> is_normal(sum.bits as int),
{
    let ea: i32 = (a.bits / 0x80_0000) as i32 - 150;
    let eb: i32 = (b.bits / 0x80_0000) as i32 - 150;
    let gap: u32 = (ea - eb) as u32;
    if gap >= 26 {
        proof {
            lemma_absorbed(a.bits as int, b.bits as int);
        }
        return a;
    }
    let sa: u64 = (0x80_0000 + a.bits % 0x80_0000) as u64;
    let sb: u64 = (0x80_0000 + b.bits % 0x80_0000) as u64;
    proof {
        lemma2_to64();
        if gap < 26 {
            lemma_pow2_strictly_increases(gap as nat, 26);
        }
        assert(sa * pow2(gap as nat) <= 0x100_0000 * 0x400_0000) by (nonlinear_arith)
            requires
                sa <= 0x100_0000,
                pow2(gap as nat) <= 0x400_0000,
        ;
        vstd::bits::lemma_u64_shl_is_mul(sa, gap as u64);
        lemma_sum_range(a.bits as int, b.bits as int);
    }
    let p: u64 = (sa << gap as u64) + sb;
    let (m, e) = round_ratio(p as u128, 1, 0x80_0000);
    proof {
        lemma_packed(m as nat, e + eb);
    }
    pack(m, e + eb)
}

/// The single nearest to the sum of two numbers that are not negative.
pub fn add_singles(a: Single, b: Single) -> (sum: Single)
    requires
        is_sound(a.bits as int),
        is_sound(b.bits as int),
    ensures
        sum.bits == sum_of(a.bits as int, b.bits as int),
        is_sound(sum.bits as int),
{
    if a.bits == 0x7f80_0000 || b.bits == 0x7f80_0000 {
        Single { bits: 0x7f80_0000 }
    } else if a.bits == 0 {
        proof {
            if b.bits != 0 {
                lemma_value_back(b.bits as int);
            }
        }
        b
    } else if b.bits == 0 {
        proof {
            lemma_value_back(a.bits as int);
        }
        a
    } else if a.bits / 0x80_0000 >= b.bits / 0x80_0000 {
        proof {
            lemma_aligned(a.bits as int, b.bits as int);
        }
        add_aligned(a, b)
    } else {
        proof {
            lemma_aligned(b.bits as int, a.bits as int);
        }
        add_aligned(b, a)
    }
}

/// A larger whole number has no smaller nearest single.
pub proof fn lemma_single_monotone(n1: nat, n2: nat)
    requires
        0 < n1 <= n2,
    ensures
        single_of(n1) <= single_of(n2),
{
    assert(n1 * 1 <= n2 * 1);
    lemma_rounded_monotone(n1, 1, n2, 1, single_low());
}

/// A larger bit pattern stands for a larger value.
proof fn lemma_value_monotone(a: int, b: int)
    requires
        is_sound(a),
        is_sound(b),
        a <= b < infinity(),
    ensures
        value(a) <= value(b),
{
    if a != 0 {
        let ea = (exponent(a) + 149) as nat;
        let eb = (exponent(b) + 149) as nat;
        let ua = pow2(ea);
        let ub = pow2(eb);
        lemma_repack(a);
        lemma_repack(b);
        if ea == eb {
            assert(significand(a) * ua <= significand(b) * ua) by (nonlinear_arith)
                requires
                    significand(a) <= significand(b),
            ;
        } else {
            lemma_pow2_unfold(ea + 1);
            if ea + 1 < eb {
                lemma_pow2_strictly_increases(ea + 1, eb);
            }
            assert(significand(a) * ua <= significand(b) * ub) by (nonlinear_arith)
                requires
                    significand(a) < 2 * single_low(),
                    significand(b) >= single_low(),
                    ub >= 2 * ua,
            {
                assert(significand(a) * ua <= 2 * single_low() * ua);
                assert(single_low() * (2 * ua) <= significand(b) * ub);
            }
        }
    }
}

/// Larger numbers have no smaller sum.
pub proof fn lemma_sum_monotone(a: int, b: int, c: int, d: int)
    requires
        is_sound(a),
        is_sound(b),
        is_sound(c),
        is_sound(d),
        a <= c,
        b <= d,
    ensures
        sum_of(a, b) <= sum_of(c, d),
{
    if c != infinity() && d != infinity() {
        lemma_value_monotone(a, c);
        lemma_value_monotone(b, d);
        let small = value(a) + value(b);
        let large = value(c) + value(d);
        if small > 0 {
            assert(small * 1 <= large * 1);
            lemma_rounded_monotone(small, 1, large, 1, single_low());
        } else if large > 0 {
            lemma_rounded(large, 1, single_low());
            lemma2_to64();
            assert(large * pow2(23) >= single_low() * 1) by (nonlinear_arith)
                requires
                    large > 0,
                    pow2(23) == 0x80_0000,
                    single_low() == 0x80_0000,
            ;
            lemma_exponent_above(large, 1, single_low(), 23);
            assert(nearest(large) >= 0 || large < 0x80_0000);
            if c != 0 {
                lemma_value_at_least(c);
            }
            if d != 0 {
                lemma_value_at_least(d);
            }
        }
    }
}

/// A normal number has at least the least normal value.
proof fn lemma_value_at_least(a: int)
    requires
        is_normal(a),
    ensures
        value(a) >= single_low(),
{
    let k = (exponent(a) + 149) as nat;
    lemma_pow2_pos(k);
    assert(significand(a) * pow2(k) >= single_low()) by (nonlinear_arith)
        requires
            significand(a) >= single_low(),
            pow2(k) >= 1,
    ;
}

/// The rounding of `1 / s` for a significand `s`.
proof fn lemma_reciprocal_place(s: nat)
    requires
        single_low() <= s < 2 * single_low(),
    ensures
        -46 * single_low() <= place(rounded(1, s, single_low()), single_low()) <= -45
            * single_low(),
{
    let low = single_low();
    lemma2_to64();
    lemma2_to64_rest();
    lemma_rounded_monotone(1, 2 * low, 1, s, low);
    lemma_rounded_monotone(1, s, 1, low, low);
    assert(low * (2 * low) == 1 * pow2(47)) by (nonlinear_arith)
        requires
            low == 0x80_0000,
            pow2(47) == 0x8000_0000_0000,
    ;
    lemma_rounds_at(1, 2 * low, low, 47);
    assert(low * low == 1 * pow2(46)) by (nonlinear_arith)
        requires
            low == 0x80_0000,
            pow2(46) == 0x4000_0000_0000,
    ;
    lemma_rounds_at(1, low, low, 46);
    assert(half_even(1 * pow2(47), 2 * low) == low) by {
        assert(0x8000_0000_0000nat / 0x100_0000nat == 0x80_0000nat);
    }
    assert(half_even(1 * pow2(46), low) == low) by {
        assert(0x4000_0000_0000nat / 0x80_0000nat == 0x80_0000nat);
    }
}

/// A larger number has no larger reciprocal.
pub proof fn lemma_reciprocal_antitone(a: int, b: int)
    requires
        is_normal(a),
        is_normal(b),
        a <= b,
    ensures
        reciprocal_of(b) <= reciprocal_of(a),
{
    let low = single_low();
    let sa = significand(a);
    let sb = significand(b);
    if exponent(a) == exponent(b) {
        assert(1 * sa <= 1 * sb);
        lemma_rounded_monotone(1, sb, 1, sa, low);
    } else {
        lemma_reciprocal_place(sa);
        lemma_reciprocal_place(sb);
    }
}

/// Sums stay among the numbers that are summed here.
pub proof fn lemma_sum_sound(a: int, b: int)
    requires
        is_sound(a),
        is_sound(b),
    ensures
        is_sound(sum_of(a, b)),
        a == 0 ==> sum_of(a, b) == b,
{
    if a == infinity() || b == infinity() {
    } else if a == 0 {
        if b != 0 {
            lemma_value_back(b);
        }
    } else if b == 0 {
        lemma_value_back(a);
    } else {
        let (x, y) = if exponent(a) >= exponent(b) {
            (a, b)
        } else {
            (b, a)
        };
        lemma_aligned(x, y);
        lemma_sum_range(x, y);
        let gap = (exponent(x) - exponent(y)) as nat;
        let (m, e) = rounded(significand(x) * pow2(gap) + significand(y), 1, single_low());
        lemma_packed(m, e + exponent(y));
    }
}

/// Packing keeps the significand and the exponent.
pub proof fn lemma_unpacked(m: nat, e: int)
    requires
        single_low() <= m < 2 * single_low(),
        -149 <= e <= 103,
    ensures
        is_normal(pack_single(m, e)),
        significand(pack_single(m, e)) == m,
        exponent(pack_single(m, e)) == e,
        value(pack_single(m, e)) == m * pow2((e + 149) as nat),
{
}

/// Halving keeps quotients that come out even.
proof fn lemma_whole_quotient(n: nat)
    ensures
        half_even(n, 1) == n,
{
    assert(n / 1 == n && n % 1 == 0);
}

/// A whole number of few bits is a single itself: `n * 2^k` is its significand.
pub proof fn lemma_single_exact(n: nat, k: nat)
    requires
        n > 0,
        single_low() <= n * pow2(k) < 2 * single_low(),
        k <= 100,
    ensures
        single_of(n) == pack_single(n * pow2(k), -(k as int)),
        value(single_of(n)) == n * pow2(149),
        nearest(n * pow2(149)) == single_of(n),
{
    assert(single_low() * 1 == single_low());
    lemma_rounds_at(n, 1, single_low(), k);
    lemma_whole_quotient(n * pow2(k));
    lemma_unpacked(n * pow2(k), -(k as int));
    let rest = (149 - k) as nat;
    lemma_pow2_adds(k, rest);
    assert(n * pow2(k) * pow2(rest) == n * pow2(149)) by (nonlinear_arith)
        requires
            pow2(149) == pow2(k) * pow2(rest),
    ;
    lemma_value_back(single_of(n));
}

/// A number added to itself: the significand stays, the exponent grows by one.
pub proof fn lemma_twice(a: int)
    requires
        is_normal(a),
        exponent(a) <= 100,
    ensures
        sum_of(a, a) == pack_single(significand(a), exponent(a) + 1),
{
    lemma_repack(a);
    let m = significand(a);
    let k = (exponent(a) + 149) as nat;
    lemma_pow2_unfold(k + 1);
    assert(m * pow2(k) + m * pow2(k) == m * pow2(k + 1)) by (nonlinear_arith)
        requires
            pow2(k + 1) == 2 * pow2(k),
    ;
    lemma_unpacked(m, exponent(a) + 1);
    lemma_value_back(pack_single(m, exponent(a) + 1));
}

// ---------------------------------------------------------------- order

/// The place of a single in the total order of all bit patterns: negative
/// numbers before positive ones, and by magnitude outwards.
pub open spec fn order_key(bits: u32) -> int {
    if bits < 0x8000_0000 {
        bits + 0x8000_0000
    } else {
        0xffff_ffff - bits
    }
}

impl Single {
    /// The place in the total order, ascending.
    pub fn ascending_key(self) -> (key: u32)
        ensures
            key == order_key(self.bits),
    {
        if self.bits < 0x8000_0000 {
            self.bits + 0x8000_0000
        } else {
            0xffff_ffff - self.bits
        }
    }

    /// The place in the total order, descending.
    pub fn descending_key(self) -> (key: u32)
        ensures
            key == 0xffff_ffff - order_key(self.bits),
    {
        0xffff_ffff - self.ascending_key()
    }
}

// ---------------------------------------------------------------- notation

/// The number behind the sign bit, as a significand and an exponent, subnormal
/// numbers included.
pub open spec fn parts_of(magnitude: int) -> (nat, int) {
    if magnitude < 0x80_0000 {
        (magnitude as nat, -149)
    } else {
        (significand(magnitude), exponent(magnitude))
    }
}

/// The number in ten-thousandths, rounded to a whole number of them.
pub open spec fn ten_thousandths(magnitude: int) -> nat {
    let (s, e) = parts_of(magnitude);
    if e >= 0 {
        s * pow2(e as nat) * 10_000
    } else {
        half_even(s * 10_000, pow2((-e) as nat))
    }
}

/// The last four decimal digits of a number.
pub open spec fn four_digits(n: nat) -> Seq<char> {
    seq![digit(n / 1000 % 10), digit(n / 100 % 10), digit(n / 10 % 10), digit(n % 10)]
}

/// The sign of a bit pattern.
pub open spec fn sign_text(bits: u32) -> Seq<char> {
    if bits < 0x8000_0000 {
        Seq::empty()
    } else {
        "-"@
    }
}

/// A single with four decimal places.
pub open spec fn four_places_text(bits: u32) -> Seq<char> {
    let magnitude = bits as int % 0x8000_0000;
    if magnitude > infinity() {
        "NaN"@
    } else if magnitude == infinity() {
        sign_text(bits) + "inf"@
    } else {
        let n = ten_thousandths(magnitude);
        sign_text(bits) + decimal(n / 10_000) + "."@ + four_digits(n % 10_000)
    }
}

/// A power of two.
fn power_of_two(k: u32) -> (power: u128)
    requires
        k <= 104,
    ensures
        power == pow2(k as nat),
{
    let mut power: u128 = 1;
    let mut i: u32 = 0;
    proof {
        lemma2_to64();
    }
    while i < k
        invariant
            i <= k <= 104,
            power == pow2(i as nat),
        decreases k - i,
    {
        proof {
            lemma_pow2_unfold((i + 1) as nat);
            lemma_pow2_bound((i + 1) as nat);
        }
        power = 2 * power;
        i += 1;
    }
    power
}

/// The powers of two that the integer types here have to hold.
proof fn lemma_pow2_bound(k: nat)
    requires
        k <= 104,
    ensures
        0 < pow2(k) <= 0x100_0000_0000_0000_0000_0000_0000,
        k >= 39 ==> pow2(k) >= 0x80_0000_0000,
{
    lemma2_to64();
    lemma2_to64_rest();
    lemma_pow2_adds(64, 40);
    lemma_pow2_pos(k);
    assert(pow2(104) == 0x100_0000_0000_0000_0000_0000_0000) by (nonlinear_arith)
        requires
            pow2(104) == pow2(64) * pow2(40),
            pow2(64) == 0x1_0000_0000_0000_0000,
            pow2(40) == 0x100_0000_0000,
    ;
    if k < 104 {
        lemma_pow2_strictly_increases(k, 104);
    }
    if k > 39 {
        lemma_pow2_strictly_increases(39, k);
    }
}

/// A finite number with four decimal places, without its sign.
fn magnitude_text(magnitude: u32) -> (text: String)
    requires
        magnitude < infinity(),
    ensures
        text@ == ({
            let n = ten_thousandths(magnitude as int);
            decimal(n / 10_000) + "."@ + four_digits(n % 10_000)
        }),
{
    let ghost n = ten_thousandths(magnitude as int);
    let mut whole: u128 = 0;
    let mut fraction: u128 = 0;
    if magnitude >= 0x4b00_0000 {
        let s: u128 = (0x80_0000 + magnitude % 0x80_0000) as u128;
        let power = power_of_two(magnitude / 0x80_0000 - 150);
        proof {
            lemma_pow2_bound((magnitude / 0x80_0000 - 150) as nat);
            assert(s * power < 0x1_0000_0000_0000_0000_0000_0000_0000_0000) by (nonlinear_arith)
                requires
                    s < 0x100_0000,
                    0 < power <= 0x100_0000_0000_0000_0000_0000_0000,
            ;
        }
        whole = s * power;
        assert(n == whole * 10_000);
    } else {
        let subnormal = magnitude < 0x80_0000;
        let s: u128 = if subnormal {
            magnitude as u128
        } else {
            (0x80_0000 + magnitude % 0x80_0000) as u128
        };
        let down: u32 = if subnormal {
            149
        } else {
            150 - magnitude / 0x80_0000
        };
        let ghost unit = pow2(down as nat);
        assert(n == half_even(s as nat * 10_000, unit));
        let scaled: u128 = s * 10_000;
        if down >= 39 {
            proof {
                if down > 104 {
                    lemma_pow2_strictly_increases(104, down as nat);
                    lemma_pow2_bound(104);
                } else {
                    lemma_pow2_bound(down as nat);
                }
                assert(unit >= 0x80_0000_0000);
                assert(2 * scaled < unit);
                vstd::arithmetic::div_mod::lemma_small_mod(scaled as nat, unit);
                vstd::arithmetic::div_mod::lemma_basic_div(scaled as int, unit as int);
                assert(n == 0);
            }
        } else {
            let power = power_of_two(down);
            proof {
                lemma_pow2_bound(down as nat);
            }
            let quotient: u128 = scaled / power;
            let rest: u128 = scaled % power;
            assert(rest < power <= 0x100_0000_0000_0000_0000_0000_0000) by (nonlinear_arith)
                requires
                    rest == scaled % power,
                    0 < power <= 0x100_0000_0000_0000_0000_0000_0000,
            ;
            assert(quotient <= scaled) by (nonlinear_arith)
                requires
                    quotient == scaled / power,
                    power > 0,
                    scaled >= 0,
            ;
            let total: u128 = if 2 * rest < power || (2 * rest == power && quotient % 2 == 0) {
                quotient
            } else {
                quotient + 1
            };
            assert(n == total);
            whole = total / 10_000;
            fraction = total % 10_000;
        }
    }
    assert(n / 10_000 == whole && n % 10_000 == fraction);
    let mut text = decimal_text(whole);
    text.append(".");
    text.push(digit_char(fraction / 1000 % 10));
    text.push(digit_char(fraction / 100 % 10));
    text.push(digit_char(fraction / 10 % 10));
    text.push(digit_char(fraction % 10));
    assert(text@ =~= decimal(n / 10_000) + "."@ + four_digits(n % 10_000));
    text
}

impl Single {
    /// The number with four decimal places, halves rounded to the even digit.
    pub fn four_places(self) -> (text: String)
        ensures
            text@ == four_places_text(self.bits),
    {
        let magnitude: u32 = self.bits % 0x8000_0000;
        if magnitude > 0x7f80_0000 {
            return "NaN".to_owned();
        }
        let mut text = if self.bits < 0x8000_0000 {
            String::new()
        } else {
            "-".to_owned()
        };
        if magnitude == 0x7f80_0000 {
            text.append("inf");
        } else {
            let digits = magnitude_text(magnitude);
            text.append(digits.as_str());
            assert(text@ =~= four_places_text(self.bits));
        }
        text
    }
}

// ---------------------------------------------------------------- roots

/// How often a number is to be multiplied by four to reach `2^104`, so that its
/// root has the precision of a double.
pub open spec fn root_scale(n: nat) -> nat
    decreases 0x400_0000_0000_0000_0000_0000_0000 - n,
{
    if n == 0 || n >= 0x100_0000_0000_0000_0000_0000_0000 {
        0
    } else {
        1 + root_scale(4 * n)
    }
}

/// `m` is the whole number nearest to the square root of `n`.
pub open spec fn is_nearest_root(n: nat, m: nat) -> bool {
    m > 0 && (2 * m - 1) * (2 * m - 1) < 4 * n < (2 * m + 1) * (2 * m + 1)
}

/// The whole number nearest to the square root of a positive one.
pub open spec fn nearest_root(n: nat) -> nat {
    choose|m: nat| is_nearest_root(n, m)
}

/// The significand of the square root of `n`, a double.
pub open spec fn root_significand(n: nat) -> nat {
    nearest_root(n * pow2(2 * root_scale(n)))
}

/// The bit pattern of `3 + 2 * sqrt(n)`: the root is rounded to a double, and so
/// is the sum.
pub open spec fn three_plus_twice_root(n: nat) -> int {
    let k = root_scale(n);
    let (m, e) = rounded(3 * pow2(k) + 2 * root_significand(n), 1, double_low());
    (e - k + 1074) * 0x10_0000_0000_0000 + m
}

/// A larger number has no smaller nearest root.
proof fn lemma_nearest_root_monotone(n1: nat, m1: nat, n2: nat, m2: nat)
    requires
        n1 <= n2,
        is_nearest_root(n1, m1),
        is_nearest_root(n2, m2),
    ensures
        m1 <= m2,
{
    if m1 > m2 {
        assert((2 * m1 - 1) * (2 * m1 - 1) >= (2 * m2 + 1) * (2 * m2 + 1)) by (nonlinear_arith)
            requires
                2 * m1 - 1 >= 2 * m2 + 1,
        ;
    }
}

/// There is only one nearest root.
proof fn lemma_nearest_root(n: nat, m: nat)
    requires
        is_nearest_root(n, m),
    ensures
        nearest_root(n) == m,
{
    let r = nearest_root(n);
    assert(is_nearest_root(n, r));
    lemma_nearest_root_monotone(n, m, n, r);
    lemma_nearest_root_monotone(n, r, n, m);
}

/// The whole number nearest to a square root.
fn find_nearest_root(n: u128) -> (m: u128)
    requires
        0x100_0000_0000_0000_0000_0000_0000 <= n < 0x400_0000_0000_0000_0000_0000_0000,
    ensures
        is_nearest_root(n as nat, m as nat),
        0x10_0000_0000_0000 <= m <= 0x20_0000_0000_0000,
{
    let mut low: u128 = 0x10_0000_0000_0000;
    let mut high: u128 = 0x20_0000_0000_0000;
    while high - low > 1
        invariant
            0x10_0000_0000_0000 <= low < high <= 0x20_0000_0000_0000,
            low * low <= n < high * high,
        decreases high - low,
    {
        let mid: u128 = low + (high - low) / 2;
        assert(mid * mid <= 0x20_0000_0000_0000 * 0x20_0000_0000_0000) by (nonlinear_arith)
            requires
                0 <= mid <= 0x20_0000_0000_0000,
        ;
        if mid * mid <= n {
            low = mid;
        } else {
            high = mid;
        }
    }
    assert((low + 1) * (low + 1) == low * low + 2 * low + 1) by (nonlinear_arith);
    assert(high == low + 1);
    let above: u128 = n - low * low;
    assert((2 * low + 1) * (2 * low + 1) == 4 * (low * low) + 4 * low + 1) by (nonlinear_arith);
    assert((2 * low - 1) * (2 * low - 1) == 4 * (low * low) - 4 * low + 1) by (nonlinear_arith);
    assert((2 * low + 3) * (2 * low + 3) == 4 * (low * low) + 12 * low + 9) by (nonlinear_arith);
    if above <= low {
        low
    } else {
        low + 1
    }
}

/// The scale brings a number below `2^104` between `2^104` and `2^106`.
pub proof fn lemma_root_scale(n: nat)
    requires
        0 < n < 0x400_0000_0000_0000_0000_0000_0000,
    ensures
        0x100_0000_0000_0000_0000_0000_0000 <= n * pow2(2 * root_scale(n))
            < 0x400_0000_0000_0000_0000_0000_0000,
    decreases 0x400_0000_0000_0000_0000_0000_0000 - n,
{
    lemma2_to64();
    if n < 0x100_0000_0000_0000_0000_0000_0000 {
        lemma_root_scale(4 * n);
        let k = root_scale(4 * n);
        lemma_pow2_unfold(2 * k + 2);
        lemma_pow2_unfold(2 * k + 1);
        assert(n * pow2(2 * k + 2) == 4 * n * pow2(2 * k)) by (nonlinear_arith)
            requires
                pow2(2 * k + 2) == 4 * pow2(2 * k),
        ;
        assert(2 * root_scale(n) == 2 * k + 2);
    } else {
        assert(n * 1 == n);
    }
}

impl Double {
    /// `3 + 2 * sqrt(n)`.
    pub fn from_root(n: u32) -> (double: Double)
        requires
            n > 0,
        ensures
            double.bits == three_plus_twice_root(n as nat),
    {
        let mut scaled: u128 = n as u128;
        let mut k: u32 = 0;
        let mut power: u128 = 1;
        proof {
            lemma2_to64();
            lemma2_to64_rest();
            assert(n * 1 == n);
        }
        while scaled < 0x100_0000_0000_0000_0000_0000_0000
            invariant
                n > 0,
                0 < scaled < 0x400_0000_0000_0000_0000_0000_0000,
                scaled == n * pow2(2 * k as nat),
                root_scale(n as nat) == k + root_scale(scaled as nat),
                power == pow2(k as nat),
                k <= 52,
            decreases 0x400_0000_0000_0000_0000_0000_0000 - scaled,
        {
            proof {
                lemma2_to64();
                lemma2_to64_rest();
                lemma_pow2_unfold((2 * k + 2) as nat);
                lemma_pow2_unfold((2 * k + 1) as nat);
                lemma_pow2_unfold((k + 1) as nat);
                assert(n * pow2((2 * k + 2) as nat) == 4 * (n * pow2(2 * k as nat)))
                    by (nonlinear_arith)
                    requires
                        pow2((2 * k + 2) as nat) == 4 * pow2(2 * k as nat),
                ;
                lemma_pow2_bound(104);
                lemma_pow2_adds(64, 40);
                if k == 52 {
                    assert(n * pow2(104) >= pow2(104)) by (nonlinear_arith)
                        requires
                            n > 0,
                    ;
                    assert(pow2(104) == 0x100_0000_0000_0000_0000_0000_0000) by (nonlinear_arith)
                        requires
                            pow2(104) == pow2(64) * pow2(40),
                            pow2(64) == 0x1_0000_0000_0000_0000,
                            pow2(40) == 0x100_0000_0000,
                    ;
                }
                if k < 52 {
                    lemma_pow2_strictly_increases(k as nat, 52);
                }
            }
            scaled = 4 * scaled;
            power = 2 * power;
            k += 1;
        }
        let m = find_nearest_root(scaled);
        proof {
            lemma_nearest_root(scaled as nat, m as nat);
            lemma2_to64();
            lemma2_to64_rest();
            if k < 52 {
                lemma_pow2_strictly_increases(k as nat, 52);
            }
        }
        let p: u128 = 3 * power + 2 * m;
        let (s, e) = round_ratio(p, 1, 0x10_0000_0000_0000);
        proof {
            lemma_rounded(p as nat, 1, double_low());
            assert(double_low() * (1 * pow2(5)) == 0x200_0000_0000_0000) by (nonlinear_arith)
                requires
                    double_low() == 0x10_0000_0000_0000,
                    pow2(5) == 32,
            ;
            lemma_exponent_below(p as nat, 1, double_low(), 5);
        }
        Double { bits: (e - k as i32 + 1074) as u64 * 0x10_0000_0000_0000 + s as u64 }
    }

    /// The smaller of two positive numbers.
    pub fn at_most(self, limit: Double) -> (double: Double)
        ensures
            double.bits == if self.bits <= limit.bits {
                self.bits
            } else {
                limit.bits
            },
    {
        if self.bits <= limit.bits {
            self
        } else {
            limit
        }
    }
}

/// A larger number has no smaller root.
pub proof fn lemma_root_monotone(n1: nat, n2: nat)
    requires
        0 < n1 <= n2 <= u32::MAX,
    ensures
        three_plus_twice_root(n1) <= three_plus_twice_root(n2),
{
    let low = double_low();
    let k1 = root_scale(n1);
    let k2 = root_scale(n2);
    let u1 = pow2(k1);
    let u2 = pow2(k2);
    lemma_root_exists(n1);
    lemma_root_exists(n2);
    let m1 = root_significand(n1);
    let m2 = root_significand(n2);
    lemma_root_scale_antitone(n1, n2);
    assert(m1 * u2 <= m2 * u1) by {
        if k1 == k2 {
            let u = pow2(2 * k1);
            assert(n1 * u <= n2 * u) by (nonlinear_arith)
                requires
                    n1 <= n2,
            ;
            lemma_nearest_root_monotone(n1 * u, m1, n2 * u, m2);
            assert(m1 * u1 <= m2 * u1) by (nonlinear_arith)
                requires
                    m1 <= m2,
            ;
        } else {
            lemma_pow2_unfold(k2 + 1);
            if k2 + 1 < k1 {
                lemma_pow2_strictly_increases(k2 + 1, k1);
            }
            assert(m1 * u2 <= m2 * u1) by (nonlinear_arith)
                requires
                    u1 >= 2 * u2,
                    m1 <= 0x20_0000_0000_0000,
                    m2 >= 0x10_0000_0000_0000,
            {
                assert(m1 * u2 <= 0x20_0000_0000_0000 * u2);
                assert(0x10_0000_0000_0000 * (2 * u2) <= m2 * u1);
            }
        }
    }
    let p1 = 3 * u1 + 2 * m1;
    let p2 = 3 * u2 + 2 * m2;
    lemma_pow2_pos(k1);
    lemma_pow2_pos(k2);
    assert(p1 * u2 * 1 <= p2 * u1 * 1) by (nonlinear_arith)
        requires
            m1 * u2 <= m2 * u1,
            p1 == 3 * u1 + 2 * m1,
            p2 == 3 * u2 + 2 * m2,
    ;
    lemma_scaled(p1, 1, low, k2);
    lemma_scaled(p2, 1, low, k1);
    lemma_rounded_monotone(p1 * u2, 1, p2 * u1, 1, low);
}

/// A root is a positive number.
pub proof fn lemma_root_positive(n: nat)
    requires
        0 < n <= u32::MAX,
    ensures
        three_plus_twice_root(n) > 0,
{
    let k = root_scale(n);
    lemma_root_exists(n);
    lemma_root_scale(n);
    lemma_root_scale_bound(n);
    lemma_pow2_pos(k);
    let p = 3 * pow2(k) + 2 * root_significand(n);
    lemma_rounded(p, 1, double_low());
}

/// A number is scaled at most fifty-two times.
pub proof fn lemma_root_scale_bound(n: nat)
    requires
        0 < n,
    ensures
        root_scale(n) <= 52,
{
    lemma_root_scale_antitone(1, n);
    lemma_root_scale_one(0);
}

/// The scale of the powers of four.
proof fn lemma_root_scale_one(j: nat)
    requires
        j <= 52,
    ensures
        root_scale(pow2(2 * j)) == 52 - j,
        pow2(0) == 1,
    decreases 52 - j,
{
    lemma2_to64();
    lemma2_to64_rest();
    lemma_pow2_adds(64, 40);
    assert(pow2(104) == 0x100_0000_0000_0000_0000_0000_0000) by (nonlinear_arith)
        requires
            pow2(104) == pow2(64) * pow2(40),
            pow2(64) == 0x1_0000_0000_0000_0000,
            pow2(40) == 0x100_0000_0000,
    ;
    lemma_pow2_pos(2 * j);
    if j < 52 {
        lemma_pow2_strictly_increases(2 * j, 104);
        lemma_pow2_unfold(2 * j + 2);
        lemma_pow2_unfold(2 * j + 1);
        lemma_root_scale_one(j + 1);
        assert(4 * pow2(2 * j) == pow2(2 * (j + 1)));
    }
}

/// A larger number is scaled no further.
proof fn lemma_root_scale_antitone(n1: nat, n2: nat)
    requires
        0 < n1 <= n2,
    ensures
        root_scale(n2) <= root_scale(n1),
    decreases 0x400_0000_0000_0000_0000_0000_0000 - n1,
{
    if n2 < 0x100_0000_0000_0000_0000_0000_0000 {
        lemma_root_scale_antitone(4 * n1, 4 * n2);
    }
}

/// The scaled root exists and has the precision of a double.
pub proof fn lemma_root_exists(n: nat)
    requires
        0 < n <= u32::MAX,
    ensures
        is_nearest_root(n * pow2(2 * root_scale(n)), root_significand(n)),
        0x10_0000_0000_0000 <= root_significand(n) <= 0x20_0000_0000_0000,
{
    lemma_root_scale(n);
    let scaled = n * pow2(2 * root_scale(n));
    let m = lemma_find_root(scaled, 0x10_0000_0000_0000, 0x20_0000_0000_0000);
    lemma_nearest_root(scaled, m);
}

/// Between two bounds on a root stands the nearest one.
proof fn lemma_find_root(n: nat, low: nat, high: nat) -> (m: nat)
    requires
        0 < low < high,
        low * low <= n < high * high,
    ensures
        is_nearest_root(n, m),
        low <= m <= high,
    decreases high - low,
{
    if high == low + 1 {
        assert((low + 1) * (low + 1) == low * low + 2 * low + 1) by (nonlinear_arith);
        assert((2 * low + 1) * (2 * low + 1) == 4 * (low * low) + 4 * low + 1) by (nonlinear_arith);
        assert((2 * low - 1) * (2 * low - 1) == 4 * (low * low) - 4 * low + 1) by (nonlinear_arith);
        assert((2 * low + 3) * (2 * low + 3) == 4 * (low * low) + 12 * low + 9)
            by (nonlinear_arith);
        if n - low * low <= low {
            low
        } else {
            assert(2 * (low + 1) + 1 == 2 * low + 3);
            low + 1
        }
    } else if (low + 1) * (low + 1) <= n {
        lemma_find_root(n, low + 1, high)
    } else {
        lemma_find_root(n, low, low + 1)
    }
}

} // verus!
