//! IEEE 754 comparisons on the bit patterns of binary32 and binary64 values.
//!
//! The library never holds a floating-point number: confidences are kept as
//! the bit pattern of an `f32` and numeric readings as the bit pattern of an
//! `f64`. The predicates below state, in integer arithmetic on those patterns,
//! exactly what the IEEE comparison operators answer: NaN compares false with
//! everything, `+0` and `-0` are equal, and otherwise the sign and the
//! magnitude order the values.
use vstd::prelude::*;

verus! {

/// Bit pattern of `0.0f32`.
pub const F32_ZERO: u32 = 0x0000_0000u32;

/// Bit pattern of `1.0f32`.
pub const F32_ONE: u32 = 0x3F80_0000u32;

/// Bit pattern of `0.2f32` (the nearest binary32 value to 0.2).
pub const F32_POINT_TWO: u32 = 0x3E4C_CCCDu32;

pub open spec fn f32_negative_sign(a: u32) -> bool {
    a >= 0x8000_0000
}

pub open spec fn f32_magnitude(a: u32) -> int {
    if f32_negative_sign(a) {
        a - 0x8000_0000
    } else {
        a as int
    }
}

pub open spec fn f32_is_nan(a: u32) -> bool {
    f32_magnitude(a) > 0x7F80_0000
}

pub open spec fn f32_is_zero(a: u32) -> bool {
    f32_magnitude(a) == 0
}

/// IEEE `a <= b` on binary32 bit patterns.
pub open spec fn f32_le(a: u32, b: u32) -> bool {
    &&& !f32_is_nan(a)
    &&& !f32_is_nan(b)
    &&& {
        ||| f32_is_zero(a) && f32_is_zero(b)
        ||| f32_negative_sign(a) && !f32_negative_sign(b)
        ||| !f32_negative_sign(a) && !f32_negative_sign(b) && a <= b
        ||| f32_negative_sign(a) && f32_negative_sign(b) && a >= b
    }
}

/// IEEE `a < b` on binary32 bit patterns.
pub open spec fn f32_lt(a: u32, b: u32) -> bool {
    f32_le(a, b) && !f32_le(b, a)
}

pub open spec fn f64_negative_sign(a: u64) -> bool {
    a >= 0x8000_0000_0000_0000
}

pub open spec fn f64_magnitude(a: u64) -> int {
    if f64_negative_sign(a) {
        a - 0x8000_0000_0000_0000
    } else {
        a as int
    }
}

pub open spec fn f64_is_nan(a: u64) -> bool {
    f64_magnitude(a) > 0x7FF0_0000_0000_0000
}

pub open spec fn f64_is_zero(a: u64) -> bool {
    f64_magnitude(a) == 0
}

/// IEEE `a == b` on binary64 bit patterns.
pub open spec fn f64_eq(a: u64, b: u64) -> bool {
    &&& !f64_is_nan(a)
    &&& !f64_is_nan(b)
    &&& (a == b || (f64_is_zero(a) && f64_is_zero(b)))
}

/// IEEE `a <= b` on binary64 bit patterns.
pub open spec fn f64_le(a: u64, b: u64) -> bool {
    &&& !f64_is_nan(a)
    &&& !f64_is_nan(b)
    &&& {
        ||| f64_is_zero(a) && f64_is_zero(b)
        ||| f64_negative_sign(a) && !f64_negative_sign(b)
        ||| !f64_negative_sign(a) && !f64_negative_sign(b) && a <= b
        ||| f64_negative_sign(a) && f64_negative_sign(b) && a >= b
    }
}

/// IEEE `a < b` on binary64 bit patterns.
pub open spec fn f64_lt(a: u64, b: u64) -> bool {
    f64_le(a, b) && !f64_le(b, a)
}

/// `a <= b` for binary32 values given by their bit patterns.
pub fn f32_bits_le(a: u32, b: u32) -> (r: bool)
    ensures
        r == f32_le(a, b),
{
    let a_neg = a >= 0x8000_0000u32;
    let b_neg = b >= 0x8000_0000u32;
    let a_mag = if a_neg { a - 0x8000_0000u32 } else { a };
    let b_mag = if b_neg { b - 0x8000_0000u32 } else { b };
    if a_mag > 0x7F80_0000u32 || b_mag > 0x7F80_0000u32 {
        false
    } else if a_mag == 0 && b_mag == 0 {
        true
    } else if a_neg && !b_neg {
        true
    } else if !a_neg && !b_neg {
        a <= b
    } else if a_neg && b_neg {
        a >= b
    } else {
        false
    }
}

/// `a < b` for binary32 values given by their bit patterns.
pub fn f32_bits_lt(a: u32, b: u32) -> (r: bool)
    ensures
        r == f32_lt(a, b),
{
    f32_bits_le(a, b) && !f32_bits_le(b, a)
}

/// `a == b` for binary64 values given by their bit patterns.
pub fn f64_bits_eq(a: u64, b: u64) -> (r: bool)
    ensures
        r == f64_eq(a, b),
{
    let a_mag = if a >= 0x8000_0000_0000_0000u64 { a - 0x8000_0000_0000_0000u64 } else { a };
    let b_mag = if b >= 0x8000_0000_0000_0000u64 { b - 0x8000_0000_0000_0000u64 } else { b };
    if a_mag > 0x7FF0_0000_0000_0000u64 || b_mag > 0x7FF0_0000_0000_0000u64 {
        false
    } else {
        a == b || (a_mag == 0 && b_mag == 0)
    }
}

/// `a <= b` for binary64 values given by their bit patterns.
pub fn f64_bits_le(a: u64, b: u64) -> (r: bool)
    ensures
        r == f64_le(a, b),
{
    let a_neg = a >= 0x8000_0000_0000_0000u64;
    let b_neg = b >= 0x8000_0000_0000_0000u64;
    let a_mag = if a_neg { a - 0x8000_0000_0000_0000u64 } else { a };
    let b_mag = if b_neg { b - 0x8000_0000_0000_0000u64 } else { b };
    if a_mag > 0x7FF0_0000_0000_0000u64 || b_mag > 0x7FF0_0000_0000_0000u64 {
        false
    } else if a_mag == 0 && b_mag == 0 {
        true
    } else if a_neg && !b_neg {
        true
    } else if !a_neg && !b_neg {
        a <= b
    } else if a_neg && b_neg {
        a >= b
    } else {
        false
    }
}

/// `a < b` for binary64 values given by their bit patterns.
pub fn f64_bits_lt(a: u64, b: u64) -> (r: bool)
    ensures
        r == f64_lt(a, b),
{
    f64_bits_le(a, b) && !f64_bits_le(b, a)
}

// ── Integer to binary64 conversion ───────────────────────────

pub open spec fn two_pow(e: nat) -> nat
    decreases e,
{
    if e == 0 {
        1
    } else {
        2 * two_pow((e - 1) as nat)
    }
}

/// Position of the highest set bit of `m` (0 for `m <= 1`).
pub open spec fn top_bit(m: nat) -> nat
    decreases m,
{
    if m <= 1 {
        0
    } else {
        1 + top_bit(m / 2)
    }
}

/// `m / 2^k` rounded to the nearest integer, ties to even.
pub open spec fn round_half_even(m: nat, k: nat) -> nat {
    let d = two_pow(k);
    let q = m / d;
    let r = m % d;
    if 2 * r > d || (2 * r == d && q % 2 == 1) {
        q + 1
    } else {
        q
    }
}

/// 53-bit significand of `m` (rounded when `m` has more bits), as the
/// binary64 format keeps it before the implicit bit is dropped.
pub open spec fn significand(m: nat) -> nat {
    let p = top_bit(m);
    if p <= 52 {
        m * two_pow((52 - p) as nat)
    } else {
        round_half_even(m, (p - 52) as nat)
    }
}

/// Bit pattern of `b as f64`: the binary64 value nearest to `b`, ties to
/// even, as Rust's integer-to-float cast rounds.
pub open spec fn int_to_f64_bits(b: i64) -> u64 {
    if b == 0 {
        0
    } else {
        let m: nat = if b < 0 {
            (-b) as nat
        } else {
            b as nat
        };
        let p = top_bit(m);
        let sig = significand(m);
        let carry = sig == two_pow(53);
        let s2: int = if carry {
            two_pow(52) as int
        } else {
            sig as int
        };
        let e: int = if carry {
            p + 1int
        } else {
            p as int
        };
        ((if b < 0 {
            0x8000_0000_0000_0000int
        } else {
            0int
        }) + (e + 1023) * 0x10_0000_0000_0000int + (s2 - 0x10_0000_0000_0000int)) as u64
    }
}

proof fn lemma_two_pow_adds(a: nat, b: nat)
    ensures
        two_pow(a + b) == two_pow(a) * two_pow(b),
    decreases a,
{
    if a > 0 {
        lemma_two_pow_adds((a - 1) as nat, b);
        let c: nat = (a - 1) as nat;
        assert(c + b == (a - 1 + b) as nat);
        assert(two_pow(c + b) == two_pow(c) * two_pow(b));
        assert(two_pow(a + b) == 2 * two_pow((a - 1 + b) as nat));
        assert(two_pow(a) * two_pow(b) == 2 * (two_pow((a - 1) as nat) * two_pow(b))) by (nonlinear_arith)
            requires
                two_pow(a) == 2 * two_pow((a - 1) as nat),
        ;
        assert(two_pow(a + b) == 2 * (two_pow(c) * two_pow(b)));
    } else {
        assert(two_pow(a) == 1);
        assert(a + b == b);
        assert(1 * two_pow(b) == two_pow(b)) by (nonlinear_arith);
    }
}

proof fn lemma_two_pow_values()
    ensures
        two_pow(52) == 0x10_0000_0000_0000,
        two_pow(53) == 0x20_0000_0000_0000,
        two_pow(63) == 0x8000_0000_0000_0000,
{
    reveal_with_fuel(two_pow, 64);
}

proof fn lemma_two_pow_pos(e: nat)
    ensures
        two_pow(e) >= 1,
    decreases e,
{
    if e > 0 {
        lemma_two_pow_pos((e - 1) as nat);
    }
}

proof fn lemma_top_bit(m: nat, p: nat)
    requires
        two_pow(p) <= m < 2 * two_pow(p),
    ensures
        top_bit(m) == p,
    decreases p,
{
    if p == 0 {
        assert(m == 1);
    } else {
        lemma_two_pow_pos((p - 1) as nat);
        assert(two_pow(p) == 2 * two_pow((p - 1) as nat));
        assert(two_pow((p - 1) as nat) <= m / 2 < 2 * two_pow((p - 1) as nat));
        lemma_top_bit(m / 2, (p - 1) as nat);
    }
}

/// `2^e` as a machine integer.
fn two_pow_u128(e: u32) -> (r: u128)
    requires
        e <= 64,
    ensures
        r == two_pow(e as nat),
{
    let mut r: u128 = 1;
    let mut i: u32 = 0;
    while i < e
        invariant
            i <= e <= 64,
            r == two_pow(i as nat),
        decreases e - i,
    {
        proof {
            lemma_two_pow_adds(i as nat, (64 - i) as nat);
            lemma_two_pow_pos((64 - i) as nat);
            lemma_two_pow_values();
            reveal_with_fuel(two_pow, 65);
            assert(two_pow(64) == 0x1_0000_0000_0000_0000);
            assert(r <= two_pow(64)) by (nonlinear_arith)
                requires
                    r == two_pow(i as nat),
                    two_pow(64) == two_pow(i as nat) * two_pow((64 - i) as nat),
                    two_pow((64 - i) as nat) >= 1,
            ;
        }
        r = r * 2;
        i = i + 1;
    }
    r
}

/// The bit pattern of `b as f64`.
pub fn int_to_f64(b: i64) -> (r: u64)
    ensures
        r == int_to_f64_bits(b),
{
    if b == 0 {
        return 0;
    }
    let m: u128 = if b < 0 {
        (0i128 - (b as i128)) as u128
    } else {
        b as u128
    };
    let ghost mn: nat = if b < 0 {
        (-b) as nat
    } else {
        b as nat
    };
    assert(m == mn);
    assert(m <= 0x8000_0000_0000_0000);
    proof {
        lemma_two_pow_values();
    }
    let mut p: u32 = 0;
    let mut pw: u128 = 1;
    while pw * 2 <= m
        invariant
            1 <= pw <= m,
            m <= 0x8000_0000_0000_0000,
            pw == two_pow(p as nat),
            p <= 63,
            two_pow(63) == 0x8000_0000_0000_0000,
        decreases m - pw,
    {
        proof {
            if p == 63 {
                assert(pw * 2 > m);
            }
        }
        pw = pw * 2;
        p = p + 1;
    }
    proof {
        lemma_two_pow_values();
        lemma_top_bit(mn, p as nat);
    }
    let sig: u128 = if p <= 52 {
        let f = two_pow_u128(52 - p);
        proof {
            lemma_two_pow_adds(p as nat, (52 - p) as nat);
            assert(m * f < 0x20_0000_0000_0000 && m * f >= 0x10_0000_0000_0000) by (nonlinear_arith)
                requires
                    pw <= m < 2 * pw,
                    pw * f == 0x10_0000_0000_0000,
            ;
        }
        m * f
    } else {
        let d = two_pow_u128(p - 52);
        proof {
            lemma_two_pow_adds((p - 52) as nat, 52);
            lemma_two_pow_pos((p - 52) as nat);
        }
        let q = m / d;
        let r = m % d;
        proof {
            assert(q < 0x20_0000_0000_0000 && q >= 0x10_0000_0000_0000) by (nonlinear_arith)
                requires
                    pw <= m < 2 * pw,
                    pw == d * 0x10_0000_0000_0000,
                    q == m / d,
                    d >= 1,
            ;
        }
        if 2 * r > d || (2 * r == d && q % 2 == 1) {
            q + 1
        } else {
            q
        }
    };
    assert(sig == significand(mn));
    let carry = sig == 0x20_0000_0000_0000u128;
    let s2: u128 = if carry { 0x10_0000_0000_0000u128 } else { sig };
    let e: u128 = if carry { (p as u128) + 1 } else { p as u128 };
    let sign: u128 = if b < 0 { 0x8000_0000_0000_0000u128 } else { 0 };
    let total: u128 = sign + (e + 1023) * 0x10_0000_0000_0000u128 + (s2 - 0x10_0000_0000_0000u128);
    total as u64
}

} // verus!
