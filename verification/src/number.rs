//! The order of catalogue numbers, as double-precision floats.
//!
//! A number written as an integer counts as the float nearest to it, so the
//! order is that of the floats' bit patterns: magnitude by magnitude, negated
//! under a sign bit, with NaN unordered.

use crate::value::Number;
use vstd::prelude::*;

verus! {

/// How many bits a natural number takes.
pub open spec fn bit_width(n: nat) -> nat
    decreases n,
{
    if n == 0 {
        0
    } else {
        1 + bit_width(n / 2)
    }
}

/// A quotient rounded to the nearest integer, ties to even.
pub open spec fn rounded(n: int, d: int) -> int {
    let q = n / d;
    let r = n % d;
    if 2 * r > d || (2 * r == d && q % 2 == 1) {
        q + 1
    } else {
        q
    }
}

/// The significand of the float nearest to a positive number of `k + 1` bits:
/// 53 bits, or one more where rounding carries.
pub open spec fn significand(n: nat, k: int) -> int {
    if k <= 52 {
        (n * vstd::arithmetic::power2::pow2((52 - k) as nat)) as int
    } else {
        rounded(n as int, vstd::arithmetic::power2::pow2((k - 52) as nat) as int)
    }
}

/// The bit pattern of the float nearest to a natural number.
pub open spec fn pattern(n: nat) -> int {
    if n == 0 {
        0
    } else {
        let k = bit_width(n) - 1;
        (k + 1022) * 0x10_0000_0000_0000 + significand(n, k)
    }
}

/// Where a number stands among the floats.
pub open spec fn place(n: Number) -> int {
    match n {
        Number::Integer(i) => if i >= 0 {
            pattern(i as nat)
        } else {
            -pattern((-i) as nat)
        },
        Number::Float { bits, .. } => float_place(bits),
    }
}

/// Whether a number is a NaN.
pub open spec fn is_nan(n: Number) -> bool {
    n matches Number::Float { bits, .. } && nan_bits(bits)
}

/// Whether one number is greater than another.
pub open spec fn exceeds(a: Number, b: Number) -> bool {
    !is_nan(a) && !is_nan(b) && place(a) > place(b)
}

fn width(n: u64) -> (r: u32)
    ensures
        r == bit_width(n as nat),
        r <= 64,
    decreases n,
{
    proof {
        lemma_width(n as nat, 64);
        vstd::arithmetic::power2::lemma2_to64();
    }
    if n == 0 {
        0
    } else {
        1 + width(n / 2)
    }
}

proof fn lemma_width(n: nat, bits: nat)
    ensures
        n < vstd::arithmetic::power2::pow2(bits) ==> bit_width(n) <= bits,
        n > 0 ==> vstd::arithmetic::power2::pow2((bit_width(n) - 1) as nat) <= n,
        n < vstd::arithmetic::power2::pow2(bit_width(n)),
    decreases n + bits,
{
    vstd::arithmetic::power2::lemma2_to64();
    if n > 0 {
        if bits > 0 {
            vstd::arithmetic::power2::lemma_pow2_unfold(bits);
            lemma_width(n / 2, (bits - 1) as nat);
        } else {
            lemma_width(n / 2, 0);
        }
        let w = bit_width(n / 2);
        vstd::arithmetic::power2::lemma_pow2_unfold(w + 1);
        if n / 2 > 0 {
            vstd::arithmetic::power2::lemma_pow2_unfold(w);
        } else {
            assert(n == 1);
        }
    }
}

proof fn lemma_pow2_53()
    ensures
        vstd::arithmetic::power2::pow2(52) == 0x10_0000_0000_0000,
        vstd::arithmetic::power2::pow2(53) == 0x20_0000_0000_0000,
        vstd::arithmetic::power2::pow2(54) == 0x40_0000_0000_0000,
        vstd::arithmetic::power2::pow2(64) == 0x1_0000_0000_0000_0000,
{
    vstd::arithmetic::power2::lemma2_to64();
    vstd::arithmetic::power2::lemma_pow2_adds(32, 20);
    vstd::arithmetic::power2::lemma_pow2_adds(32, 21);
    vstd::arithmetic::power2::lemma_pow2_adds(32, 22);
}

fn pattern_of(n: u64) -> (r: i128)
    ensures
        r == pattern(n as nat),
        0 <= r < 0x7FF0_0000_0000_0000,
{
    if n == 0 {
        return 0;
    }
    proof {
        lemma_width(n as nat, 64);
        lemma_pow2_53();
        vstd::arithmetic::power2::lemma2_to64();
    }
    let k: u32 = width(n) - 1;
    if k <= 52 {
        let step: u128 = crate::bits::power_of_two(52 - k);
        proof {
            let p = vstd::arithmetic::power2::pow2((52 - k) as nat) as int;
            vstd::arithmetic::power2::lemma_pow2_adds((k + 1) as nat, (52 - k) as nat);
            vstd::arithmetic::power2::lemma_pow2_pos((52 - k) as nat);
            assert(n * p < vstd::arithmetic::power2::pow2((k + 1) as nat) * p) by (nonlinear_arith)
                requires
                    n < vstd::arithmetic::power2::pow2((k + 1) as nat),
                    p > 0,
            ;
            assert(n * p >= 0) by (nonlinear_arith)
                requires
                    p > 0,
            ;
        }
        (k as i128 + 1022) * 0x10_0000_0000_0000 + (n as u128 * step) as i128
    } else {
        let step: u128 = crate::bits::power_of_two(k - 52);
        let q: u128 = n as u128 / step;
        let r: u128 = n as u128 % step;
        proof {
            let p = step as int;
            vstd::arithmetic::power2::lemma_pow2_adds(53, (k - 52) as nat);
            vstd::arithmetic::power2::lemma_pow2_pos((k - 52) as nat);
            crate::bits::lemma_pow2_below((k - 52) as nat, 12);
            vstd::arithmetic::div_mod::lemma_fundamental_div_mod(n as int, p);
            assert(q < 0x20_0000_0000_0000) by (nonlinear_arith)
                requires
                    n as int == p * q + r,
                    n < 0x20_0000_0000_0000 * p,
                    0 <= r,
                    p > 0,
            ;
        }
        let rounded_up: bool = 2 * r > step || (2 * r == step && q % 2 == 1);
        let s: i128 = if rounded_up {
            q as i128 + 1
        } else {
            q as i128
        };
        (k as i128 + 1022) * 0x10_0000_0000_0000 + s
    }
}

fn place_of(n: Number) -> (r: i128)
    ensures
        r == place(n),
{
    match n {
        Number::Integer(i) => if i >= 0 {
            pattern_of(i as u64)
        } else {
            -pattern_of((-(i as i128)) as u64)
        },
        Number::Float { bits, .. } => float_place_of(bits),
    }
}

fn not_a_number(n: Number) -> (r: bool)
    ensures
        r == is_nan(n),
{
    match n {
        Number::Integer(_) => false,
        Number::Float { bits, .. } => is_nan_bits(bits),
    }
}

/// Whether one number is greater than another, as double-precision floats.
pub fn is_greater(a: Number, b: Number) -> (r: bool)
    ensures
        r == exceeds(a, b),
{
    !not_a_number(a) && !not_a_number(b) && place_of(a) > place_of(b)
}

/// Whether two bit patterns are those of equal floats: a NaN equals none, and the
/// two zeros are equal.
pub open spec fn same_float(a: u64, b: u64) -> bool {
    !nan_bits(a) && !nan_bits(b) && float_place(a) == float_place(b)
}

/// Whether a float equals the float nearest to a natural number.
pub open spec fn is_nearest_float(bits: u64, n: u64) -> bool {
    !nan_bits(bits) && float_place(bits) == pattern(n as nat)
}

/// Whether a bit pattern is that of a NaN.
pub open spec fn nan_bits(bits: u64) -> bool {
    bits % 0x8000_0000_0000_0000 > 0x7FF0_0000_0000_0000
}

/// Where a bit pattern stands among the floats.
pub open spec fn float_place(bits: u64) -> int {
    if bits < 0x8000_0000_0000_0000 {
        bits as int
    } else {
        0x8000_0000_0000_0000 - bits
    }
}

fn float_place_of(bits: u64) -> (r: i128)
    ensures
        r == float_place(bits),
{
    if bits < 0x8000_0000_0000_0000 {
        bits as i128
    } else {
        0x8000_0000_0000_0000 - bits as i128
    }
}

fn is_nan_bits(bits: u64) -> (r: bool)
    ensures
        r == nan_bits(bits),
{
    bits % 0x8000_0000_0000_0000 > 0x7FF0_0000_0000_0000
}

/// Whether two bit patterns are those of equal floats.
pub fn is_same_float(a: u64, b: u64) -> (r: bool)
    ensures
        r == same_float(a, b),
{
    !is_nan_bits(a) && !is_nan_bits(b) && float_place_of(a) == float_place_of(b)
}

/// Whether a float equals the float nearest to a natural number.
pub fn equals_nearest(bits: u64, n: u64) -> (r: bool)
    ensures
        r == is_nearest_float(bits, n),
{
    !is_nan_bits(bits) && float_place_of(bits) == pattern_of(n)
}

proof fn lemma_pattern_grows(a: nat, b: nat)
    requires
        a < b <= 0x20_0000_0000_0000,
    ensures
        0 <= pattern(a) < pattern(b),
{
    lemma_pow2_53();
    lemma_exact_significand(b);
    if a > 0 {
        lemma_exact_significand(a);
        let j = bit_width(a) - 1;
        let k = bit_width(b) - 1;
        lemma_width(a, 0);
        lemma_width(b, 0);
        if j > k {
            crate::bits::lemma_pow2_below((k + 1) as nat, j as nat);
        }
        if j == k && k <= 52 {
            let p = vstd::arithmetic::power2::pow2((52 - k) as nat) as int;
            vstd::arithmetic::power2::lemma_pow2_pos((52 - k) as nat);
            assert(a * p < b * p) by (nonlinear_arith)
                requires
                    a < b,
                    p > 0,
            ;
        }
        if k == 53 {
            assert(j < 53);
        }
    }
}

proof fn lemma_exact_significand(n: nat)
    requires
        0 < n <= 0x20_0000_0000_0000,
    ensures
        bit_width(n) <= 54,
        bit_width(n) == 54 ==> n == 0x20_0000_0000_0000,
        0x10_0000_0000_0000 <= significand(n, bit_width(n) - 1) < 0x20_0000_0000_0000,
{
    vstd::arithmetic::power2::lemma2_to64();
    lemma_pow2_53();
    let k = bit_width(n) - 1;
    lemma_width(n, 54);
    if k <= 52 {
        let p = vstd::arithmetic::power2::pow2((52 - k) as nat) as int;
        let low = vstd::arithmetic::power2::pow2(k as nat) as int;
        let high = vstd::arithmetic::power2::pow2((k + 1) as nat) as int;
        vstd::arithmetic::power2::lemma_pow2_pos((52 - k) as nat);
        vstd::arithmetic::power2::lemma_pow2_adds(k as nat, (52 - k) as nat);
        vstd::arithmetic::power2::lemma_pow2_adds((k + 1) as nat, (52 - k) as nat);
        assert(low * p <= n * p && n * p < high * p) by (nonlinear_arith)
            requires
                low <= n < high,
                p > 0,
        ;
    } else {
        assert(k == 53);
        assert(n == 0x20_0000_0000_0000);
        assert(vstd::arithmetic::power2::pow2(1) == 2);
    }
}

/// Integers that floats hold exactly are ordered as integers.
pub proof fn law_exact_integers_keep_their_order(a: i64, b: i64)
    requires
        -0x20_0000_0000_0000 <= a <= 0x20_0000_0000_0000,
        -0x20_0000_0000_0000 <= b <= 0x20_0000_0000_0000,
    ensures
        exceeds(Number::Integer(a), Number::Integer(b)) <==> a > b,
{
    let x = if a >= 0 {
        a as nat
    } else {
        (-a) as nat
    };
    let y = if b >= 0 {
        b as nat
    } else {
        (-b) as nat
    };
    if x < y {
        lemma_pattern_grows(x, y);
    } else if y < x {
        lemma_pattern_grows(y, x);
    }
    if x > 0 {
        lemma_pattern_grows(0, x);
    }
    if y > 0 {
        lemma_pattern_grows(0, y);
    }
}

} // verus!
