//! What comparisons, counts, indices and conversions mean for the values of numbers.
use crate::binary64::{
    exponent, fl_abs, fl_add, fl_div, fl_index, fl_le, fl_lt, fl_max, fl_min, fl_mul, fl_neg, fl_of,
    fl_round, fl_sqrt, fl_sub, fl_widen, in_units, is_nan, lemma_fields, magnitude, negative,
    signed, significand, Binary32, Binary64,
};
use crate::errors::{
    abs, half_unit, is_rounding, lemma_add_finite, lemma_add_relative, lemma_div_value,
    lemma_in_units_value, lemma_mul_finite, lemma_mul_value, lemma_neg_value, lemma_power_lifted,
    lemma_product_real, lemma_quotient_finite, lemma_real_associative, lemma_real_cancel,
    lemma_real_distributes, lemma_real_mul_ordered, lemma_real_one, lemma_rounded_value,
    lemma_sqrt_value, lemma_value_positive, lemma_zero_value, mag_value, power, value,
};
use crate::exactness::{
    is_finite, is_zero, lemma_count_monotone, lemma_representable, lemma_same_units,
    lemma_sqrt_zero,
};
use crate::linear::fl;
use crate::rotations::lemma_magnitudes_ordered;
use crate::rounding::{
    bit_len, lemma_bit_len_bounds, lemma_pow2_ordered, lemma_rounded_shifted, rounded,
    unit_exponent, INFINITE,
};
use vstd::arithmetic::div_mod::lemma_fundamental_div_mod;
use vstd::arithmetic::power2::{
    lemma2_to64, lemma2_to64_rest, lemma_pow2_adds, lemma_pow2_pos, pow2,
};
use vstd::prelude::*;

verus! {

// ---------------------------------------------------------------------------
// Comparisons
// ---------------------------------------------------------------------------

/// A larger magnitude field stands for a larger number.
proof fn lemma_magnitudes_differ(x: nat, y: nat)
    requires
        x < y < INFINITE,
    ensures
        mag_value(x) < mag_value(y),
        mag_value(x) >= 0 as real,
{
    lemma_fields(x);
    lemma_fields(y);
    lemma_magnitudes_ordered(x, y);
    lemma_magnitudes_ordered(0, x);
    lemma_zero_value(fl(0));
    let b = -1074int;
    lemma_in_units_value(x, b);
    lemma_in_units_value(y, b);
    lemma_power_lifted(b, 0);
    if mag_value(x) == mag_value(y) {
        let (m, n) = (in_units(x, b) as real, in_units(y, b) as real);
        lemma_real_cancel(m, n, power(b));
        lemma_real_cancel(n, m, power(b));
        lemma_same_units(x, y, b);
    }
}

/// Finite numbers are compared by their values.
pub proof fn law_order_is_that_of_values(a: Binary64, b: Binary64)
    requires
        is_finite(a),
        is_finite(b),
    ensures
        fl_lt(a, b) <==> value(a) < value(b),
        fl_le(a, b) <==> value(a) <= value(b),
{
    reveal(fl_lt);
    reveal(fl_le);
    let (x, y) = (magnitude(a), magnitude(b));
    lemma_zero_value(fl(0));
    if x > 0 {
        lemma_magnitudes_differ(0, x);
    }
    if y > 0 {
        lemma_magnitudes_differ(0, y);
    }
    if x < y {
        lemma_magnitudes_differ(x, y);
    } else if y < x {
        lemma_magnitudes_differ(y, x);
    }
}

/// Infinity is above every finite number, negative infinity below, and nothing is compared with
/// what is not a number.
pub proof fn law_order_of_infinities(a: Binary64, b: Binary64)
    ensures
        is_nan(a) || is_nan(b) ==> !fl_lt(a, b) && !fl_le(a, b),
        is_finite(a) && magnitude(b) == INFINITE && !negative(b) ==> fl_lt(a, b) && !fl_le(b, a),
        is_finite(a) && magnitude(b) == INFINITE && negative(b) ==> fl_lt(b, a) && !fl_le(a, b),
        magnitude(a) == INFINITE && a == b ==> fl_le(a, b) && !fl_lt(a, b),
{
    reveal(fl_lt);
    reveal(fl_le);
}

/// The larger and the smaller of two finite numbers, and the absolute value of one.
pub proof fn law_extremes_of_values(a: Binary64, b: Binary64)
    requires
        is_finite(a),
        is_finite(b),
    ensures
        is_finite(fl_max(a, b)) && is_finite(fl_min(a, b)) && is_finite(fl_abs(a)),
        value(fl_max(a, b)) >= value(a) && value(fl_max(a, b)) >= value(b),
        value(fl_max(a, b)) == value(a) || value(fl_max(a, b)) == value(b),
        value(fl_min(a, b)) <= value(a) && value(fl_min(a, b)) <= value(b),
        value(fl_min(a, b)) == value(a) || value(fl_min(a, b)) == value(b),
        value(fl_abs(a)) == abs(value(a)),
{
    law_order_is_that_of_values(a, b);
    law_order_is_that_of_values(b, a);
    reveal(fl_abs);
    lemma_zero_value(fl(0));
    lemma_magnitudes_ordered(0, magnitude(a));
}

/// Of two of which one is not a number, the other is the larger and the smaller one; what is
/// infinite or not a number stays so when it is rounded to an integer.
pub proof fn law_numbers_are_preferred(a: Binary64, b: Binary64)
    ensures
        is_nan(a) ==> fl_max(a, b) == b && fl_min(a, b) == b,
        is_nan(b) && !is_nan(a) ==> fl_max(a, b) == a && fl_min(a, b) == a,
        is_nan(a) ==> is_nan(fl_round(a)),
        magnitude(a) == INFINITE ==> fl_round(a) == a,
{
    reveal(fl_lt);
    reveal(fl_round);
}

// ---------------------------------------------------------------------------
// Arithmetic
// ---------------------------------------------------------------------------

/// Sums, differences, products and quotients of finite numbers are finite wherever the exact result
/// is at most `2^1023`, and off by half a unit in the last place at most; below the normal numbers
/// products and quotients lose at most the smallest number.
pub proof fn law_arithmetic_is_rounded(a: Binary64, b: Binary64)
    requires
        is_finite(a),
        is_finite(b),
    ensures
        ({
            let (x, y) = (value(a), value(b));
            &&& abs(x + y) <= power(1023) ==> is_finite(fl_add(a, b)) && abs(
                value(fl_add(a, b)) - (x + y),
            ) <= abs(x + y) * half_unit()
            &&& abs(x - y) <= power(1023) ==> is_finite(fl_sub(a, b)) && abs(
                value(fl_sub(a, b)) - (x - y),
            ) <= abs(x - y) * half_unit()
            &&& abs(x * y) <= power(1023) ==> is_finite(fl_mul(a, b)) && is_rounding(
                value(fl_mul(a, b)),
                x * y,
            )
            &&& y > 0 as real && abs(x / y) <= power(1023) ==> is_finite(fl_div(a, b))
                && is_rounding(value(fl_div(a, b)), x / y)
        }),
{
    let (x, y) = (value(a), value(b));
    if abs(x + y) <= power(1023) {
        lemma_add_finite(a, b);
        lemma_add_relative(a, b);
    }
    lemma_neg_value(b);
    if abs(x - y) <= power(1023) {
        lemma_add_finite(a, fl_neg(b));
        lemma_add_relative(a, fl_neg(b));
    }
    if abs(x * y) <= power(1023) {
        lemma_mul_finite(a, b);
        lemma_mul_value(a, b);
    }
    if y > 0 as real && abs(x / y) <= power(1023) {
        lemma_zero_value(fl(0));
        lemma_magnitudes_ordered(0, magnitude(b));
        if is_zero(b) {
            lemma_zero_value(b);
        }
        lemma_quotient_finite(a, b);
        lemma_div_value(a, b);
    }
}

/// The square root of a number that is not below zero is finite and not below zero, and its square
/// is the number up to four half units in the last place; zero is its own root.
pub proof fn law_root_is_rounded(a: Binary64)
    requires
        is_finite(a),
        value(a) >= 0 as real,
    ensures
        ({
            let r = value(fl_sqrt(a));
            &&& is_finite(fl_sqrt(a))
            &&& r >= 0 as real
            &&& abs(r * r - value(a)) <= (r * r) * ((4 as real) * half_unit())
        }),
{
    let r = value(fl_sqrt(a));
    lemma_zero_value(fl(0));
    lemma_magnitudes_ordered(0, magnitude(a));
    if is_zero(a) {
        lemma_sqrt_zero(a);
        lemma_zero_value(a);
        lemma_zero_value(fl_sqrt(a));
        lemma_real_distributes(0 as real, 0 as real, 0 as real);
        lemma_real_distributes(0 as real, 0 as real, (4 as real) * half_unit());
    } else {
        if negative(a) {
            lemma_value_positive(magnitude(a));
        }
        lemma_sqrt_value(a);
    }
}

// ---------------------------------------------------------------------------
// Counts
// ---------------------------------------------------------------------------

/// A whole number of units with at most 53 bits is a number.
proof fn lemma_exact_rounded(n: nat, j: int)
    requires
        0 < n < 0x0020_0000_0000_0000,
        -1000 <= j <= 900,
    ensures
        0 < rounded(n, 1, j) < INFINITE,
        mag_value(rounded(n, 1, j)) == (n as real) * power(j),
{
    lemma2_to64();
    lemma2_to64_rest();
    lemma_bit_len_bounds(n);
    let len = bit_len(n);
    if len > 53 {
        lemma_pow2_ordered(53, (len - 1) as nat);
    }
    let k = (53 - len) as nat;
    lemma_pow2_adds(len, k);
    lemma_pow2_adds((len - 1) as nat, k);
    lemma_pow2_pos(k);
    let c = n * pow2(k);
    assert(0x0010_0000_0000_0000 <= c < 0x0020_0000_0000_0000) by (nonlinear_arith)
        requires
            c == n * pow2(k),
            pow2((len - 1) as nat) <= n < pow2(len),
            pow2((len - 1) as nat) * pow2(k) == 0x0010_0000_0000_0000,
            pow2(len) * pow2(k) == 0x0020_0000_0000_0000,
            pow2(k) > 0,
    ;
    let mag = ((j - k + 1074) * 0x0010_0000_0000_0000 + c) as nat;
    assert(significand(mag) == c && exponent(mag) == j - k);
    lemma_representable(mag);
    lemma_rounded_shifted(n, 1, j, k);
    lemma_power_lifted(j - k, k);
    lemma_product_real(n as int, pow2(k) as int);
    lemma_real_associative(n as real, pow2(k) as real, power(j - k));
    lemma_real_associative(pow2(k) as real, power(j - k), n as real);
}

/// The number of a count is the count itself up to `2^53`, and up to one rounding beyond.
pub proof fn law_count_value(n: nat)
    requires
        n <= 0xffff_ffff_ffff_ffff,
    ensures
        is_finite(fl_of(n)),
        !negative(fl_of(n)),
        n <= 0x0020_0000_0000_0000 ==> value(fl_of(n)) == n as real,
        abs(value(fl_of(n)) - n as real) <= (n as real) * half_unit(),
{
    reveal(fl_of);
    lemma_count_monotone(n, n);
    let r = n as real;
    lemma_real_mul_ordered(0 as real, half_unit(), r);
    lemma_real_distributes(0 as real, 0 as real, r);
    lemma_real_associative(r, half_unit(), r);
    if n == 0 {
        lemma_zero_value(fl(0));
    } else {
        lemma_power_lifted(0, 0);
        lemma2_to64();
        lemma2_to64_rest();
        assert(power(0) == 1 as real);
        lemma_real_one(r);
        if n < 0x0020_0000_0000_0000 {
            lemma_exact_rounded(n, 0);
        } else if n == 0x0020_0000_0000_0000 {
            lemma_exact_rounded(0x0010_0000_0000_0000, 1);
            lemma_rounded_shifted(0x0010_0000_0000_0000, 1, 1, 1);
            assert(power(1) == 2 as real);
        } else {
            lemma_rounded_value(n, 1, 0);
            lemma_bit_len_bounds(n);
            if bit_len(n) < 53 {
                lemma_pow2_ordered(bit_len(n), 53);
            }
            assert(n / 1 == n);
            assert(unit_exponent(n, 1, 0) > -1074);
            assert(r / (1 as real) == r);
        }
    }
}

// ---------------------------------------------------------------------------
// Integers
// ---------------------------------------------------------------------------

/// Whether `k` is the integer nearest to `x`, the one further from zero of two.
pub open spec fn is_nearest_integer(k: int, x: real) -> bool {
    &&& abs(k as real - x) <= (1 as real) / (2 as real)
    &&& abs(k as real - x) == (1 as real) / (2 as real) ==> abs(k as real) > abs(x)
}

/// The linear part: `t` is `(2 s + d) / (2 d)` without its fraction, and `x` is `s / d`.
proof fn lemma_half_up(t: int, s: int, d: int, x: real)
    requires
        d > 0,
        s >= 0,
        x * (d as real) == s as real,
        2 * (t * d) <= 2 * s + d,
        2 * s + d < 2 * (t * d) + 2 * d,
    ensures
        (t as real) - x <= (1 as real) / (2 as real),
        (t as real) - x > -((1 as real) / (2 as real)),
{
    let (rt, rd) = (t as real, d as real);
    lemma_product_real(t, d);
    let h = (1 as real) / (2 as real);
    let y = rt - x;
    lemma_real_distributes(rt, x, rd);
    lemma_real_mul_half(rd);
    assert(y * rd <= h * rd);
    lemma_real_cancel(y, h, rd);
    if y <= -h {
        lemma_real_mul_ordered(y, -h, rd);
        lemma_real_distributes(h, h, rd);
    }
}

proof fn lemma_real_mul_half(d: real)
    ensures
        (2 as real) * (((1 as real) / (2 as real)) * d) == d,
{
    lemma_real_associative(2 as real, (1 as real) / (2 as real), d);
    lemma_real_one(d);
}

/// Rounding to an integer gives the nearest one, the one further from zero of two.
pub proof fn law_round_is_nearest(a: Binary64) -> (k: int)
    requires
        is_finite(a),
    ensures
        is_finite(fl_round(a)),
        value(fl_round(a)) == k as real,
        is_nearest_integer(k, value(a)),
{
    reveal(fl_round);
    let m = magnitude(a);
    let (s, e) = (significand(m), exponent(m));
    lemma_fields(m);
    lemma_power_lifted(e, 0);
    if e >= 0 {
        let k = s * pow2(e as nat);
        lemma_product_real(s as int, pow2(e as nat) as int);
        assert(value(a) == if negative(a) {
            (-k) as real
        } else {
            k as real
        });
        if negative(a) {
            -k
        } else {
            k as int
        }
    } else {
        let g = (-e) as nat;
        let d = pow2(g);
        lemma_pow2_pos(g);
        lemma2_to64();
        lemma_pow2_adds(1, g);
        lemma_pow2_ordered(1, g);
        let t = (2 * s + d) / (2 * d);
        lemma_fundamental_div_mod((2 * s + d) as int, (2 * d) as int);
        assert((2 * d) * t == 2 * (t * d)) by (nonlinear_arith);
        // x d == s
        let (p, x) = (power(e), mag_value(m));
        lemma_power_lifted(e, g);
        assert(power(0) == 1 as real);
        lemma_real_associative(s as real, p, d as real);
        lemma_real_one(s as real);
        lemma_half_up(t as int, s as int, d as int, x);
        assert(t <= s) by (nonlinear_arith)
            requires
                2 * (t * d) <= 2 * s + d,
                d >= 2,
                t >= 0,
                s >= 0,
        ;
        lemma_zero_value(fl(0));
        lemma_magnitudes_ordered(0, m);
        if t > 0 {
            lemma_exact_rounded(t, 0);
            lemma_real_one(t as real);
        } else {
            lemma_zero_value(signed(negative(a), 0));
        }
        if negative(a) {
            -(t as int)
        } else {
            t as int
        }
    }
}

/// An index is the integer part of a number, held between zero and the largest index.
pub proof fn law_index_is_integer_part(a: Binary64)
    ensures
        fl_index(a) <= usize::MAX,
        is_nan(a) ==> fl_index(a) == 0,
        is_finite(a) && value(a) < 0 as real ==> fl_index(a) == 0,
        is_finite(a) && value(a) >= 0 as real ==> fl_index(a) as real <= value(a) && (value(a) < (
        fl_index(a) + 1) as real || fl_index(a) == usize::MAX),
        magnitude(a) == INFINITE ==> fl_index(a) == if negative(a) {
            0
        } else {
            usize::MAX as nat
        },
{
    reveal(fl_index);
    if is_finite(a) {
        let m = magnitude(a);
        let (s, e) = (significand(m), exponent(m));
        lemma_fields(m);
        lemma_zero_value(fl(0));
        lemma_magnitudes_ordered(0, m);
        if negative(a) {
            if m > 0 {
                lemma_value_positive(m);
            } else {
                lemma_zero_value(a);
            }
        } else if e >= 0 {
            lemma_product_real(s as int, pow2(e as nat) as int);
        } else {
            let g = (-e) as nat;
            let d = pow2(g);
            lemma_pow2_pos(g);
            let t = s / d;
            lemma_fundamental_div_mod(s as int, d as int);
            assert(d * t == t * d) by (nonlinear_arith);
            let (p, x) = (power(e), mag_value(m));
            lemma_power_lifted(e, g);
            lemma2_to64();
            lemma_real_associative(s as real, p, d as real);
            lemma_real_one(s as real);
            assert(x * (d as real) == s as real);
            lemma_product_real(t as int, d as int);
            lemma_product_real((t + 1) as int, d as int);
            assert((t + 1) * d == t * d + d) by (nonlinear_arith);
            lemma_real_cancel(t as real, x, d as real);
            if x >= (t + 1) as real {
                lemma_real_mul_ordered((t + 1) as real, x, d as real);
            }
        }
    }
}

// ---------------------------------------------------------------------------
// Single precision
// ---------------------------------------------------------------------------

/// The encoding of a single precision number without its sign bit.
pub open spec fn magnitude32(x: Binary32) -> nat {
    if x.bits >= 0x8000_0000 {
        (x.bits - 0x8000_0000) as nat
    } else {
        x.bits as nat
    }
}

/// The real number that a finite single precision number stands for: the fraction bits count units
/// of `2^-149`, and units of twice the size with each exponent after the second.
pub open spec fn value32(x: Binary32) -> real {
    let m = magnitude32(x);
    let size = if m < 0x0080_0000 {
        (m as real) * power(-149)
    } else {
        ((0x0080_0000 + m % 0x0080_0000) as real) * power(m / 0x0080_0000 - 150)
    };
    if x.bits >= 0x8000_0000 {
        -size
    } else {
        size
    }
}

/// Widening keeps the value of a single precision number.
pub proof fn law_widening_keeps_value(x: Binary32)
    ensures
        magnitude32(x) < 0x7f80_0000 ==> is_finite(fl_widen(x)) && value(fl_widen(x)) == value32(x),
        magnitude32(x) == 0x7f80_0000 ==> magnitude(fl_widen(x)) == INFINITE && (negative(
            fl_widen(x),
        ) <==> x.bits >= 0x8000_0000),
        magnitude32(x) > 0x7f80_0000 ==> is_nan(fl_widen(x)),
{
    reveal(fl_widen);
    let m = magnitude32(x);
    if m == 0 {
        lemma_zero_value(fl_widen(x));
        lemma_real_distributes(0 as real, 0 as real, power(-149));
    } else if m < 0x0080_0000 {
        lemma_exact_rounded(m, -149);
    } else if m < 0x7f80_0000 {
        lemma_exact_rounded(0x0080_0000 + m % 0x0080_0000, m / 0x0080_0000 - 150);
    }
}

} // verus!
