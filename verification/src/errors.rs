//! The values of numbers as real numbers, and how far operations stray from exact results.
use crate::binary64::{
    exponent, fl_add, fl_div, fl_mul, fl_neg, fl_sqrt, fl_sub, in_units, lemma_fields, magnitude,
    nearest_root, negative, root_exponent, significand, Binary64,
};
use crate::exactness::{
    gap, is_finite, is_zero, lemma_encoded_value, lemma_representable, lemma_root_count,
    lemma_rounded_monotone, lemma_units_bounds, lemma_units_over, lemma_value_fills_units,
};
use crate::rounding::{
    bit_len, encoded, lemma_bit_len_bounds, lemma_pow2_ordered, lemma_rounded_cancelled,
    lemma_rounded_shifted, nearest_even, rounded, unit_exponent, units, INFINITE,
};
use vstd::arithmetic::div_mod::lemma_fundamental_div_mod;
use vstd::arithmetic::power2::{
    lemma2_to64, lemma2_to64_rest, lemma_pow2_adds, lemma_pow2_pos, pow2,
};
use vstd::prelude::*;

verus! {

/// The absolute value of a real number.
pub open spec fn abs(x: real) -> real {
    if x < 0 as real {
        -x
    } else {
        x
    }
}

/// The real number `2^e`.
pub open spec fn power(e: int) -> real {
    if e >= 0 {
        pow2(e as nat) as real
    } else {
        (1 as real) / (pow2((-e) as nat) as real)
    }
}

/// Half a unit in the last place of a number between one and two: the largest relative error of
/// a rounding.
pub open spec fn half_unit() -> real {
    (1 as real) / (0x0020_0000_0000_0000 as real)
}

/// The smallest positive number: the largest absolute error of a rounding below the normal
/// numbers.
pub open spec fn tiny() -> real {
    power(-1074)
}

/// The real number that a finite magnitude field stands for.
pub open spec fn mag_value(mag: nat) -> real {
    (significand(mag) as real) * power(exponent(mag))
}

/// The real number that a finite number stands for.
pub open spec fn value(x: Binary64) -> real {
    if negative(x) {
        -mag_value(magnitude(x))
    } else {
        mag_value(magnitude(x))
    }
}

/// Whether `x` is `exact` up to the rounding of one operation.
pub open spec fn is_rounding(x: real, exact: real) -> bool {
    abs(x - exact) <= abs(exact) * half_unit() + tiny()
}

/// A power times `2^k` is the power with the exponent raised by `k`.
pub proof fn lemma_power_lifted(e: int, k: nat)
    ensures
        power(e) > 0 as real,
        power(e) * (pow2(k) as real) == power(e + k),
{
    lemma_pow2_pos(k);
    if e >= 0 {
        lemma_pow2_pos(e as nat);
        lemma_pow2_adds(e as nat, k);
        let (p, q) = (pow2(e as nat), pow2(k));
        assert((p as real) * (q as real) == (p * q) as real) by {
            lemma_product_real(p as int, q as int);
        }
    } else {
        let m = (-e) as nat;
        lemma_pow2_pos(m);
        let d = pow2(m) as real;
        assert((1 as real) / d > 0 as real) by (nonlinear_arith)
            requires
                d > 0 as real,
        ;
        if k >= m {
            let r = (k - m) as nat;
            lemma_pow2_adds(r, m);
            let (p, q) = (pow2(r) as real, pow2(m) as real);
            lemma_product_real(pow2(r) as int, pow2(m) as int);
            assert(((1 as real) / q) * (p * q) == p) by (nonlinear_arith)
                requires
                    q > 0 as real,
            ;
        } else {
            let r = (m - k) as nat;
            lemma_pow2_adds(r, k);
            lemma_pow2_pos(r);
            let (p, q) = (pow2(r) as real, pow2(k) as real);
            lemma_product_real(pow2(r) as int, pow2(k) as int);
            assert(((1 as real) / (p * q)) * q == (1 as real) / p) by (nonlinear_arith)
                requires
                    p > 0 as real,
                    q > 0 as real,
            ;
        }
    }
}

/// The product of two integers is their product as real numbers.
pub proof fn lemma_product_real(a: int, b: int)
    ensures
        (a as real) * (b as real) == (a * b) as real,
{
    assert((a as real) * (b as real) == (a * b) as real) by (nonlinear_arith);
}

/// Multiplying by a number that is not negative keeps the order.
pub proof fn lemma_real_mul_ordered(a: real, b: real, c: real)
    by (nonlinear_arith)
    requires
        a <= b,
        c >= 0 as real,
    ensures
        a * c <= b * c,
{
}

/// A positive factor can be cancelled.
pub proof fn lemma_real_cancel(a: real, b: real, c: real)
    by (nonlinear_arith)
    requires
        a * c <= b * c,
        c > 0 as real,
    ensures
        a <= b,
{
}

/// A quotient times its denominator is the numerator.
pub proof fn lemma_real_quotient(a: real, b: real)
    by (nonlinear_arith)
    requires
        b > 0 as real,
    ensures
        (a / b) * b == a,
{
}

/// Products of three real numbers.
pub proof fn lemma_real_associative(a: real, b: real, c: real)
    by (nonlinear_arith)
    ensures
        (a * b) * c == a * (b * c),
        (a * b) * c == (a * c) * b,
        a * b == b * a,
{
}

/// The product of two positive numbers is positive.
pub proof fn lemma_real_positive(a: real, b: real)
    by (nonlinear_arith)
    requires
        a > 0 as real,
        b > 0 as real,
    ensures
        a * b > 0 as real,
{
}

/// Products of differences.
pub proof fn lemma_real_distributes(a: real, b: real, c: real)
    by (nonlinear_arith)
    ensures
        (a - b) * c == a * c - b * c,
        (a + b) * c == a * c + b * c,
        (-a) * c == -(a * c),
{
}

/// The value of a magnitude field that is counted in a finer unit.
pub proof fn lemma_in_units_value(mag: nat, b: int)
    requires
        b <= exponent(mag),
    ensures
        (in_units(mag, b) as real) * power(b) == mag_value(mag),
{
    let g = (exponent(mag) - b) as nat;
    lemma_power_lifted(b, g);
    let (s, p) = (significand(mag), pow2(g));
    lemma_product_real(s as int, p as int);
    let (x, y, z) = (s as real, p as real, power(b));
    assert((x * y) * z == x * (z * y)) by (nonlinear_arith);
}

/// The nearest multiple of `den` is no further from `num` than half of `den`.
proof fn lemma_nearest_even_half(num: nat, den: nat)
    requires
        den > 0,
    ensures
        2 * gap((nearest_even(num, den) * den) as int, num as int) <= den,
{
    let q = num / den;
    lemma_fundamental_div_mod(num as int, den as int);
    assert((q + 1) * den == q * den + den) by (nonlinear_arith);
    assert(den * q == q * den) by (nonlinear_arith);
}

/// A value rounds to a number that is off by half a unit in the last place at most.
pub proof fn lemma_rounded_value(n: nat, d: nat, j: int)
    requires
        n >= d > 0,
        rounded(n, d, j) < INFINITE,
    ensures
        is_rounding(mag_value(rounded(n, d, j)), (n as real) / (d as real) * power(j)),
        (n as real) / (d as real) * power(j) > 0 as real,
        unit_exponent(n, d, j) > -1074 ==> abs(
            mag_value(rounded(n, d, j)) - (n as real) / (d as real) * power(j),
        ) <= ((n as real) / (d as real) * power(j)) * half_unit(),
{
    let b = if j < -1074 {
        j
    } else {
        -1074
    };
    let e = unit_exponent(n, d, j);
    let q = units(n, d, j, e);
    let best = rounded(n, d, j);
    let unit = pow2((e - b) as nat);
    let shift = pow2((j - b) as nat);
    let den = d * unit;
    let num = n * shift;
    lemma_units_bounds(n, d, j);
    lemma_units_over(n, d, j, e, b);
    lemma_encoded_value(q, e, b);
    lemma_fields(best);
    lemma_nearest_even_half(num, den);
    lemma_in_units_value(best, b);
    lemma_power_lifted(b, (e - b) as nat);
    lemma_power_lifted(b, (j - b) as nat);
    lemma_power_lifted(j, 0);
    lemma_product_real(d as int, unit as int);
    lemma_product_real(n as int, shift as int);
    lemma_product_real(q as int, unit as int);
    lemma_product_real(q as int, den as int);
    let pb = power(b);
    let pe = power(e);
    let v = mag_value(best);
    let (rn, rd, rq, ru, rs) = (n as real, d as real, q as real, unit as real, shift as real);
    let r = rn / rd;
    let x = r * power(j);
    lemma_real_quotient(rn, rd);
    // x * d == num * 2^b
    lemma_real_associative(r, power(j), rd);
    lemma_real_associative(rn, rs, pb);
    lemma_real_associative(rs, pb, rn);
    assert(x * rd == rn * power(j));
    assert(power(j) == pb * rs);
    assert(rs * pb == pb * rs) by {
        lemma_real_associative(rs, pb, rd);
    }
    assert(x * rd == (rn * rs) * pb);
    lemma_real_positive(rn, power(j));
    lemma_positive_factor(x, rd);
    // v * d == (q * den) * 2^b
    lemma_real_associative(rq * ru, pb, rd);
    lemma_real_associative(rq, ru, rd);
    lemma_real_associative(ru, rd, rq);
    assert(v == (rq * ru) * pb);
    assert(v * rd == (rq * (rd * ru)) * pb);
    let err = rq * (rd * ru) - rn * rs;
    lemma_real_distributes(rq * (rd * ru), rn * rs, pb);
    lemma_real_distributes(v, x, rd);
    assert((v - x) * rd == err * pb);
    let width = rd * ru;
    assert(-width <= err + err && err + err <= width);
    let twice = (v - x) + (v - x);
    lemma_real_distributes(v - x, v - x, rd);
    lemma_real_distributes(err, err, pb);
    assert(twice * rd == (err + err) * pb);
    lemma_real_mul_ordered(err + err, width, pb);
    lemma_real_mul_ordered(-width, err + err, pb);
    lemma_real_distributes(width, width, pb);
    lemma_real_associative(rd, ru, pb);
    lemma_real_associative(ru, pb, rd);
    assert(width * pb == pe * rd) by {
        assert(pe == pb * ru);
        lemma_real_associative(pb, ru, rd);
        lemma_real_associative(rd, pb, ru);
    }
    lemma_real_distributes(pe, pe, rd);
    lemma_real_cancel(twice, pe, rd);
    lemma_real_cancel(-pe, twice, rd);
    let h = half_unit();
    lemma_real_mul_ordered(0 as real, x, h);
    if e > -1074 {
        lemma_value_fills_units(n, d, j, b);
        let c = 0x0010_0000_0000_0000 as real;
        lemma_product_real(0x0010_0000_0000_0000, den as int);
        assert(c * width <= rn * rs);
        lemma_real_mul_ordered(c * width, rn * rs, pb);
        lemma_real_associative(c, width, pb);
        lemma_real_associative(c, pe, rd);
        assert((c * pe) * rd <= x * rd);
        lemma_real_cancel(c * pe, x, rd);
        lemma_real_mul_ordered(c * pe, x, h);
        lemma_real_associative(c, pe, h);
        lemma_real_associative(c, h, pe);
        assert(c * h + c * h == 1 as real);
        lemma_real_distributes(c * h, c * h, pe);
        assert((c * h) * pe + (c * h) * pe == pe);
        assert(x * h + x * h >= pe);
        lemma_power_lifted(-1074, 0);
    }
}

/// A number whose product with a positive one is positive is positive.
proof fn lemma_positive_factor(a: real, b: real)
    by (nonlinear_arith)
    requires
        a * b > 0 as real,
        b > 0 as real,
    ensures
        a > 0 as real,
{
}

/// Powers of two multiply by adding their exponents.
pub proof fn lemma_power_adds(a: int, b: int)
    ensures
        power(a) * power(b) == power(a + b),
{
    if b >= 0 {
        lemma_power_lifted(a, b as nat);
    } else {
        let k = (-b) as nat;
        lemma_power_lifted(a + b, k);
        lemma_power_lifted(b, k);
        lemma2_to64();
        let p = pow2(k) as real;
        assert(power(0) == 1 as real);
        lemma_real_associative(power(a + b), p, power(b));
        lemma_real_associative(p, power(b), power(b));
        assert(power(a) * power(b) == power(a + b) * (p * power(b)));
        assert(p * power(b) == 1 as real);
        lemma_real_one(power(a + b));
    }
}

/// Multiplying by one changes nothing.
pub proof fn lemma_real_one(a: real)
    by (nonlinear_arith)
    ensures
        a * (1 as real) == a,
        (1 as real) * a == a,
{
}

/// Whether a number is near another does not depend on the side of zero on which both lie.
proof fn lemma_rounding_negated(x: real, exact: real)
    ensures
        is_rounding(x, exact) == is_rounding(-x, -exact),
{
    assert(abs((-x) - (-exact)) == abs(x - exact));
    assert(abs(-exact) == abs(exact));
}

/// An exact result is a rounding of itself.
pub proof fn lemma_rounding_exact(x: real)
    ensures
        is_rounding(x, x),
{
    lemma_power_lifted(-1074, 0);
    lemma_real_mul_ordered(0 as real, abs(x), half_unit());
}

/// The value of a zero.
pub proof fn lemma_zero_value(x: Binary64)
    requires
        is_zero(x),
    ensures
        value(x) == 0 as real,
{
    let p = power(-1074);
    assert((0 as real) * p == 0 as real) by {
        lemma_real_distributes(0 as real, 0 as real, p);
    }
}

/// The value of a finite number other than zero, without its sign, is positive.
pub proof fn lemma_value_positive(mag: nat)
    requires
        0 < mag < INFINITE,
    ensures
        mag_value(mag) > 0 as real,
{
    lemma_fields(mag);
    lemma_power_lifted(exponent(mag), 0);
    lemma_real_positive(significand(mag) as real, power(exponent(mag)));
}

/// A product strays from the exact one by one rounding.
pub proof fn lemma_mul_value(a: Binary64, b: Binary64)
    requires
        is_finite(a),
        is_finite(b),
        is_finite(fl_mul(a, b)),
    ensures
        is_rounding(value(fl_mul(a, b)), value(a) * value(b)),
{
    let (x, y) = (magnitude(a), magnitude(b));
    let (u, v) = (mag_value(x), mag_value(y));
    lemma_real_distributes(u, u, v);
    lemma_real_distributes(v, v, u);
    lemma_real_distributes(u, u, -v);
    lemma_real_associative(u, v, v);
    lemma_real_associative(u, -v, v);
    if x == 0 || y == 0 {
        assert(is_zero(fl_mul(a, b))) by {
            reveal(fl_mul);
        }
        lemma_zero_value(fl_mul(a, b));
        if x == 0 {
            lemma_zero_value(a);
            lemma_real_distributes(0 as real, 0 as real, value(b));
        } else {
            lemma_zero_value(b);
            lemma_real_distributes(0 as real, 0 as real, value(a));
            lemma_real_associative(value(a), 0 as real, 0 as real);
        }
        lemma_rounding_exact(0 as real);
    } else {
        lemma_fields(x);
        lemma_fields(y);
        let (s, t) = (significand(x), significand(y));
        let n = s * t;
        let j = exponent(x) + exponent(y);
        assert(n >= 1) by (nonlinear_arith)
            requires
                n == s * t,
                s >= 1,
                t >= 1,
        ;
        let m = rounded(n, 1, j);
        assert(magnitude(fl_mul(a, b)) == m && negative(fl_mul(a, b)) == (negative(a)
            != negative(b))) by {
            reveal(fl_mul);
        }
        lemma_rounded_value(n, 1, j);
        lemma_product_real(s as int, t as int);
        lemma_power_adds(exponent(x), exponent(y));
        let (rs, rt, p, q) = (s as real, t as real, power(exponent(x)), power(exponent(y)));
        assert((n as real) / (1 as real) == rs * rt);
        assert((rs * rt) * (p * q) == (rs * p) * (rt * q)) by {
            lemma_real_associative(rs * rt, p, q);
            lemma_real_associative(rs, rt, p);
            lemma_real_associative(rs * p, rt, q);
        }
        lemma_rounding_negated(mag_value(m), u * v);
        assert((-u) * (-v) == u * v) by {
            lemma_real_distributes(u, u, -v);
            lemma_real_associative(u, -v, v);
            lemma_real_distributes(v, v, u);
            lemma_real_associative(v, u, u);
        }
        assert(u * (-v) == -(u * v)) by {
            lemma_real_associative(u, -v, v);
            lemma_real_distributes(v, v, u);
            lemma_real_associative(v, u, u);
        }
    }
}

/// The quotient is the only number whose product with the denominator is the numerator.
proof fn lemma_real_quotient_unique(x: real, a: real, b: real)
    by (nonlinear_arith)
    requires
        x * b == a,
        b != 0 as real,
    ensures
        x == a / b,
{
}

/// A quotient strays from the exact one by one rounding.
pub proof fn lemma_div_value(a: Binary64, b: Binary64)
    requires
        is_finite(a),
        is_finite(b),
        !is_zero(b),
        is_finite(fl_div(a, b)),
    ensures
        value(b) != 0 as real,
        is_rounding(value(fl_div(a, b)), value(a) / value(b)),
{
    let (x, y) = (magnitude(a), magnitude(b));
    let (u, v) = (mag_value(x), mag_value(y));
    lemma_value_positive(y);
    if x == 0 {
        assert(is_zero(fl_div(a, b))) by {
            reveal(fl_div);
        }
        lemma_zero_value(fl_div(a, b));
        lemma_zero_value(a);
        lemma_real_distributes(0 as real, 0 as real, value(b));
        lemma_real_quotient_unique(0 as real, 0 as real, value(b));
        lemma_rounding_exact(0 as real);
    } else {
        lemma_fields(x);
        lemma_fields(y);
        let (s, t) = (significand(x), significand(y));
        let wide = pow2(128);
        lemma2_to64_rest();
        lemma_pow2_ordered(53, 128);
        assert(s * wide >= t) by (nonlinear_arith)
            requires
                s >= 1,
                wide >= 0x0020_0000_0000_0000,
                t < 0x0020_0000_0000_0000,
        ;
        let n = s * wide;
        let j = exponent(x) - exponent(y) - 128;
        let m = rounded(n, t, j);
        assert(magnitude(fl_div(a, b)) == m && negative(fl_div(a, b)) == (negative(a)
            != negative(b))) by {
            reveal(fl_div);
        }
        lemma_rounded_value(n, t, j);
        lemma_product_real(s as int, wide as int);
        lemma_power_lifted(j, 128);
        lemma_power_adds(exponent(x) - exponent(y), exponent(y));
        let (rs, rt, rw) = (s as real, t as real, wide as real);
        let (p, q, g) = (power(j), power(exponent(y)), power(exponent(x) - exponent(y)));
        let r = (n as real) / rt;
        let exact = r * p;
        lemma_real_quotient(n as real, rt);
        assert(exact * v == u) by {
            // (r p) (t q) = (r t) (p q) = (s w) (p q) = s ((p w) q) = s (g q)
            lemma_real_associative(exact, rt, q);
            lemma_real_associative(r, p, rt);
            lemma_real_associative(rs, rw, p);
            lemma_real_associative(rw, p, p);
            lemma_real_associative(rs, g, q);
            assert(exact * rt == (rs * rw) * p);
            assert(rw * p == g);
            assert(exact * rt == rs * g);
        }
        lemma_real_distributes(exact, exact, v);
        lemma_real_associative(exact, -v, v);
        lemma_real_distributes(v, v, exact);
        lemma_real_associative(v, exact, v);
        lemma_rounding_negated(mag_value(m), exact);
        if negative(a) != negative(b) {
            assert((-exact) * value(b) == value(a)) by {
                lemma_real_distributes(exact, exact, value(b));
            }
            lemma_real_quotient_unique(-exact, value(a), value(b));
        } else {
            lemma_real_quotient_unique(exact, value(a), value(b));
        }
    }
}

/// The value of a negated number.
pub proof fn lemma_neg_value(a: Binary64)
    requires
        is_finite(a),
    ensures
        is_finite(fl_neg(a)),
        value(fl_neg(a)) == -value(a),
{
    reveal(fl_neg);
}

/// A sum strays from the exact one by one rounding.
pub proof fn lemma_add_value(a: Binary64, b: Binary64)
    requires
        is_finite(a),
        is_finite(b),
        is_finite(fl_add(a, b)),
    ensures
        is_rounding(value(fl_add(a, b)), value(a) + value(b)),
{
    let (x, y) = (magnitude(a), magnitude(b));
    let e = if exponent(x) < exponent(y) {
        exponent(x)
    } else {
        exponent(y)
    };
    lemma_in_units_value(x, e);
    lemma_in_units_value(y, e);
    let p = power(e);
    let u = if negative(a) {
        -in_units(x, e)
    } else {
        in_units(x, e) as int
    };
    let v = if negative(b) {
        -in_units(y, e)
    } else {
        in_units(y, e) as int
    };
    lemma_real_distributes(in_units(x, e) as real, in_units(x, e) as real, p);
    lemma_real_distributes(in_units(y, e) as real, in_units(y, e) as real, p);
    assert((u as real) * p == value(a));
    assert((v as real) * p == value(b));
    lemma_real_distributes(u as real, v as real, p);
    let sum = u + v;
    assert((sum as real) * p == value(a) + value(b));
    if sum == 0 {
        assert(is_zero(fl_add(a, b))) by {
            reveal(fl_add);
        }
        lemma_zero_value(fl_add(a, b));
        lemma_real_distributes(0 as real, 0 as real, p);
        lemma_rounding_exact(0 as real);
    } else {
        let n = if sum < 0 {
            (-sum) as nat
        } else {
            sum as nat
        };
        let m = rounded(n, 1, e);
        assert(magnitude(fl_add(a, b)) == m && negative(fl_add(a, b)) == (sum < 0)) by {
            reveal(fl_add);
        }
        lemma_rounded_value(n, 1, e);
        assert((n as real) / (1 as real) == n as real);
        lemma_real_distributes(n as real, n as real, p);
        lemma_rounding_negated(mag_value(m), (n as real) * p);
    }
}

/// A sum of whole units that fits below the second smallest power of the normal numbers is exact.
proof fn lemma_small_sum_exact(n: nat, e: int)
    requires
        n >= 1,
        e >= -1074,
        unit_exponent(n, 1, e) == -1074,
    ensures
        mag_value(rounded(n, 1, e)) == (n as real) * power(e),
{
    let g = (e + 1074) as nat;
    let len = bit_len(n);
    lemma_bit_len_bounds(n);
    lemma_pow2_pos(g);
    lemma_pow2_adds(len, g);
    lemma_pow2_ordered(len + g, 53);
    lemma2_to64_rest();
    let m = n * pow2(g);
    assert(1 <= m < 0x0020_0000_0000_0000) by (nonlinear_arith)
        requires
            m == n * pow2(g),
            1 <= n < pow2(len),
            pow2(g) >= 1,
            pow2(len) * pow2(g) <= 0x0020_0000_0000_0000,
    ;
    lemma_rounded_shifted(n, 1, e, g);
    lemma_representable(m);
    assert(significand(m) == m && exponent(m) == -1074);
    lemma_power_lifted(-1074, g);
    lemma_product_real(n as int, pow2(g) as int);
    lemma_real_associative(n as real, pow2(g) as real, power(-1074));
    lemma_real_associative(pow2(g) as real, power(-1074), n as real);
}

/// A sum strays from the exact one by a part of it.
pub proof fn lemma_add_relative(a: Binary64, b: Binary64)
    requires
        is_finite(a),
        is_finite(b),
        is_finite(fl_add(a, b)),
    ensures
        abs(value(fl_add(a, b)) - (value(a) + value(b))) <= abs(value(a) + value(b)) * half_unit(),
{
    let (x, y) = (magnitude(a), magnitude(b));
    let e = if exponent(x) < exponent(y) {
        exponent(x)
    } else {
        exponent(y)
    };
    lemma_fields(x);
    lemma_fields(y);
    lemma_in_units_value(x, e);
    lemma_in_units_value(y, e);
    let p = power(e);
    let u = if negative(a) {
        -in_units(x, e)
    } else {
        in_units(x, e) as int
    };
    let v = if negative(b) {
        -in_units(y, e)
    } else {
        in_units(y, e) as int
    };
    lemma_real_distributes(in_units(x, e) as real, in_units(x, e) as real, p);
    lemma_real_distributes(in_units(y, e) as real, in_units(y, e) as real, p);
    lemma_real_distributes(u as real, v as real, p);
    let sum = u + v;
    assert((sum as real) * p == value(a) + value(b));
    if sum == 0 {
        assert(is_zero(fl_add(a, b))) by {
            reveal(fl_add);
        }
        lemma_zero_value(fl_add(a, b));
        lemma_real_distributes(0 as real, 0 as real, p);
        lemma_real_distributes(0 as real, 0 as real, half_unit());
    } else {
        let n = if sum < 0 {
            (-sum) as nat
        } else {
            sum as nat
        };
        let m = rounded(n, 1, e);
        assert(magnitude(fl_add(a, b)) == m && negative(fl_add(a, b)) == (sum < 0)) by {
            reveal(fl_add);
        }
        lemma_rounded_value(n, 1, e);
        assert((n as real) / (1 as real) == n as real);
        lemma_real_distributes(n as real, n as real, p);
        if unit_exponent(n, 1, e) == -1074 {
            lemma_small_sum_exact(n, e);
            lemma_real_mul_ordered(0 as real, (n as real) * p, half_unit());
            lemma_real_distributes(0 as real, 0 as real, half_unit());
        }
    }
}

/// The square of a square root strays from the number by two roundings, relative to itself.
pub proof fn lemma_sqrt_value(a: Binary64)
    requires
        !negative(a),
        0 < magnitude(a) < INFINITE,
    ensures
        is_finite(fl_sqrt(a)),
        !negative(fl_sqrt(a)),
        value(fl_sqrt(a)) > 0 as real,
        abs(value(fl_sqrt(a)) * value(fl_sqrt(a)) - value(a)) <= (value(fl_sqrt(a)) * value(
            fl_sqrt(a),
        )) * ((4 as real) * half_unit()),
{
    let x = magnitude(a);
    lemma_fields(x);
    lemma_root_count(x);
    let s = significand(x);
    let e = exponent(x);
    let u = root_exponent(s, e);
    let k = (e - 2 * u) as nat;
    let y = s * pow2(k);
    let t = nearest_root(y);
    lemma_encoded_value(t, u, -1074);
    let m = encoded(t, u);
    assert(magnitude(fl_sqrt(a)) == m && !negative(fl_sqrt(a))) by {
        reveal(fl_sqrt);
    }
    lemma_fields(m);
    lemma_in_units_value(m, -1074);
    lemma_power_lifted(-1074, (u + 1074) as nat);
    lemma_power_lifted(u, 0);
    lemma_power_lifted(2 * u, k);
    lemma_power_adds(u, u);
    lemma_product_real(t as int, pow2((u + 1074) as nat) as int);
    lemma_product_real(s as int, pow2(k) as int);
    lemma_product_real(t as int, t as int);
    let (rt, p, q) = (t as real, power(u), power(2 * u));
    let r = value(fl_sqrt(a));
    let shift = pow2((u + 1074) as nat) as real;
    assert(r == rt * p) by {
        lemma_real_associative(rt, shift, power(-1074));
        lemma_real_associative(shift, power(-1074), p);
    }
    lemma_real_positive(rt, p);
    lemma_real_positive(p, p);
    assert(r * r == (rt * rt) * q) by {
        lemma_real_associative(rt * p, rt, p);
        lemma_real_associative(rt, p, rt);
        lemma_real_associative(rt * rt, p, p);
    }
    let ry = y as real;
    assert(value(a) == ry * q) by {
        let (rs, rp) = (s as real, pow2(k) as real);
        lemma_real_associative(rs, rp, q);
        lemma_real_associative(rp, q, q);
    }
    let square = t * t;
    assert(square - y <= t + 1 && y - square <= t + 1) by (nonlinear_arith)
        requires
            (2 * t - 1) * (2 * t - 1) <= 4 * y,
            4 * y <= (2 * t + 1) * (2 * t + 1),
            square == t * t,
    ;
    assert((t + 1) * 0x0008_0000_0000_0000 <= square) by (nonlinear_arith)
        requires
            t >= 0x0010_0000_0000_0000,
            square == t * t,
    ;
    let gap = (square as real) - ry;
    let c = 0x0008_0000_0000_0000 as real;
    let f = (4 as real) * half_unit();
    assert(f * c == 1 as real);
    lemma_product_real((t + 1) as int, 0x0008_0000_0000_0000);
    let w = (t + 1) as real;
    assert(w <= (square as real) * f) by {
        lemma_real_mul_ordered(w * c, square as real, f);
        lemma_real_associative(w, c, f);
        lemma_real_associative(c, f, f);
    }
    lemma_real_distributes(square as real, ry, q);
    lemma_real_mul_ordered(gap, (square as real) * f, q);
    lemma_real_mul_ordered(-((square as real) * f), gap, q);
    lemma_real_distributes((square as real) * f, gap, q);
    lemma_real_associative(square as real, f, q);
}

/// A value up to `2^1023` does not overflow.
proof fn lemma_rounded_finite(n: nat, d: nat, j: int)
    requires
        n >= d > 0,
        (n as real) / (d as real) * power(j) <= power(1023),
    ensures
        rounded(n, d, j) < INFINITE,
{
    let (rn, rd, p) = (n as real, d as real, power(j));
    let r = rn / rd;
    lemma_power_lifted(j, 0);
    lemma_real_quotient(rn, rd);
    lemma_real_mul_ordered(r * p, power(1023), rd);
    lemma_real_associative(r, p, rd);
    assert(rn * p <= power(1023) * rd);
    if j > 1023 {
        let g = (j - 1023) as nat;
        lemma_power_lifted(1023, g);
        lemma_pow2_ordered(1, g);
        lemma2_to64();
        let q = power(1023);
        lemma_real_mul_ordered(2 as real, pow2(g) as real, q);
        lemma_real_associative(pow2(g) as real, q, q);
        lemma_real_mul_ordered(rd, rn, p);
        lemma_real_mul_ordered((2 as real) * q, p, rd);
        lemma_real_associative(p, rd, rd);
        lemma_real_distributes(q, q, rd);
        lemma_power_lifted(1023, 0);
        lemma_real_positive(q, rd);
        assert((2 as real) * q == q + q);
    }
    let g = (1023 - j) as nat;
    lemma_power_lifted(j, g);
    let top = pow2(g);
    lemma_pow2_pos(g);
    lemma_real_associative(p, top as real, rd);
    lemma_real_associative(top as real, rd, p);
    assert(rn * p <= ((top as real) * rd) * p);
    lemma_real_cancel(rn, (top as real) * rd, p);
    lemma_product_real(top as int, d as int);
    assert(n <= top * d);
    lemma_rounded_monotone(n, top * d, d, j);
    lemma_rounded_cancelled(top, 1, j, d);
    assert(1 * d == d);
    lemma_rounded_shifted(1, 1, 1023, g);
    assert(1 * top == top);
    lemma2_to64_rest();
    lemma2_to64();
    // 2^1023
    lemma_representable(0x7fe0_0000_0000_0000);
    lemma_rounded_shifted(1, 1, 1023, 52);
}

/// The bound on an error relative to the scale of a computation: `1e-14`.
pub open spec fn slack() -> real {
    (1 as real) / (100000000000000 as real)
}

/// A scale below which the analysis does not look: `1e-40`.
pub open spec fn dust() -> real {
    (1 as real) / (10000000000000000000000000000000000000000int as real)
}

/// The smallest positive number is below that scale.
pub proof fn lemma_tiny_small()
    ensures
        0 as real <= tiny() <= dust(),
{
    lemma_constants();
    lemma_power_lifted(-1074, 0);
    lemma_real_mul_ordered(slack(), 1 as real, dust());
    lemma_real_one(dust());
}

proof fn lemma_constants()
    ensures
        tiny() * (2 as real) <= slack() * dust(),
        (40 as real) * half_unit() * (2 as real) <= slack(),
        power(128) >= 100000000000000000000000000000000000000int as real,
{
    lemma2_to64();
    lemma_pow2_adds(64, 64);
    lemma_pow2_adds(128, 64);
    let p = pow2(64);
    assert(p == 0x1_0000_0000_0000_0000);
    assert(pow2(128) == 0x1_0000_0000_0000_0000_0000_0000_0000_0000int);
    assert(pow2(192) == 0x1_0000_0000_0000_0000_0000_0000_0000_0000_0000_0000_0000_0000int);
    lemma_pow2_ordered(192, 1074);
    let q = pow2(1074) as real;
    let b = 0x1_0000_0000_0000_0000_0000_0000_0000_0000_0000_0000_0000_0000int as real;
    let t = tiny();
    lemma_real_quotient(1 as real, q);
    assert(t * q == 1 as real);
    lemma_power_lifted(-1074, 0);
    lemma_real_mul_ordered(b, q, t);
    lemma_real_associative(b, t, t);
    lemma_real_associative(q, t, t);
    assert(t * b <= 1 as real);
    let k = slack() * dust();
    let m = 1000000000000000000000000000000000000000000000000000000int as real;
    let (e, f) = (100000000000000 as real, 10000000000000000000000000000000000000000int as real);
    lemma_real_quotient(1 as real, e);
    lemma_real_quotient(1 as real, f);
    lemma_product_real(100000000000000, 10000000000000000000000000000000000000000int);
    assert(k * m == 1 as real) by {
        lemma_real_associative(slack(), dust(), m);
        lemma_real_associative(slack(), e, f);
        lemma_real_associative(dust(), f, e);
        assert(e * f == m);
        lemma_real_associative(slack() * e, dust(), f);
        lemma_real_associative(slack(), e, dust());
        lemma_real_associative(slack() * dust(), e, f);
        lemma_real_associative(slack(), dust(), e);
        assert((slack() * e) * (dust() * f) == 1 as real);
    }
    lemma_real_mul_ordered(m + m, b, t);
    lemma_real_associative(m + m, t, t);
    lemma_real_associative(b, t, t);
    lemma_real_associative(m, t, t);
    lemma_real_distributes(m, m, t);
    assert((t + t) * m <= k * m) by {
        lemma_real_distributes(t, t, m);
    }
    lemma_real_cancel(t + t, k, m);
}

/// One rounding of a result of the given scale.
proof fn lemma_step_error(x: real, exact: real, scale: real)
    requires
        is_rounding(x, exact),
        abs(exact) <= (40 as real) * scale,
        scale >= dust(),
    ensures
        abs(x - exact) <= slack() * scale,
{
    lemma_constants();
    let h = half_unit();
    lemma_real_mul_ordered(abs(exact), (40 as real) * scale, h);
    lemma_real_associative(40 as real, scale, h);
    let f = (40 as real) * h;
    assert(f * scale + f * scale <= slack() * scale) by {
        lemma_real_distributes(f, f, scale);
        lemma_real_mul_ordered(f + f, slack(), scale);
    }
    lemma_real_mul_ordered(dust(), scale, slack());
    lemma_real_associative(slack(), dust(), scale);
    lemma_real_associative(slack(), scale, scale);
}

proof fn lemma_scale_fits(exact: real, scale: real)
    requires
        abs(exact) <= (40 as real) * scale,
        scale <= 1000000000000000000000000000000int as real,
    ensures
        abs(exact) <= power(1023),
{
    lemma_constants();
    lemma_pow2_ordered(128, 1023);
}

/// A product of the given scale is finite and off by the slack at most.
pub proof fn lemma_mul_near(a: Binary64, b: Binary64, scale: real)
    requires
        is_finite(a),
        is_finite(b),
        abs(value(a) * value(b)) <= (40 as real) * scale,
        dust() <= scale <= 1000000000000000000000000000000int as real,
    ensures
        is_finite(fl_mul(a, b)),
        abs(value(fl_mul(a, b)) - value(a) * value(b)) <= slack() * scale,
{
    lemma_scale_fits(value(a) * value(b), scale);
    lemma_mul_finite(a, b);
    lemma_mul_value(a, b);
    lemma_step_error(value(fl_mul(a, b)), value(a) * value(b), scale);
}

/// A product up to `2^1023` is finite.
pub proof fn lemma_mul_finite(a: Binary64, b: Binary64)
    requires
        is_finite(a),
        is_finite(b),
        abs(value(a) * value(b)) <= power(1023),
    ensures
        is_finite(fl_mul(a, b)),
{
    let (x, y) = (magnitude(a), magnitude(b));
    reveal(fl_mul);
    if x > 0 && y > 0 {
        lemma_fields(x);
        lemma_fields(y);
        let (s, t) = (significand(x), significand(y));
        let n = s * t;
        assert(n >= 1) by (nonlinear_arith)
            requires
                n == s * t,
                s >= 1,
                t >= 1,
        ;
        let (u, v) = (mag_value(x), mag_value(y));
        lemma_value_positive(x);
        lemma_value_positive(y);
        lemma_real_positive(u, v);
        assert(abs(value(a) * value(b)) == u * v) by {
            lemma_real_distributes(u, u, v);
            lemma_real_distributes(u, u, -v);
            lemma_real_associative(u, -v, v);
            lemma_real_distributes(v, v, u);
            lemma_real_associative(v, u, u);
        }
        lemma_product_real(s as int, t as int);
        lemma_power_adds(exponent(x), exponent(y));
        let (rs, rt, p, q) = (s as real, t as real, power(exponent(x)), power(exponent(y)));
        assert((n as real) / (1 as real) == rs * rt);
        assert((rs * rt) * (p * q) == (rs * p) * (rt * q)) by {
            lemma_real_associative(rs * rt, p, q);
            lemma_real_associative(rs, rt, p);
            lemma_real_associative(rs * p, rt, q);
        }
        lemma_rounded_finite(n, 1, exponent(x) + exponent(y));
    }
}

/// A sum up to `2^1023` is finite.
pub proof fn lemma_add_finite(a: Binary64, b: Binary64)
    requires
        is_finite(a),
        is_finite(b),
        abs(value(a) + value(b)) <= power(1023),
    ensures
        is_finite(fl_add(a, b)),
{
    let (x, y) = (magnitude(a), magnitude(b));
    let e = if exponent(x) < exponent(y) {
        exponent(x)
    } else {
        exponent(y)
    };
    lemma_in_units_value(x, e);
    lemma_in_units_value(y, e);
    let p = power(e);
    lemma_power_lifted(e, 0);
    let u = if negative(a) {
        -in_units(x, e)
    } else {
        in_units(x, e) as int
    };
    let v = if negative(b) {
        -in_units(y, e)
    } else {
        in_units(y, e) as int
    };
    lemma_real_distributes(in_units(x, e) as real, in_units(x, e) as real, p);
    lemma_real_distributes(in_units(y, e) as real, in_units(y, e) as real, p);
    lemma_real_distributes(u as real, v as real, p);
    let sum = u + v;
    assert((sum as real) * p == value(a) + value(b));
    assert(is_finite(fl_add(a, b))) by {
        reveal(fl_add);
        if sum != 0 {
            let n = if sum < 0 {
                (-sum) as nat
            } else {
                sum as nat
            };
            assert((n as real) / (1 as real) == n as real);
            lemma_real_distributes(n as real, n as real, p);
            lemma_real_positive(n as real, p);
            lemma_rounded_finite(n, 1, e);
        }
    }
}

/// A sum of the given scale is finite and off by the slack at most.
pub proof fn lemma_add_near(a: Binary64, b: Binary64, scale: real)
    requires
        is_finite(a),
        is_finite(b),
        abs(value(a) + value(b)) <= (40 as real) * scale,
        dust() <= scale <= 1000000000000000000000000000000int as real,
    ensures
        is_finite(fl_add(a, b)),
        abs(value(fl_add(a, b)) - (value(a) + value(b))) <= slack() * scale,
{
    lemma_scale_fits(value(a) + value(b), scale);
    lemma_add_finite(a, b);
    lemma_add_value(a, b);
    lemma_step_error(value(fl_add(a, b)), value(a) + value(b), scale);
}

/// A difference of the given scale is finite and off by the slack at most.
pub proof fn lemma_sub_near(a: Binary64, b: Binary64, scale: real)
    requires
        is_finite(a),
        is_finite(b),
        abs(value(a) - value(b)) <= (40 as real) * scale,
        dust() <= scale <= 1000000000000000000000000000000int as real,
    ensures
        is_finite(fl_sub(a, b)),
        abs(value(fl_sub(a, b)) - (value(a) - value(b))) <= slack() * scale,
{
    lemma_neg_value(b);
    lemma_add_near(a, fl_neg(b), scale);
}

/// A quotient of the given scale is finite and off by the slack at most.
pub proof fn lemma_div_near(a: Binary64, b: Binary64, scale: real)
    requires
        is_finite(a),
        is_finite(b),
        !negative(b),
        !is_zero(b),
        abs(value(a) / value(b)) <= (40 as real) * scale,
        dust() <= scale <= 1000000000000000000000000000000int as real,
    ensures
        is_finite(fl_div(a, b)),
        value(b) > 0 as real,
        abs(value(fl_div(a, b)) - value(a) / value(b)) <= slack() * scale,
{
    lemma_scale_fits(value(a) / value(b), scale);
    let (x, y) = (magnitude(a), magnitude(b));
    lemma_value_positive(y);
    lemma_quotient_finite(a, b);
    lemma_div_value(a, b);
    lemma_step_error(value(fl_div(a, b)), value(a) / value(b), scale);
}

/// A quotient up to `2^1023` is finite.
pub proof fn lemma_quotient_finite(a: Binary64, b: Binary64)
    requires
        is_finite(a),
        is_finite(b),
        !negative(b),
        !is_zero(b),
        abs(value(a) / value(b)) <= power(1023),
    ensures
        is_finite(fl_div(a, b)),
{
    reveal(fl_div);
    if magnitude(a) > 0 {
        lemma_div_finite(a, b);
    }
}

proof fn lemma_div_finite(a: Binary64, b: Binary64)
    requires
        0 < magnitude(a) < INFINITE,
        0 < magnitude(b) < INFINITE,
        !negative(b),
        abs(value(a) / value(b)) <= power(1023),
    ensures
        rounded(
            significand(magnitude(a)) * pow2(128),
            significand(magnitude(b)),
            exponent(magnitude(a)) - exponent(magnitude(b)) - 128,
        ) < INFINITE,
{
    let (x, y) = (magnitude(a), magnitude(b));
    lemma_fields(x);
    lemma_fields(y);
    lemma_value_positive(x);
    lemma_value_positive(y);
    let (u, v) = (mag_value(x), mag_value(y));
    let (s, t) = (significand(x), significand(y));
    let wide = pow2(128);
    lemma2_to64_rest();
    lemma_pow2_ordered(53, 128);
    assert(s * wide >= t) by (nonlinear_arith)
        requires
            s >= 1,
            wide >= 0x0020_0000_0000_0000,
            t < 0x0020_0000_0000_0000,
    ;
    let n = s * wide;
    let j = exponent(x) - exponent(y) - 128;
    lemma_product_real(s as int, wide as int);
    lemma_power_lifted(j, 128);
    lemma_power_adds(exponent(x) - exponent(y), exponent(y));
    let (rs, rt, rw) = (s as real, t as real, wide as real);
    let (p, q, g) = (power(j), power(exponent(y)), power(exponent(x) - exponent(y)));
    let r = (n as real) / rt;
    let exact = r * p;
    lemma_real_quotient(n as real, rt);
    assert(exact * v == u) by {
        lemma_real_associative(exact, rt, q);
        lemma_real_associative(r, p, rt);
        lemma_real_associative(rs, rw, p);
        lemma_real_associative(rw, p, p);
        lemma_real_associative(rs, g, q);
        assert(exact * rt == (rs * rw) * p);
        assert(rw * p == g);
        assert(exact * rt == rs * g);
    }
    lemma_positive_factor(exact, v);
    lemma_real_distributes(exact, exact, v);
    if negative(a) {
        lemma_real_quotient_unique(-exact, value(a), v);
    } else {
        lemma_real_quotient_unique(exact, value(a), v);
    }
    lemma_rounded_finite(n, t, j);
}

} // verus!
