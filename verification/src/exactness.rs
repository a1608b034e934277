//! Facts about single operations: where they are exact, and in which order their results
//! stand.
use crate::binary64::{
    exponent, fl_add, fl_div, fl_le, fl_lt, fl_mul, fl_neg, fl_of, fl_sqrt, fl_sub, floor_root,
    in_units, is_nan, lemma_fields, lemma_fields_ordered, magnitude, nearest_root, negative,
    root_exponent, signed, significand, Binary64,
};
use crate::linear::{fl, ONE};
use crate::rounding::{
    bit_len, encoded, lemma_bit_len_bounds, lemma_bit_len_monotone, lemma_bit_len_unique,
    lemma_nearest_even_exact, lemma_nearest_even_scaled, lemma_pow2_ordered,
    lemma_rounded_cancelled, lemma_rounded_shifted, nearest_even, rounded, unit_exponent, units,
    INFINITE,
};
use vstd::arithmetic::div_mod::{lemma_div_is_ordered, lemma_fundamental_div_mod};
use vstd::arithmetic::power2::{
    lemma2_to64, lemma2_to64_rest, lemma_pow2_adds, lemma_pow2_pos, lemma_pow2_unfold, pow2,
};
use vstd::prelude::*;

verus! {

/// Whether `a` is one of the two zeros.
pub open spec fn is_zero(a: Binary64) -> bool {
    magnitude(a) == 0
}

/// Whether `a` is a number other than the infinities.
pub open spec fn is_finite(a: Binary64) -> bool {
    magnitude(a) < INFINITE
}

/// Whether `a` and `b` are the same number, where the zeros count as one.
pub open spec fn same_value(a: Binary64, b: Binary64) -> bool {
    a == b || (is_zero(a) && is_zero(b))
}

/// A number is determined by its sign and magnitude.
pub proof fn lemma_signed(a: Binary64)
    ensures
        signed(negative(a), magnitude(a)) == a,
{
}

/// A number is its own rounding.
pub proof fn lemma_representable(mag: nat)
    requires
        0 < mag < INFINITE,
    ensures
        rounded(significand(mag), 1, exponent(mag)) == mag,
{
    let s = significand(mag);
    let e = exponent(mag);
    lemma_fields(mag);
    lemma2_to64();
    lemma2_to64_rest();
    assert(s / 1 == s);
    if mag >= 0x0010_0000_0000_0000 {
        lemma_bit_len_unique(s, 52);
    } else {
        lemma_bit_len_monotone(s, 0x000f_ffff_ffff_ffff);
        lemma_bit_len_unique(0x000f_ffff_ffff_ffff, 51);
    }
    assert(unit_exponent(s, 1, e) == e);
    lemma_nearest_even_exact(s, 1);
    assert(s * 1 == s);
    assert(1 * pow2(0) == 1);
}

/// A number counted in a finer unit is its own rounding.
pub proof fn lemma_representable_in_units(mag: nat, e: int)
    requires
        0 < mag < INFINITE,
        e <= exponent(mag),
    ensures
        in_units(mag, e) > 0,
        rounded(in_units(mag, e), 1, e) == mag,
{
    let g = (exponent(mag) - e) as nat;
    lemma_fields(mag);
    lemma_representable(mag);
    lemma_rounded_shifted(significand(mag), 1, exponent(mag), g);
    lemma_pow2_pos(g);
    assert(significand(mag) * pow2(g) > 0) by (nonlinear_arith)
        requires
            significand(mag) > 0,
            pow2(g) > 0,
    ;
}

/// Sums do not depend on the order of their operands.
pub proof fn lemma_add_commutes(a: Binary64, b: Binary64)
    ensures
        fl_add(a, b) == fl_add(b, a),
{
    reveal(fl_add);
}

/// Adding a zero changes nothing.
pub proof fn lemma_add_zero(a: Binary64, z: Binary64)
    requires
        is_finite(a),
        is_zero(z),
    ensures
        same_value(fl_add(a, z), a),
        same_value(fl_add(z, a), a),
{
    reveal(fl_add);
    lemma_add_commutes(a, z);
    let x = magnitude(a);
    assert(0 * pow2(0) == 0);
    assert(in_units(0, -1074) == 0);
    lemma_fields(x);
    if x == 0 {
    } else {
        lemma_representable_in_units(x, -1074);
        lemma_signed(a);
    }
}

/// Subtracting a zero changes nothing.
pub proof fn lemma_sub_zero(a: Binary64, z: Binary64)
    requires
        is_finite(a),
        is_zero(z),
    ensures
        same_value(fl_sub(a, z), a),
{
    reveal(fl_neg);
    lemma_add_zero(a, fl_neg(z));
}

/// A finite multiple of zero is zero.
pub proof fn lemma_mul_zero(a: Binary64, z: Binary64)
    requires
        is_finite(a),
        is_zero(z),
    ensures
        is_zero(fl_mul(a, z)),
        is_zero(fl_mul(z, a)),
{
    reveal(fl_mul);
}

/// Multiplying by one changes nothing.
pub proof fn lemma_mul_one(a: Binary64)
    requires
        is_finite(a),
    ensures
        fl_mul(fl(ONE), a) == a,
{
    reveal(fl_mul);
    let x = magnitude(a);
    lemma_signed(a);
    if x > 0 {
        lemma_fields(x);
        lemma2_to64_rest();
        lemma_representable(x);
        lemma_rounded_shifted(significand(x), 1, exponent(x), 52);
        let one = magnitude(fl(ONE));
        assert(significand(one) == 0x0010_0000_0000_0000 && exponent(one) == -52);
        assert(significand(one) * significand(x) == significand(x) * pow2(52)) by (nonlinear_arith)
            requires
                significand(one) == pow2(52),
        ;
    }
}

/// Zero divided by a number other than zero is zero.
pub proof fn lemma_zero_div(z: Binary64, b: Binary64)
    requires
        is_zero(z),
        !is_zero(b),
        !is_nan(b),
    ensures
        is_zero(fl_div(z, b)),
{
    reveal(fl_div);
}

/// The square root of zero is zero.
pub proof fn lemma_sqrt_zero(z: Binary64)
    requires
        is_zero(z),
    ensures
        is_zero(fl_sqrt(z)),
{
    reveal(fl_sqrt);
}

/// No square root is below zero.
pub proof fn lemma_sqrt_not_negative(a: Binary64)
    ensures
        !fl_lt(fl_sqrt(a), fl(0)),
{
    reveal(fl_sqrt);
    reveal(fl_lt);
}

/// A quotient with a larger numerator does not round below.
pub proof fn lemma_nearest_even_monotone(a: nat, b: nat, den: nat)
    requires
        den > 0,
        a <= b,
    ensures
        nearest_even(a, den) <= nearest_even(b, den),
{
    lemma_div_is_ordered(a as int, b as int, den as int);
    if a / den == b / den {
        lemma_fundamental_div_mod(a as int, den as int);
        lemma_fundamental_div_mod(b as int, den as int);
    }
}

/// A positive value rounds to a count of units that fills 53 bits unless its unit is the
/// least one.
pub proof fn lemma_units_bounds(n: nat, d: nat, j: int)
    requires
        n >= d > 0,
    ensures
        units(n, d, j, unit_exponent(n, d, j)) <= 0x0020_0000_0000_0000,
        unit_exponent(n, d, j) > -1074 ==> units(n, d, j, unit_exponent(n, d, j))
            >= 0x0010_0000_0000_0000,
{
    let e = unit_exponent(n, d, j);
    let q = n / d;
    lemma_fundamental_div_mod(n as int, d as int);
    assert(q >= 1) by (nonlinear_arith)
        requires
            n == d * q + n % d,
            n % d < d,
            n >= d > 0,
    ;
    lemma_bit_len_bounds(q);
    let len = bit_len(q);
    lemma2_to64_rest();
    let lo = pow2((len - 1) as nat);
    let hi = pow2(len);
    assert(d * lo <= n < d * hi) by (nonlinear_arith)
        requires
            n == d * q + n % d,
            0 <= n % d < d,
            lo <= q < hi,
    {
        assert(d * lo <= d * q);
        assert(d * (q + 1) <= d * hi);
    }
    if e >= j {
        let s = (e - j) as nat;
        let p = pow2(s);
        lemma_pow2_pos(s);
        assert(d * p > 0) by (nonlinear_arith)
            requires
                d > 0,
                p > 0,
        ;
        // n < d * 2^len <= (d * 2^s) * 2^53
        lemma_pow2_ordered(len, s + 53);
        lemma_pow2_adds(s, 53);
        let top = 0x0020_0000_0000_0000nat * (d * p);
        assert(n <= top) by (nonlinear_arith)
            requires
                n < d * hi,
                hi <= p * 0x0020_0000_0000_0000,
                top == 0x0020_0000_0000_0000 * (d * p),
        {
            assert(d * hi <= d * (p * 0x0020_0000_0000_0000));
        }
        lemma_nearest_even_exact(0x0020_0000_0000_0000, d * p);
        lemma_nearest_even_monotone(n, top, d * p);
        if e > -1074 {
            let bottom = 0x0010_0000_0000_0000nat * (d * p);
            lemma_pow2_adds(s, 52);
            assert(s + 52 == (len - 1) as nat);
            assert(bottom <= n) by (nonlinear_arith)
                requires
                    d * lo <= n,
                    lo == p * 0x0010_0000_0000_0000,
                    bottom == 0x0010_0000_0000_0000 * (d * p),
            ;
            lemma_nearest_even_exact(0x0010_0000_0000_0000, d * p);
            lemma_nearest_even_monotone(bottom, n, d * p);
        }
    } else {
        let s = (j - e) as nat;
        let p = pow2(s);
        lemma_pow2_pos(s);
        lemma_pow2_ordered(len + s, 53);
        lemma_pow2_adds(len, s);
        let top = 0x0020_0000_0000_0000nat * d;
        assert(n * p <= top) by (nonlinear_arith)
            requires
                n < d * hi,
                hi * p <= 0x0020_0000_0000_0000,
                p > 0,
                top == 0x0020_0000_0000_0000 * d,
        {
            assert(n * p <= (d * hi) * p);
            assert((d * hi) * p == d * (hi * p));
            assert(d * (hi * p) <= d * 0x0020_0000_0000_0000);
        }
        lemma_nearest_even_exact(0x0020_0000_0000_0000, d);
        lemma_nearest_even_monotone(n * p, top, d);
        if e > -1074 {
            let bottom = 0x0010_0000_0000_0000nat * d;
            lemma_pow2_adds((len - 1) as nat, s);
            assert((len - 1) as nat + s == 52);
            assert(bottom <= n * p) by (nonlinear_arith)
                requires
                    d * lo <= n,
                    lo * p == 0x0010_0000_0000_0000,
                    p > 0,
                    bottom == 0x0010_0000_0000_0000 * d,
            {
                assert((d * lo) * p <= n * p);
                assert((d * lo) * p == d * (lo * p));
            }
            lemma_nearest_even_exact(0x0010_0000_0000_0000, d);
            lemma_nearest_even_monotone(bottom, n * p, d);
        }
    }
}

/// A larger value does not round below.
pub proof fn lemma_rounded_monotone(a: nat, b: nat, d: nat, j: int)
    requires
        d > 0,
        d <= a <= b,
    ensures
        rounded(a, d, j) <= rounded(b, d, j),
{
    let ea = unit_exponent(a, d, j);
    let eb = unit_exponent(b, d, j);
    lemma_div_is_ordered(a as int, b as int, d as int);
    lemma_bit_len_monotone(a / d, b / d);
    lemma_units_bounds(a, d, j);
    lemma_units_bounds(b, d, j);
    if ea == eb {
        if ea >= j {
            let p = pow2((ea - j) as nat);
            lemma_pow2_pos((ea - j) as nat);
            assert(d * p > 0) by (nonlinear_arith)
                requires
                    d > 0,
                    p > 0,
            ;
            lemma_nearest_even_monotone(a, b, d * p);
        } else {
            let p = pow2((j - ea) as nat);
            assert(a * p <= b * p) by (nonlinear_arith)
                requires
                    a <= b,
            ;
            lemma_nearest_even_monotone(a * p, b * p, d);
        }
    }
}

/// A quotient of a number by one that is not smaller does not exceed one, and is one where
/// they are equal.
pub proof fn lemma_div_at_most_one(a: Binary64, b: Binary64)
    requires
        !negative(a),
        !negative(b),
        magnitude(a) <= magnitude(b) < INFINITE,
        magnitude(b) > 0,
    ensures
        fl_le(fl(0), fl_div(a, b)),
        fl_le(fl_div(a, b), fl(ONE)),
        a == b ==> fl_div(a, b) == fl(ONE),
{
    reveal(fl_div);
    reveal(fl_le);
    let x = magnitude(a);
    let y = magnitude(b);
    if x > 0 {
        lemma_fields(x);
        lemma_fields(y);
        lemma_fields_ordered(y, x);
        let (sx, ex) = (significand(x), exponent(x));
        let (sy, ey) = (significand(y), exponent(y));
        let g = (128 + ey - ex) as nat;
        let j = ex - ey - 128;
        lemma_pow2_adds(128, (ey - ex) as nat);
        lemma_pow2_pos(128);
        lemma_pow2_pos((ey - ex) as nat);
        let n = sx * pow2(128);
        let top = pow2(g) * sy;
        let p = pow2((ey - ex) as nat);
        assert(sx <= sy * p) by {
            if ex == ey {
                lemma2_to64();
                assert(sy * p == sy) by (nonlinear_arith)
                    requires
                        p == 1,
                ;
            } else {
                lemma_pow2_ordered(1, (ey - ex) as nat);
                lemma2_to64();
                assert(sx <= sy * p) by (nonlinear_arith)
                    requires
                        sx <= 2 * sy,
                        p >= 2,
                ;
            }
        }
        assert(n <= top) by (nonlinear_arith)
            requires
                n == sx * pow2(128),
                top == (pow2(128) * p) * sy,
                sx <= sy * p,
        ;
        lemma2_to64_rest();
        lemma_pow2_ordered(53, 128);
        assert(n >= sy) by (nonlinear_arith)
            requires
                n == sx * pow2(128),
                sx >= 1,
                pow2(128) >= 0x0020_0000_0000_0000,
                sy <= 0x0020_0000_0000_0000,
        ;
        lemma_rounded_monotone(n, top, sy, j);
        lemma_pow2_pos(g);
        lemma_rounded_cancelled(pow2(g), 1, j, sy);
        lemma_rounded_shifted(1, 1, 0, g);
        assert(1 * pow2(g) == pow2(g));
        assert(1 * sy == sy);
        lemma_representable(ONE as nat);
        lemma_rounded_shifted(1, 1, 0, 52);
        if a == b {
            assert(p == 1) by {
                lemma2_to64();
            }
            assert(n == top) by (nonlinear_arith)
                requires
                    n == sx * pow2(128),
                    top == (pow2(128) * p) * sy,
                    sx == sy,
                    p == 1,
            ;
        }
    }
}

/// Larger counts do not have smaller numbers; the number of a positive machine count is
/// positive and finite.
pub proof fn lemma_count_monotone(m: nat, n: nat)
    requires
        m <= n <= 0xffff_ffff_ffff_ffff,
    ensures
        !negative(fl_of(m)),
        !negative(fl_of(n)),
        magnitude(fl_of(m)) <= magnitude(fl_of(n)) < INFINITE,
        n > 0 ==> magnitude(fl_of(n)) > 0,
{
    reveal(fl_of);
    if n > 0 {
        // 2^64 is a number
        let limit = 0x43f0_0000_0000_0000nat;
        lemma2_to64();
        lemma2_to64_rest();
        lemma_representable(limit);
        lemma_rounded_shifted(0x0010_0000_0000_0000, 1, 12, 12);
        lemma_rounded_monotone(n, 0x1_0000_0000_0000_0000, 1, 0);
        lemma_representable(ONE as nat);
        lemma_rounded_shifted(1, 1, 0, 52);
        lemma_rounded_monotone(1, n, 1, 0);
        if m > 0 {
            lemma_rounded_monotone(m, n, 1, 0);
        }
    }
}

/// The distance between two integers.
pub open spec fn gap(a: int, b: int) -> int {
    if a < b {
        b - a
    } else {
        a - b
    }
}

/// How far the number with magnitude field `mag` lies from `(n / d) * 2^j`, as a multiple of
/// `2^b / d`, where `b` is the smaller of `j` and the least exponent.
pub open spec fn rounding_error(n: nat, d: nat, j: int, mag: nat) -> int {
    let b = if j < -1074 {
        j
    } else {
        -1074
    };
    gap((in_units(mag, b) * d) as int, (n * pow2((j - b) as nat)) as int)
}

/// No multiple of `den` lies closer to `num` than the one that `nearest_even` names, and where
/// another lies as close, that one is even.
proof fn lemma_nearest_even_nearest(num: nat, den: nat, k: nat)
    requires
        den > 0,
    ensures
        gap((nearest_even(num, den) * den) as int, num as int) <= gap((k * den) as int, num as int),
        gap((nearest_even(num, den) * den) as int, num as int) == gap(
            (k * den) as int,
            num as int,
        ) && k != nearest_even(num, den) ==> nearest_even(num, den) % 2 == 0,
{
    let q = num / den;
    let r = num % den;
    lemma_fundamental_div_mod(num as int, den as int);
    assert((q + 1) * den == q * den + den) by (nonlinear_arith);
    assert(den * q == q * den) by (nonlinear_arith);
    if k < q {
        assert(k * den + den <= q * den) by (nonlinear_arith)
            requires
                k + 1 <= q,
        ;
    } else if k > q + 1 {
        assert(k * den >= q * den + 2 * den) by (nonlinear_arith)
            requires
                k >= q + 2,
        ;
    }
}

/// The count of units that a value rounds to, as the nearest multiple of one denominator.
pub proof fn lemma_units_over(n: nat, d: nat, j: int, e: int, b: int)
    requires
        d > 0,
        b <= j,
        b <= e,
    ensures
        d * pow2((e - b) as nat) > 0,
        units(n, d, j, e) == nearest_even(n * pow2((j - b) as nat), d * pow2((e - b) as nat)),
{
    lemma_pow2_pos((e - b) as nat);
    assert(d * pow2((e - b) as nat) > 0) by (nonlinear_arith)
        requires
            d > 0,
            pow2((e - b) as nat) > 0,
    ;
    if e >= j {
        let p = pow2((e - j) as nat);
        let k = pow2((j - b) as nat);
        lemma_pow2_pos((e - j) as nat);
        lemma_pow2_pos((j - b) as nat);
        lemma_pow2_adds((e - j) as nat, (j - b) as nat);
        assert(d * p > 0) by (nonlinear_arith)
            requires
                d > 0,
                p > 0,
        ;
        lemma_nearest_even_scaled(n, d * p, k);
        assert((d * p) * k == d * (p * k)) by (nonlinear_arith);
    } else {
        let p = pow2((j - e) as nat);
        let k = pow2((e - b) as nat);
        lemma_pow2_adds((j - e) as nat, (e - b) as nat);
        lemma_nearest_even_scaled(n * p, d, k);
        assert((n * p) * k == n * (p * k)) by (nonlinear_arith);
    }
}

/// A count of units that a value rounds to is read back from its encoding.
pub proof fn lemma_encoded_value(count: nat, e: int, b: int)
    requires
        b <= -1074 <= e,
        count <= 0x0020_0000_0000_0000,
        e > -1074 ==> count >= 0x0010_0000_0000_0000,
        encoded(count, e) < INFINITE,
    ensures
        in_units(encoded(count, e), b) == count * pow2((e - b) as nat),
        encoded(count, e) % 2 == count % 2,
{
    let mag = encoded(count, e);
    if count == 0x0020_0000_0000_0000 {
        assert(significand(mag) == 0x0010_0000_0000_0000 && exponent(mag) == e + 1);
        lemma_pow2_unfold((e + 1 - b) as nat);
        assert(0x0010_0000_0000_0000 * (2 * pow2((e - b) as nat)) == 0x0020_0000_0000_0000 * pow2(
            (e - b) as nat,
        ));
    } else {
        assert(significand(mag) == count && exponent(mag) == e);
    }
}

/// A value whose unit in the last place is not the least one fills 53 bits.
pub proof fn lemma_value_fills_units(n: nat, d: nat, j: int, b: int)
    requires
        n >= d > 0,
        b <= j,
        b <= -1074,
        unit_exponent(n, d, j) > -1074,
    ensures
        0x0010_0000_0000_0000 * (d * pow2((unit_exponent(n, d, j) - b) as nat)) <= n * pow2(
            (j - b) as nat,
        ),
{
    let e = unit_exponent(n, d, j);
    let q = n / d;
    lemma_fundamental_div_mod(n as int, d as int);
    assert(q >= 1) by (nonlinear_arith)
        requires
            n == d * q + n % d,
            n % d < d,
            n >= d > 0,
    ;
    lemma_bit_len_bounds(q);
    let len = bit_len(q);
    let lo = pow2((len - 1) as nat);
    let shift = pow2((j - b) as nat);
    let unit = pow2((e - b) as nat);
    lemma2_to64_rest();
    lemma_pow2_adds((len - 1) as nat, (j - b) as nat);
    lemma_pow2_adds(52, (e - b) as nat);
    assert((len - 1) as nat + (j - b) as nat == 52 + (e - b) as nat);
    assert(0x0010_0000_0000_0000 * (d * unit) <= n * shift) by (nonlinear_arith)
        requires
            n == d * q + n % d,
            n % d >= 0,
            lo <= q,
            lo * shift == 0x0010_0000_0000_0000 * unit,
            shift >= 0,
    {
        assert(d * lo <= d * q);
        assert((d * lo) * shift <= n * shift);
        assert((d * lo) * shift == d * (lo * shift));
        assert(d * (0x0010_0000_0000_0000 * unit) == 0x0010_0000_0000_0000 * (d * unit));
    }
}

/// No number lies closer to a value than the one that it rounds to, and where another lies as
/// close, that one has an even significand.
pub proof fn law_rounded_is_nearest(n: nat, d: nat, j: int, mag: nat)
    requires
        n >= d > 0,
        rounded(n, d, j) < INFINITE,
        mag < INFINITE,
    ensures
        rounding_error(n, d, j, rounded(n, d, j)) <= rounding_error(n, d, j, mag),
        rounding_error(n, d, j, rounded(n, d, j)) == rounding_error(n, d, j, mag) && mag != rounded(
            n,
            d,
            j,
        ) ==> rounded(n, d, j) % 2 == 0,
{
    let b = if j < -1074 {
        j
    } else {
        -1074
    };
    let e = unit_exponent(n, d, j);
    let best = rounded(n, d, j);
    let q = units(n, d, j, e);
    let unit = pow2((e - b) as nat);
    let den = d * unit;
    let num = n * pow2((j - b) as nat);
    lemma_units_bounds(n, d, j);
    lemma_units_over(n, d, j, e, b);
    lemma_encoded_value(q, e, b);
    assert((q * unit) * d == q * den) by (nonlinear_arith)
        requires
            den == d * unit,
    ;
    lemma_fields(mag);
    let s = significand(mag);
    let x = exponent(mag);
    if x >= e {
        let k = s * pow2((x - e) as nat);
        lemma_pow2_adds((x - e) as nat, (e - b) as nat);
        assert(in_units(mag, b) == k * unit) by (nonlinear_arith)
            requires
                in_units(mag, b) == s * (pow2((x - e) as nat) * unit),
                k == s * pow2((x - e) as nat),
        ;
        assert((k * unit) * d == k * den) by (nonlinear_arith)
            requires
                den == d * unit,
        ;
        lemma_nearest_even_nearest(num, den, k);
        if k == q && mag != best {
            lemma_same_units(mag, best, b);
        }
    } else {
        let corner = 0x0010_0000_0000_0000nat;
        lemma_value_fills_units(n, d, j, b);
        lemma_nearest_even_nearest(num, den, corner);
        lemma_pow2_pos((x - b) as nat);
        lemma_pow2_ordered((x + 1 - b) as nat, (e - b) as nat);
        lemma_pow2_unfold((x + 1 - b) as nat);
        assert(in_units(mag, b) * d < corner * den) by (nonlinear_arith)
            requires
                in_units(mag, b) == s * pow2((x - b) as nat),
                s < 0x0020_0000_0000_0000,
                pow2((x - b) as nat) > 0,
                2 * pow2((x - b) as nat) <= unit,
                den == d * unit,
                d > 0,
                corner == 0x0010_0000_0000_0000,
        {
            assert(s * pow2((x - b) as nat) < 0x0020_0000_0000_0000 * pow2((x - b) as nat));
            assert(s * pow2((x - b) as nat) < corner * unit);
            assert((s * pow2((x - b) as nat)) * d < (corner * unit) * d);
            assert((corner * unit) * d == corner * (d * unit));
        }
    }
}

/// Two magnitude fields of the same value are the same.
pub proof fn lemma_same_units(x: nat, y: nat, b: int)
    requires
        x < INFINITE,
        y < INFINITE,
        b <= -1074,
        in_units(x, b) == in_units(y, b),
    ensures
        x == y,
{
    lemma_fields(x);
    lemma_fields(y);
    assert(0 * pow2((-1074 - b) as nat) == 0);
    if x > 0 {
        lemma_representable_in_units(x, b);
    }
    if y > 0 {
        lemma_representable_in_units(y, b);
    }
}

/// Every natural number has a square root rounded down.
proof fn lemma_floor_root_exists(y: nat) -> (s: nat)
    ensures
        s * s <= y < (s + 1) * (s + 1),
    decreases y,
{
    if y == 0 {
        assert((0nat + 1) * (0nat + 1) == 1) by (nonlinear_arith);
        0
    } else {
        let t = lemma_floor_root_exists((y - 1) as nat);
        if (t + 1) * (t + 1) <= y {
            let s = t + 1;
            assert(s * s < (s + 1) * (s + 1)) by (nonlinear_arith)
                requires
                    s >= 0,
            ;
            s
        } else {
            t
        }
    }
}

/// The root that is nearest to `y` lies within one half of its square root.
pub proof fn lemma_nearest_root_near(y: nat)
    ensures
        ({
            let t = nearest_root(y) as int;
            (y > 0 ==> (2 * t - 1) * (2 * t - 1) <= 4 * y) && 4 * y <= (2 * t + 1) * (2 * t + 1)
        }),
{
    let s = lemma_floor_root_exists(y);
    let f = floor_root(y);
    assert(f * f <= y < (f + 1) * (f + 1));
    let t = nearest_root(y) as int;
    assert(y > 0 ==> (2 * t - 1) * (2 * t - 1) <= 4 * y) by (nonlinear_arith)
        requires
            f * f <= y,
            y > f * f + f ==> t == f + 1,
            y <= f * f + f ==> t == f,
            f >= 0,
    {
        assert((2 * (f + 1) - 1) * (2 * (f + 1) - 1) == 4 * (f * f + f) + 1);
        assert((2 * f - 1) * (2 * f - 1) == 4 * (f * f) - 4 * f + 1);
    }
    assert(4 * y <= (2 * t + 1) * (2 * t + 1)) by (nonlinear_arith)
        requires
            y < (f + 1) * (f + 1),
            y > f * f + f ==> t == f + 1,
            y <= f * f + f ==> t == f,
            f >= 0,
    {
        assert((2 * f + 1) * (2 * f + 1) == 4 * (f * f + f) + 1);
        assert((2 * (f + 1) + 1) * (2 * (f + 1) + 1) >= 4 * ((f + 1) * (f + 1)));
    }
}

/// The count of units that the square root of a positive number rounds to.
pub proof fn lemma_root_count(x: nat)
    requires
        0 < x < INFINITE,
    ensures
        ({
            let s = significand(x);
            let u = root_exponent(s, exponent(x));
            let y = s * pow2((exponent(x) - 2 * u) as nat);
            let t = nearest_root(y);
            &&& -1074 < u <= 900
            &&& 2 * u <= exponent(x)
            &&& 0x0010_0000_0000_0000 <= t <= 0x0020_0000_0000_0000
            &&& 0x0010_0000_0000_0000 * 0x0010_0000_0000_0000 <= y
            &&& (2 * t - 1) * (2 * t - 1) <= 4 * y <= (2 * t + 1) * (2 * t + 1)
        }),
{
    lemma_fields(x);
    let s = significand(x);
    let e = exponent(x);
    lemma_bit_len_bounds(s);
    lemma2_to64_rest();
    let len = bit_len(s);
    if len > 53 {
        lemma_pow2_ordered(53, (len - 1) as nat);
    }
    let u = root_exponent(s, e);
    let k = (e - 2 * u) as nat;
    assert(105 - len <= k <= 106 - len);
    let p = pow2(k);
    let y = s * p;
    // 2^104 <= y < 2^106
    lemma_pow2_adds(len, k);
    lemma_pow2_adds((len - 1) as nat, k);
    lemma_pow2_ordered((len + k) as nat, 106);
    lemma_pow2_ordered(104, (len - 1 + k) as nat);
    lemma_pow2_adds(53, 53);
    lemma_pow2_adds(52, 52);
    lemma_pow2_pos(k);
    let low = 0x0010_0000_0000_0000nat;
    let high = 0x0020_0000_0000_0000nat;
    assert(low * low <= y < high * high) by (nonlinear_arith)
        requires
            y == s * p,
            pow2((len - 1) as nat) <= s < pow2(len),
            p > 0,
            pow2(len) * p <= high * high,
            low * low <= pow2((len - 1) as nat) * p,
    ;
    let t = nearest_root(y);
    lemma_nearest_root_near(y);
    assert(low <= t <= high) by (nonlinear_arith)
        requires
            low * low <= y < high * high,
            (2 * t - 1) * (2 * t - 1) <= 4 * y,
            4 * y <= (2 * t + 1) * (2 * t + 1),
            t >= 0,
            low >= 1,
    {
        if t < low {
            assert((2 * t + 1) * (2 * t + 1) <= (2 * low - 1) * (2 * low - 1));
            assert((2 * low - 1) * (2 * low - 1) == 4 * (low * low) - 4 * low + 1);
        }
        if t > high {
            assert((2 * t - 1) * (2 * t - 1) >= (2 * high + 1) * (2 * high + 1));
            assert((2 * high + 1) * (2 * high + 1) == 4 * (high * high) + 4 * high + 1);
        }
    }
    assert(-1074 < u <= 900);
}

/// The square root of a positive number lies on its rounding's side of the midpoint between
/// the rounding and any other number, so no number is nearer.
pub proof fn law_root_is_nearest(a: Binary64, mag: nat)
    requires
        !negative(a),
        0 < magnitude(a) < INFINITE,
        mag < INFINITE,
    ensures
        !negative(fl_sqrt(a)),
        magnitude(fl_sqrt(a)) < INFINITE,
        ({
            let root = in_units(magnitude(fl_sqrt(a)), -1074);
            let other = in_units(mag, -1074);
            let square = in_units(magnitude(a), -2148);
            &&& other < root ==> (root + other) * (root + other) <= 4 * square
            &&& other > root ==> (root + other) * (root + other) >= 4 * square
        }),
{
    reveal(fl_sqrt);
    let x = magnitude(a);
    lemma_fields(x);
    lemma_root_count(x);
    let s = significand(x);
    let e = exponent(x);
    let u = root_exponent(s, e);
    let k = (e - 2 * u) as nat;
    let p = pow2(k);
    let y = s * p;
    let t = nearest_root(y);
    let low = 0x0010_0000_0000_0000nat;
    lemma_encoded_value(t, u, -1074);
    let unit = pow2((u + 1074) as nat);
    lemma_pow2_pos((u + 1074) as nat);
    let root = in_units(magnitude(fl_sqrt(a)), -1074);
    assert(root == t * unit);
    let square = in_units(x, -2148);
    lemma_pow2_adds((u + 1074) as nat, (u + 1074) as nat);
    lemma_pow2_adds(k, (2 * u + 2148) as nat);
    assert(square == y * (unit * unit)) by (nonlinear_arith)
        requires
            square == s * (p * (unit * unit)),
            y == s * p,
    ;
    lemma_fields(mag);
    let m = significand(mag);
    let f = exponent(mag);
    let other = in_units(mag, -1074);
    if f >= u {
        let c = m * pow2((f - u) as nat);
        lemma_pow2_adds((f - u) as nat, (u + 1074) as nat);
        assert(other == c * unit) by (nonlinear_arith)
            requires
                other == m * (pow2((f - u) as nat) * unit),
                c == m * pow2((f - u) as nat),
        ;
        lemma_midpoint(t, c, y, unit);
    } else {
        lemma_pow2_pos((f + 1074) as nat);
        lemma_pow2_ordered((f + 1075) as nat, (u + 1074) as nat);
        lemma_pow2_unfold((f + 1075) as nat);
        assert(other < low * unit) by (nonlinear_arith)
            requires
                other == m * pow2((f + 1074) as nat),
                m < 2 * low,
                pow2((f + 1074) as nat) > 0,
                2 * pow2((f + 1074) as nat) <= unit,
        {
            assert(m * pow2((f + 1074) as nat) < (2 * low) * pow2((f + 1074) as nat));
            assert((2 * low) * pow2((f + 1074) as nat) == low * (2 * pow2((f + 1074) as nat)));
            assert(low * (2 * pow2((f + 1074) as nat)) <= low * unit);
        }
        assert(low * unit <= t * unit) by (nonlinear_arith)
            requires
                low <= t,
        ;
        let corner = low * unit;
        if t > low {
            lemma_midpoint(t, low, y, unit);
            assert(low * unit < t * unit) by (nonlinear_arith)
                requires
                    low < t,
                    unit > 0,
            ;
            assert((root + other) * (root + other) <= (root + corner) * (root + corner))
                by (nonlinear_arith)
                requires
                    0 <= other <= corner,
                    root >= 0,
            ;
        } else {
            assert((root + other) * (root + other) <= 4 * square) by (nonlinear_arith)
                requires
                    root == low * unit,
                    0 <= other <= low * unit,
                    square == y * (unit * unit),
                    low * low <= y,
            {
                assert((root + other) * (root + other) <= (2 * root) * (2 * root));
                assert((2 * root) * (2 * root) == 4 * ((low * low) * (unit * unit)));
                assert((low * low) * (unit * unit) <= y * (unit * unit));
            }
        }
    }
}

/// A square root that lies within one half of `t` lies on the side of `t` of the midpoint
/// between `t` and another integer, also when all are scaled.
proof fn lemma_midpoint(t: nat, c: nat, y: nat, unit: nat)
    requires
        (2 * t - 1) * (2 * t - 1) <= 4 * y,
        4 * y <= (2 * t + 1) * (2 * t + 1),
        t > 0,
        unit > 0,
    ensures
        c * unit < t * unit ==> (t * unit + c * unit) * (t * unit + c * unit) <= 4 * (y * (unit
            * unit)),
        c * unit > t * unit ==> (t * unit + c * unit) * (t * unit + c * unit) >= 4 * (y * (unit
            * unit)),
{
    assert((t * unit + c * unit) * (t * unit + c * unit) == ((t + c) * (t + c)) * (unit * unit))
        by (nonlinear_arith);
    assert(4 * (y * (unit * unit)) == (4 * y) * (unit * unit)) by (nonlinear_arith);
    if c * unit < t * unit {
        assert(c < t) by (nonlinear_arith)
            requires
                c * unit < t * unit,
                unit > 0,
        ;
        assert((t + c) * (t + c) <= (2 * t - 1) * (2 * t - 1)) by (nonlinear_arith)
            requires
                0 <= c <= t - 1,
        ;
        assert(((t + c) * (t + c)) * (unit * unit) <= (4 * y) * (unit * unit)) by (nonlinear_arith)
            requires
                (t + c) * (t + c) <= 4 * y,
        ;
    }
    if c * unit > t * unit {
        assert(c > t) by (nonlinear_arith)
            requires
                c * unit > t * unit,
                unit > 0,
        ;
        assert((t + c) * (t + c) >= (2 * t + 1) * (2 * t + 1)) by (nonlinear_arith)
            requires
                c >= t + 1,
                t >= 0,
        ;
        assert(((t + c) * (t + c)) * (unit * unit) >= (4 * y) * (unit * unit)) by (nonlinear_arith)
            requires
                (t + c) * (t + c) >= 4 * y,
        ;
    }
}

/// A larger number does not have a smaller quotient by the same positive number.
pub proof fn lemma_div_monotone(a: Binary64, b: Binary64, s: Binary64)
    requires
        !negative(a),
        !negative(b),
        !negative(s),
        0 < magnitude(a) <= magnitude(b) < INFINITE,
        0 < magnitude(s) < INFINITE,
    ensures
        !negative(fl_div(a, s)),
        !negative(fl_div(b, s)),
        magnitude(fl_div(a, s)) <= magnitude(fl_div(b, s)) <= INFINITE,
{
    reveal(fl_div);
    let x = magnitude(a);
    let y = magnitude(b);
    let z = magnitude(s);
    lemma_fields(x);
    lemma_fields(y);
    lemma_fields(z);
    lemma_fields_ordered(y, x);
    let (sx, ex) = (significand(x), exponent(x));
    let (sy, ey) = (significand(y), exponent(y));
    let d = significand(z);
    let wide = pow2(128);
    let g = (ey - ex) as nat;
    let p = pow2(g);
    lemma2_to64_rest();
    lemma_pow2_ordered(53, 128);
    lemma_pow2_pos(g);
    assert(sx * wide >= d && sy * wide >= d) by (nonlinear_arith)
        requires
            sx >= 1,
            sy >= 1,
            wide >= 0x0020_0000_0000_0000,
            d < 0x0020_0000_0000_0000,
    ;
    lemma_rounded_shifted(sy * wide, d, ey - exponent(z) - 128, g);
    assert(sx <= sy * p) by {
        if ex == ey {
            lemma2_to64();
            assert(sy * p == sy) by (nonlinear_arith)
                requires
                    p == 1,
            ;
        } else {
            lemma_pow2_ordered(1, g);
            lemma2_to64();
            assert(sx <= sy * p) by (nonlinear_arith)
                requires
                    sx <= 2 * sy,
                    p >= 2,
            ;
        }
    }
    assert(sx * wide <= (sy * wide) * p) by (nonlinear_arith)
        requires
            sx <= sy * p,
            wide > 0,
    {
        assert((sy * wide) * p == (sy * p) * wide);
    }
    lemma_rounded_monotone(sx * wide, (sy * wide) * p, d, ex - exponent(z) - 128);
}

/// A product that is not subnormal, divided by one of its factors again, is at most one unit
/// in the last place below the other, where that has a neighbour of the same exponent.
pub proof fn lemma_product_over_factor(r: Binary64, s: Binary64)
    requires
        !negative(r),
        !negative(s),
        0 < magnitude(r) < INFINITE,
        0 < magnitude(s) < INFINITE,
        significand(magnitude(r)) > 0x0010_0000_0000_0000,
        0x0010_0000_0000_0000 <= magnitude(fl_mul(r, s)) < INFINITE,
    ensures
        !negative(fl_mul(r, s)),
        magnitude(r) - 1 <= magnitude(fl_div(fl_mul(r, s), s)),
{
    reveal(fl_mul);
    reveal(fl_div);
    let x = magnitude(r);
    let z = magnitude(s);
    let m = magnitude(fl_mul(r, s));
    lemma_fields(x);
    lemma_fields(z);
    lemma_fields(m);
    lemma_fields((x - 1) as nat);
    let (sr, er) = (significand(x), exponent(x));
    let (d, es) = (significand(z), exponent(z));
    let (sm, em) = (significand(m), exponent(m));
    let n = sr * d;
    let j = er + es;
    assert(n >= 1) by (nonlinear_arith)
        requires
            n == sr * d,
            sr >= 1,
            d >= 1,
    ;
    assert(m == rounded(n, 1, j));
    let b = if j < -1074 {
        j
    } else {
        -1074
    };
    let e = unit_exponent(n, 1, j);
    let q = units(n, 1, j, e);
    let unit = pow2((e - b) as nat);
    let shift = pow2((j - b) as nat);
    lemma_units_bounds(n, 1, j);
    lemma_units_over(n, 1, j, e, b);
    lemma_encoded_value(q, e, b);
    lemma_pow2_pos((j - b) as nat);
    assert(q >= 0x0010_0000_0000_0000);
    // the product is off by half a unit at most, which is less than one in the last place of r
    let num = n * shift;
    lemma_fundamental_div_mod(num as int, unit as int);
    assert(2 * (q * unit) + unit >= 2 * num && 2 * num + unit >= 2 * (q * unit))
        by (nonlinear_arith)
        requires
            num == unit * (num / unit) + num % unit,
            q == nearest_even(num, unit),
            unit > 0,
            0 <= num % unit < unit,
    {
        if q == num / unit {
            assert(q * unit == unit * (num / unit));
            assert(2 * (num % unit) <= unit);
        } else {
            assert(q == num / unit + 1);
            assert(q * unit == unit * (num / unit) + unit);
            assert(2 * (num % unit) >= unit);
        }
    }
    let below = ((sr - 1) as nat) * d;
    assert(q * unit >= below * shift) by (nonlinear_arith)
        requires
            2 * (q * unit) + unit >= 2 * num,
            2 * num + unit >= 2 * (q * unit),
            q >= 0x0010_0000_0000_0000,
            num == (sr * d) * shift,
            below == (sr - 1) * d,
            1 <= sr < 0x0020_0000_0000_0000,
            unit > 0,
            shift > 0,
            d > 0,
    {
        assert(q * unit >= 0x0010_0000_0000_0000 * unit);
        let part = d * shift;
        assert(num == sr * part);
        assert(below * shift == sr * part - part);
        assert(sr * part <= 0x001f_ffff_ffff_ffff * part);
        assert(unit <= 2 * part);
    }
    // both sides over the same denominator and in the same unit
    let wide = pow2(128);
    lemma2_to64_rest();
    lemma_pow2_ordered(53, 128);
    let lift = pow2((em - b) as nat);
    lemma_pow2_pos((em - b) as nat);
    assert(sm * wide >= d) by (nonlinear_arith)
        requires
            sm >= 1,
            wide >= 0x0020_0000_0000_0000,
            d < 0x0020_0000_0000_0000,
    ;
    lemma_rounded_shifted(sm * wide, d, em - es - 128, (em - b) as nat);
    assert(em - es - 128 - (em - b) == b - es - 128);
    lemma_representable((x - 1) as nat);
    lemma_rounded_cancelled((sr - 1) as nat, 1, er, d);
    assert(1 * d == d);
    assert(below >= d) by (nonlinear_arith)
        requires
            below == (sr - 1) * d,
            sr >= 2,
            d > 0,
    ;
    lemma_rounded_shifted(below, d, er, (j - b + 128) as nat);
    lemma_pow2_adds((j - b) as nat, 128);
    assert(er - (j - b + 128) == b - es - 128);
    let left = below * pow2((j - b + 128) as nat);
    let right = (sm * wide) * lift;
    assert(d <= left <= right) by (nonlinear_arith)
        requires
            below >= d,
            left == below * (shift * wide),
            right == (sm * wide) * lift,
            sm * lift == q * unit,
            q * unit >= below * shift,
            wide > 0,
            shift > 0,
    {
        assert(left == (below * shift) * wide);
        assert(right == (sm * lift) * wide);
        assert(below * shift >= below);
        assert((below * shift) * wide >= below * shift);
        assert((below * shift) * wide <= (sm * lift) * wide);
    }
    lemma_rounded_monotone(left, right, d, b - es - 128);
}

} // verus!
