//! Facts about single operations: they keep the order of their operands.
use crate::binary64::{
    exponent, finite_sum, fl_add, fl_le, fl_mul, in_units, is_nan, lemma_fields,
    lemma_fields_ordered, magnitude, negative, signed, significand, Binary64,
};
use crate::exactness::{
    is_finite, lemma_add_commutes, lemma_add_zero, lemma_mul_one, lemma_rounded_monotone,
};
use crate::linear::{fl, ONE};
use crate::rounding::{lemma_pow2_ordered, lemma_rounded_shifted, rounded, INFINITE};
use vstd::arithmetic::power2::{lemma2_to64, lemma_pow2_adds, lemma_pow2_pos, pow2};
use vstd::prelude::*;

verus! {

/// Values are ordered as their magnitude fields.
pub proof fn lemma_in_units_monotone(x: nat, y: nat, b: int)
    requires
        x <= y < INFINITE,
        b <= -1074,
    ensures
        in_units(x, b) <= in_units(y, b),
        y > 0 ==> in_units(y, b) > 0,
{
    lemma_fields(x);
    lemma_fields(y);
    lemma_fields_ordered(y, x);
    let (sx, ex) = (significand(x), exponent(x));
    let (sy, ey) = (significand(y), exponent(y));
    let low = pow2((ex - b) as nat);
    let lift = pow2((ey - ex) as nat);
    lemma_pow2_pos((ex - b) as nat);
    lemma_pow2_pos((ey - ex) as nat);
    lemma_pow2_adds((ey - ex) as nat, (ex - b) as nat);
    lemma_scaled_significands(sx, sy, (ey - ex) as nat, ex == ey);
    assert(sx * low <= sy * (lift * low)) by (nonlinear_arith)
        requires
            sx <= sy * lift,
            low > 0,
    ;
    if y > 0 {
        assert(sy * pow2((ey - b) as nat) > 0) by (nonlinear_arith)
            requires
                sy > 0,
                pow2((ey - b) as nat) == lift * low,
                lift > 0,
                low > 0,
        ;
    }
}

proof fn lemma_scaled_significands(sx: nat, sy: nat, g: nat, same: bool)
    requires
        same ==> g == 0 && sx <= sy,
        !same ==> g > 0 && sx <= 2 * sy,
    ensures
        sx <= sy * pow2(g),
{
    lemma2_to64();
    if same {
        assert(sy * pow2(0) == sy) by (nonlinear_arith)
            requires
                pow2(0) == 1,
        ;
    } else {
        lemma_pow2_ordered(1, g);
        assert(sx <= sy * pow2(g)) by (nonlinear_arith)
            requires
                sx <= 2 * sy,
                pow2(g) >= 2,
        ;
    }
}

/// The sum of two numbers that are not negative is the rounding of the sum of their values.
proof fn lemma_sum_of_magnitudes(x: nat, y: nat)
    requires
        x < INFINITE,
        y < INFINITE,
        x > 0 || y > 0,
    ensures
        in_units(x, -1074) + in_units(y, -1074) >= 1,
        finite_sum(false, x, false, y) == signed(
            false,
            rounded(in_units(x, -1074) + in_units(y, -1074), 1, -1074),
        ),
{
    lemma_fields(x);
    lemma_fields(y);
    let e = if exponent(x) < exponent(y) {
        exponent(x)
    } else {
        exponent(y)
    };
    let g = (e + 1074) as nat;
    let p = pow2(g);
    lemma_pow2_pos(g);
    let n = in_units(x, e) + in_units(y, e);
    let px = pow2((exponent(x) - e) as nat);
    let py = pow2((exponent(y) - e) as nat);
    lemma_pow2_pos((exponent(x) - e) as nat);
    lemma_pow2_pos((exponent(y) - e) as nat);
    lemma_pow2_adds((exponent(x) - e) as nat, g);
    lemma_pow2_adds((exponent(y) - e) as nat, g);
    let (sx, sy) = (significand(x), significand(y));
    assert(sx * px + sy * py >= 1) by (nonlinear_arith)
        requires
            sx > 0 || sy > 0,
            px > 0,
            py > 0,
            sx >= 0,
            sy >= 0,
    ;
    assert(sx * (px * p) == (sx * px) * p) by (nonlinear_arith);
    assert(sy * (py * p) == (sy * py) * p) by (nonlinear_arith);
    assert((sx * px + sy * py) * p == (sx * px) * p + (sy * py) * p) by (nonlinear_arith);
    assert((sx * px + sy * py) * p >= 1) by (nonlinear_arith)
        requires
            sx * px + sy * py >= 1,
            p >= 1,
    ;
    lemma_rounded_shifted(n, 1, e, g);
}

/// Sums of numbers that are not below zero are not below zero, and larger operands do not have
/// smaller sums.
pub proof fn lemma_add_monotone(a: Binary64, b: Binary64, t: Binary64)
    requires
        fl_le(fl(0), a),
        fl_le(a, b),
        fl_le(fl(0), t),
    ensures
        fl_le(fl(0), fl_add(a, t)),
        fl_le(fl_add(a, t), fl_add(b, t)),
{
    reveal(fl_le);
    reveal(fl_add);
    let (x, y, z) = (magnitude(a), magnitude(b), magnitude(t));
    if x < INFINITE && z < INFINITE {
        lemma_nonnegative_sum(a, t);
    }
    if y < INFINITE && z < INFINITE {
        lemma_nonnegative_sum(b, t);
        lemma_in_units_monotone(x, y, -1074);
        if x > 0 || z > 0 {
            lemma_sum_of_magnitudes(x, z);
            lemma_sum_of_magnitudes(y, z);
            lemma_rounded_monotone(
                in_units(x, -1074) + in_units(z, -1074),
                in_units(y, -1074) + in_units(z, -1074),
                1,
                -1074,
            );
        } else {
            assert(in_units(0, -1074) == 0) by {
                assert(0 * pow2(0) == 0);
            }
            assert(magnitude(finite_sum(false, 0, false, 0)) == 0);
        }
    }
}

/// The sum of two finite numbers that are not below zero, whatever the sign of a zero.
proof fn lemma_nonnegative_sum(a: Binary64, b: Binary64)
    requires
        is_finite(a),
        is_finite(b),
        !negative(a) || magnitude(a) == 0,
        !negative(b) || magnitude(b) == 0,
    ensures
        magnitude(fl_add(a, b)) == magnitude(finite_sum(false, magnitude(a), false, magnitude(b))),
        magnitude(fl_add(a, b)) <= INFINITE,
        !negative(fl_add(a, b)) || magnitude(fl_add(a, b)) == 0,
{
    reveal(fl_add);
    let (x, y) = (magnitude(a), magnitude(b));
    assert(in_units(0, -1074) == 0) by {
        assert(0 * pow2(0) == 0);
    }
    let e = if exponent(x) < exponent(y) {
        exponent(x)
    } else {
        exponent(y)
    };
    assert(x == 0 ==> in_units(x, e) == 0) by (nonlinear_arith)
        requires
            in_units(x, e) == significand(x) * pow2((exponent(x) - e) as nat),
            x == 0 ==> significand(x) == 0,
    ;
    assert(y == 0 ==> in_units(y, e) == 0) by (nonlinear_arith)
        requires
            in_units(y, e) == significand(y) * pow2((exponent(y) - e) as nat),
            y == 0 ==> significand(y) == 0,
    ;
    assert(finite_sum(negative(a), x, negative(b), y) == fl_add(a, b));
}

/// A number is not above its sum with one that is not below zero.
pub proof fn lemma_add_grows(a: Binary64, t: Binary64)
    requires
        fl_le(fl(0), a),
        fl_le(fl(0), t),
    ensures
        fl_le(a, fl_add(a, t)),
        fl_le(fl(0), fl_add(a, t)),
{
    reveal(fl_le);
    lemma_add_monotone(fl(0), t, a);
    lemma_add_commutes(t, a);
    if is_finite(a) {
        lemma_add_zero(a, fl(0));
    } else {
        reveal(fl_add);
    }
}

/// Products do not depend on the order of their operands.
pub proof fn lemma_mul_commutes(a: Binary64, b: Binary64)
    ensures
        fl_mul(a, b) == fl_mul(b, a),
{
    reveal(fl_mul);
    let (x, y) = (magnitude(a), magnitude(b));
    assert(significand(x) * significand(y) == significand(y) * significand(x))
        by (nonlinear_arith);
}

/// A product with a larger factor is not smaller, signs aside.
pub proof fn lemma_mul_monotone(a: Binary64, c: Binary64, b: Binary64)
    requires
        magnitude(a) <= magnitude(c) < INFINITE,
        is_finite(b),
    ensures
        magnitude(fl_mul(a, b)) <= magnitude(fl_mul(c, b)) <= INFINITE,
{
    reveal(fl_mul);
    let (x, z, y) = (magnitude(a), magnitude(c), magnitude(b));
    if x > 0 && y > 0 {
        lemma_fields(x);
        lemma_fields(z);
        lemma_fields(y);
        lemma_fields_ordered(z, x);
        let (sx, sz, sy) = (significand(x), significand(z), significand(y));
        let g = (exponent(z) - exponent(x)) as nat;
        lemma_scaled_significands(sx, sz, g, exponent(x) == exponent(z));
        assert(sz * sy >= 1 && sx * sy >= 1 && sx * sy <= (sz * sy) * pow2(g)) by (nonlinear_arith)
            requires
                sx >= 1,
                sz >= 1,
                sy >= 1,
                sx <= sz * pow2(g),
        {
            assert((sz * sy) * pow2(g) == (sz * pow2(g)) * sy);
        }
        lemma_rounded_shifted(sz * sy, 1, exponent(z) + exponent(y), g);
        lemma_rounded_monotone(sx * sy, (sz * sy) * pow2(g), 1, exponent(x) + exponent(y));
    }
}

/// A factor between zero and one does not enlarge a finite number.
pub proof fn lemma_weighted_smaller(w: Binary64, a: Binary64)
    requires
        fl_le(fl(0), w),
        fl_le(w, fl(ONE)),
        is_finite(a),
    ensures
        magnitude(fl_mul(w, a)) <= magnitude(a),
{
    reveal(fl_le);
    lemma_mul_monotone(w, fl(ONE), a);
    lemma_mul_one(a);
}

/// The square of a number is not below zero, and the square of a larger one is not smaller.
pub proof fn lemma_square_monotone(a: Binary64, b: Binary64)
    requires
        fl_le(fl(0), a),
        fl_le(a, b),
    ensures
        fl_le(fl(0), fl_mul(a, a)),
        fl_le(fl_mul(a, a), fl_mul(b, b)),
{
    reveal(fl_le);
    if is_finite(b) {
        lemma_mul_monotone(a, b, a);
        lemma_mul_monotone(a, b, b);
        lemma_mul_commutes(a, b);
        lemma_square_sign(a);
        lemma_square_sign(b);
    } else {
        lemma_square_sign(a);
        reveal(fl_mul);
    }
}

/// The square of a number has no sign.
pub proof fn lemma_square_sign(a: Binary64)
    requires
        !is_nan(a),
    ensures
        !negative(fl_mul(a, a)),
        magnitude(fl_mul(a, a)) <= INFINITE,
        fl_le(fl(0), fl_mul(a, a)),
{
    reveal(fl_mul);
    reveal(fl_le);
}

} // verus!
