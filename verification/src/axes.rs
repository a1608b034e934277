//! Rotations about one axis.
use crate::binary64::{fl_add, fl_mul, fl_sqrt, Binary64};
use crate::chains::{lemma_finite_factors, lemma_unit_of, unit_of};
use crate::errors::{
    abs, half_unit, lemma_add_near, lemma_add_relative, lemma_mul_near, lemma_mul_value,
    lemma_real_associative, lemma_real_cancel, lemma_real_distributes, lemma_real_mul_ordered,
    lemma_real_one, lemma_tiny_small, slack, tiny, value,
};
use crate::exactness::is_finite;
use crate::identities::{
    law_turns_add, lemma_diagonal_factors, lemma_half, lemma_larger_square, lemma_less_one,
    lemma_scaled_norm, lemma_side_factors, lemma_signs, lemma_square_difference, lemma_unit_length,
    turn_diagonal, turn_entry, turn_side,
};
use crate::linear::{is_small_angle, product, product_entry, rotation_by, squared_norm};
use crate::rotations::{
    exact_diagonal, exact_norm, exact_side, is_moderate, is_near_matrix, is_sound_pair,
    lemma_abs_product, lemma_product_bounded, lemma_products_near, lemma_rotation_near,
    lemma_short_turn, lemma_slack_small, lemma_square_at_least, lemma_square_nonnegative,
    lemma_wide_turn, turn_factors,
};
use vstd::prelude::*;

verus! {

/// How far the sine and cosine that a rotation is made with may be off: `1e-10`.
pub open spec fn angle_error() -> real {
    (1 as real) / (10000000000int as real)
}

/// Whether `(x, y, z)` has unit length.
pub open spec fn is_axis(x: real, y: real, z: real) -> bool {
    x * x + y * y + z * z == 1 as real
}

/// How far the entries of a vector may stray from a multiple of an axis, relative to its length:
/// `1e-13`, which leaves room for several roundings.
pub open spec fn axis_error() -> real {
    (1 as real) / (10000000000000int as real)
}

/// Whether a vector is `r` times `(x, y, z)` up to rounding.
pub open spec fn lies_near(w: [Binary64; 3], r: real, x: real, y: real, z: real) -> bool {
    &&& abs(value(w[0]) - r * x) <= axis_error() * abs(r) + tiny()
    &&& abs(value(w[1]) - r * y) <= axis_error() * abs(r) + tiny()
    &&& abs(value(w[2]) - r * z) <= axis_error() * abs(r) + tiny()
}

/// Whether the rotation by a vector that is nearly `r` times its axis is made as that by the angle
/// with sine `s` and cosine `c`: `sine` and `cosine` are those of the vector's length up to the
/// error, and near zero, where they are not used, the angle is its own sine up to the error.
pub open spec fn turns_by(
    w: [Binary64; 3],
    r: real,
    s: real,
    c: real,
    sine: Binary64,
    cosine: Binary64,
) -> bool {
    &&& is_moderate(w)
    &&& is_sound_pair(sine, cosine)
    &&& abs(s) <= 1 as real
    &&& abs(c) <= 1 as real
    &&& if is_small_angle(w) {
        abs(r - s) <= angle_error() && abs((1 as real) - c) <= angle_error()
    } else {
        &&& abs(value(sine) - if r < 0 as real {
            -s
        } else {
            s
        }) <= angle_error()
        &&& abs(value(cosine) - c) <= angle_error()
    }
}

// ---------------------------------------------------------------------------
// The factors
// ---------------------------------------------------------------------------

/// Twice the relative part of how far the entries of a vector may stray.
spec fn stray() -> real {
    (2 as real) * axis_error()
}

/// Whether the entries of a vector stray from `r` times an axis by a part of `p` at most, where
/// `p` is a scale at which the factors `a` and `b` of its rotation are not large.
spec fn strays_within(
    w: [Binary64; 3],
    r: real,
    x: real,
    y: real,
    z: real,
    a: real,
    b: real,
    p: real,
) -> bool {
    &&& abs(r) <= p
    &&& abs(value(w[0]) - r * x) <= stray() * p
    &&& abs(value(w[1]) - r * y) <= stray() * p
    &&& abs(value(w[2]) - r * z) <= stray() * p
    &&& abs(a) * p <= 4 as real
    &&& abs(b) * (p * p) <= 8 as real
}

/// A part of a number that is not below zero.
proof fn lemma_stray_small(p: real)
    requires
        p >= 0 as real,
    ensures
        stray() * p >= 0 as real,
        (5000000000000int as real) * (stray() * p) == p,
        (2 as real) * (axis_error() * p) == stray() * p,
{
    lemma_real_associative(5000000000000int as real, stray(), p);
    lemma_real_associative(2 as real, axis_error(), p);
    lemma_real_one(p);
}

/// A multiple of an entry of an axis.
proof fn lemma_multiple_bounded(r: real, x: real, p: real)
    requires
        abs(r) <= p,
        abs(x) <= 1 as real,
    ensures
        abs(r * x) <= p,
{
    lemma_product_bounded(r, x, p, 1 as real);
    lemma_real_one(p);
}

/// The product of two entries against that of the multiples of the axis.
proof fn lemma_pair_moved(v: real, v0: real, u: real, u0: real, p: real)
    requires
        abs(v - v0) <= stray() * p,
        abs(u - u0) <= stray() * p,
        abs(v0) <= p,
        abs(u0) <= p,
        p >= 0 as real,
    ensures
        abs(v * u - v0 * u0) <= (4 as real) * (stray() * (p * p)),
{
    lemma_stray_small(p);
    let d = stray() * p;
    let m = (2 as real) * p;
    lemma_products_near(v, v0, u, u0, d, m);
    lemma_real_associative(d, 2 as real, p);
    lemma_real_associative(stray(), p, p);
}

/// The squared length of a vector near an axis.
proof fn lemma_norm_near_axis(
    w: [Binary64; 3],
    r: real,
    x: real,
    y: real,
    z: real,
    p: real,
)
    requires
        is_axis(x, y, z),
        abs(r) <= p,
        abs(value(w[0]) - r * x) <= stray() * p,
        abs(value(w[1]) - r * y) <= stray() * p,
        abs(value(w[2]) - r * z) <= stray() * p,
    ensures
        abs(exact_norm(w) - r * r) <= (12 as real) * (stray() * (p * p)),
{
    lemma_axis_bounded(x, y, z);
    lemma_multiple_bounded(r, x, p);
    lemma_multiple_bounded(r, y, p);
    lemma_multiple_bounded(r, z, p);
    lemma_pair_moved(value(w[0]), r * x, value(w[0]), r * x, p);
    lemma_pair_moved(value(w[1]), r * y, value(w[1]), r * y, p);
    lemma_pair_moved(value(w[2]), r * z, value(w[2]), r * z, p);
    lemma_scaled_norm(r, x, y, z);
    lemma_real_one(r * r);
}

/// Lengths with near squares are near.
proof fn lemma_length_close(h: real, p: real, k: real)
    requires
        h > 0 as real,
        p > 0 as real,
        abs(h * h - p * p) <= k * (p * p),
    ensures
        abs(h - p) <= k * p,
{
    let d = abs(h - p);
    lemma_square_difference(h, p);
    lemma_abs_product(h - p, h + p);
    lemma_real_mul_ordered(p, h + p, d);
    lemma_real_associative(p, d, d);
    lemma_real_associative(h + p, d, d);
    lemma_real_associative(k, p, p);
    lemma_real_cancel(d, k * p, p);
}

/// The relative error of a computed length: `4e-12`.
spec fn length_error() -> real {
    (1 as real) / (250000000000int as real)
}

proof fn lemma_length_error_small(p: real)
    requires
        p >= 0 as real,
    ensures
        (250000000000int as real) * (length_error() * p) == p,
{
    lemma_real_associative(250000000000int as real, length_error(), p);
    lemma_real_one(p);
}

/// The first factor times the exact length.
proof fn lemma_sine_close(a: real, h: real, p: real, s: real)
    requires
        h > 0 as real,
        p > 0 as real,
        abs(h - p) <= length_error() * p,
        abs(a * h - s) <= slack(),
        abs(s) <= 1 as real,
    ensures
        abs(a) * p <= 4 as real,
        abs(a * p - s) <= slack() + (4 as real) * length_error(),
{
    let m = abs(a);
    let k = length_error();
    lemma_length_error_small(p);
    lemma_abs_product(a, h);
    lemma_real_mul_ordered(p, (2 as real) * h, m);
    lemma_real_associative(2 as real, h, m);
    lemma_real_associative(h, m, m);
    lemma_real_associative(p, m, m);
    assert(p * m <= 4 as real);
    lemma_product_bounded(h - p, a, k * p, m);
    lemma_real_associative(k, p, m);
    lemma_real_mul_ordered(p * m, 4 as real, k);
    lemma_real_associative(p * m, k, k);
    lemma_real_distributes(h, p, a);
    lemma_real_associative(h, a, a);
    lemma_real_associative(p, a, a);
}

/// The second factor times the exact squared length: `n` is the squared length of the vector and
/// `q` that of the multiple of the axis.
proof fn lemma_cosine_close(b: real, n: real, q: real, c: real)
    requires
        abs(n - q) <= (12 as real) * (stray() * q),
        q >= 0 as real,
        abs(b * n - ((1 as real) - c)) <= (38 as real) * slack(),
        abs(c) <= 1 as real,
    ensures
        abs(b) * q <= 8 as real,
        abs(b * q - ((1 as real) - c)) <= (38 as real) * slack() + (96 as real) * stray(),
{
    let m = abs(b);
    let k = stray();
    lemma_stray_small(q);
    assert(q <= (2 as real) * n);
    lemma_abs_product(b, n);
    lemma_real_mul_ordered(q, (2 as real) * n, m);
    lemma_real_associative(2 as real, n, m);
    lemma_real_associative(n, m, m);
    lemma_real_associative(q, m, m);
    assert(m * q <= 8 as real);
    lemma_product_bounded(n - q, b, (12 as real) * (k * q), m);
    lemma_real_associative(12 as real, k * q, m);
    lemma_real_associative(k, q, m);
    lemma_real_mul_ordered(q * m, 8 as real, k);
    lemma_real_associative(q * m, k, k);
    lemma_real_distributes(n, q, b);
    lemma_real_associative(n, b, b);
    lemma_real_associative(q, b, b);
}

/// A vector whose rotation is wide is not near zero.
proof fn lemma_wide_multiple(w: [Binary64; 3], r: real, x: real, y: real, z: real, h: real)
    requires
        is_axis(x, y, z),
        lies_near(w, r, x, y, z),
        h >= (1 as real) / (10000000000int as real),
        exact_norm(w) >= 0 as real,
        abs(h * h - exact_norm(w)) <= (9 as real) * (slack() * exact_norm(w)),
    ensures
        abs(r) >= (1 as real) / (1000000000000int as real),
{
    let p = (1 as real) / (1000000000000int as real);
    if abs(r) < p {
        let n = exact_norm(w);
        let m = (2 as real) * p;
        lemma_tiny_small();
        lemma_axis_bounded(x, y, z);
        lemma_multiple_bounded(r, x, p);
        lemma_multiple_bounded(r, y, p);
        lemma_multiple_bounded(r, z, p);
        lemma_real_mul_ordered(axis_error(), 1 as real, abs(r));
        lemma_stray_small(abs(r));
        lemma_product_bounded(value(w[0]), value(w[0]), m, m);
        lemma_product_bounded(value(w[1]), value(w[1]), m, m);
        lemma_product_bounded(value(w[2]), value(w[2]), m, m);
        assert(m * m == (4 as real) / (1000000000000000000000000int as real));
        lemma_slack_small(n);
        lemma_square_at_least(h);
    }
}

/// The parts of a wide rotation: the scale is the length of the multiple of the axis.
proof fn lemma_wide_parts(
    w: [Binary64; 3],
    r: real,
    x: real,
    y: real,
    z: real,
    s: real,
    c: real,
    sine: Binary64,
    cosine: Binary64,
)
    requires
        is_axis(x, y, z),
        lies_near(w, r, x, y, z),
        turns_by(w, r, s, c, sine, cosine),
        !is_small_angle(w),
    ensures
        ({
            let f = turn_factors(squared_norm(w), sine, cosine);
            &&& strays_within(w, r, x, y, z, value(f.0), value(f.1), abs(r))
            &&& abs(value(f.0) * r - s) <= (2 as real) * angle_error()
            &&& abs(value(f.1) * (r * r) - ((1 as real) - c)) <= (2 as real) * angle_error()
        }),
{
    let f = turn_factors(squared_norm(w), sine, cosine);
    lemma_wide_turn(w, sine, cosine);
    let h = value(fl_sqrt(squared_norm(w)));
    let p = abs(r);
    let n = exact_norm(w);
    lemma_wide_multiple(w, r, x, y, z, h);
    lemma_tiny_small();
    lemma_stray_small(p);
    lemma_signs(value(f.0), r);
    let q = p * p;
    assert(q == r * r);
    lemma_norm_near_axis(w, r, x, y, z, p);
    lemma_square_nonnegative(r);
    lemma_stray_small(q);
    lemma_length_error_small(q);
    lemma_slack_small(n);
    assert(abs(h * h - q) <= length_error() * q);
    lemma_length_close(h, p, length_error());
    lemma_sine_close(value(f.0), h, p, value(sine));
    lemma_cosine_close(value(f.1), n, q, value(cosine));
}

/// One of the entries of an axis is not small.
proof fn lemma_axis_has_length(x: real, y: real, z: real)
    requires
        is_axis(x, y, z),
    ensures
        abs(x) >= (1 as real) / (2 as real) || abs(y) >= (1 as real) / (2 as real) || abs(z) >= (
        1 as real) / (2 as real),
{
    let half = (1 as real) / (2 as real);
    if abs(x) < half && abs(y) < half && abs(z) < half {
        lemma_product_bounded(x, x, half, half);
        lemma_product_bounded(y, y, half, half);
        lemma_product_bounded(z, z, half, half);
        assert(half * half == (1 as real) / (4 as real));
    }
}

/// Where an entry of a vector is small and the entry of the axis is not, so is the multiple.
proof fn lemma_multiple_small(v: real, r: real, x: real)
    requires
        abs(v - r * x) <= axis_error() * abs(r) + tiny(),
        abs(v) <= (1 as real) / (100000000int as real),
        abs(x) >= (1 as real) / (2 as real),
    ensures
        abs(r) <= (3 as real) / (100000000int as real),
{
    lemma_tiny_small();
    lemma_abs_product(r, x);
    lemma_real_mul_ordered((1 as real) / (2 as real), abs(x), abs(r));
    lemma_real_associative(abs(x), abs(r), r);
    lemma_half(abs(r));
    lemma_stray_small(abs(r));
}

/// A number whose square is small is small.
proof fn lemma_small_root(v: real)
    requires
        v * v <= (1 as real) / (10000000000000000int as real),
    ensures
        abs(v) <= (1 as real) / (100000000int as real),
{
    let h = (1 as real) / (100000000int as real);
    assert(h * h == (1 as real) / (10000000000000000int as real));
    if abs(v) > h {
        let m = abs(v);
        lemma_abs_product(v, v);
        lemma_square_nonnegative(v);
        lemma_real_mul_ordered(h, m, h);
        lemma_real_mul_ordered(h, m, m);
        lemma_real_associative(h, m, m);
        lemma_larger_square(m, h);
    }
}

/// The parts of a short rotation, at a scale of `3e-8`.
proof fn lemma_short_parts(
    w: [Binary64; 3],
    r: real,
    x: real,
    y: real,
    z: real,
    s: real,
    c: real,
    sine: Binary64,
    cosine: Binary64,
)
    requires
        is_axis(x, y, z),
        lies_near(w, r, x, y, z),
        turns_by(w, r, s, c, sine, cosine),
        is_small_angle(w),
    ensures
        ({
            let f = turn_factors(squared_norm(w), sine, cosine);
            &&& strays_within(
                w,
                r,
                x,
                y,
                z,
                value(f.0),
                value(f.1),
                (3 as real) / (100000000int as real),
            )
            &&& abs(value(f.0) * r - s) <= (2 as real) * angle_error()
            &&& abs(value(f.1) * (r * r) - ((1 as real) - c)) <= (2 as real) * angle_error()
        }),
{
    let f = turn_factors(squared_norm(w), sine, cosine);
    let (a, b) = (value(f.0), value(f.1));
    let one = 1 as real;
    let p = (3 as real) / (100000000int as real);
    lemma_short_turn(w, sine, cosine);
    lemma_square_nonnegative(value(w[0]));
    lemma_square_nonnegative(value(w[1]));
    lemma_square_nonnegative(value(w[2]));
    lemma_small_root(value(w[0]));
    lemma_small_root(value(w[1]));
    lemma_small_root(value(w[2]));
    lemma_axis_has_length(x, y, z);
    if abs(x) >= one / (2 as real) {
        lemma_multiple_small(value(w[0]), r, x);
    } else if abs(y) >= one / (2 as real) {
        lemma_multiple_small(value(w[1]), r, y);
    } else {
        lemma_multiple_small(value(w[2]), r, z);
    }
    lemma_tiny_small();
    lemma_real_mul_ordered(abs(r), p, axis_error());
    lemma_real_associative(abs(r), axis_error(), p);
    lemma_real_associative(p, axis_error(), p);
    lemma_stray_small(p);
    // the first factor
    lemma_product_bounded(a - one, r, (3 as real) * slack(), p);
    lemma_real_distributes(a, one, r);
    lemma_real_one(r);
    lemma_real_mul_ordered(abs(a), 2 as real, p);
    // the second one
    lemma_product_bounded(r, r, p, p);
    let t = (9 as real) / (10000000000000000int as real);
    assert(p * p == t);
    lemma_product_bounded(b, r * r, one, t);
    lemma_real_one(t);
    lemma_real_mul_ordered(abs(b), one, t);
}

// ---------------------------------------------------------------------------
// The entries
// ---------------------------------------------------------------------------

/// An entry off the diagonal, where the products of the factors are off by `d` at most.
proof fn lemma_side_along(
    a: real,
    s: real,
    b: real,
    c: real,
    r: real,
    u: real,
    v: real,
    w: real,
    d: real,
)
    requires
        abs(a * r - s) <= d,
        abs(b * (r * r) - ((1 as real) - c)) <= d,
        abs(u) <= 1 as real,
        abs(v * w) <= 1 as real,
    ensures
        abs(exact_side(a, r * u, b, r * v, r * w) - turn_side(s, u, c, v * w)) <= (2 as real) * d,
{
    let one = 1 as real;
    let m = v * w;
    lemma_side_factors(a, r, u, b, v, w);
    lemma_product_bounded(a * r - s, u, d, one);
    lemma_product_bounded(b * (r * r) - (one - c), m, d, one);
    lemma_real_distributes(a * r, s, u);
    lemma_real_distributes(b * (r * r), one - c, m);
    lemma_real_one(d);
}

/// An entry on the diagonal, where the product of the factor is off by `d` at most.
proof fn lemma_diagonal_along(b: real, c: real, r: real, u: real, d: real)
    requires
        abs(b * (r * r) - ((1 as real) - c)) <= d,
        0 as real <= u * u <= 1 as real,
    ensures
        abs(exact_diagonal(b, r * u, r * r) - turn_diagonal(c, u)) <= (2 as real) * d,
{
    let one = 1 as real;
    let k = one - c;
    lemma_diagonal_factors(r, u, b);
    lemma_product_bounded(b * (r * r) - k, u * u - one, d, one);
    lemma_real_distributes(b * (r * r), k, u * u - one);
    lemma_less_one(k, u * u);
    lemma_real_one(d);
}

/// The entries of an axis and their products do not exceed one.
proof fn lemma_axis_bounded(x: real, y: real, z: real)
    requires
        is_axis(x, y, z),
    ensures
        0 as real <= x * x <= 1 as real,
        0 as real <= y * y <= 1 as real,
        0 as real <= z * z <= 1 as real,
        abs(x) <= 1 as real,
        abs(y) <= 1 as real,
        abs(z) <= 1 as real,
{
    lemma_square_nonnegative(x);
    lemma_square_nonnegative(y);
    lemma_square_nonnegative(z);
    lemma_unit_length(x);
    lemma_unit_length(y);
    lemma_unit_length(z);
}

proof fn lemma_unit_product(v: real, w: real)
    requires
        abs(v) <= 1 as real,
        abs(w) <= 1 as real,
    ensures
        abs(v * w) <= 1 as real,
        v * w == w * v,
{
    lemma_product_bounded(v, w, 1 as real, 1 as real);
    lemma_real_associative(v, w, w);
}

/// An entry off the diagonal of a vector near an axis, against that of the multiple of the axis.
proof fn lemma_side_moved(
    a: real,
    u: real,
    u0: real,
    b: real,
    v: real,
    v0: real,
    w: real,
    w0: real,
    p: real,
)
    requires
        abs(u - u0) <= stray() * p,
        abs(v - v0) <= stray() * p,
        abs(w - w0) <= stray() * p,
        abs(v0) <= p,
        abs(w0) <= p,
        p >= 0 as real,
        abs(a) * p <= 4 as real,
        abs(b) * (p * p) <= 8 as real,
    ensures
        abs(exact_side(a, u, b, v, w) - exact_side(a, u0, b, v0, w0)) <= (36 as real) * stray(),
{
    let k = stray();
    // the first product
    lemma_product_bounded(u - u0, a, k * p, abs(a));
    lemma_real_distributes(u, u0, a);
    lemma_real_associative(u, a, a);
    lemma_real_associative(u0, a, a);
    lemma_real_associative(k, p, abs(a));
    lemma_real_associative(p, abs(a), k);
    lemma_real_mul_ordered(abs(a) * p, 4 as real, k);
    lemma_real_associative(abs(a) * p, k, k);
    assert(abs(a * u - a * u0) <= (4 as real) * k);
    // the second one
    lemma_pair_moved(v, v0, w, w0, p);
    lemma_moved_by(b, v * w, v0 * w0, p, 4 as real);
    lemma_real_associative(b, v, w);
    lemma_real_associative(b, v0, w0);
}

/// A factor of a rotation times numbers that are near at its scale.
proof fn lemma_moved_by(b: real, e: real, e0: real, p: real, c: real)
    requires
        abs(e - e0) <= c * (stray() * (p * p)),
        abs(b) * (p * p) <= 8 as real,
        c >= 0 as real,
    ensures
        abs(b * e - b * e0) <= ((8 as real) * c) * stray(),
{
    let k = stray();
    let q = p * p;
    lemma_product_bounded(e - e0, b, c * (k * q), abs(b));
    lemma_real_distributes(e, e0, b);
    lemma_real_associative(e, b, b);
    lemma_real_associative(e0, b, b);
    lemma_real_associative(c, k * q, abs(b));
    lemma_real_associative(k, q, abs(b));
    lemma_real_associative(q, abs(b), k);
    lemma_real_mul_ordered(abs(b) * q, 8 as real, k);
    lemma_real_associative(abs(b) * q, k, k);
    let m = k * (q * abs(b));
    lemma_real_mul_ordered(m, (8 as real) * k, c);
    lemma_real_associative(m, c, c);
    lemma_real_associative(8 as real, k, c);
    lemma_real_associative((8 as real) * k, c, c);
}

/// An entry on the diagonal of a vector near an axis, against that of the multiple of the axis.
proof fn lemma_diagonal_moved(b: real, v: real, v0: real, n: real, n0: real, p: real)
    requires
        abs(v - v0) <= stray() * p,
        abs(v0) <= p,
        abs(n - n0) <= (12 as real) * (stray() * (p * p)),
        p >= 0 as real,
        abs(b) * (p * p) <= 8 as real,
    ensures
        abs(exact_diagonal(b, v, n) - exact_diagonal(b, v0, n0)) <= (128 as real) * stray(),
{
    lemma_pair_moved(v, v0, v, v0, p);
    lemma_moved_by(b, v * v - n, v0 * v0 - n0, p, 16 as real);
}

/// A step of rounding, one to the axis, and one of the factors.
proof fn lemma_entry_close(v: real, exact: real, along: real, turn: real)
    requires
        abs(v - exact) <= (64 as real) * slack(),
        abs(exact - along) <= (128 as real) * stray(),
        abs(along - turn) <= (2 as real) * ((2 as real) * angle_error()),
    ensures
        abs(v - turn) <= (5 as real) * angle_error(),
{
}

/// The entries on the diagonal.
proof fn lemma_diagonals_along(
    m: [[Binary64; 3]; 3],
    a: real,
    b: real,
    w: [Binary64; 3],
    r: real,
    x: real,
    y: real,
    z: real,
    c: real,
    p: real,
)
    requires
        is_near_matrix(m, a, b, w),
        is_axis(x, y, z),
        strays_within(w, r, x, y, z, a, b, p),
        abs(b * (r * r) - ((1 as real) - c)) <= (2 as real) * angle_error(),
    ensures
        is_finite(m[0][0]) && is_finite(m[1][1]) && is_finite(m[2][2]),
        abs(value(m[0][0]) - turn_diagonal(c, x)) <= (5 as real) * angle_error(),
        abs(value(m[1][1]) - turn_diagonal(c, y)) <= (5 as real) * angle_error(),
        abs(value(m[2][2]) - turn_diagonal(c, z)) <= (5 as real) * angle_error(),
{
    let d = (2 as real) * angle_error();
    let (n, n0) = (exact_norm(w), r * r);
    lemma_axis_bounded(x, y, z);
    lemma_multiple_bounded(r, x, p);
    lemma_multiple_bounded(r, y, p);
    lemma_multiple_bounded(r, z, p);
    lemma_norm_near_axis(w, r, x, y, z, p);
    lemma_diagonal_moved(b, value(w[0]), r * x, n, n0, p);
    lemma_diagonal_moved(b, value(w[1]), r * y, n, n0, p);
    lemma_diagonal_moved(b, value(w[2]), r * z, n, n0, p);
    lemma_diagonal_along(b, c, r, x, d);
    lemma_diagonal_along(b, c, r, y, d);
    lemma_diagonal_along(b, c, r, z, d);
    lemma_entry_close(
        value(m[0][0]),
        exact_diagonal(b, value(w[0]), n),
        exact_diagonal(b, r * x, n0),
        turn_diagonal(c, x),
    );
    lemma_entry_close(
        value(m[1][1]),
        exact_diagonal(b, value(w[1]), n),
        exact_diagonal(b, r * y, n0),
        turn_diagonal(c, y),
    );
    lemma_entry_close(
        value(m[2][2]),
        exact_diagonal(b, value(w[2]), n),
        exact_diagonal(b, r * z, n0),
        turn_diagonal(c, z),
    );
}

/// An entry off the diagonal: `u`, `v` and `w` are entries of the vector, and `x`, `y` and `z`
/// those of the axis.
proof fn lemma_side_turned(
    entry: Binary64,
    a: real,
    b: real,
    u: real,
    v: real,
    w: real,
    r: real,
    x: real,
    y: real,
    z: real,
    s: real,
    c: real,
    p: real,
)
    requires
        abs(value(entry) - exact_side(a, u, b, v, w)) <= (64 as real) * slack(),
        abs(u - r * x) <= stray() * p,
        abs(v - r * y) <= stray() * p,
        abs(w - r * z) <= stray() * p,
        abs(r) <= p,
        abs(x) <= 1 as real,
        abs(y) <= 1 as real,
        abs(z) <= 1 as real,
        abs(a) * p <= 4 as real,
        abs(b) * (p * p) <= 8 as real,
        abs(a * r - s) <= (2 as real) * angle_error(),
        abs(b * (r * r) - ((1 as real) - c)) <= (2 as real) * angle_error(),
    ensures
        abs(value(entry) - turn_side(s, x, c, y * z)) <= (5 as real) * angle_error(),
        y * z == z * y,
{
    lemma_multiple_bounded(r, y, p);
    lemma_multiple_bounded(r, z, p);
    lemma_unit_product(y, z);
    lemma_side_moved(a, u, r * x, b, v, r * y, w, r * z, p);
    lemma_side_along(a, s, b, c, r, x, y, z, (2 as real) * angle_error());
    lemma_entry_close(
        value(entry),
        exact_side(a, u, b, v, w),
        exact_side(a, r * x, b, r * y, r * z),
        turn_side(s, x, c, y * z),
    );
}

/// The entries above the diagonal, going round.
proof fn lemma_uppers_along(
    m: [[Binary64; 3]; 3],
    a: real,
    b: real,
    w: [Binary64; 3],
    r: real,
    x: real,
    y: real,
    z: real,
    s: real,
    c: real,
    p: real,
)
    requires
        is_near_matrix(m, a, b, w),
        is_axis(x, y, z),
        strays_within(w, r, x, y, z, a, b, p),
        abs(a * r - s) <= (2 as real) * angle_error(),
        abs(b * (r * r) - ((1 as real) - c)) <= (2 as real) * angle_error(),
    ensures
        is_finite(m[0][1]) && is_finite(m[1][2]) && is_finite(m[2][0]),
        abs(value(m[0][1]) - turn_side(-s, z, c, x * y)) <= (5 as real) * angle_error(),
        abs(value(m[1][2]) - turn_side(-s, x, c, y * z)) <= (5 as real) * angle_error(),
        abs(value(m[2][0]) - turn_side(-s, y, c, x * z)) <= (5 as real) * angle_error(),
{
    let (u, v, t) = (value(w[0]), value(w[1]), value(w[2]));
    lemma_axis_bounded(x, y, z);
    lemma_signs(a, r);
    lemma_side_turned(m[0][1], -a, b, t, u, v, r, z, x, y, -s, c, p);
    lemma_side_turned(m[1][2], -a, b, u, v, t, r, x, y, z, -s, c, p);
    lemma_side_turned(m[2][0], -a, b, v, t, u, r, y, z, x, -s, c, p);
}

/// The entries below the diagonal, going round.
proof fn lemma_lowers_along(
    m: [[Binary64; 3]; 3],
    a: real,
    b: real,
    w: [Binary64; 3],
    r: real,
    x: real,
    y: real,
    z: real,
    s: real,
    c: real,
    p: real,
)
    requires
        is_near_matrix(m, a, b, w),
        is_axis(x, y, z),
        strays_within(w, r, x, y, z, a, b, p),
        abs(a * r - s) <= (2 as real) * angle_error(),
        abs(b * (r * r) - ((1 as real) - c)) <= (2 as real) * angle_error(),
    ensures
        is_finite(m[1][0]) && is_finite(m[2][1]) && is_finite(m[0][2]),
        abs(value(m[1][0]) - turn_side(s, z, c, x * y)) <= (5 as real) * angle_error(),
        abs(value(m[2][1]) - turn_side(s, x, c, y * z)) <= (5 as real) * angle_error(),
        abs(value(m[0][2]) - turn_side(s, y, c, x * z)) <= (5 as real) * angle_error(),
{
    let (u, v, t) = (value(w[0]), value(w[1]), value(w[2]));
    lemma_axis_bounded(x, y, z);
    lemma_side_turned(m[1][0], a, b, t, v, u, r, z, y, x, s, c, p);
    lemma_side_turned(m[2][1], a, b, u, t, v, r, x, z, y, s, c, p);
    lemma_side_turned(m[0][2], a, b, v, u, t, r, y, x, z, s, c, p);
}

/// The rotation by a vector turns about its axis: where the vector is a multiple of the axis up to
/// rounding, it is, up to `5e-10`, the matrix that the axis and the sine and cosine of the angle
/// give.
pub proof fn law_rotation_turns_about_axis(
    w: [Binary64; 3],
    r: real,
    x: real,
    y: real,
    z: real,
    s: real,
    c: real,
    sine: Binary64,
    cosine: Binary64,
    i: int,
    j: int,
)
    requires
        is_axis(x, y, z),
        lies_near(w, r, x, y, z),
        turns_by(w, r, s, c, sine, cosine),
        0 <= i < 3,
        0 <= j < 3,
    ensures
        is_finite(rotation_by(w, sine, cosine)[i][j]),
        abs(value(rotation_by(w, sine, cosine)[i][j]) - turn_entry(s, c, x, y, z, i, j)) <= (
        5 as real) * angle_error(),
{
    let m = rotation_by(w, sine, cosine);
    let p = if is_small_angle(w) {
        lemma_short_parts(w, r, x, y, z, s, c, sine, cosine);
        (3 as real) / (100000000int as real)
    } else {
        lemma_wide_parts(w, r, x, y, z, s, c, sine, cosine);
        abs(r)
    };
    let f = lemma_rotation_near(w, sine, cosine);
    lemma_diagonals_along(m, f.0, f.1, w, r, x, y, z, c, p);
    lemma_uppers_along(m, f.0, f.1, w, r, x, y, z, s, c, p);
    lemma_lowers_along(m, f.0, f.1, w, r, x, y, z, s, c, p);
}

// ---------------------------------------------------------------------------
// Two rotations
// ---------------------------------------------------------------------------

/// The entries of a rotation about an axis are not large.
proof fn lemma_turn_bounded(s: real, c: real, x: real, y: real, z: real, i: int, j: int)
    requires
        is_axis(x, y, z),
        abs(s) <= 1 as real,
        abs(c) <= 1 as real,
        0 <= i < 3,
        0 <= j < 3,
    ensures
        abs(turn_entry(s, c, x, y, z, i, j)) <= 3 as real,
{
    lemma_axis_bounded(x, y, z);
    lemma_unit_product(x, y);
    lemma_unit_product(x, z);
    lemma_unit_product(y, z);
    lemma_parts_bounded(s, x, c, y * z);
    lemma_parts_bounded(s, y, c, x * z);
    lemma_parts_bounded(s, z, c, x * y);
    lemma_parts_bounded(-s, x, c, y * z);
    lemma_parts_bounded(-s, y, c, x * z);
    lemma_parts_bounded(-s, z, c, x * y);
    lemma_parts_bounded(s, x, c, x * x);
    lemma_parts_bounded(s, y, c, y * y);
    lemma_parts_bounded(s, z, c, z * z);
}

proof fn lemma_parts_bounded(s: real, u: real, c: real, m: real)
    requires
        abs(s) <= 1 as real,
        abs(c) <= 1 as real,
        abs(u) <= 1 as real,
        abs(m) <= 1 as real,
    ensures
        abs(turn_side(s, u, c, m)) <= 3 as real,
        abs(c + ((1 as real) - c) * m) <= 3 as real,
{
    let one = 1 as real;
    lemma_product_bounded(s, u, one, one);
    lemma_product_bounded(one - c, m, 2 as real, one);
}

/// The product of two entries that are near the exact ones.
proof fn lemma_entry_product(p: Binary64, t: real, q: Binary64, u: real)
    requires
        is_finite(p),
        is_finite(q),
        abs(value(p) - t) <= (5 as real) * angle_error(),
        abs(value(q) - u) <= (5 as real) * angle_error(),
        abs(t) <= 3 as real,
        abs(u) <= 3 as real,
    ensures
        is_finite(fl_mul(p, q)),
        abs(value(fl_mul(p, q))) <= 17 as real,
        abs(value(fl_mul(p, q)) - t * u) <= (41 as real) * angle_error(),
{
    let (x, y) = (value(p), value(q));
    let (d, m) = ((5 as real) * angle_error(), 4 as real);
    let scale = 2 as real;
    lemma_product_bounded(x, y, m, m);
    lemma_products_near(x, t, y, u, d, m);
    lemma_mul_near(p, q, scale);
}

/// The sum of three products, from the left.
proof fn lemma_entry_sum(p: Binary64, q: Binary64, r: Binary64, t: real, u: real, v: real)
    requires
        is_finite(p),
        is_finite(q),
        is_finite(r),
        abs(value(p)) <= 17 as real,
        abs(value(q)) <= 17 as real,
        abs(value(r)) <= 17 as real,
        abs(value(p) - t) <= (41 as real) * angle_error(),
        abs(value(q) - u) <= (41 as real) * angle_error(),
        abs(value(r) - v) <= (41 as real) * angle_error(),
    ensures
        is_finite(fl_add(fl_add(p, q), r)),
        abs(value(fl_add(fl_add(p, q), r)) - (t + u + v)) <= (124 as real) * angle_error(),
{
    let scale = 2 as real;
    lemma_add_near(p, q, scale);
    lemma_add_near(fl_add(p, q), r, scale);
}

/// An entry of the product of two matrices that are near rotations about one axis.
proof fn lemma_product_along(
    a: [[Binary64; 3]; 3],
    b: [[Binary64; 3]; 3],
    t0: real,
    t1: real,
    t2: real,
    u0: real,
    u1: real,
    u2: real,
    i: int,
    j: int,
)
    requires
        0 <= i < 3,
        0 <= j < 3,
        is_finite(a[i][0]) && is_finite(a[i][1]) && is_finite(a[i][2]),
        is_finite(b[0][j]) && is_finite(b[1][j]) && is_finite(b[2][j]),
        abs(value(a[i][0]) - t0) <= (5 as real) * angle_error(),
        abs(value(a[i][1]) - t1) <= (5 as real) * angle_error(),
        abs(value(a[i][2]) - t2) <= (5 as real) * angle_error(),
        abs(value(b[0][j]) - u0) <= (5 as real) * angle_error(),
        abs(value(b[1][j]) - u1) <= (5 as real) * angle_error(),
        abs(value(b[2][j]) - u2) <= (5 as real) * angle_error(),
        abs(t0) <= 3 as real && abs(t1) <= 3 as real && abs(t2) <= 3 as real,
        abs(u0) <= 3 as real && abs(u1) <= 3 as real && abs(u2) <= 3 as real,
    ensures
        is_finite(product(a, b)[i][j]),
        abs(value(product(a, b)[i][j]) - (t0 * u0 + t1 * u1 + t2 * u2)) <= (124 as real)
            * angle_error(),
{
    lemma_entry_product(a[i][0], t0, b[0][j], u0);
    lemma_entry_product(a[i][1], t1, b[1][j], u1);
    lemma_entry_product(a[i][2], t2, b[2][j], u2);
    lemma_entry_sum(
        fl_mul(a[i][0], b[0][j]),
        fl_mul(a[i][1], b[1][j]),
        fl_mul(a[i][2], b[2][j]),
        t0 * u0,
        t1 * u1,
        t2 * u2,
    );
    assert(product(a, b)[i][j] == product_entry(a, b, i, j));
}

/// Rotations about one axis add their angles: the product of those by `r1` and `r2` times the
/// axis is, up to `2e-8`, the one by `r1 + r2` times the axis, where the vectors are these
/// multiples up to rounding. Each `t` holds the sine and cosine
/// that a rotation is made with, and `s` and `c` with the same number are those of its angle. Of
/// them the addition theorems hold.
pub proof fn law_angles_about_one_axis_add(
    w1: [Binary64; 3],
    w2: [Binary64; 3],
    w3: [Binary64; 3],
    r1: real,
    r2: real,
    x: real,
    y: real,
    z: real,
    s1: real,
    c1: real,
    s2: real,
    c2: real,
    s3: real,
    c3: real,
    t1: (Binary64, Binary64),
    t2: (Binary64, Binary64),
    t3: (Binary64, Binary64),
    i: int,
    j: int,
)
    requires
        is_axis(x, y, z),
        lies_near(w1, r1, x, y, z),
        lies_near(w2, r2, x, y, z),
        lies_near(w3, r1 + r2, x, y, z),
        turns_by(w1, r1, s1, c1, t1.0, t1.1),
        turns_by(w2, r2, s2, c2, t2.0, t2.1),
        turns_by(w3, r1 + r2, s3, c3, t3.0, t3.1),
        s3 == s1 * c2 + c1 * s2,
        c3 == c1 * c2 - s1 * s2,
        0 <= i < 3,
        0 <= j < 3,
    ensures
        is_finite(
            product(rotation_by(w1, t1.0, t1.1), rotation_by(w2, t2.0, t2.1))[i][j],
        ),
        abs(
            value(product(rotation_by(w1, t1.0, t1.1), rotation_by(w2, t2.0, t2.1))[i][j]) - value(
                rotation_by(w3, t3.0, t3.1)[i][j],
            ),
        ) <= (2 as real) / (100000000int as real),
{
    let (a, b) = (rotation_by(w1, t1.0, t1.1), rotation_by(w2, t2.0, t2.1));
    law_rotation_turns_about_axis(w1, r1, x, y, z, s1, c1, t1.0, t1.1, i, 0);
    law_rotation_turns_about_axis(w1, r1, x, y, z, s1, c1, t1.0, t1.1, i, 1);
    law_rotation_turns_about_axis(w1, r1, x, y, z, s1, c1, t1.0, t1.1, i, 2);
    law_rotation_turns_about_axis(w2, r2, x, y, z, s2, c2, t2.0, t2.1, 0, j);
    law_rotation_turns_about_axis(w2, r2, x, y, z, s2, c2, t2.0, t2.1, 1, j);
    law_rotation_turns_about_axis(w2, r2, x, y, z, s2, c2, t2.0, t2.1, 2, j);
    law_rotation_turns_about_axis(w3, r1 + r2, x, y, z, s3, c3, t3.0, t3.1, i, j);
    lemma_turn_bounded(s1, c1, x, y, z, i, 0);
    lemma_turn_bounded(s1, c1, x, y, z, i, 1);
    lemma_turn_bounded(s1, c1, x, y, z, i, 2);
    lemma_turn_bounded(s2, c2, x, y, z, 0, j);
    lemma_turn_bounded(s2, c2, x, y, z, 1, j);
    lemma_turn_bounded(s2, c2, x, y, z, 2, j);
    lemma_product_along(
        a,
        b,
        turn_entry(s1, c1, x, y, z, i, 0),
        turn_entry(s1, c1, x, y, z, i, 1),
        turn_entry(s1, c1, x, y, z, i, 2),
        turn_entry(s2, c2, x, y, z, 0, j),
        turn_entry(s2, c2, x, y, z, 1, j),
        turn_entry(s2, c2, x, y, z, 2, j),
        i,
        j,
    );
    law_turns_add(s1, c1, s2, c2, x, y, z, i, j);
}

// ---------------------------------------------------------------------------
// Multiples of a vector
// ---------------------------------------------------------------------------

/// Whether the entries of `v` are those of `w` times `s`, as they are computed.
pub open spec fn is_multiple(v: [Binary64; 3], s: Binary64, w: [Binary64; 3]) -> bool {
    v[0] == fl_mul(s, w[0]) && v[1] == fl_mul(s, w[1]) && v[2] == fl_mul(s, w[2])
}

/// Whether a vector is `l` times `(x, y, z)`.
pub open spec fn has_axis(w: [Binary64; 3], l: real, x: real, y: real, z: real) -> bool {
    value(w[0]) == l * x && value(w[1]) == l * y && value(w[2]) == l * z
}

/// The linear part: `e` is the exact entry, `q` the entry with a rounded factor, and `v` its
/// rounding.
proof fn lemma_multiple_bound(v: real, q: real, e: real, m: real, t: real)
    requires
        abs(v - q) <= unit_of(q) + t,
        abs(q - e) <= unit_of(e),
        abs(e) <= m,
    ensures
        abs(v - e) <= axis_error() * m + t,
{
    lemma_unit_of(q);
    lemma_unit_of(e);
    lemma_stray_small(abs(m));
}

/// An entry of a multiple of a vector, where the factor `q` is `f` up to a part of it.
proof fn lemma_multiple_near(v: Binary64, q: Binary64, w: Binary64, f: real, l: real, x: real)
    requires
        v == fl_mul(q, w),
        is_finite(v),
        abs(value(q) - f) <= unit_of(f),
        value(w) == l * x,
        abs(x) <= 1 as real,
    ensures
        abs(value(v) - (f * l) * x) <= axis_error() * abs(f * l) + tiny(),
{
    lemma_finite_factors(q, w);
    lemma_mul_value(q, w);
    let (a, b) = (value(q), value(w));
    lemma_real_associative(f, l, x);
    lemma_real_distributes(a, f, b);
    lemma_abs_product(a - f, b);
    lemma_real_mul_ordered(abs(a - f), unit_of(f), abs(b));
    lemma_real_associative(abs(f), half_unit(), abs(b));
    lemma_abs_product(f, b);
    lemma_multiple_bounded(f * l, x, abs(f * l));
    lemma_multiple_bound(value(v), a * b, f * b, abs(f * l), tiny());
}

/// A multiple of a vector lies near its axis.
proof fn lemma_multiple_lies_near(
    v: [Binary64; 3],
    q: Binary64,
    w: [Binary64; 3],
    f: real,
    l: real,
    x: real,
    y: real,
    z: real,
)
    requires
        is_axis(x, y, z),
        has_axis(w, l, x, y, z),
        is_multiple(v, q, w),
        is_moderate(v),
        abs(value(q) - f) <= unit_of(f),
    ensures
        lies_near(v, f * l, x, y, z),
{
    lemma_axis_bounded(x, y, z);
    lemma_multiple_near(v[0], q, w[0], f, l, x);
    lemma_multiple_near(v[1], q, w[1], f, l, y);
    lemma_multiple_near(v[2], q, w[2], f, l, z);
}

/// Rotations by multiples of a vector add their factors: the product of those by `a w` and `b w`
/// is, up to `2e-8`, the one by `(a + b) w`, where `w` is `l` times an axis. Each `t` holds the
/// sine and cosine that a rotation is made with, and `s` and `c` with the same number are those of
/// its angle. Of them the addition theorems hold.
pub proof fn law_multiples_of_vector_add(
    w: [Binary64; 3],
    a: Binary64,
    b: Binary64,
    w1: [Binary64; 3],
    w2: [Binary64; 3],
    w3: [Binary64; 3],
    l: real,
    x: real,
    y: real,
    z: real,
    s1: real,
    c1: real,
    s2: real,
    c2: real,
    s3: real,
    c3: real,
    t1: (Binary64, Binary64),
    t2: (Binary64, Binary64),
    t3: (Binary64, Binary64),
    i: int,
    j: int,
)
    requires
        is_axis(x, y, z),
        has_axis(w, l, x, y, z),
        is_finite(a),
        is_finite(b),
        is_finite(fl_add(a, b)),
        is_multiple(w1, a, w),
        is_multiple(w2, b, w),
        is_multiple(w3, fl_add(a, b), w),
        turns_by(w1, value(a) * l, s1, c1, t1.0, t1.1),
        turns_by(w2, value(b) * l, s2, c2, t2.0, t2.1),
        turns_by(w3, value(a) * l + value(b) * l, s3, c3, t3.0, t3.1),
        s3 == s1 * c2 + c1 * s2,
        c3 == c1 * c2 - s1 * s2,
        0 <= i < 3,
        0 <= j < 3,
    ensures
        is_finite(
            product(rotation_by(w1, t1.0, t1.1), rotation_by(w2, t2.0, t2.1))[i][j],
        ),
        abs(
            value(product(rotation_by(w1, t1.0, t1.1), rotation_by(w2, t2.0, t2.1))[i][j]) - value(
                rotation_by(w3, t3.0, t3.1)[i][j],
            ),
        ) <= (2 as real) / (100000000int as real),
{
    let (f, g) = (value(a), value(b));
    lemma_unit_of(f);
    lemma_unit_of(g);
    lemma_add_relative(a, b);
    lemma_multiple_lies_near(w1, a, w, f, l, x, y, z);
    lemma_multiple_lies_near(w2, b, w, g, l, x, y, z);
    lemma_multiple_lies_near(w3, fl_add(a, b), w, f + g, l, x, y, z);
    lemma_real_distributes(f, g, l);
    law_angles_about_one_axis_add(
        w1,
        w2,
        w3,
        f * l,
        g * l,
        x,
        y,
        z,
        s1,
        c1,
        s2,
        c2,
        s3,
        c3,
        t1,
        t2,
        t3,
        i,
        j,
    );
}

} // verus!
