//! What holds of the rotations of space.
use crate::binary64::{
    exponent, fl_add, fl_div, fl_le, fl_lt, fl_mul, fl_neg, fl_sqrt, fl_sub, in_units, lemma_fields,
    magnitude, negative, significand, Binary64,
};
use crate::errors::{
    abs, dust, half_unit, lemma_add_near, lemma_div_near, lemma_in_units_value, lemma_mul_near,
    lemma_neg_value, lemma_power_lifted, lemma_real_associative, lemma_real_cancel,
    lemma_real_distributes, lemma_real_mul_ordered, lemma_real_one, lemma_real_quotient,
    lemma_sqrt_value, lemma_sub_near, lemma_value_positive, lemma_zero_value, mag_value, power,
    slack, value,
};
use crate::exactness::{is_finite, is_zero, lemma_sqrt_zero};
use crate::linear::{
    fl, is_small_angle, rodrigues, rotation_by, squared_norm, ONE, ONE_HALF, SIX, SMALL_ANGLE,
    TWENTY_FOUR,
};
use crate::ordering::{lemma_add_grows, lemma_in_units_monotone, lemma_square_sign};
use crate::rounding::INFINITE;
use vstd::arithmetic::power2::{lemma2_to64, lemma2_to64_rest, lemma_pow2_adds, pow2};
use vstd::prelude::*;

verus! {

// ---------------------------------------------------------------------------
// Bounds on products of real numbers
// ---------------------------------------------------------------------------

/// The absolute value of a product.
pub proof fn lemma_abs_product(a: real, b: real)
    by (nonlinear_arith)
    ensures
        abs(a * b) == abs(a) * abs(b),
{
}

/// The product of two bounded numbers is bounded.
pub proof fn lemma_product_bounded(a: real, b: real, c: real, d: real)
    requires
        abs(a) <= c,
        abs(b) <= d,
    ensures
        abs(a * b) <= c * d,
{
    lemma_abs_product(a, b);
    lemma_real_mul_ordered(abs(a), c, abs(b));
    lemma_real_mul_ordered(abs(b), d, c);
    lemma_real_associative(abs(b), c, c);
    lemma_real_associative(d, c, c);
}

/// Multiplying two near numbers by a third keeps them near.
pub proof fn lemma_product_near(x: real, a: real, y: real, d: real, m: real)
    requires
        abs(x - a) <= d,
        abs(y) <= m,
    ensures
        abs(x * y - a * y) <= d * m,
{
    lemma_product_bounded(x - a, y, d, m);
    lemma_real_distributes(x, a, y);
}

/// Products of near numbers are near.
pub proof fn lemma_products_near(x: real, a: real, y: real, b: real, d: real, m: real)
    requires
        abs(x - a) <= d,
        abs(y - b) <= d,
        abs(a) <= m,
        abs(y) <= m,
    ensures
        abs(x * y - a * b) <= d * m + d * m,
{
    lemma_product_near(x, a, y, d, m);
    lemma_product_near(y, b, a, d, m);
    lemma_real_associative(a, y, y);
    lemma_real_associative(b, a, a);
}

/// The slack of a scale is far below the scale.
pub proof fn lemma_slack_small(m: real)
    requires
        m >= 0 as real,
    ensures
        0 as real <= slack() * m,
        (10000000000000 as real) * (slack() * m) <= m,
{
    let k = 10000000000000 as real;
    lemma_real_mul_ordered(0 as real, slack(), m);
    lemma_real_distributes(0 as real, 0 as real, m);
    lemma_real_mul_ordered(k * slack(), 1 as real, m);
    lemma_real_associative(k, slack(), m);
    lemma_real_one(m);
}

/// A square does not exceed another where the number does not exceed twice the other.
proof fn lemma_root_of_double(x: real, y: real)
    by (nonlinear_arith)
    requires
        x * x <= (4 as real) * (y * y),
        y > 0 as real,
    ensures
        -((2 as real) * y) <= x,
        x <= (2 as real) * y,
{
}

/// Squares are not negative.
pub proof fn lemma_square_nonnegative(x: real)
    by (nonlinear_arith)
    ensures
        x * x >= 0 as real,
{
}

// ---------------------------------------------------------------------------
// The exact matrix
// ---------------------------------------------------------------------------

/// The squared length of a vector of real numbers.
pub open spec fn real_norm(x: real, y: real, z: real) -> real {
    x * x + y * y + z * z
}

/// Row `i`, column `i` of `I + a [w]x + b [w]x^2`, where `x` is entry `i` of `w` and `n` the
/// squared length.
pub open spec fn exact_diagonal(b: real, x: real, n: real) -> real {
    (1 as real) + b * (x * x - n)
}

/// An entry off the diagonal of `I + a [w]x + b [w]x^2`, where `z` is the entry of `w` with the
/// remaining index and `a` carries the sign.
pub open spec fn exact_side(a: real, z: real, b: real, x: real, y: real) -> real {
    a * z + (b * x) * y
}

/// How far the factors `a` and `b` are from those of a rotation.
pub open spec fn defect(a: real, b: real, n: real) -> real {
    (2 as real) * b - a * a - (b * b) * n
}

/// The product of a difference with a sum.
proof fn lemma_ring_square(u: real, v: real)
    by (nonlinear_arith)
    ensures
        (u + v) * (u + v) == u * u + (2 as real) * (u * v) + v * v,
{
}

proof fn lemma_ring_pairs(a: real, b: real, c: real, d: real)
    by (nonlinear_arith)
    ensures
        (a * b) * (c * d) == (a * c) * (b * d),
        (a * b) * (c * d) == (a * d) * (b * c),
        (-a) * b == -(a * b),
        a * b == b * a,
{
}

proof fn lemma_ring_sums(a: real, b: real, c: real, d: real)
    by (nonlinear_arith)
    ensures
        (a + b) * (c + d) == a * c + a * d + b * c + b * d,
        a * (c + d) == a * c + a * d,
        a * (c - d) == a * c - a * d,
{
}

/// A column of the exact matrix has unit length up to the defect.
proof fn lemma_exact_column(a: real, b: real, x: real, y: real, z: real)
    ensures
        ({
            let n = real_norm(x, y, z);
            let d = exact_diagonal(b, x, n);
            let e = exact_side(a, z, b, y, x);
            let f = exact_side(-a, y, b, z, x);
            d * d + e * e + f * f == (1 as real) - defect(a, b, n) * (y * y + z * z)
        }),
{
    let n = real_norm(x, y, z);
    let p = y * y + z * z;
    let g = b * x;
    // e = a z + g y, f = - a y + g z
    lemma_real_associative(b, y, x);
    lemma_real_associative(b, z, x);
    lemma_ring_square(a * z, g * y);
    lemma_ring_square(-(a * y), g * z);
    lemma_ring_pairs(a, y, y, z);
    lemma_ring_pairs(a, z, a, z);
    lemma_ring_pairs(a, y, a, y);
    lemma_ring_pairs(g, y, g, y);
    lemma_ring_pairs(g, z, g, z);
    lemma_ring_pairs(a, z, g, y);
    lemma_ring_pairs(a, y, g, z);
    lemma_ring_pairs(y, z, y, z);
    let e = a * z + g * y;
    let f = -(a * y) + g * z;
    assert((-(a * y)) * (g * z) == -((a * y) * (g * z))) by {
        lemma_ring_pairs(a * y, g * z, a, a);
    }
    assert((-(a * y)) * (-(a * y)) == (a * y) * (a * y)) by {
        lemma_ring_pairs(a * y, -(a * y), a, a);
        lemma_ring_pairs(a * y, a * y, a, a);
        lemma_ring_pairs(a * y, a * y, -(a * y), a);
        lemma_real_distributes(a * y, a * y, a * y);
        lemma_real_associative(a * y, -(a * y), a);
    }
    assert((a * z) * (g * y) == (a * y) * (g * z)) by {
        lemma_ring_pairs(a, z, g, y);
        lemma_ring_pairs(a, y, g, z);
    }
    lemma_ring_sums(a * a, 0 as real, y * y, z * z);
    lemma_ring_sums(g * g, 0 as real, y * y, z * z);
    assert(e * e + f * f == (a * a) * p + (g * g) * p);
    // d = 1 - b p
    let u = b * p;
    assert(x * x - n == -p);
    assert(b * (-p) == -u) by {
        lemma_ring_pairs(p, b, b, b);
        lemma_real_associative(b, -p, b);
        lemma_real_associative(b, p, b);
    }
    lemma_ring_square(1 as real, -u);
    assert((-u) * (-u) == u * u) by {
        lemma_ring_pairs(u, -u, u, u);
        lemma_ring_pairs(u, u, u, u);
        lemma_real_associative(u, -u, u);
    }
    lemma_real_one(-u);
    // (b p)^2 = (b b p) p and (b x)^2 p = (b b x x) p
    lemma_ring_pairs(b, p, b, p);
    lemma_ring_pairs(b, x, b, x);
    let bb = b * b;
    lemma_real_associative(bb, p, p);
    lemma_real_associative(bb, x * x, p);
    lemma_ring_sums(bb, 0 as real, x * x, p);
    assert(bb * n == bb * (x * x) + bb * p);
    lemma_real_distributes(bb * (x * x), bb * p, p);
    let k = defect(a, b, n);
    lemma_real_distributes((2 as real) * b - a * a, bb * n, p);
    lemma_real_distributes((2 as real) * b, a * a, p);
    lemma_real_associative(2 as real, b, p);
    assert(k * p == (2 as real) * u - (a * a) * p - (bb * n) * p);
}

/// Two columns of the exact matrix are orthogonal up to the defect.
proof fn lemma_exact_columns(a: real, b: real, x: real, y: real, z: real)
    ensures
        ({
            let n = real_norm(x, y, z);
            let p = exact_diagonal(b, x, n) * exact_side(-a, z, b, x, y);
            let q = exact_side(a, z, b, y, x) * exact_diagonal(b, y, n);
            let r = exact_side(-a, y, b, z, x) * exact_side(a, x, b, z, y);
            p + q + r == defect(a, b, n) * (x * y)
        }),
{
    let n = real_norm(x, y, z);
    let (xx, yy, zz) = (x * x, y * y, z * z);
    let t = a * z;
    let s = (b * x) * y;
    lemma_real_associative(b, x, y);
    lemma_real_associative(b, y, x);
    assert((b * y) * x == s);
    lemma_ring_pairs(a, z, a, z);
    let u1 = b * (yy + zz);
    let u2 = b * (xx + zz);
    assert(b * (xx - n) == -u1) by {
        lemma_ring_sums(b, b, xx, n);
        lemma_ring_sums(b, b, xx + yy, zz);
        lemma_ring_sums(b, b, xx, yy);
        lemma_ring_sums(b, b, yy, zz);
    }
    assert(b * (yy - n) == -u2) by {
        lemma_ring_sums(b, b, yy, n);
        lemma_ring_sums(b, b, xx + yy, zz);
        lemma_ring_sums(b, b, xx, yy);
        lemma_ring_sums(b, b, xx, zz);
    }
    let p = ((1 as real) + -u1) * (-t + s);
    let q = (t + s) * ((1 as real) + -u2);
    lemma_ring_sums(1 as real, -u1, -t, s);
    lemma_ring_sums(t, s, 1 as real, -u2);
    lemma_real_one(-t);
    lemma_real_one(s);
    lemma_real_one(t);
    assert((-u1) * (-t) == u1 * t && (-u1) * s == -(u1 * s)) by {
        lemma_ring_pairs(u1, -t, u1, u1);
        lemma_ring_pairs(t, u1, u1, u1);
        lemma_ring_pairs(u1, s, u1, u1);
        lemma_ring_pairs(u1, t, u1, u1);
    }
    assert(t * (-u2) == -(u2 * t) && s * (-u2) == -(u2 * s)) by {
        lemma_ring_pairs(u2, t, u2, u2);
        lemma_ring_pairs(u2, s, u2, u2);
        lemma_real_associative(t, -u2, t);
        lemma_real_associative(s, -u2, t);
    }
    assert(p + q == s + s - u1 * s - u2 * s + u1 * t - u2 * t);
    // the third product
    let g = (b * z) * x;
    let h = (b * z) * y;
    let r = (-(a * y) + g) * (a * x + h);
    lemma_ring_pairs(a, y, a, y);
    lemma_ring_sums(-(a * y), g, a * x, h);
    lemma_ring_pairs(a * y, a * x, a, a);
    lemma_ring_pairs(a * y, h, a, a);
    let bt = b * t;
    assert(g * (a * x) == bt * xx) by {
        lemma_ring_pairs(b * z, x, a, x);
        lemma_real_associative(b, z, a);
        lemma_ring_pairs(z, a, a, a);
    }
    assert((a * y) * h == bt * yy) by {
        lemma_ring_pairs(a, y, b * z, y);
        lemma_real_associative(b, z, a);
        lemma_ring_pairs(z, a, a, a);
        lemma_ring_pairs(a, b * z, a, a);
    }
    assert(g * h == (b * zz) * s) by {
        lemma_ring_pairs(b * z, x, b * z, y);
        lemma_ring_pairs(b, z, b, z);
        lemma_real_associative(b * b, zz, x * y);
        lemma_real_associative(b, b, zz);
        lemma_real_associative(b * b, x * y, zz);
        lemma_real_associative(b, b, x * y);
        lemma_real_associative(b, b * (x * y), zz);
        lemma_real_associative(b, zz, b * (x * y));
        lemma_real_associative(b * (x * y), zz, b);
    }
    assert((a * y) * (a * x) == (a * a) * (x * y)) by {
        lemma_ring_pairs(a, y, a, x);
        lemma_ring_pairs(y, x, a, a);
    }
    assert(r == -((a * a) * (x * y)) - bt * yy + bt * xx + (b * zz) * s);
    // u1 t - u2 t = bt yy - bt xx
    assert(u1 * t - u2 * t == bt * yy - bt * xx) by {
        lemma_ring_sums(b, b, yy, zz);
        lemma_ring_sums(b, b, xx, zz);
        lemma_real_distributes(b * yy, b * zz, t);
        lemma_real_distributes(b * xx, b * zz, t);
        lemma_real_associative(b, yy, t);
        lemma_real_associative(b, xx, t);
        lemma_real_associative(b, t, yy);
        lemma_real_associative(b, t, xx);
    }
    // u1 s + u2 s - (b zz) s = (b n) s
    assert(u1 * s + u2 * s - (b * zz) * s == (b * n) * s) by {
        lemma_ring_sums(b, b, yy, zz);
        lemma_ring_sums(b, b, xx, zz);
        lemma_ring_sums(b, b, xx + yy, zz);
        lemma_ring_sums(b, b, xx, yy);
        lemma_real_distributes(b * yy, b * zz, s);
        lemma_real_distributes(b * xx, b * zz, s);
        lemma_real_distributes(b * xx + b * yy, b * zz, s);
        lemma_real_distributes(b * xx, b * yy, s);
    }
    let xy = x * y;
    assert((b * n) * s == ((b * b) * n) * xy) by {
        lemma_ring_pairs(b, n, b, xy);
        lemma_real_associative(b * b, n, xy);
    }
    lemma_real_distributes((2 as real) * b - a * a, (b * b) * n, xy);
    lemma_real_distributes((2 as real) * b, a * a, xy);
    lemma_real_associative(2 as real, b, xy);
}

// ---------------------------------------------------------------------------
// The computed matrix
// ---------------------------------------------------------------------------

/// Whether a vector is finite and its entries do not exceed a thousand.
pub open spec fn is_moderate(w: [Binary64; 3]) -> bool {
    &&& is_finite(w[0]) && abs(value(w[0])) <= 1000 as real
    &&& is_finite(w[1]) && abs(value(w[1])) <= 1000 as real
    &&& is_finite(w[2]) && abs(value(w[2])) <= 1000 as real
}

/// The squared length of the values of a vector.
pub open spec fn exact_norm(w: [Binary64; 3]) -> real {
    real_norm(value(w[0]), value(w[1]), value(w[2]))
}

/// The computed squared length is near the exact one.
proof fn lemma_norm_near(w: [Binary64; 3])
    requires
        is_moderate(w),
    ensures
        ({
            let n = exact_norm(w);
            let t = squared_norm(w);
            &&& is_finite(t)
            &&& !negative(t) || is_zero(t)
            &&& 0 as real <= n <= 3000000 as real
            &&& value(w[0]) * value(w[0]) <= n
            &&& value(w[1]) * value(w[1]) <= n
            &&& value(w[2]) * value(w[2]) <= n
            &&& abs(value(t) - n) <= (5 as real) * (slack() * (n + dust()))
        }),
{
    let (x, y, z) = (value(w[0]), value(w[1]), value(w[2]));
    let n = exact_norm(w);
    let m = n + dust();
    let k = 1000 as real;
    lemma_square_nonnegative(x);
    lemma_square_nonnegative(y);
    lemma_square_nonnegative(z);
    lemma_product_bounded(x, x, k, k);
    lemma_product_bounded(y, y, k, k);
    lemma_product_bounded(z, z, k, k);
    assert(k * k == 1000000 as real);
    lemma_slack_small(m);
    lemma_mul_near(w[0], w[0], m);
    lemma_mul_near(w[1], w[1], m);
    lemma_mul_near(w[2], w[2], m);
    let (p, q, r) = (fl_mul(w[0], w[0]), fl_mul(w[1], w[1]), fl_mul(w[2], w[2]));
    lemma_add_near(p, q, m);
    let s = fl_add(p, q);
    lemma_add_near(s, r, m);
    lemma_square_sign(w[0]);
    lemma_square_sign(w[1]);
    lemma_square_sign(w[2]);
    lemma_add_grows(p, q);
    lemma_add_grows(s, r);
    assert(fl_le(fl(0), squared_norm(w)));
    reveal(fl_le);
}

/// An entry off the diagonal is near the exact one, where `h` bounds the entries of the vector.
proof fn lemma_side_near(a: Binary64, z: Binary64, b: Binary64, x: Binary64, y: Binary64, h: real)
    requires
        is_finite(a),
        is_finite(b),
        is_finite(x),
        is_finite(y),
        is_finite(z),
        (1 as real) / (10000000000int as real) <= h <= 10000 as real,
        abs(value(x)) <= (2 as real) * h,
        abs(value(y)) <= (2 as real) * h,
        abs(value(z)) <= (2 as real) * h,
        abs(value(a)) * h <= 2 as real,
        abs(value(b)) * (h * h) <= 6 as real,
    ensures
        ({
            let r = fl_add(fl_mul(a, z), fl_mul(fl_mul(b, x), y));
            let exact = exact_side(value(a), value(z), value(b), value(x), value(y));
            &&& is_finite(r)
            &&& abs(value(r) - exact) <= (64 as real) * slack()
            &&& abs(exact) <= 28 as real
        }),
{
    let (va, vb, vx, vy, vz) = (value(a), value(b), value(x), value(y), value(z));
    let two_h = (2 as real) * h;
    let one = 1 as real;
    lemma_slack_small(one);
    lemma_real_one(slack());
    // a z
    lemma_product_bounded(va, vz, abs(va), two_h);
    assert(abs(va) * two_h <= 4 as real) by {
        lemma_real_associative(abs(va), two_h, h);
        lemma_real_associative(2 as real, h, abs(va));
        lemma_real_associative(abs(va), h, h);
    }
    lemma_mul_near(a, z, one);
    let p1 = value(fl_mul(a, z));
    // b x, whose scale is |b| h
    let bh = abs(vb) * h;
    let m = bh + dust();
    lemma_real_mul_ordered(0 as real, abs(vb), h);
    lemma_real_distributes(0 as real, 0 as real, h);
    assert(bh <= 60000000000int as real) by {
        let c = (1 as real) / (10000000000int as real);
        lemma_real_mul_ordered(c, h, bh);
        lemma_real_associative(abs(vb), h, h);
        lemma_real_associative(h, bh, bh);
        assert(c * bh <= 6 as real);
    }
    lemma_product_bounded(vb, vx, abs(vb), two_h);
    assert(abs(vb) * two_h == (2 as real) * bh) by {
        lemma_real_associative(2 as real, h, abs(vb));
        lemma_real_associative(abs(vb), two_h, h);
        lemma_real_associative(abs(vb), h, h);
    }
    lemma_mul_near(b, x, m);
    let bx = fl_mul(b, x);
    let p2 = value(bx);
    // (b x) y
    lemma_slack_small(m);
    let sm = slack() * m;
    lemma_product_near(p2, vb * vx, vy, sm, two_h);
    assert(sm * two_h <= (14 as real) * slack()) by {
        // m * 2h = 2 |b| h h + 2 dust h
        lemma_real_distributes(bh, dust(), two_h);
        lemma_real_associative(abs(vb), h, h);
        lemma_real_associative(2 as real, h, bh);
        lemma_real_associative(h, bh, bh);
        lemma_real_associative(bh, two_h, h);
        assert(bh * two_h <= 12 as real);
        lemma_real_mul_ordered(two_h, 20000 as real, dust());
        lemma_real_associative(two_h, dust(), h);
        assert(dust() * two_h <= 1 as real);
        assert(m * two_h <= 14 as real);
        lemma_real_mul_ordered(m * two_h, 14 as real, slack());
        lemma_real_associative(slack(), m, two_h);
        lemma_real_associative(m * two_h, slack(), h);
    }
    lemma_product_bounded(vb * vx, vy, (2 as real) * bh, two_h);
    assert(((2 as real) * bh) * two_h <= 24 as real) by {
        lemma_real_associative(2 as real, bh, two_h);
        lemma_real_associative(2 as real, h, bh);
        lemma_real_associative(h, bh, bh);
        lemma_real_associative(bh, two_h, h);
        lemma_real_associative(abs(vb), h, h);
    }
    lemma_mul_near(bx, y, one);
    let p3 = value(fl_mul(bx, y));
    lemma_add_near(fl_mul(a, z), fl_mul(bx, y), one);
}

/// An entry on the diagonal is near the exact one.
proof fn lemma_diagonal_near(b: Binary64, x: Binary64, t: Binary64, n: real, h: real)
    requires
        is_finite(b),
        is_finite(x),
        is_finite(t),
        (1 as real) / (10000000000int as real) <= h <= 10000 as real,
        value(x) * value(x) <= (2 as real) * (h * h),
        abs(value(t)) <= (2 as real) * (h * h),
        0 as real <= n <= (2 as real) * (h * h),
        abs(value(b)) * (h * h) <= 6 as real,
        abs(value(b)) * abs(value(t) - n) <= (40 as real) * slack(),
    ensures
        ({
            let r = fl_add(fl(ONE), fl_mul(b, fl_sub(fl_mul(x, x), t)));
            let exact = exact_diagonal(value(b), value(x), n);
            &&& is_finite(r)
            &&& abs(value(r) - exact) <= (64 as real) * slack()
            &&& abs(exact) <= 28 as real
        }),
{
    let (vb, vx, vt) = (value(b), value(x), value(t));
    let q = h * h;
    let one = 1 as real;
    let c = (1 as real) / (10000000000int as real);
    lemma_real_mul_ordered(c, h, c);
    lemma_real_mul_ordered(c, h, h);
    lemma_real_associative(c, h, h);
    assert(c * c >= dust());
    assert(c * c <= q);
    lemma_real_mul_ordered(h, 10000 as real, h);
    lemma_real_associative(10000 as real, h, h);
    assert(q <= 100000000 as real);
    lemma_slack_small(q);
    lemma_slack_small(one);
    lemma_real_one(slack());
    lemma_square_nonnegative(vx);
    lemma_mul_near(x, x, q);
    let xx = fl_mul(x, x);
    lemma_sub_near(xx, t, q);
    let e = fl_sub(xx, t);
    let sq = slack() * q;
    // b e
    let ve = value(e);
    assert(abs(ve) <= (5 as real) * q);
    lemma_product_bounded(vb, ve, abs(vb), (5 as real) * q);
    assert(abs(vb) * ((5 as real) * q) <= 30 as real) by {
        lemma_real_associative(5 as real, q, abs(vb));
        lemma_real_associative(abs(vb), (5 as real) * q, q);
        lemma_real_associative(abs(vb), q, q);
    }
    lemma_mul_near(b, e, one);
    let m = fl_mul(b, e);
    // compared with b (x x - t)
    let ideal = vx * vx - vt;
    assert(abs(ve - ideal) <= sq + sq);
    lemma_product_near(ve, ideal, vb, sq + sq, abs(vb));
    lemma_real_associative(ve, vb, q);
    lemma_real_associative(ideal, vb, q);
    assert((sq + sq) * abs(vb) <= (12 as real) * slack()) by {
        lemma_real_distributes(sq, sq, abs(vb));
        lemma_real_associative(slack(), q, abs(vb));
        lemma_real_associative(q, abs(vb), q);
        lemma_real_mul_ordered(q * abs(vb), 6 as real, slack());
        lemma_real_associative(q * abs(vb), slack(), q);
    }
    // and with b (x x - n)
    let best = vx * vx - n;
    lemma_product_near(ideal, best, vb, abs(vt - n), abs(vb));
    assert(ideal - best == n - vt);
    lemma_real_associative(best, vb, q);
    lemma_real_associative(abs(vt - n), abs(vb), q);
    // the size of the exact entry
    assert(abs(best) <= (2 as real) * q);
    lemma_product_bounded(vb, best, abs(vb), (2 as real) * q);
    assert(abs(vb) * ((2 as real) * q) <= 12 as real) by {
        lemma_real_associative(2 as real, q, abs(vb));
        lemma_real_associative(abs(vb), (2 as real) * q, q);
        lemma_real_associative(abs(vb), q, q);
    }
    lemma_one_value();
    lemma_add_near(fl(ONE), m, one);
}

/// The values of the constants.
proof fn lemma_constant_values()
    ensures
        is_finite(fl(ONE)),
        value(fl(ONE)) == 1 as real,
        is_finite(fl(ONE_HALF)),
        value(fl(ONE_HALF)) == (1 as real) / (2 as real),
        is_finite(fl(SIX)) && !is_zero(fl(SIX)) && !negative(fl(SIX)),
        value(fl(SIX)) >= 1 as real,
        is_finite(fl(TWENTY_FOUR)) && !is_zero(fl(TWENTY_FOUR)) && !negative(fl(TWENTY_FOUR)),
        value(fl(TWENTY_FOUR)) >= 1 as real,
{
    lemma_one_value();
    lemma2_to64_rest();
    lemma2_to64();
    let c = 0x0010_0000_0000_0000 as real;
    lemma_power_lifted(-53, 52);
    lemma_power_lifted(-1, 1);
    lemma_real_associative(c, power(-53), c);
    assert(value(fl(ONE_HALF)) == power(-1));
    lemma_magnitudes_ordered(ONE as nat, SIX as nat);
    lemma_magnitudes_ordered(ONE as nat, TWENTY_FOUR as nat);
}

/// The value of one.
pub proof fn lemma_one_value()
    ensures
        is_finite(fl(ONE)),
        value(fl(ONE)) == 1 as real,
{
    lemma2_to64_rest();
    let p = power(-52);
    lemma_power_lifted(-52, 52);
    lemma2_to64();
    assert(power(0) == 1 as real);
    lemma_real_associative(0x0010_0000_0000_0000 as real, p, p);
}

/// Whether entry `r` of a computed matrix is finite and near the exact entry.
pub open spec fn is_near_entry(r: Binary64, exact: real) -> bool {
    &&& is_finite(r)
    &&& abs(value(r) - exact) <= (64 as real) * slack()
    &&& abs(exact) <= 28 as real
}

/// Whether a computed matrix is near `I + a [w]x + b [w]x^2`.
pub open spec fn is_near_matrix(m: [[Binary64; 3]; 3], a: real, b: real, w: [Binary64; 3]) -> bool {
    let (x, y, z) = (value(w[0]), value(w[1]), value(w[2]));
    let n = exact_norm(w);
    &&& is_near_entry(m[0][0], exact_diagonal(b, x, n))
    &&& is_near_entry(m[0][1], exact_side(-a, z, b, x, y))
    &&& is_near_entry(m[0][2], exact_side(a, y, b, x, z))
    &&& is_near_entry(m[1][0], exact_side(a, z, b, y, x))
    &&& is_near_entry(m[1][1], exact_diagonal(b, y, n))
    &&& is_near_entry(m[1][2], exact_side(-a, x, b, y, z))
    &&& is_near_entry(m[2][0], exact_side(-a, y, b, z, x))
    &&& is_near_entry(m[2][1], exact_side(a, x, b, z, y))
    &&& is_near_entry(m[2][2], exact_diagonal(b, z, n))
}

proof fn lemma_matrix_near(w: [Binary64; 3], t: Binary64, a: Binary64, b: Binary64, h: real)
    requires
        is_moderate(w),
        is_finite(t),
        is_finite(a),
        is_finite(b),
        (1 as real) / (10000000000int as real) <= h <= 10000 as real,
        0 as real <= exact_norm(w) <= (2 as real) * (h * h),
        abs(value(t)) <= (2 as real) * (h * h),
        abs(value(a)) * h <= 2 as real,
        abs(value(b)) * (h * h) <= 6 as real,
        abs(value(b)) * abs(value(t) - exact_norm(w)) <= (40 as real) * slack(),
    ensures
        is_near_matrix(rodrigues(w, t, a, b), value(a), value(b), w),
{
    lemma_norm_near(w);
    let n = exact_norm(w);
    lemma_neg_value(a);
    let na = fl_neg(a);
    lemma_square_nonnegative(h);
    lemma_root_of_double(value(w[0]), h);
    lemma_root_of_double(value(w[1]), h);
    lemma_root_of_double(value(w[2]), h);
    assert(abs(value(na)) == abs(value(a)));
    lemma_diagonal_near(b, w[0], t, n, h);
    lemma_diagonal_near(b, w[1], t, n, h);
    lemma_diagonal_near(b, w[2], t, n, h);
    lemma_side_near(na, w[2], b, w[0], w[1], h);
    lemma_side_near(a, w[1], b, w[0], w[2], h);
    lemma_side_near(a, w[2], b, w[1], w[0], h);
    lemma_side_near(na, w[0], b, w[1], w[2], h);
    lemma_side_near(na, w[1], b, w[2], w[0], h);
    lemma_side_near(a, w[0], b, w[2], w[1], h);
}

/// The scalar product of two columns of a matrix, over the real numbers.
pub open spec fn column_product(m: [[Binary64; 3]; 3], i: int, j: int) -> real {
    value(m[0][i]) * value(m[0][j]) + value(m[1][i]) * value(m[1][j]) + value(m[2][i]) * value(
        m[2][j],
    )
}

proof fn lemma_entry_products(r: Binary64, u: real, s: Binary64, v: real)
    requires
        is_near_entry(r, u),
        is_near_entry(s, v),
    ensures
        abs(value(r) * value(s) - u * v) <= (4000 as real) * slack(),
{
    let d = (64 as real) * slack();
    let m = 29 as real;
    lemma_products_near(value(r), u, value(s), v, d, m);
}

proof fn lemma_mixed_bounded(x: real, y: real)
    by (nonlinear_arith)
    ensures
        abs(x * y) <= x * x + y * y,
{
}

/// The columns of a matrix near the exact one are orthonormal up to the defect and the errors of
/// the entries.
proof fn lemma_columns_near(m: [[Binary64; 3]; 3], a: real, b: real, w: [Binary64; 3])
    requires
        is_near_matrix(m, a, b, w),
    ensures
        forall|i: int, j: int|
            0 <= i < 3 && 0 <= j < 3 ==> abs(
                #[trigger] column_product(m, i, j) - if i == j {
                    1 as real
                } else {
                    0 as real
                },
            ) <= abs(defect(a, b, exact_norm(w))) * exact_norm(w) + (12000 as real) * slack(),
{
    let (x, y, z) = (value(w[0]), value(w[1]), value(w[2]));
    let n = exact_norm(w);
    let k = defect(a, b, n);
    lemma_square_nonnegative(x);
    lemma_square_nonnegative(y);
    lemma_square_nonnegative(z);
    lemma_exact_column(a, b, x, y, z);
    lemma_exact_column(a, b, y, z, x);
    lemma_exact_column(a, b, z, x, y);
    lemma_exact_columns(a, b, x, y, z);
    lemma_exact_columns(a, b, y, z, x);
    lemma_exact_columns(a, b, z, x, y);
    assert(real_norm(y, z, x) == n && real_norm(z, x, y) == n);
    lemma_mixed_bounded(x, y);
    lemma_mixed_bounded(y, z);
    lemma_mixed_bounded(z, x);
    lemma_product_bounded(k, y * y + z * z, abs(k), n);
    lemma_product_bounded(k, z * z + x * x, abs(k), n);
    lemma_product_bounded(k, x * x + y * y, abs(k), n);
    lemma_product_bounded(k, x * y, abs(k), n);
    lemma_product_bounded(k, y * z, abs(k), n);
    lemma_product_bounded(k, z * x, abs(k), n);
    let (d0, d1, d2) = (
        exact_diagonal(b, x, n),
        exact_diagonal(b, y, n),
        exact_diagonal(b, z, n),
    );
    let (e01, e02) = (exact_side(-a, z, b, x, y), exact_side(a, y, b, x, z));
    let (e10, e12) = (exact_side(a, z, b, y, x), exact_side(-a, x, b, y, z));
    let (e20, e21) = (exact_side(-a, y, b, z, x), exact_side(a, x, b, z, y));
    lemma_entry_products(m[0][0], d0, m[0][0], d0);
    lemma_entry_products(m[1][0], e10, m[1][0], e10);
    lemma_entry_products(m[2][0], e20, m[2][0], e20);
    lemma_entry_products(m[0][1], e01, m[0][1], e01);
    lemma_entry_products(m[1][1], d1, m[1][1], d1);
    lemma_entry_products(m[2][1], e21, m[2][1], e21);
    lemma_entry_products(m[0][2], e02, m[0][2], e02);
    lemma_entry_products(m[1][2], e12, m[1][2], e12);
    lemma_entry_products(m[2][2], d2, m[2][2], d2);
    lemma_entry_products(m[0][0], d0, m[0][1], e01);
    lemma_entry_products(m[1][0], e10, m[1][1], d1);
    lemma_entry_products(m[2][0], e20, m[2][1], e21);
    lemma_entry_products(m[0][1], e01, m[0][2], e02);
    lemma_entry_products(m[1][1], d1, m[1][2], e12);
    lemma_entry_products(m[2][1], e21, m[2][2], d2);
    lemma_entry_products(m[0][2], e02, m[0][0], d0);
    lemma_entry_products(m[1][2], e12, m[1][0], e10);
    lemma_entry_products(m[2][2], d2, m[2][0], e20);
    assert(column_product(m, 1, 0) == column_product(m, 0, 1)) by {
        lemma_column_product_commutes(m, 0, 1);
    }
    assert(column_product(m, 2, 1) == column_product(m, 1, 2)) by {
        lemma_column_product_commutes(m, 1, 2);
    }
    assert(column_product(m, 0, 2) == column_product(m, 2, 0)) by {
        lemma_column_product_commutes(m, 0, 2);
    }
}

proof fn lemma_column_product_commutes(m: [[Binary64; 3]; 3], i: int, j: int)
    ensures
        column_product(m, i, j) == column_product(m, j, i),
{
    let s = slack();
    lemma_real_associative(value(m[0][i]), value(m[0][j]), s);
    lemma_real_associative(value(m[1][i]), value(m[1][j]), s);
    lemma_real_associative(value(m[2][i]), value(m[2][j]), s);
}

/// Whether two numbers are as sine and cosine are: their squares add up to one, up to `1e-10`.
pub open spec fn is_sound_pair(sine: Binary64, cosine: Binary64) -> bool {
    let (s, c) = (value(sine), value(cosine));
    &&& is_finite(sine) && abs(s) <= 1 as real
    &&& is_finite(cosine) && abs(c) <= 1 as real
    &&& abs(s * s + c * c - (1 as real)) <= (1 as real) / (10000000000int as real)
}

/// The value of the angle below which a rotation is expanded around zero.
pub proof fn lemma_small_angle_value()
    ensures
        (1 as real) / (10000000000int as real) <= mag_value(SMALL_ANGLE as nat),
        mag_value(SMALL_ANGLE as nat) <= (2 as real) / (1000000000int as real),
{
    let m = SMALL_ANGLE as nat;
    assert(significand(m) == 0x0011_2e0b_e826_d695);
    assert(exponent(m) == -82);
    lemma2_to64();
    lemma_pow2_adds(64, 18);
    let p = pow2(82);
    assert(p == 4835703278458516698824704int);
    let (v, q) = (mag_value(m), p as real);
    let s = 0x0011_2e0b_e826_d695 as real;
    lemma_real_quotient(1 as real, q);
    lemma_real_associative(s, power(-82), q);
    lemma_real_one(s);
    assert(v * q == s);
    let low = (1 as real) / (10000000000int as real);
    let high = (2 as real) / (1000000000int as real);
    assert(low * q <= v * q);
    assert(v * q <= high * q);
    lemma_real_cancel(low, v, q);
    lemma_real_cancel(v, high, q);
}

/// Numbers that are not negative are ordered as their values.
pub proof fn lemma_magnitudes_ordered(x: nat, y: nat)
    requires
        x <= y < INFINITE,
    ensures
        mag_value(x) <= mag_value(y),
{
    lemma_fields(x);
    lemma_fields(y);
    lemma_in_units_monotone(x, y, -1074);
    lemma_in_units_value(x, -1074);
    lemma_in_units_value(y, -1074);
    lemma_power_lifted(-1074, 0);
    lemma_real_mul_ordered(in_units(x, -1074) as real, in_units(y, -1074) as real, power(-1074));
}

pub proof fn lemma_square_at_least(h: real)
    requires
        (1 as real) / (10000000000int as real) <= h,
    ensures
        (1 as real) / (100000000000000000000int as real) <= h * h,
{
    let low = (1 as real) / (10000000000int as real);
    lemma_real_mul_ordered(low, h, low);
    lemma_real_mul_ordered(low, h, h);
    lemma_real_associative(low, h, h);
}

proof fn lemma_length_limit(h: real)
    requires
        h * h <= 10000000 as real,
    ensures
        h <= 10000 as real,
{
    if h > 10000 as real {
        let k = 10000 as real;
        lemma_real_mul_ordered(k, h, k);
        lemma_real_mul_ordered(k, h, h);
        lemma_real_associative(k, h, h);
    }
}

/// Bounds on the square `q` of a computed length, its argument `v` and the exact square `n`.
proof fn lemma_length_bounds(q: real, v: real, n: real)
    requires
        (1 as real) / (100000000000000000000int as real) <= q,
        0 as real <= n <= 3000000 as real,
        abs(q - v) <= slack() * q,
        abs(v - n) <= (5 as real) * (slack() * (n + dust())),
    ensures
        n > 0 as real,
        abs(v - n) <= (6 as real) * (slack() * n),
        abs(q - n) <= (9 as real) * (slack() * n),
        n <= (2 as real) * q,
        q <= (2 as real) * n,
        q <= 10000000 as real,
        v <= (2 as real) * q,
        q <= (2 as real) * v,
        n <= (2 as real) * v,
        v > 0 as real,
        v <= 10000000 as real,
{
    let s = slack();
    lemma_slack_small(q);
    lemma_slack_small(n);
    lemma_slack_small(dust());
    lemma_real_distributes(n, dust(), s);
    lemma_real_associative(s, n + dust(), n);
    lemma_real_associative(s, n, n);
    lemma_real_associative(s, dust(), n);
    assert(s * (n + dust()) == s * n + s * dust());
    lemma_length_order(q, v, n, s * q, s * n, s * dust(), dust());
    lemma_real_mul_ordered((10 as real) * dust(), n, s);
    lemma_real_associative(10 as real, dust(), s);
    lemma_real_mul_ordered(q, (2 as real) * n, s);
    lemma_real_associative(2 as real, n, s);
    lemma_real_associative(s, q, n);
    lemma_length_errors(q, v, n, s * q, s * n, s * dust());
}

proof fn lemma_length_order(q: real, v: real, n: real, sq: real, sn: real, sd: real, d: real)
    requires
        (1 as real) / (100000000000000000000int as real) <= q,
        0 as real <= n <= 3000000 as real,
        0 as real <= d <= (1 as real) / (10000000000000000000000000000000int as real),
        (1000 as real) * sq <= q,
        (1000 as real) * sn <= n,
        (1000 as real) * sd <= d,
        0 as real <= sq,
        0 as real <= sn,
        0 as real <= sd,
        abs(q - v) <= sq,
        abs(v - n) <= (5 as real) * (sn + sd),
    ensures
        n >= (10 as real) * d,
        n > 0 as real,
        n <= (2 as real) * q,
        q <= (2 as real) * n,
        q <= 10000000 as real,
        v <= (2 as real) * q,
        q <= (2 as real) * v,
        n <= (2 as real) * v,
        v > 0 as real,
        v <= 10000000 as real,
{
}

proof fn lemma_length_errors(q: real, v: real, n: real, sq: real, sn: real, sd: real)
    requires
        abs(q - v) <= sq,
        abs(v - n) <= (5 as real) * (sn + sd),
        (10 as real) * sd <= sn,
        sq <= (2 as real) * sn,
    ensures
        abs(v - n) <= (6 as real) * sn,
        abs(q - n) <= (9 as real) * sn,
{
}

/// The inverse of a number of moderate size is of moderate size.
proof fn lemma_scale_inverse(h: real, i: real)
    requires
        i == (1 as real) / h,
        (1 as real) / (1000000000000000000000int as real) <= h <= 10000000 as real,
    ensures
        i * h == 1 as real,
        dust() <= i <= 1000000000000000000000000000000int as real,
{
    lemma_real_quotient(1 as real, h);
    let big = 1000000000000000000000int as real;
    let low = (1 as real) / big;
    lemma_real_mul_ordered(low, h, big);
    assert(low * big == 1 as real);
    lemma_real_associative(h, big, h);
    lemma_real_cancel(i, big, h);
    lemma_real_mul_ordered(h, 10000000 as real, dust());
    lemma_real_associative(h, dust(), h);
    assert((10000000 as real) * dust() <= 1 as real);
    lemma_real_cancel(dust(), i, h);
}

/// A quotient of a bounded number is bounded in terms of the inverse.
proof fn lemma_quotient_bounded(s: real, h: real, y: real, i: real, k: real)
    requires
        y * h == s,
        i * h == 1 as real,
        h > 0 as real,
        i > 0 as real,
        abs(s) <= k,
        k <= 3 as real,
    ensures
        abs(y) <= (40 as real) * i,
{
    lemma_abs_product(y, h);
    lemma_real_associative(40 as real, i, h);
    lemma_real_cancel(abs(y), (40 as real) * i, h);
}

/// The length of a rotation vector that is not short, compared with the exact one.
proof fn lemma_wide_angle_length(w: [Binary64; 3])
    requires
        is_moderate(w),
        !is_small_angle(w),
    ensures
        ({
            let t = squared_norm(w);
            let theta = fl_sqrt(t);
            let n = exact_norm(w);
            let h = value(theta);
            let q = h * h;
            &&& 0 < magnitude(t) < INFINITE && !negative(t)
            &&& 0 < magnitude(theta) < INFINITE && !negative(theta)
            &&& (1 as real) / (10000000000int as real) <= h <= 10000 as real
            &&& n > 0 as real
            &&& abs(q - value(t)) <= slack() * q
            &&& abs(value(t) - n) <= (6 as real) * (slack() * n)
            &&& abs(q - n) <= (9 as real) * (slack() * n)
            &&& n <= (2 as real) * q && q <= (2 as real) * n
            &&& value(t) <= (2 as real) * q && n <= (2 as real) * value(t)
            &&& value(t) > 0 as real && value(t) <= 10000000 as real
            &&& q <= (2 as real) * value(t)
        }),
{
    lemma_norm_near(w);
    lemma_wide_magnitudes(w);
    lemma_small_angle_value();
    let t = squared_norm(w);
    let theta = fl_sqrt(t);
    lemma_sqrt_value(t);
    lemma_magnitudes_ordered(SMALL_ANGLE as nat, magnitude(theta));
    lemma_length_facts(value(theta), value(t), exact_norm(w));
}

proof fn lemma_wide_magnitudes(w: [Binary64; 3])
    requires
        is_finite(squared_norm(w)),
        !negative(squared_norm(w)) || is_zero(squared_norm(w)),
        !is_small_angle(w),
    ensures
        0 < magnitude(squared_norm(w)) < INFINITE,
        !negative(squared_norm(w)),
        SMALL_ANGLE <= magnitude(fl_sqrt(squared_norm(w))),
{
    let t = squared_norm(w);
    reveal(fl_lt);
    if is_zero(t) {
        lemma_sqrt_zero(t);
    } else {
        lemma_sqrt_value(t);
    }
}

/// Bounds on a computed length `h`, its argument `v` and the exact square `n`.
proof fn lemma_length_facts(h: real, v: real, n: real)
    requires
        (1 as real) / (10000000000int as real) <= h,
        0 as real <= n <= 3000000 as real,
        abs(h * h - v) <= (h * h) * ((4 as real) * half_unit()),
        abs(v - n) <= (5 as real) * (slack() * (n + dust())),
    ensures
        h <= 10000 as real,
        n > 0 as real,
        abs(h * h - v) <= slack() * (h * h),
        abs(v - n) <= (6 as real) * (slack() * n),
        abs(h * h - n) <= (9 as real) * (slack() * n),
        n <= (2 as real) * (h * h),
        h * h <= (2 as real) * n,
        v <= (2 as real) * (h * h),
        h * h <= (2 as real) * v,
        n <= (2 as real) * v,
        v > 0 as real,
        v <= 10000000 as real,
{
    let q = h * h;
    let f = (4 as real) * half_unit();
    lemma_square_nonnegative(h);
    lemma_real_mul_ordered(f, slack(), q);
    lemma_real_associative(f, q, q);
    lemma_real_associative(q, f, q);
    lemma_square_at_least(h);
    lemma_length_bounds(q, v, n);
    lemma_length_limit(h);
}

/// The factors of a wide rotation, compared with the exact ones.
proof fn lemma_wide_angle_factors(w: [Binary64; 3], sine: Binary64, cosine: Binary64)
    requires
        is_moderate(w),
        !is_small_angle(w),
        is_sound_pair(sine, cosine),
    ensures
        ({
            let t = squared_norm(w);
            let theta = fl_sqrt(t);
            let a = fl_div(sine, theta);
            let b = fl_div(fl_sub(fl(ONE), cosine), t);
            &&& is_finite(a)
            &&& is_finite(b)
            &&& abs(value(a) * value(theta) - value(sine)) <= slack()
            &&& abs(value(b) * value(t) - ((1 as real) - value(cosine))) <= (2 as real) * slack()
        }),
{
    lemma_wide_angle_length(w);
    lemma_one_value();
    let t = squared_norm(w);
    let theta = fl_sqrt(t);
    let one = 1 as real;
    lemma_real_one(slack());
    lemma_square_at_least(value(theta));
    lemma_scaled_quotient(sine, theta);
    lemma_sub_near(fl(ONE), cosine, one);
    let d = fl_sub(fl(ONE), cosine);
    lemma_scaled_quotient(d, t);
}

/// A quotient times its denominator is near the numerator.
proof fn lemma_scaled_quotient(s: Binary64, d: Binary64)
    requires
        is_finite(s),
        is_finite(d),
        !is_zero(d),
        !negative(d),
        abs(value(s)) <= 3 as real,
        (1 as real) / (1000000000000000000000int as real) <= value(d),
        value(d) <= 10000000 as real,
    ensures
        is_finite(fl_div(s, d)),
        abs(value(fl_div(s, d)) * value(d) - value(s)) <= slack(),
{
    let (x, h) = (value(s), value(d));
    let i = (1 as real) / h;
    let y = x / h;
    lemma_scale_inverse(h, i);
    lemma_real_quotient(x, h);
    lemma_quotient_bounded(x, h, y, i, 3 as real);
    lemma_div_near(s, d, i);
    let r = value(fl_div(s, d));
    lemma_product_near(r, y, h, slack() * i, h);
    lemma_real_associative(slack(), i, h);
    lemma_real_one(slack());
}

/// Bounds on the factors `a` and `b` of a wide rotation, where `h` is the computed length, `v`
/// its argument, `n` the exact square, and `s` and `c` are sine and cosine.
proof fn lemma_wide_bounds(a: real, b: real, h: real, v: real, n: real, s: real, c: real)
    requires
        h > 0 as real,
        n > 0 as real,
        v > 0 as real,
        abs(v - n) <= (6 as real) * (slack() * n),
        abs(h * h - n) <= (9 as real) * (slack() * n),
        n <= (2 as real) * (h * h),
        h * h <= (2 as real) * v,
        n <= (2 as real) * v,
        abs(s) <= 1 as real,
        abs(c) <= 1 as real,
        abs(a * h - s) <= slack(),
        abs(b * v - ((1 as real) - c)) <= (2 as real) * slack(),
    ensures
        abs(a) * h <= 2 as real,
        abs(b) * (h * h) <= 6 as real,
        abs(b) * abs(v - n) <= (40 as real) * slack(),
        abs(b * n - ((1 as real) - c)) <= (38 as real) * slack(),
        abs((a * a) * n - s * s) <= (75 as real) * slack(),
{
    let q = h * h;
    let k = slack();
    lemma_abs_product(a, h);
    lemma_abs_product(b, v);
    let m = abs(b);
    assert(m * v <= 3 as real);
    lemma_real_mul_ordered(q, (2 as real) * v, m);
    lemma_real_mul_ordered(n, (2 as real) * v, m);
    lemma_real_associative(2 as real, v, m);
    lemma_real_associative(v, m, m);
    lemma_real_associative(q, m, m);
    lemma_real_associative(n, m, m);
    assert(m * q <= 6 as real);
    assert(m * n <= 6 as real);
    let d = abs(v - n);
    lemma_real_mul_ordered(d, (6 as real) * (k * n), m);
    lemma_real_associative(6 as real, k * n, m);
    lemma_real_associative(k, n, m);
    lemma_real_mul_ordered(n * m, 6 as real, k);
    lemma_real_associative(n * m, k, m);
    lemma_real_associative(d, m, m);
    assert((k * n) * m <= (6 as real) * k);
    assert(m * d <= (36 as real) * k);
    lemma_product_bounded(v - n, b, d, m);
    lemma_real_distributes(v, n, b);
    lemma_real_associative(v, b, b);
    lemma_real_associative(n, b, b);
    assert(abs(b * v - b * n) <= (36 as real) * k);
    // a a n against a a h h
    lemma_wide_sine(a, h, n, s);
}

proof fn lemma_wide_sine(a: real, h: real, n: real, s: real)
    requires
        h > 0 as real,
        n > 0 as real,
        abs(h * h - n) <= (9 as real) * (slack() * n),
        n <= (2 as real) * (h * h),
        abs(s) <= 1 as real,
        abs(a * h - s) <= slack(),
    ensures
        abs((a * a) * n - s * s) <= (75 as real) * slack(),
{
    let q = h * h;
    let k = slack();
    let g = a * h;
    let aa = a * a;
    lemma_square_nonnegative(a);
    lemma_ring_pairs(a, h, a, h);
    assert(aa * q == g * g);
    lemma_product_bounded(g, g, 2 as real, 2 as real);
    lemma_real_mul_ordered(n, (2 as real) * q, aa);
    lemma_real_associative(2 as real, q, aa);
    lemma_real_associative(q, aa, aa);
    lemma_real_associative(n, aa, aa);
    assert(aa * n <= 8 as real);
    let d = abs(q - n);
    lemma_real_mul_ordered(d, (9 as real) * (k * n), aa);
    lemma_real_associative(9 as real, k * n, aa);
    lemma_real_associative(k, n, aa);
    lemma_real_mul_ordered(n * aa, 8 as real, k);
    lemma_real_associative(n * aa, k, aa);
    assert((k * n) * aa <= (8 as real) * k);
    assert(d * aa <= (72 as real) * k);
    lemma_product_bounded(q - n, aa, d, aa);
    lemma_real_distributes(q, n, aa);
    assert(abs(aa * q - aa * n) <= (72 as real) * k);
    // g g against s s
    lemma_product_bounded(g - s, g + s, k, 3 as real);
    lemma_ring_sums(g, -s, g, s);
    lemma_ring_pairs(s, g, s, g);
    lemma_ring_pairs(s, s, s, s);
    lemma_real_associative(g, s, s);
    assert((g - s) * (g + s) == g * g - s * s);
}

/// The defect of a wide rotation is what sine and cosine lack of a unit length.
proof fn lemma_wide_defect(a: real, b: real, n: real, s: real, c: real)
    requires
        n > 0 as real,
        abs(s) <= 1 as real,
        abs(c) <= 1 as real,
        abs(s * s + c * c - (1 as real)) <= (1 as real) / (10000000000int as real),
        abs(b * n - ((1 as real) - c)) <= (38 as real) * slack(),
        abs((a * a) * n - s * s) <= (75 as real) * slack(),
    ensures
        abs(defect(a, b, n)) * n <= (2 as real) / (10000000000int as real),
{
    let k = slack();
    let x = b * n;
    let y = (a * a) * n;
    let e = (1 as real) - c;
    let f = defect(a, b, n);
    lemma_real_distributes((2 as real) * b - a * a, (b * b) * n, n);
    lemma_real_distributes((2 as real) * b, a * a, n);
    lemma_real_associative(2 as real, b, n);
    lemma_ring_pairs(b, n, b, n);
    lemma_real_associative(b * b, n, n);
    assert(f * n == (2 as real) * x - y - x * x);
    lemma_product_bounded(x - e, x + e, (38 as real) * k, 5 as real);
    lemma_ring_sums(x, -e, x, e);
    lemma_ring_pairs(e, x, e, x);
    lemma_ring_pairs(e, e, e, e);
    lemma_real_associative(x, e, e);
    assert((x - e) * (x + e) == x * x - e * e);
    lemma_ring_square(1 as real, -c);
    lemma_real_one(-c);
    lemma_ring_pairs(c, -c, c, c);
    lemma_ring_pairs(c, c, c, c);
    lemma_real_associative(c, -c, c);
    assert(e * e == (1 as real) - (2 as real) * c + c * c);
    lemma_abs_product(f, n);
}

/// Bounds on the factors of a short rotation.
proof fn lemma_short_angle_factors(w: [Binary64; 3])
    requires
        is_moderate(w),
        is_small_angle(w),
    ensures
        ({
            let t = squared_norm(w);
            let a = fl_sub(fl(ONE), fl_div(t, fl(SIX)));
            let b = fl_sub(fl(ONE_HALF), fl_div(t, fl(TWENTY_FOUR)));
            let n = exact_norm(w);
            &&& is_finite(t)
            &&& is_finite(a)
            &&& is_finite(b)
            &&& 0 as real <= n <= (1 as real) / (10000000000000000int as real)
            &&& abs(value(t)) <= (1 as real) / (10000000000000000int as real)
            &&& abs(value(t) - n) <= slack()
            &&& abs(value(a)) <= 2 as real
            &&& abs(value(a) - (1 as real)) <= (3 as real) * slack()
            &&& abs(value(b)) <= 1 as real
        }),
{
    lemma_norm_near(w);
    lemma_small_angle_value();
    lemma_short_magnitude(w);
    let t = squared_norm(w);
    let n = exact_norm(w);
    let v = value(t);
    let one = 1 as real;
    lemma_slack_small(one);
    lemma_real_one(slack());
    lemma_slack_small(n + dust());
    lemma_constant_values();
    lemma_tame_quotient(t, fl(SIX));
    lemma_tame_quotient(t, fl(TWENTY_FOUR));
    lemma_sub_near(fl(ONE), fl_div(t, fl(SIX)), one);
    lemma_sub_near(fl(ONE_HALF), fl_div(t, fl(TWENTY_FOUR)), one);
}

/// A small number divided by one above one stays small.
proof fn lemma_tame_quotient(t: Binary64, d: Binary64)
    requires
        is_finite(t),
        is_finite(d),
        !is_zero(d),
        !negative(d),
        abs(value(t)) <= (1 as real) / (10 as real),
        value(d) >= 1 as real,
    ensures
        is_finite(fl_div(t, d)),
        abs(value(fl_div(t, d))) <= (1 as real) / (5 as real),
        abs(value(fl_div(t, d))) <= abs(value(t)) + slack(),
{
    let (v, h) = (value(t), value(d));
    let y = v / h;
    let one = 1 as real;
    lemma_slack_small(one);
    lemma_real_one(slack());
    lemma_real_quotient(v, h);
    lemma_abs_product(y, h);
    lemma_real_mul_ordered(one, h, abs(y));
    lemma_real_associative(one, abs(y), h);
    lemma_real_associative(h, abs(y), h);
    lemma_real_one(abs(y));
    assert(abs(y) <= abs(v));
    lemma_div_near(t, d, one);
}

/// The squared length of a short vector is small.
proof fn lemma_short_magnitude(w: [Binary64; 3])
    requires
        is_finite(squared_norm(w)),
        !negative(squared_norm(w)) || is_zero(squared_norm(w)),
        is_small_angle(w),
        mag_value(SMALL_ANGLE as nat) <= (2 as real) / (1000000000int as real),
    ensures
        0 as real <= value(squared_norm(w)) <= (1 as real) / (100000000000000000int as real),
{
    let t = squared_norm(w);
    if is_zero(t) {
        lemma_zero_value(t);
    } else {
        lemma_sqrt_value(t);
        lemma_value_positive(magnitude(t));
        assert(magnitude(fl_sqrt(t)) <= SMALL_ANGLE) by {
            reveal(fl_lt);
        }
        lemma_magnitudes_ordered(magnitude(fl_sqrt(t)), SMALL_ANGLE as nat);
        lemma_short_square(value(fl_sqrt(t)), value(t));
    }
}

proof fn lemma_short_square(h: real, v: real)
    requires
        h > 0 as real,
        h <= (2 as real) / (1000000000int as real),
        abs(h * h - v) <= (h * h) * ((4 as real) * half_unit()),
    ensures
        v <= (1 as real) / (100000000000000000int as real),
{
    let k = (2 as real) / (1000000000int as real);
    lemma_real_mul_ordered(h, k, h);
    lemma_real_mul_ordered(h, k, k);
    lemma_real_associative(h, k, k);
    let q = h * h;
    assert(k * k == (4 as real) / (1000000000000000000int as real));
    lemma_square_nonnegative(h);
    lemma_real_mul_ordered((4 as real) * half_unit(), 1 as real, q);
    lemma_real_associative((4 as real) * half_unit(), q, q);
    lemma_real_one(q);
}

/// The factors that a rotation by a vector of the computed squared length `t` is made with.
pub open spec fn turn_factors(
    t: Binary64,
    sine: Binary64,
    cosine: Binary64,
) -> (Binary64, Binary64) {
    if fl_lt(fl_sqrt(t), fl(SMALL_ANGLE)) {
        (
            fl_sub(fl(ONE), fl_div(t, fl(SIX))),
            fl_sub(fl(ONE_HALF), fl_div(t, fl(TWENTY_FOUR))),
        )
    } else {
        (fl_div(sine, fl_sqrt(t)), fl_div(fl_sub(fl(ONE), cosine), t))
    }
}

/// The factors of a wide rotation, times the length of the vector and its square.
pub proof fn lemma_wide_turn(w: [Binary64; 3], sine: Binary64, cosine: Binary64)
    requires
        is_moderate(w),
        !is_small_angle(w),
        is_sound_pair(sine, cosine),
    ensures
        ({
            let f = turn_factors(squared_norm(w), sine, cosine);
            let n = exact_norm(w);
            let h = value(fl_sqrt(squared_norm(w)));
            &&& h >= (1 as real) / (10000000000int as real)
            &&& n > 0 as real
            &&& abs(h * h - n) <= (9 as real) * (slack() * n)
            &&& abs(value(f.0) * h - value(sine)) <= slack()
            &&& abs(value(f.1) * n - ((1 as real) - value(cosine))) <= (38 as real) * slack()
        }),
{
    let f = turn_factors(squared_norm(w), sine, cosine);
    let t = squared_norm(w);
    lemma_wide_angle_length(w);
    lemma_wide_angle_factors(w, sine, cosine);
    lemma_wide_bounds(
        value(f.0),
        value(f.1),
        value(fl_sqrt(t)),
        value(t),
        exact_norm(w),
        value(sine),
        value(cosine),
    );
}

/// The factors of a short rotation.
pub proof fn lemma_short_turn(w: [Binary64; 3], sine: Binary64, cosine: Binary64)
    requires
        is_moderate(w),
        is_small_angle(w),
    ensures
        ({
            let f = turn_factors(squared_norm(w), sine, cosine);
            &&& 0 as real <= exact_norm(w) <= (1 as real) / (10000000000000000int as real)
            &&& abs(value(f.0) - (1 as real)) <= (3 as real) * slack()
            &&& abs(value(f.1)) <= 1 as real
        }),
{
    lemma_short_angle_factors(w);
}

/// The computed rotation is near an exact matrix with a small defect.
pub proof fn lemma_rotation_near(w: [Binary64; 3], sine: Binary64, cosine: Binary64) -> (f: (
    real,
    real,
))
    requires
        is_moderate(w),
        is_sound_pair(sine, cosine),
    ensures
        is_near_matrix(rotation_by(w, sine, cosine), f.0, f.1, w),
        exact_norm(w) >= 0 as real,
        abs(defect(f.0, f.1, exact_norm(w))) * exact_norm(w) <= (2 as real) / (
        10000000000int as real),
        f.0 == value(turn_factors(squared_norm(w), sine, cosine).0),
        f.1 == value(turn_factors(squared_norm(w), sine, cosine).1),
{
    let t = squared_norm(w);
    let n = exact_norm(w);
    lemma_norm_near(w);
    if is_small_angle(w) {
        let a = fl_sub(fl(ONE), fl_div(t, fl(SIX)));
        let b = fl_sub(fl(ONE_HALF), fl_div(t, fl(TWENTY_FOUR)));
        lemma_short_angle_factors(w);
        lemma_short_bounds(value(a), value(b), value(t), n);
        lemma_matrix_near(w, t, a, b, (1 as real) / (100000000int as real));
        (value(a), value(b))
    } else {
        let theta = fl_sqrt(t);
        let a = fl_div(sine, theta);
        let b = fl_div(fl_sub(fl(ONE), cosine), t);
        lemma_wide_angle_length(w);
        lemma_wide_angle_factors(w, sine, cosine);
        lemma_wide_bounds(
            value(a),
            value(b),
            value(theta),
            value(t),
            n,
            value(sine),
            value(cosine),
        );
        lemma_wide_defect(value(a), value(b), n, value(sine), value(cosine));
        lemma_matrix_near(w, t, a, b, value(theta));
        (value(a), value(b))
    }
}

proof fn lemma_short_bounds(a: real, b: real, v: real, n: real)
    requires
        abs(a) <= 2 as real,
        abs(b) <= 1 as real,
        0 as real <= n <= (1 as real) / (10000000000000000int as real),
        abs(v - n) <= slack(),
    ensures
        ({
            let h = (1 as real) / (100000000int as real);
            &&& h * h == (1 as real) / (10000000000000000int as real)
            &&& abs(a) * h <= 2 as real
            &&& abs(b) * (h * h) <= 6 as real
            &&& abs(b) * abs(v - n) <= (40 as real) * slack()
            &&& abs(defect(a, b, n)) * n <= (2 as real) / (10000000000int as real)
        }),
{
    let h = (1 as real) / (100000000int as real);
    let one = 1 as real;
    lemma_real_mul_ordered(abs(b), one, abs(v - n));
    lemma_real_one(abs(v - n));
    lemma_product_bounded(a, a, 2 as real, 2 as real);
    lemma_product_bounded(b, b, one, one);
    lemma_product_bounded(b * b, n, one, one);
    let f = defect(a, b, n);
    assert(abs(f) <= 7 as real);
    lemma_real_mul_ordered(abs(f), 7 as real, n);
}

/// The rotation by a vector is a rotation: its entries are finite, and its columns are
/// orthonormal up to `1e-9`, for short and wide angles alike, where sine and cosine are as they
/// should be up to `1e-10`.
pub proof fn law_rotation_is_orthonormal(
    w: [Binary64; 3],
    sine: Binary64,
    cosine: Binary64,
    i: int,
    j: int,
)
    requires
        is_moderate(w),
        is_sound_pair(sine, cosine),
        0 <= i < 3,
        0 <= j < 3,
    ensures
        is_finite(rotation_by(w, sine, cosine)[i][j]),
        abs(
            column_product(rotation_by(w, sine, cosine), i, j) - if i == j {
                1 as real
            } else {
                0 as real
            },
        ) <= (1 as real) / (1000000000int as real),
{
    let m = rotation_by(w, sine, cosine);
    let f = lemma_rotation_near(w, sine, cosine);
    lemma_columns_near(m, f.0, f.1, w);
    assert(abs(column_product(m, i, j) - if i == j {
        1 as real
    } else {
        0 as real
    }) <= abs(defect(f.0, f.1, exact_norm(w))) * exact_norm(w) + (12000 as real) * slack());
}

/// Whether `v` is the vector `w` with all signs turned.
pub open spec fn is_negated(w: [Binary64; 3], v: [Binary64; 3]) -> bool {
    v[0] == fl_neg(w[0]) && v[1] == fl_neg(w[1]) && v[2] == fl_neg(w[2])
}

/// The negated vector gives the transposed rotation, up to the rounding of the entries.
pub proof fn law_negated_vector_transposes(
    w: [Binary64; 3],
    v: [Binary64; 3],
    sine: Binary64,
    cosine: Binary64,
    i: int,
    j: int,
)
    requires
        is_moderate(w),
        is_negated(w, v),
        is_sound_pair(sine, cosine),
        0 <= i < 3,
        0 <= j < 3,
    ensures
        abs(
            value(rotation_by(v, sine, cosine)[i][j]) - value(rotation_by(w, sine, cosine)[j][i]),
        ) <= (2 as real) / (1000000000000int as real),
{
    lemma_neg_value(w[0]);
    lemma_neg_value(w[1]);
    lemma_neg_value(w[2]);
    lemma_negated_square(w[0]);
    lemma_negated_square(w[1]);
    lemma_negated_square(w[2]);
    assert(squared_norm(v) == squared_norm(w));
    let f = lemma_rotation_near(w, sine, cosine);
    let g = lemma_rotation_near(v, sine, cosine);
    let (a, b) = f;
    assert(g == f);
    let (x, y, z) = (value(w[0]), value(w[1]), value(w[2]));
    lemma_real_squares_negated(x);
    lemma_real_squares_negated(y);
    lemma_real_squares_negated(z);
    lemma_side_transposed(a, z, b, x, y);
    lemma_side_transposed(a, y, b, x, z);
    lemma_side_transposed(a, x, b, y, z);
    lemma_side_transposed(-a, z, b, x, y);
    lemma_side_transposed(-a, y, b, x, z);
    lemma_side_transposed(-a, x, b, y, z);
    lemma_side_transposed(a, z, b, y, x);
    lemma_side_transposed(a, y, b, z, x);
    lemma_side_transposed(a, x, b, z, y);
    lemma_side_transposed(-a, z, b, y, x);
    lemma_side_transposed(-a, y, b, z, x);
    lemma_side_transposed(-a, x, b, z, y);
    assert(exact_norm(v) == exact_norm(w));
}

proof fn lemma_real_squares_negated(x: real)
    by (nonlinear_arith)
    ensures
        (-x) * (-x) == x * x,
{
}

/// An entry off the diagonal of the exact matrix of the negated vector is the entry across the
/// diagonal of that of the vector.
proof fn lemma_side_transposed(a: real, z: real, b: real, x: real, y: real)
    ensures
        exact_side(a, -z, b, -x, -y) == exact_side(-a, z, b, y, x),
{
    lemma_real_associative(a, -z, b);
    lemma_real_distributes(z, z, a);
    lemma_real_distributes(a, a, z);
    lemma_real_associative(z, a, b);
    assert(a * (-z) == (-a) * z);
    lemma_real_associative(b, -x, -y);
    lemma_real_associative(b, y, x);
    assert((-x) * (-y) == y * x) by {
        lemma_real_distributes(x, x, -y);
        lemma_real_associative(x, -y, b);
        lemma_real_distributes(y, y, x);
        lemma_real_associative(y, x, b);
    }
}

proof fn lemma_negated_square(a: Binary64)
    ensures
        fl_mul(fl_neg(a), fl_neg(a)) == fl_mul(a, a),
{
    reveal(fl_mul);
    reveal(fl_neg);
}

} // verus!
