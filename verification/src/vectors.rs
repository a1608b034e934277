//! How near products of vectors and moved points are to the exact ones.
use crate::binary64::{fl_add, fl_mul, fl_neg, fl_sub, Binary64};
use crate::chains::{lemma_tiny_positive, lemma_unit_of, unit_of};
use crate::errors::{
    abs, half_unit, lemma_add_near, lemma_add_relative, lemma_mul_near, lemma_mul_value,
    lemma_neg_value, lemma_real_associative, lemma_real_distributes, lemma_real_mul_ordered,
    lemma_tiny_small, tiny, value,
};
use crate::exactness::is_finite;
use crate::icp::{difference, dot, moved, transformed, Pose};
use crate::linear::{product, product_entry, row_dot, squared_norm};
use crate::rotations::{lemma_abs_product, lemma_square_nonnegative};
use crate::totals::total;
use vstd::prelude::*;

verus! {

/// A limit far below the largest number: `1e30`.
pub open spec fn large() -> real {
    1000000000000000000000000000000int as real
}

/// A product below the limit is finite and rounded once.
pub proof fn lemma_product_fits(a: Binary64, b: Binary64)
    requires
        is_finite(a),
        is_finite(b),
        abs(value(a) * value(b)) <= (40 as real) * large(),
    ensures
        is_finite(fl_mul(a, b)),
        abs(value(fl_mul(a, b)) - value(a) * value(b)) <= unit_of(value(a) * value(b)) + tiny(),
{
    lemma_mul_near(a, b, large());
    lemma_mul_value(a, b);
}

/// A sum below the limit is finite and rounded once, relative to itself.
pub proof fn lemma_sum_fits(a: Binary64, b: Binary64)
    requires
        is_finite(a),
        is_finite(b),
        abs(value(a) + value(b)) <= (40 as real) * large(),
    ensures
        is_finite(fl_add(a, b)),
        abs(value(fl_add(a, b)) - (value(a) + value(b))) <= unit_of(value(a) + value(b)),
{
    lemma_add_near(a, b, large());
    lemma_add_relative(a, b);
}

/// The linear part of a sum of two numbers: `p` and `q` are the exact ones, `m` and `n` the rounded
/// ones with the errors `e` and `f`, and `s` their rounded sum; `u` and `w` are parts of the exact
/// ones.
proof fn lemma_two_bound(
    p: real,
    q: real,
    m: real,
    n: real,
    s: real,
    e: real,
    f: real,
    u: real,
    w: real,
)
    requires
        abs(m - p) <= e,
        abs(n - q) <= f,
        abs(s - (m + n)) <= unit_of(m + n),
        abs(p) <= (0x0020_0000_0000_0000 as real) * u,
        abs(q) <= (0x0020_0000_0000_0000 as real) * w,
    ensures
        (1000 as real) * abs(s - (p + q)) <= (1001 as real) * (e + f) + (1000 as real) * (u + w),
{
    lemma_unit_of(m + n);
}

/// The linear part of a sum of three products: `p` are the exact ones, `m` the rounded ones, and
/// `s` the sums of two and of three.
proof fn lemma_three_bound(
    p0: real,
    p1: real,
    p2: real,
    m0: real,
    m1: real,
    m2: real,
    s1: real,
    s2: real,
    t: real,
)
    requires
        abs(m0 - p0) <= unit_of(p0) + t,
        abs(m1 - p1) <= unit_of(p1) + t,
        abs(m2 - p2) <= unit_of(p2) + t,
        abs(s1 - (m0 + m1)) <= unit_of(m0 + m1),
        abs(s2 - (s1 + m2)) <= unit_of(s1 + m2),
        t >= 0 as real,
    ensures
        abs(s2 - (p0 + p1 + p2)) <= (4 as real) * (half_unit() * (abs(p0) + abs(p1) + abs(p2))) + (
        6 as real) * t,
{
    lemma_unit_of(p0);
    lemma_unit_of(p1);
    lemma_unit_of(p2);
    let h = half_unit();
    let (u0, u1, u2) = (unit_of(p0), unit_of(p1), unit_of(p2));
    lemma_two_bound(p0, p1, m0, m1, s1, u0 + t, u1 + t, u0, u1);
    let e = abs(s1 - (p0 + p1));
    assert(abs(p0 + p1) <= abs(p0) + abs(p1));
    lemma_two_bound(p0 + p1, p2, s1, m2, s2, e, u2 + t, u0 + u1, u2);
    lemma_real_distributes(abs(p0) + abs(p1), abs(p2), h);
    lemma_real_distributes(abs(p0), abs(p1), h);
    lemma_real_associative(abs(p0) + abs(p1) + abs(p2), h, t);
    let r = abs(s2 - (p0 + p1 + p2));
    assert(p0 + p1 + p2 == (p0 + p1) + p2);
    lemma_three_total(r, e, u0, u1, u2, t);
}

proof fn lemma_three_total(r: real, e: real, u0: real, u1: real, u2: real, t: real)
    requires
        (1000 as real) * e <= (1001 as real) * (u0 + t + (u1 + t)) + (1000 as real) * (u0 + u1),
        (1000 as real) * r <= (1001 as real) * (e + (u2 + t)) + (1000 as real) * (u0 + u1 + u2),
        u0 >= 0 as real && u1 >= 0 as real && u2 >= 0 as real,
        t >= 0 as real,
    ensures
        r <= (4 as real) * (u0 + u1 + u2) + (6 as real) * t,
{
}

/// A small amount: one, as a bound on what is lost below the normal numbers.
proof fn lemma_tiny_below_one()
    ensures
        0 as real <= tiny() <= 1 as real,
{
    lemma_tiny_small();
}

/// A sum of three products, from the left.
pub proof fn lemma_three_products(
    x0: Binary64,
    y0: Binary64,
    x1: Binary64,
    y1: Binary64,
    x2: Binary64,
    y2: Binary64,
)
    requires
        is_finite(x0) && is_finite(y0) && abs(value(x0) * value(y0)) <= (10 as real) * large(),
        is_finite(x1) && is_finite(y1) && abs(value(x1) * value(y1)) <= (10 as real) * large(),
        is_finite(x2) && is_finite(y2) && abs(value(x2) * value(y2)) <= (10 as real) * large(),
    ensures
        ({
            let s = fl_add(fl_add(fl_mul(x0, y0), fl_mul(x1, y1)), fl_mul(x2, y2));
            let (p0, p1, p2) = (
                value(x0) * value(y0),
                value(x1) * value(y1),
                value(x2) * value(y2),
            );
            &&& is_finite(s)
            &&& abs(value(s) - (p0 + p1 + p2)) <= (4 as real) * (half_unit() * (abs(p0) + abs(p1)
                + abs(p2))) + (6 as real) * tiny()
        }),
{
    let (m0, m1, m2) = (fl_mul(x0, y0), fl_mul(x1, y1), fl_mul(x2, y2));
    let (p0, p1, p2) = (value(x0) * value(y0), value(x1) * value(y1), value(x2) * value(y2));
    lemma_tiny_below_one();
    lemma_product_fits(x0, y0);
    lemma_product_fits(x1, y1);
    lemma_product_fits(x2, y2);
    lemma_unit_of(p0);
    lemma_unit_of(p1);
    lemma_unit_of(p2);
    lemma_sum_fits(m0, m1);
    let s = fl_add(m0, m1);
    lemma_unit_of(value(m0) + value(m1));
    lemma_sum_fits(s, m2);
    lemma_three_bound(
        p0,
        p1,
        p2,
        value(m0),
        value(m1),
        value(m2),
        value(s),
        value(fl_add(s, m2)),
        tiny(),
    );
}

/// The scalar product of two vectors of numbers.
pub open spec fn exact_dot(a: [Binary64; 3], b: [Binary64; 3]) -> real {
    total(|k: int| value(a[k]) * value(b[k]), 3)
}

/// The sum of the absolute values of its terms.
pub open spec fn dot_size(a: [Binary64; 3], b: [Binary64; 3]) -> real {
    total(|k: int| abs(value(a[k]) * value(b[k])), 3)
}

/// Whether two vectors are finite and their products below the limit.
pub open spec fn multiplies_well(a: [Binary64; 3], b: [Binary64; 3]) -> bool {
    forall|k: int|
        0 <= k < 3 ==> is_finite(#[trigger] a[k]) && is_finite(b[k]) && abs(
            value(a[k]) * value(b[k]),
        ) <= large()
}

/// A sum of three products is the scalar product up to four roundings.
pub proof fn law_dot_is_scalar_product(a: [Binary64; 3], b: [Binary64; 3])
    requires
        multiplies_well(a, b),
    ensures
        is_finite(dot(a, b)),
        abs(value(dot(a, b)) - exact_dot(a, b)) <= (4 as real) * (half_unit() * dot_size(a, b)) + (
        6 as real) * tiny(),
{
    assert(is_finite(a[0]) && is_finite(a[1]) && is_finite(a[2]));
    lemma_three_products(a[0], b[0], a[1], b[1], a[2], b[2]);
    reveal_with_fuel(total, 4);
}

/// A row of a matrix times a vector is the exact product up to four roundings.
pub proof fn law_row_times_vector(m: [[Binary64; 3]; 3], i: int, v: [Binary64; 3])
    requires
        0 <= i < 3,
        multiplies_well(m[i], v),
    ensures
        is_finite(row_dot(m, i, v)),
        abs(value(row_dot(m, i, v)) - exact_dot(m[i], v)) <= (4 as real) * (half_unit() * dot_size(
            m[i],
            v,
        )) + (6 as real) * tiny(),
{
    law_dot_is_scalar_product(m[i], v);
}

/// An entry of a product of matrices is the exact one up to four roundings.
pub proof fn law_product_of_matrices(
    a: [[Binary64; 3]; 3],
    b: [[Binary64; 3]; 3],
    i: int,
    j: int,
)
    requires
        0 <= i < 3,
        0 <= j < 3,
        multiplies_well(a[i], [b[0][j], b[1][j], b[2][j]]),
    ensures
        ({
            let column = [b[0][j], b[1][j], b[2][j]];
            let entry = product(a, b)[i][j];
            &&& is_finite(entry)
            &&& abs(value(entry) - exact_dot(a[i], column)) <= (4 as real) * (half_unit()
                * dot_size(a[i], column)) + (6 as real) * tiny()
        }),
{
    let column = [b[0][j], b[1][j], b[2][j]];
    law_dot_is_scalar_product(a[i], column);
    assert(product(a, b)[i][j] == product_entry(a, b, i, j));
    assert(dot(a[i], column) == product_entry(a, b, i, j));
}

// ---------------------------------------------------------------------------
// Moved points
// ---------------------------------------------------------------------------

/// The linear part: `s` is the computed product, `e` the exact one, `z` its size, `c` what is
/// added, and `r` the rounded sum.
proof fn lemma_moved_bound(s: real, e: real, z: real, c: real, r: real, t: real)
    requires
        abs(s - e) <= (4 as real) * (half_unit() * z) + (6 as real) * t,
        abs(r - (s + c)) <= unit_of(s + c),
        abs(e) <= z,
        t >= 0 as real,
    ensures
        abs(r - (e + c)) <= (6 as real) * (half_unit() * (z + abs(c))) + (8 as real) * t,
{
    lemma_unit_of(s + c);
    lemma_unit_of(z);
    lemma_unit_of(c);
    let h = half_unit();
    lemma_real_distributes(z, abs(c), h);
    lemma_real_associative(z, h, t);
    lemma_real_associative(z + abs(c), h, t);
}

/// A row of a matrix times a vector, and a number added to it.
proof fn lemma_row_and_shift(m: [[Binary64; 3]; 3], i: int, v: [Binary64; 3], c: Binary64)
    requires
        0 <= i < 3,
        multiplies_well(m[i], v),
        is_finite(c),
        abs(value(c)) <= large(),
    ensures
        is_finite(fl_add(row_dot(m, i, v), c)),
        abs(value(fl_add(row_dot(m, i, v), c)) - (exact_dot(m[i], v) + value(c))) <= (6 as real) * (
        half_unit() * (dot_size(m[i], v) + abs(value(c)))) + (8 as real) * tiny(),
{
    law_row_times_vector(m, i, v);
    lemma_tiny_below_one();
    lemma_dot_bounded(m[i], v);
    let z = dot_size(m[i], v);
    lemma_unit_of(z);
    lemma_real_associative(z, half_unit(), z);
    lemma_sum_fits(row_dot(m, i, v), c);
    lemma_moved_bound(
        value(row_dot(m, i, v)),
        exact_dot(m[i], v),
        z,
        value(c),
        value(fl_add(row_dot(m, i, v), c)),
        tiny(),
    );
}

proof fn lemma_dot_bounded(a: [Binary64; 3], b: [Binary64; 3])
    requires
        multiplies_well(a, b),
    ensures
        abs(exact_dot(a, b)) <= dot_size(a, b) <= (3 as real) * large(),
{
    assert(is_finite(a[0]) && is_finite(a[1]) && is_finite(a[2]));
    reveal_with_fuel(total, 4);
}

/// A pose moves a point to `R p + t`, up to rounding.
pub proof fn law_transform_moves_point(pose: Pose, p: [Binary64; 3], i: int)
    requires
        0 <= i < 3,
        multiplies_well(pose.rotation[i], p),
        is_finite(pose.translation[i]),
        abs(value(pose.translation[i])) <= large(),
    ensures
        ({
            let (row, t) = (pose.rotation[i], value(pose.translation[i]));
            &&& is_finite(transformed(pose, p)[i])
            &&& abs(value(transformed(pose, p)[i]) - (exact_dot(row, p) + t)) <= (6 as real) * (
            half_unit() * (dot_size(row, p) + abs(t))) + (8 as real) * tiny()
        }),
{
    lemma_row_and_shift(pose.rotation, i, p, pose.translation[i]);
}

/// An update turns the pose by `delta` and then moves it: its translation is `delta t + dt` up to
/// rounding, and its rotation the product.
pub proof fn law_update_moves_pose(
    pose: Pose,
    delta: [[Binary64; 3]; 3],
    x: [Binary64; 6],
    i: int,
    j: int,
)
    requires
        0 <= i < 3,
        0 <= j < 3,
        multiplies_well(delta[i], pose.translation),
        multiplies_well(
            delta[i],
            [pose.rotation[0][j], pose.rotation[1][j], pose.rotation[2][j]],
        ),
        is_finite(x[3 + i]),
        abs(value(x[3 + i])) <= large(),
    ensures
        ({
            let (row, t) = (delta[i], value(x[3 + i]));
            let column = [pose.rotation[0][j], pose.rotation[1][j], pose.rotation[2][j]];
            let next = moved(pose, delta, x);
            &&& is_finite(next.translation[i])
            &&& abs(value(next.translation[i]) - (exact_dot(row, pose.translation) + t)) <= (
            6 as real) * (half_unit() * (dot_size(row, pose.translation) + abs(t))) + (8 as real)
                * tiny()
            &&& is_finite(next.rotation[i][j])
            &&& abs(value(next.rotation[i][j]) - exact_dot(row, column)) <= (4 as real) * (
            half_unit() * dot_size(row, column)) + (6 as real) * tiny()
        }),
{
    lemma_row_and_shift(delta, i, pose.translation, x[3 + i]);
    law_product_of_matrices(delta, pose.rotation, i, j);
}

// ---------------------------------------------------------------------------
// Differences
// ---------------------------------------------------------------------------

/// Whether a point is finite and no further from the origin than `1e15` along each axis.
pub open spec fn is_in_reach(p: [Binary64; 3]) -> bool {
    forall|k: int|
        0 <= k < 3 ==> is_finite(#[trigger] p[k]) && abs(value(p[k])) <= 1000000000000000int as real
}

/// Component `k` of the vector from `v` to `p`.
pub open spec fn apart(p: [Binary64; 3], v: [Binary64; 3], k: int) -> real {
    value(p[k]) - value(v[k])
}

/// A component of a difference is rounded once.
pub proof fn lemma_difference_near(p: [Binary64; 3], v: [Binary64; 3], k: int)
    requires
        0 <= k < 3,
        is_in_reach(p),
        is_in_reach(v),
    ensures
        is_finite(difference(p, v)[k]),
        abs(value(difference(p, v)[k]) - apart(p, v, k)) <= unit_of(apart(p, v, k)),
        abs(apart(p, v, k)) <= 2000000000000000int as real,
        abs(value(difference(p, v)[k])) <= 3000000000000000int as real,
{
    assert(is_finite(p[k]) && is_finite(v[k]));
    lemma_neg_value(v[k]);
    lemma_sum_fits(p[k], fl_neg(v[k]));
    assert(difference(p, v)[k] == fl_sub(p[k], v[k]));
    lemma_unit_of(apart(p, v, k));
}

/// The square of the distance between two points.
pub open spec fn distance_squared(p: [Binary64; 3], v: [Binary64; 3]) -> real {
    total(|k: int| apart(p, v, k) * apart(p, v, k), 3)
}

/// The linear part of a squared difference: `d` is rounded from `q`.
proof fn lemma_squared_difference(d: real, q: real)
    requires
        abs(d - q) <= unit_of(q),
    ensures
        abs(d * d - q * q) <= (3 as real) * (half_unit() * (q * q)),
{
    let h = half_unit();
    let (a, b) = (abs(d - q), abs(d + q));
    lemma_unit_of(q);
    lemma_real_distributes(d, q, d);
    lemma_real_distributes(d, q, q);
    lemma_real_distributes(d, q, d - q);
    lemma_real_associative(d, q, q);
    assert((d - q) * (d + q) == d * d - q * q) by {
        lemma_real_distributes(d, -q, d + q);
        lemma_real_distributes(d, q, d);
        lemma_real_distributes(d, q, q);
        lemma_real_distributes(q, q, d + q);
        lemma_real_associative(d + q, d, q);
        lemma_real_associative(d + q, q, q);
        lemma_real_associative(d, q, d);
    }
    lemma_abs_product(d - q, d + q);
    // |d + q| <= 3 |q|
    lemma_real_mul_ordered(a, abs(q) * h, b);
    assert(b <= (3 as real) * abs(q));
    lemma_real_mul_ordered(b, (3 as real) * abs(q), abs(q) * h);
    lemma_real_associative(b, abs(q) * h, h);
    lemma_real_associative(3 as real, abs(q), abs(q) * h);
    lemma_real_associative(abs(q), abs(q), h);
    lemma_abs_product(q, q);
    lemma_square_nonnegative(q);
    lemma_real_associative(abs(q) * abs(q), h, h);
    lemma_real_associative((3 as real) * abs(q), abs(q) * h, h);
}

/// The linear part of a squared distance: `e` are the exact squares, `c` those of the rounded
/// differences, and `s` their rounded sum.
proof fn lemma_distance_bound(
    e0: real,
    e1: real,
    e2: real,
    c0: real,
    c1: real,
    c2: real,
    s: real,
    t: real,
)
    requires
        abs(c0 - e0) <= (3 as real) * (half_unit() * e0),
        abs(c1 - e1) <= (3 as real) * (half_unit() * e1),
        abs(c2 - e2) <= (3 as real) * (half_unit() * e2),
        e0 >= 0 as real && e1 >= 0 as real && e2 >= 0 as real,
        c0 >= 0 as real && c1 >= 0 as real && c2 >= 0 as real,
        abs(s - (c0 + c1 + c2)) <= (4 as real) * (half_unit() * (c0 + c1 + c2)) + (6 as real) * t,
        t >= 0 as real,
    ensures
        abs(s - (e0 + e1 + e2)) <= (8 as real) * (half_unit() * (e0 + e1 + e2)) + (6 as real) * t,
{
    let h = half_unit();
    lemma_unit_of(e0);
    lemma_unit_of(e1);
    lemma_unit_of(e2);
    lemma_unit_of(c0 + c1 + c2);
    lemma_real_associative(e0, h, t);
    lemma_real_associative(e1, h, t);
    lemma_real_associative(e2, h, t);
    lemma_real_associative(c0 + c1 + c2, h, t);
    lemma_real_distributes(e0 + e1, e2, h);
    lemma_real_distributes(e0, e1, h);
    lemma_real_associative(e0 + e1 + e2, h, t);
}

/// The computed square of a distance is the exact one up to eight roundings.
pub proof fn law_squared_distance(p: [Binary64; 3], v: [Binary64; 3])
    requires
        is_in_reach(p),
        is_in_reach(v),
    ensures
        is_finite(squared_norm(difference(p, v))),
        distance_squared(p, v) >= 0 as real,
        abs(value(squared_norm(difference(p, v))) - distance_squared(p, v)) <= (8 as real) * (
        half_unit() * distance_squared(p, v)) + (6 as real) * tiny(),
{
    let d = difference(p, v);
    lemma_difference_near(p, v, 0);
    lemma_difference_near(p, v, 1);
    lemma_difference_near(p, v, 2);
    let (d0, d1, d2) = (value(d[0]), value(d[1]), value(d[2]));
    let (q0, q1, q2) = (apart(p, v, 0), apart(p, v, 1), apart(p, v, 2));
    lemma_squared_difference(d0, q0);
    lemma_squared_difference(d1, q1);
    lemma_squared_difference(d2, q2);
    lemma_square_fits(d0);
    lemma_square_fits(d1);
    lemma_square_fits(d2);
    lemma_square_nonnegative(q0);
    lemma_square_nonnegative(q1);
    lemma_square_nonnegative(q2);
    lemma_three_products(d[0], d[0], d[1], d[1], d[2], d[2]);
    lemma_tiny_positive();
    lemma_distance_bound(
        q0 * q0,
        q1 * q1,
        q2 * q2,
        d0 * d0,
        d1 * d1,
        d2 * d2,
        value(squared_norm(d)),
        tiny(),
    );
    reveal_with_fuel(total, 4);
}

proof fn lemma_square_fits(d: real)
    requires
        abs(d) <= 3000000000000000int as real,
    ensures
        0 as real <= d * d <= (10 as real) * large(),
        abs(d * d) == d * d,
{
    let c = 3000000000000000int as real;
    lemma_square_nonnegative(d);
    lemma_abs_product(d, d);
    lemma_real_mul_ordered(abs(d), c, abs(d));
    lemma_real_mul_ordered(abs(d), c, c);
    lemma_real_associative(abs(d), c, c);
}

} // verus!
