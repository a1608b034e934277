//! What the gates and weights of a pair of pixels mean for the values of its numbers.
use crate::binary64::{fl_abs, fl_div, fl_le, fl_lt, fl_mul, is_nan, magnitude, negative, Binary64};
use crate::chains::{lemma_tiny_positive, lemma_unit_of, unit_of};
use crate::errors::{
    abs, half_unit, lemma_div_near, lemma_div_value, lemma_mul_value, lemma_real_associative,
    lemma_real_cancel, lemma_real_distributes, lemma_real_mul_ordered, lemma_real_one,
    lemma_tiny_small, lemma_zero_value, tiny, value,
};
use crate::exactness::{is_finite, is_zero};
use crate::icp::{
    difference, dot, gate_of, gated, huber_weight, rotated, IcpPlaneCriteria, PixelOutcome,
    STRAIGHT_ANGLE,
};
use crate::identities::lemma_quotient_scaled;
use crate::linear::{fl, squared_norm, ONE};
use crate::motions::off_plane;
use crate::numbers::{law_extremes_of_values, law_order_is_that_of_values, law_order_of_infinities};
use crate::ordering::lemma_square_sign;
use crate::rotations::{lemma_abs_product, lemma_magnitudes_ordered, lemma_square_nonnegative};
use crate::rounding::INFINITE;
use crate::totals::total;
use crate::vectors::{
    apart, distance_squared, dot_size, exact_dot, is_in_reach, large, law_dot_is_scalar_product,
    law_row_times_vector, law_squared_distance, lemma_difference_near, lemma_product_fits,
    multiplies_well,
};
use vstd::prelude::*;

verus! {

// ---------------------------------------------------------------------------
// Weights
// ---------------------------------------------------------------------------

/// A quotient below the limit, times its denominator.
pub proof fn lemma_quotient_fits(a: Binary64, d: Binary64)
    requires
        is_finite(a),
        is_finite(d),
        value(d) > 0 as real,
        abs(value(a)) <= large() * value(d),
    ensures
        is_finite(fl_div(a, d)),
        abs(value(fl_div(a, d)) * value(d) - value(a)) <= half_unit() * abs(value(a)) + tiny()
            * value(d),
{
    let (x, y) = (value(a), value(d));
    let q = x / y;
    if is_zero(d) {
        lemma_zero_value(d);
    }
    assert(!negative(d)) by {
        if negative(d) {
            lemma_zero_value(fl(0));
            lemma_magnitudes_ordered(0, magnitude(d));
        }
    }
    lemma_quotient_scaled(q, x, y);
    lemma_abs_product(q, y);
    lemma_real_cancel(abs(q), large(), y);
    lemma_tiny_small();
    lemma_div_near(a, d, large());
    lemma_div_value(a, d);
    let l = value(fl_div(a, d));
    lemma_real_distributes(l, q, y);
    lemma_abs_product(l - q, y);
    lemma_real_mul_ordered(abs(l - q), abs(q) * half_unit() + tiny(), y);
    lemma_real_distributes(abs(q) * half_unit(), tiny(), y);
    lemma_real_associative(abs(q), half_unit(), y);
    lemma_real_associative(abs(q), y, half_unit());
    lemma_real_associative(half_unit(), abs(q), y);
}

/// The Huber weight: one for residuals up to the scale, and beyond it the scale divided by the size
/// of the residual, up to one rounding. It is not below zero for a scale that is not, and above
/// zero for every residual that is not vanishingly small next to the largest number.
pub proof fn law_huber_weight_is_ratio(r: Binary64, delta: Binary64)
    requires
        is_finite(r),
        is_finite(delta),
    ensures
        abs(value(r)) <= value(delta) ==> huber_weight(r, delta) == fl(ONE),
        value(delta) < abs(value(r)) && abs(value(delta)) <= large() * abs(value(r)) ==> {
            let w = huber_weight(r, delta);
            &&& is_finite(w)
            &&& abs(value(w) * abs(value(r)) - value(delta)) <= half_unit() * abs(value(delta))
                + tiny() * abs(value(r))
            &&& (4 as real) * (tiny() * abs(value(r))) < value(delta) ==> value(w) > 0 as real
        },
{
    law_extremes_of_values(r, r);
    let s = fl_abs(r);
    law_order_is_that_of_values(s, delta);
    if value(delta) < abs(value(r)) && abs(value(delta)) <= large() * abs(value(r)) {
        let (w, z, d) = (huber_weight(r, delta), abs(value(r)), value(delta));
        if z == 0 as real {
            lemma_real_distributes(0 as real, 0 as real, large());
            lemma_real_associative(0 as real, large(), z);
        }
        lemma_quotient_fits(delta, s);
        if (4 as real) * (tiny() * z) < d {
            lemma_tiny_positive();
            lemma_abs_product(tiny(), z);
            lemma_unit_of(d);
            lemma_real_associative(half_unit(), abs(d), z);
            if value(w) <= 0 as real {
                lemma_real_mul_ordered(value(w), 0 as real, z);
                lemma_real_distributes(0 as real, 0 as real, z);
            }
        }
    }
}

// ---------------------------------------------------------------------------
// Normals
// ---------------------------------------------------------------------------

/// Whether a vector is finite with components up to `1e6`.
pub open spec fn is_modest(v: [Binary64; 3]) -> bool {
    forall|k: int| 0 <= k < 3 ==> is_finite(#[trigger] v[k]) && abs(value(v[k])) <= 1000000 as real
}

/// The product of the turned source normal with the target normal.
pub open spec fn exact_cosine(
    rotation: [[Binary64; 3]; 3],
    n_s: [Binary64; 3],
    n_t: [Binary64; 3],
) -> real {
    total(|i: int| exact_dot(rotation[i], n_s) * value(n_t[i]), 3)
}

/// How far the computed product can stray from it.
pub open spec fn cosine_error(
    rotation: [[Binary64; 3]; 3],
    n_s: [Binary64; 3],
    n_t: [Binary64; 3],
) -> real {
    (10 as real) * (half_unit() * total(
        |i: int| dot_size(rotation[i], n_s) * abs(value(n_t[i])),
        3,
    )) + (8 as real) * (tiny() * ((1 as real) + total(|i: int| abs(value(n_t[i])), 3)))
}

proof fn lemma_modest_products(a: [Binary64; 3], b: [Binary64; 3])
    requires
        is_modest(a),
        is_modest(b),
    ensures
        multiplies_well(a, b),
        0 as real <= dot_size(a, b) <= 3000000000000int as real,
        abs(exact_dot(a, b)) <= dot_size(a, b),
{
    let m = 1000000 as real;
    assert forall|k: int| 0 <= k < 3 implies is_finite(#[trigger] a[k]) && is_finite(b[k]) && abs(
        value(a[k]) * value(b[k]),
    ) <= 1000000000000int as real by {
        let (x, y) = (value(a[k]), value(b[k]));
        assert(is_finite(a[k]) && is_finite(b[k]));
        lemma_abs_product(x, y);
        lemma_real_mul_ordered(abs(x), m, abs(y));
        lemma_real_mul_ordered(abs(y), m, m);
        lemma_real_associative(abs(y), m, m);
    }
    assert(is_finite(a[0]) && is_finite(a[1]) && is_finite(a[2]));
    reveal_with_fuel(total, 4);
}

/// A component of the turned normal, times one of the other: `r` is computed, `e` exact, and `z`
/// the size of `e`.
proof fn lemma_turned_term(r: real, e: real, z: real, n: real)
    requires
        abs(r - e) <= (4 as real) * (half_unit() * z) + (6 as real) * tiny(),
        abs(e) <= z,
    ensures
        abs(r * n - e * n) <= (4 as real) * (half_unit() * (z * abs(n))) + (6 as real) * (tiny()
            * abs(n)),
        abs(r * n) <= z * abs(n) + (4 as real) * (half_unit() * (z * abs(n))) + (6 as real) * (
        tiny() * abs(n)),
        abs(e * n) <= z * abs(n),
{
    let (h, m) = (half_unit(), abs(n));
    lemma_real_distributes(r, e, n);
    lemma_abs_product(r - e, n);
    lemma_abs_product(e, n);
    lemma_real_mul_ordered(abs(e), z, m);
    lemma_real_mul_ordered(abs(r - e), (4 as real) * (h * z) + (6 as real) * tiny(), m);
    lemma_real_distributes((4 as real) * (h * z), (6 as real) * tiny(), m);
    lemma_real_associative(4 as real, h * z, m);
    lemma_real_associative(h, z, m);
    lemma_real_associative(6 as real, tiny(), m);
}

/// The linear part: `c` is computed from the products `r`, `e` are the exact ones, `z` their sizes
/// and `m` the sizes of the factors, times the least number.
proof fn lemma_cosine_bound(
    c: real,
    r0: real,
    r1: real,
    r2: real,
    e0: real,
    e1: real,
    e2: real,
    z: real,
    m: real,
    t: real,
)
    requires
        abs(c - (r0 + r1 + r2)) <= (4 as real) * (half_unit() * (abs(r0) + abs(r1) + abs(r2))) + (
        6 as real) * t,
        abs(r0 - e0) + abs(r1 - e1) + abs(r2 - e2) <= (4 as real) * (half_unit() * z) + (6 as real)
            * m,
        abs(r0) + abs(r1) + abs(r2) <= z + (4 as real) * (half_unit() * z) + (6 as real) * m,
        z >= 0 as real,
        m >= 0 as real,
        t >= 0 as real,
    ensures
        abs(c - (e0 + e1 + e2)) <= (10 as real) * (half_unit() * z) + (8 as real) * (t + m),
{
    let s = abs(r0) + abs(r1) + abs(r2);
    lemma_unit_of(s);
    lemma_unit_of(z);
    lemma_real_associative(s, half_unit(), z);
    lemma_real_associative(z, half_unit(), z);
    let d = abs(r0 - e0) + abs(r1 - e1) + abs(r2 - e2);
    assert(abs(r0 + r1 + r2 - (e0 + e1 + e2)) <= d);
    let f = abs(c - (r0 + r1 + r2));
    assert(abs(c - (e0 + e1 + e2)) <= f + d);
}

/// The product that is held against the limit is that of the turned source normal with the target
/// normal, up to rounding.
pub proof fn law_cosine_of_normals(
    rotation: [[Binary64; 3]; 3],
    n_s: [Binary64; 3],
    n_t: [Binary64; 3],
)
    requires
        is_modest(rotation[0]) && is_modest(rotation[1]) && is_modest(rotation[2]),
        is_modest(n_s),
        is_modest(n_t),
    ensures
        is_finite(dot(rotated(rotation, n_s), n_t)),
        abs(value(dot(rotated(rotation, n_s), n_t)) - exact_cosine(rotation, n_s, n_t))
            <= cosine_error(rotation, n_s, n_t),
{
    let turned = rotated(rotation, n_s);
    let (h, t) = (half_unit(), tiny());
    lemma_tiny_small();
    lemma_modest_products(rotation[0], n_s);
    lemma_modest_products(rotation[1], n_s);
    lemma_modest_products(rotation[2], n_s);
    law_row_times_vector(rotation, 0, n_s);
    law_row_times_vector(rotation, 1, n_s);
    law_row_times_vector(rotation, 2, n_s);
    let (z0, z1, z2) = (
        dot_size(rotation[0], n_s),
        dot_size(rotation[1], n_s),
        dot_size(rotation[2], n_s),
    );
    let (x0, x1, x2) = (
        exact_dot(rotation[0], n_s),
        exact_dot(rotation[1], n_s),
        exact_dot(rotation[2], n_s),
    );
    assert(is_finite(n_t[0]) && is_finite(n_t[1]) && is_finite(n_t[2]));
    let (y0, y1, y2) = (value(n_t[0]), value(n_t[1]), value(n_t[2]));
    let (v0, v1, v2) = (value(turned[0]), value(turned[1]), value(turned[2]));
    lemma_turned_term(v0, x0, z0, y0);
    lemma_turned_term(v1, x1, z1, y1);
    lemma_turned_term(v2, x2, z2, y2);
    lemma_turned_fits(z0, y0);
    lemma_turned_fits(z1, y1);
    lemma_turned_fits(z2, y2);
    assert(multiplies_well(turned, n_t)) by {
        assert forall|k: int| 0 <= k < 3 implies is_finite(#[trigger] turned[k]) && is_finite(
            n_t[k],
        ) && abs(value(turned[k]) * value(n_t[k])) <= large() by {}
    }
    law_dot_is_scalar_product(turned, n_t);
    let (w0, w1, w2) = (z0 * abs(y0), z1 * abs(y1), z2 * abs(y2));
    lemma_real_distributes(w0 + w1, w2, h);
    lemma_real_distributes(w0, w1, h);
    lemma_real_associative(w0, h, t);
    lemma_real_associative(w1, h, t);
    lemma_real_associative(w2, h, t);
    lemma_real_associative(w0 + w1 + w2, h, t);
    let m = abs(y0) + abs(y1) + abs(y2);
    lemma_real_distributes(abs(y0) + abs(y1), abs(y2), t);
    lemma_real_distributes(abs(y0), abs(y1), t);
    lemma_real_associative(abs(y0), t, h);
    lemma_real_associative(abs(y1), t, h);
    lemma_real_associative(abs(y2), t, h);
    lemma_real_associative(m, t, h);
    lemma_real_distributes(1 as real, m, t);
    lemma_real_associative((1 as real) + m, t, h);
    lemma_real_one(t);
    reveal_with_fuel(total, 4);
    lemma_abs_product(t, m);
    lemma_cosine_bound(
        value(dot(turned, n_t)),
        v0 * y0,
        v1 * y1,
        v2 * y2,
        x0 * y0,
        x1 * y1,
        x2 * y2,
        w0 + w1 + w2,
        t * m,
        t,
    );
}

proof fn lemma_turned_fits(z: real, y: real)
    requires
        0 as real <= z <= 3000000000000int as real,
        abs(y) <= 1000000 as real,
    ensures
        0 as real <= z * abs(y) <= 3000000000000000000int as real,
        z * abs(y) + (4 as real) * (half_unit() * (z * abs(y))) + (6 as real) * (tiny() * abs(y))
            <= large(),
{
    let m = 1000000 as real;
    lemma_abs_product(z, y);
    lemma_real_mul_ordered(abs(y), m, z);
    lemma_real_associative(abs(y), z, z);
    lemma_real_associative(m, z, z);
    lemma_unit_of(z * abs(y));
    lemma_real_associative(z * abs(y), half_unit(), z);
    lemma_tiny_small();
    lemma_real_mul_ordered(tiny(), 1 as real, abs(y));
    lemma_real_one(abs(y));
}

// ---------------------------------------------------------------------------
// Gates
// ---------------------------------------------------------------------------

/// Whether two normals agree within the largest angle, where `c` is the product of the two up to
/// `e` and `cosine` that of the largest angle.
pub open spec fn normals_agree(
    criteria: IcpPlaneCriteria,
    cosine: Binary64,
    c: real,
    e: real,
) -> bool {
    let angle = criteria.max_normal_angle_rad;
    ||| fl_le(fl(STRAIGHT_ANGLE), angle)
    ||| fl_le(fl(0), angle) && fl_lt(angle, fl(STRAIGHT_ANGLE)) && is_finite(cosine) && c - e
        >= value(cosine)
}

/// Whether they disagree.
pub open spec fn normals_disagree(
    criteria: IcpPlaneCriteria,
    cosine: Binary64,
    c: real,
    e: real,
) -> bool {
    let angle = criteria.max_normal_angle_rad;
    ||| fl_lt(angle, fl(0))
    ||| fl_le(fl(0), angle) && fl_lt(angle, fl(STRAIGHT_ANGLE)) && is_finite(cosine) && c + e
        < value(cosine)
}

/// The square of a limit that is not below zero.
proof fn lemma_squared_limit(m: Binary64)
    requires
        is_finite(m),
    ensures
        !is_nan(fl_mul(m, m)) && !negative(fl_mul(m, m)),
        value(m) * value(m) <= (40 as real) * large() ==> is_finite(fl_mul(m, m)),
        is_finite(fl_mul(m, m)) ==> abs(value(fl_mul(m, m)) - value(m) * value(m)) <= unit_of(
            value(m) * value(m),
        ) + tiny(),
{
    lemma_square_sign(m);
    lemma_square_nonnegative(value(m));
    if value(m) * value(m) <= (40 as real) * large() {
        lemma_product_fits(m, m);
    }
    if is_finite(fl_mul(m, m)) {
        lemma_mul_value(m, m);
    }
}

/// The linear part of the distance gate: `s` is the computed square of the distance, `d` the exact
/// one, `q` the computed square of the limit and `m` the exact one.
proof fn lemma_limit_bound(s: real, d: real, q: real, m: real, t: real)
    requires
        abs(s - d) <= (8 as real) * (half_unit() * d) + (6 as real) * t,
        abs(q - m) <= unit_of(m) + t,
        d >= 0 as real,
        m >= 0 as real,
        t >= 0 as real,
    ensures
        d > m + (16 as real) * (half_unit() * d) + (16 as real) * t ==> q < s,
        d + (16 as real) * (half_unit() * d) + (16 as real) * t <= m ==> s <= q,
{
    lemma_unit_of(d);
    lemma_unit_of(m);
    lemma_real_associative(d, half_unit(), t);
}

/// What the computed square of a distance can stray, with room for that of the limit.
pub open spec fn gate_error(d: real) -> real {
    (16 as real) * (half_unit() * d) + (16 as real) * tiny()
}

/// The gates keep the pairs that are near and aligned: one that is further apart than the largest
/// distance is rejected, one whose normals disagree by more than the largest angle is rejected, and
/// one that is within both is kept, each up to rounding and for every largest distance.
pub proof fn law_gates_keep_near_and_aligned(
    p: [Binary64; 3],
    n_s: [Binary64; 3],
    v_t: [Binary64; 3],
    n_t: [Binary64; 3],
    rotation: [[Binary64; 3]; 3],
    criteria: IcpPlaneCriteria,
    cosine: Binary64,
)
    requires
        is_in_reach(p),
        is_in_reach(v_t),
        is_modest(rotation[0]) && is_modest(rotation[1]) && is_modest(rotation[2]),
        is_modest(n_s),
        is_modest(n_t),
        is_finite(criteria.max_dist_m),
        value(criteria.max_dist_m) >= 0 as real,
    ensures
        ({
            let met = gated(p, n_s, v_t, n_t, rotation, gate_of(criteria, cosine));
            let d = distance_squared(p, v_t);
            let m = value(criteria.max_dist_m) * value(criteria.max_dist_m);
            let c = exact_cosine(rotation, n_s, n_t);
            let e = cosine_error(rotation, n_s, n_t);
            &&& d > m + gate_error(d) ==> met is Rejected
            &&& normals_disagree(criteria, cosine, c, e) ==> met is Rejected
            &&& d + gate_error(d) <= m && normals_agree(criteria, cosine, c, e) ==> met is Inlier
        }),
{
    let gate = gate_of(criteria, cosine);
    let limit = criteria.max_dist_m;
    let square = squared_norm(difference(p, v_t));
    let (d, m) = (distance_squared(p, v_t), value(limit) * value(limit));
    lemma_zero_value(fl(0));
    law_order_is_that_of_values(limit, fl(0));
    law_squared_distance(p, v_t);
    lemma_reach_limits_distance(p, v_t);
    lemma_squared_limit(limit);
    lemma_square_nonnegative(value(limit));
    lemma_tiny_positive();
    lemma_unit_of(d);
    lemma_real_associative(d, half_unit(), d);
    assert(gate.max_dist_sq == fl_mul(limit, limit));
    if is_finite(gate.max_dist_sq) {
        lemma_limit_bound(value(square), d, value(gate.max_dist_sq), m, tiny());
        law_order_is_that_of_values(gate.max_dist_sq, square);
    } else {
        assert(magnitude(gate.max_dist_sq) == INFINITE);
        law_order_of_infinities(square, gate.max_dist_sq);
        assert(!fl_lt(gate.max_dist_sq, square)) by {
            reveal(fl_lt);
        }
    }
    law_cosine_of_normals(rotation, n_s, n_t);
    let found = dot(rotated(rotation, n_s), n_t);
    let angle = criteria.max_normal_angle_rad;
    if is_finite(cosine) {
        law_order_is_that_of_values(found, cosine);
    }
    reveal(fl_lt);
    reveal(fl_le);
}

proof fn lemma_reach_limits_distance(p: [Binary64; 3], v: [Binary64; 3])
    requires
        is_in_reach(p),
        is_in_reach(v),
    ensures
        distance_squared(p, v) <= (13 as real) * large(),
{
    let c = 2000000000000000int as real;
    assert forall|k: int| 0 <= k < 3 implies #[trigger] apart(p, v, k) * apart(p, v, k) <= c
        * c by {
        lemma_difference_near(p, v, k);
        let q = apart(p, v, k);
        lemma_abs_product(q, q);
        lemma_square_nonnegative(q);
        lemma_real_mul_ordered(abs(q), c, abs(q));
        lemma_real_mul_ordered(abs(q), c, c);
        lemma_real_associative(abs(q), c, c);
    }
    let (q0, q1, q2) = (apart(p, v, 0), apart(p, v, 1), apart(p, v, 2));
    assert(q0 * q0 <= c * c && q1 * q1 <= c * c && q2 * q2 <= c * c);
    reveal_with_fuel(total, 4);
}

/// A largest distance that is infinite or not a number rejects no pair for its distance: the
/// normals decide alone.
pub proof fn law_no_distance_limit(
    p: [Binary64; 3],
    n_s: [Binary64; 3],
    v_t: [Binary64; 3],
    n_t: [Binary64; 3],
    rotation: [[Binary64; 3]; 3],
    criteria: IcpPlaneCriteria,
    cosine: Binary64,
)
    requires
        is_modest(rotation[0]) && is_modest(rotation[1]) && is_modest(rotation[2]),
        is_modest(n_s),
        is_modest(n_t),
        criteria.max_dist_m == fl(INFINITE) || is_nan(criteria.max_dist_m),
    ensures
        ({
            let met = gated(p, n_s, v_t, n_t, rotation, gate_of(criteria, cosine));
            let c = exact_cosine(rotation, n_s, n_t);
            let e = cosine_error(rotation, n_s, n_t);
            &&& normals_disagree(criteria, cosine, c, e) ==> met is Rejected
            &&& normals_agree(criteria, cosine, c, e) ==> met is Inlier
        }),
{
    let gate = gate_of(criteria, cosine);
    let limit = criteria.max_dist_m;
    assert(is_nan(gate.max_dist_sq) || gate.max_dist_sq == fl(INFINITE)) by {
        reveal(fl_lt);
        reveal(fl_mul);
    }
    assert(!fl_lt(gate.max_dist_sq, squared_norm(difference(p, v_t)))) by {
        reveal(fl_lt);
    }
    law_cosine_of_normals(rotation, n_s, n_t);
    if is_finite(cosine) {
        law_order_is_that_of_values(dot(rotated(rotation, n_s), n_t), cosine);
    }
    reveal(fl_lt);
    reveal(fl_le);
}

// ---------------------------------------------------------------------------
// Residuals
// ---------------------------------------------------------------------------

/// How far a residual can stray from the distance off the plane.
pub open spec fn residual_error(p: [Binary64; 3], v: [Binary64; 3], n: [Binary64; 3]) -> real {
    (6 as real) * (half_unit() * total(|k: int| abs(value(n[k]) * apart(p, v, k)), 3)) + (6 as real)
        * tiny()
}

/// A component of the residual: `d` is rounded from `q`.
proof fn lemma_residual_term(n: real, d: real, q: real)
    requires
        abs(d - q) <= unit_of(q),
    ensures
        abs(n * d - n * q) <= unit_of(n * q),
        abs(n * d) <= abs(n * q) + unit_of(n * q),
{
    lemma_real_distributes(d, q, n);
    lemma_real_associative(d, n, n);
    lemma_real_associative(q, n, n);
    lemma_real_associative(d - q, n, n);
    lemma_abs_product(d - q, n);
    lemma_real_mul_ordered(abs(d - q), abs(q) * half_unit(), abs(n));
    lemma_abs_product(n, q);
    lemma_real_associative(abs(q), half_unit(), abs(n));
    lemma_real_associative(abs(n), abs(q), half_unit());
    lemma_real_associative(abs(q), abs(n), half_unit());
}

/// The linear part: `e` are the exact terms, `r` those of the rounded differences, and `s` the sum.
proof fn lemma_residual_bound(
    s: real,
    r0: real,
    r1: real,
    r2: real,
    e0: real,
    e1: real,
    e2: real,
    t: real,
)
    requires
        abs(s - (r0 + r1 + r2)) <= (4 as real) * (half_unit() * (abs(r0) + abs(r1) + abs(r2))) + (
        6 as real) * t,
        abs(r0 - e0) <= unit_of(e0),
        abs(r1 - e1) <= unit_of(e1),
        abs(r2 - e2) <= unit_of(e2),
        t >= 0 as real,
    ensures
        abs(s - (e0 + e1 + e2)) <= (6 as real) * (half_unit() * (abs(e0) + abs(e1) + abs(e2))) + (
        6 as real) * t,
{
    let (h, z) = (half_unit(), abs(e0) + abs(e1) + abs(e2));
    let y = abs(r0) + abs(r1) + abs(r2);
    lemma_unit_of(e0);
    lemma_unit_of(e1);
    lemma_unit_of(e2);
    lemma_unit_of(y);
    lemma_real_associative(y, h, t);
    lemma_real_distributes(abs(e0) + abs(e1), abs(e2), h);
    lemma_real_distributes(abs(e0), abs(e1), h);
    lemma_real_associative(z, h, t);
    let d = unit_of(e0) + unit_of(e1) + unit_of(e2);
    assert(y <= z + d);
    assert(abs(r0 + r1 + r2 - (e0 + e1 + e2)) <= d);
    let f = abs(s - (r0 + r1 + r2));
    assert(abs(s - (e0 + e1 + e2)) <= f + d);
}

/// The residual of a pair that is kept is the distance of the moved point off the plane of the
/// target, up to rounding; its weight is that of this residual at the Huber scale of the criteria.
pub proof fn law_residual_is_off_plane(
    p: [Binary64; 3],
    n_s: [Binary64; 3],
    v_t: [Binary64; 3],
    n_t: [Binary64; 3],
    rotation: [[Binary64; 3]; 3],
    criteria: IcpPlaneCriteria,
    cosine: Binary64,
)
    requires
        is_in_reach(p),
        is_in_reach(v_t),
        is_modest(n_t),
    ensures
        gated(p, n_s, v_t, n_t, rotation, gate_of(criteria, cosine)) matches PixelOutcome::Inlier(c)
            ==> {
            &&& is_finite(c.residual)
            &&& abs(value(c.residual) - off_plane(|k: int| value(p[k]), v_t, n_t))
                <= residual_error(p, v_t, n_t)
            &&& c.weight == huber_weight(c.residual, criteria.huber_delta_m)
        },
{
    let d = difference(p, v_t);
    lemma_difference_near(p, v_t, 0);
    lemma_difference_near(p, v_t, 1);
    lemma_difference_near(p, v_t, 2);
    assert(is_finite(n_t[0]) && is_finite(n_t[1]) && is_finite(n_t[2]));
    let (n0, n1, n2) = (value(n_t[0]), value(n_t[1]), value(n_t[2]));
    let (d0, d1, d2) = (value(d[0]), value(d[1]), value(d[2]));
    let (q0, q1, q2) = (apart(p, v_t, 0), apart(p, v_t, 1), apart(p, v_t, 2));
    lemma_residual_term(n0, d0, q0);
    lemma_residual_term(n1, d1, q1);
    lemma_residual_term(n2, d2, q2);
    lemma_term_fits(n0, d0);
    lemma_term_fits(n1, d1);
    lemma_term_fits(n2, d2);
    assert(multiplies_well(n_t, d)) by {
        assert forall|k: int| 0 <= k < 3 implies is_finite(#[trigger] n_t[k]) && is_finite(d[k])
            && abs(value(n_t[k]) * value(d[k])) <= large() by {}
    }
    law_dot_is_scalar_product(n_t, d);
    lemma_tiny_positive();
    reveal_with_fuel(total, 4);
    lemma_residual_bound(
        value(dot(n_t, d)),
        n0 * d0,
        n1 * d1,
        n2 * d2,
        n0 * q0,
        n1 * q1,
        n2 * q2,
        tiny(),
    );
}

proof fn lemma_term_fits(n: real, d: real)
    requires
        abs(n) <= 1000000 as real,
        abs(d) <= 3000000000000000int as real,
    ensures
        abs(n * d) <= large(),
{
    let (m, c) = (1000000 as real, 3000000000000000int as real);
    lemma_abs_product(n, d);
    lemma_real_mul_ordered(abs(n), m, abs(d));
    lemma_real_mul_ordered(abs(d), c, m);
    lemma_real_associative(abs(d), m, m);
    lemma_real_associative(c, m, m);
}

} // verus!
