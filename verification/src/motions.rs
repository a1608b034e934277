//! What a small motion does to the distance of a point from a plane.
use crate::binary64::{fl_mul, fl_neg, fl_sub, Binary64};
use crate::chains::{
    lemma_finite_difference, lemma_finite_factors, lemma_tiny_positive, lemma_unit_of, unit_of,
};
use crate::errors::{
    abs, half_unit, lemma_add_value, lemma_mul_value, lemma_neg_value, lemma_real_associative,
    lemma_real_distributes, lemma_real_mul_ordered, lemma_tiny_small, tiny, value,
};
use crate::exactness::is_finite;
use crate::gates::is_modest;
use crate::icp::{gated, jacobian_row, Gate, PixelOutcome};
use crate::identities::lemma_turned_component;
use crate::nullspace::noticed;
use crate::rotations::lemma_abs_product;
use crate::totals::{lemma_total_same, total};
use crate::vectors::{is_in_reach, large, lemma_product_fits, lemma_sum_fits};
use vstd::prelude::*;

verus! {

/// Component `k` of the velocity of the point `p` under the twist `x`: `w x p + t`, where `w` is
/// made of the first three entries of `x` and `t` of the others.
pub open spec fn velocity(p: [Binary64; 3], x: spec_fn(int) -> real, k: int) -> real {
    let (a, b) = ((k + 1) % 3, (k + 2) % 3);
    x(a) * value(p[b]) - x(b) * value(p[a]) + x(k + 3)
}

/// The signed distance of `q` from the plane through `v` with the normal `n`, in lengths of `n`.
pub open spec fn off_plane(
    q: spec_fn(int) -> real,
    v: [Binary64; 3],
    n: [Binary64; 3],
) -> real {
    total(|k: int| value(n[k]) * (q(k) - value(v[k])), 3)
}

/// How far entry `k < 3` of a Jacobian row can stray from component `k` of `p x n`: three half
/// units of the sizes of its products, and what is lost below the normal numbers.
pub open spec fn cross_error(p: [Binary64; 3], n: [Binary64; 3], k: int) -> real {
    let (a, b) = ((k + 1) % 3, (k + 2) % 3);
    (3 as real) * (half_unit() * (abs(value(p[a]) * value(n[b])) + abs(value(p[b]) * value(n[a]))))
        + (4 as real) * tiny()
}

/// The linear part: `q` and `s` are the rounded products of `a` and `b`, and `d` their rounded
/// difference.
proof fn lemma_cross_bound(a: real, b: real, q: real, s: real, d: real, t: real)
    requires
        abs(q - a) <= unit_of(a) + t,
        abs(s - b) <= unit_of(b) + t,
        abs(d - (q - s)) <= unit_of(q - s) + t,
        t >= 0 as real,
    ensures
        abs(d - (a - b)) <= (3 as real) * (half_unit() * (abs(a) + abs(b))) + (4 as real) * t,
{
    lemma_unit_of(a);
    lemma_unit_of(b);
    lemma_unit_of(q - s);
    lemma_real_distributes(abs(a), abs(b), half_unit());
    lemma_real_associative(abs(a) + abs(b), half_unit(), t);
}

/// An entry of the cross product is near the exact one.
proof fn lemma_cross_entry(f: Binary64, g: Binary64, u: Binary64, v: Binary64)
    requires
        is_finite(fl_sub(fl_mul(f, g), fl_mul(u, v))),
    ensures
        ({
            let (a, b) = (value(f) * value(g), value(u) * value(v));
            abs(value(fl_sub(fl_mul(f, g), fl_mul(u, v))) - (a - b)) <= (3 as real) * (half_unit()
                * (abs(a) + abs(b))) + (4 as real) * tiny()
        }),
{
    let (x, y) = (fl_mul(f, g), fl_mul(u, v));
    lemma_finite_difference(x, y);
    lemma_finite_factors(f, g);
    lemma_finite_factors(u, v);
    lemma_mul_value(f, g);
    lemma_mul_value(u, v);
    lemma_neg_value(y);
    lemma_add_value(x, fl_neg(y));
    lemma_tiny_positive();
    lemma_cross_bound(
        value(f) * value(g),
        value(u) * value(v),
        value(x),
        value(y),
        value(fl_sub(x, y)),
        tiny(),
    );
}

/// An error times a factor.
proof fn lemma_error_scaled(j: real, c: real, x: real, e: real)
    requires
        abs(j - c) <= e,
    ensures
        abs(j * x - c * x) <= abs(x) * e,
{
    lemma_real_distributes(j, c, x);
    lemma_real_distributes(j - c, c, x);
    lemma_abs_product(j - c, x);
    lemma_real_mul_ordered(abs(j - c), e, abs(x));
    lemma_real_associative(e, abs(x), x);
}

/// The Jacobian row is the derivative of the residual: its product with a twist is
/// `n . (w x p + t)` up to the rounding of its first three entries, and that is by how much the
/// motion takes the point off every plane with the normal `n`.
pub proof fn law_jacobian_row_is_derivative(
    p: [Binary64; 3],
    n: [Binary64; 3],
    v: [Binary64; 3],
    x: spec_fn(int) -> real,
)
    requires
        forall|k: int| 0 <= k < 3 ==> is_finite(#[trigger] jacobian_row(p, n)[k]),
    ensures
        abs(
            total(|k: int| value(jacobian_row(p, n)[k]) * x(k), 6) - total(
                |k: int| value(n[k]) * velocity(p, x, k),
                3,
            ),
        ) <= total(|k: int| abs(x(k)) * cross_error(p, n, k), 3),
        off_plane(|k: int| value(p[k]) + velocity(p, x, k), v, n) - off_plane(
            |k: int| value(p[k]),
            v,
            n,
        ) == total(|k: int| value(n[k]) * velocity(p, x, k), 3),
{
    let row = jacobian_row(p, n);
    assert(is_finite(row[0]) && is_finite(row[1]) && is_finite(row[2]));
    lemma_cross_entry(p[1], n[2], p[2], n[1]);
    lemma_cross_entry(p[2], n[0], p[0], n[2]);
    lemma_cross_entry(p[0], n[1], p[1], n[0]);
    let (p0, p1, p2) = (value(p[0]), value(p[1]), value(p[2]));
    let (n0, n1, n2) = (value(n[0]), value(n[1]), value(n[2]));
    lemma_error_scaled(value(row[0]), p1 * n2 - p2 * n1, x(0), cross_error(p, n, 0));
    lemma_error_scaled(value(row[1]), p2 * n0 - p0 * n2, x(1), cross_error(p, n, 1));
    lemma_error_scaled(value(row[2]), p0 * n1 - p1 * n0, x(2), cross_error(p, n, 2));
    lemma_real_distributes(p1 * n2 - p2 * n1, p2 * n1, x(0));
    lemma_real_distributes(p2 * n0 - p0 * n2, p0 * n2, x(1));
    lemma_real_distributes(p0 * n1 - p1 * n0, p1 * n0, x(2));
    lemma_turned_component(n0, x(1), p2, x(2), p1, x(3));
    lemma_turned_component(n1, x(2), p0, x(0), p2, x(4));
    lemma_turned_component(n2, x(0), p1, x(1), p0, x(5));
    reveal_with_fuel(total, 7);
    let (u0, u1, u2) = (velocity(p, x, 0), velocity(p, x, 1), velocity(p, x, 2));
    lemma_moved_component(n0, p0, u0, value(v[0]));
    lemma_moved_component(n1, p1, u1, value(v[1]));
    lemma_moved_component(n2, p2, u2, value(v[2]));
}

proof fn lemma_moved_component(n: real, p: real, u: real, v: real)
    ensures
        n * (p + u - v) == n * (p - v) + n * u,
{
    lemma_real_distributes(p - v, u, n);
    lemma_real_associative(p - v, n, n);
    lemma_real_associative(u, n, n);
    lemma_real_associative(p + u - v, n, n);
}

/// What a correspondence notices of a motion is by how much the motion takes the point off the
/// plane of its target, up to the rounding of its Jacobian row.
pub proof fn law_correspondence_notices_motion(
    p: [Binary64; 3],
    n_s: [Binary64; 3],
    v_t: [Binary64; 3],
    n_t: [Binary64; 3],
    rotation: [[Binary64; 3]; 3],
    gate: Gate,
    x: spec_fn(int) -> real,
)
    requires
        forall|k: int| 0 <= k < 3 ==> is_finite(#[trigger] jacobian_row(p, n_t)[k]),
    ensures
        gated(p, n_s, v_t, n_t, rotation, gate) matches PixelOutcome::Inlier(c) ==> abs(
            noticed(c, x) - (off_plane(|k: int| value(p[k]) + velocity(p, x, k), v_t, n_t)
                - off_plane(|k: int| value(p[k]), v_t, n_t)),
        ) <= total(|k: int| abs(x(k)) * cross_error(p, n_t, k), 3),
{
    law_jacobian_row_is_derivative(p, n_t, v_t, x);
    match gated(p, n_s, v_t, n_t, rotation, gate) {
        PixelOutcome::Inlier(c) => {
            lemma_total_same(
                |k: int| value(c.jacobian[k]) * x(k),
                |k: int| value(jacobian_row(p, n_t)[k]) * x(k),
                6,
            );
        },
        _ => {},
    }
}

/// The Jacobian row is `[p x n, n]`: for points and normals of ordinary size its entries are
/// finite, the first three are those of the cross product up to rounding, and the others the
/// normal.
pub proof fn law_jacobian_row_is_cross_product(p: [Binary64; 3], n: [Binary64; 3], k: int)
    requires
        is_in_reach(p),
        is_modest(n),
        0 <= k < 3,
    ensures
        ({
            let (a, b) = ((k + 1) % 3, (k + 2) % 3);
            let row = jacobian_row(p, n);
            &&& is_finite(row[k])
            &&& abs(value(row[k]) - (value(p[a]) * value(n[b]) - value(p[b]) * value(n[a])))
                <= cross_error(p, n, k)
            &&& row[k + 3] == n[k]
        }),
{
    let (a, b) = ((k + 1) % 3, (k + 2) % 3);
    assert(is_finite(p[a]) && is_finite(p[b]) && is_finite(n[a]) && is_finite(n[b]));
    lemma_cross_fits(value(p[a]), value(n[b]));
    lemma_cross_fits(value(p[b]), value(n[a]));
    lemma_tiny_small();
    lemma_product_fits(p[a], n[b]);
    lemma_product_fits(p[b], n[a]);
    let (x, y) = (fl_mul(p[a], n[b]), fl_mul(p[b], n[a]));
    lemma_unit_of(value(p[a]) * value(n[b]));
    lemma_unit_of(value(p[b]) * value(n[a]));
    lemma_neg_value(y);
    lemma_sum_fits(x, fl_neg(y));
    lemma_cross_entry(p[a], n[b], p[b], n[a]);
    assert(jacobian_row(p, n)[k] == fl_sub(x, y));
}

proof fn lemma_cross_fits(p: real, n: real)
    requires
        abs(p) <= 1000000000000000int as real,
        abs(n) <= 1000000 as real,
    ensures
        abs(p * n) <= large(),
{
    let (c, m) = (1000000000000000int as real, 1000000 as real);
    lemma_abs_product(p, n);
    lemma_real_mul_ordered(abs(p), c, abs(n));
    lemma_real_mul_ordered(abs(n), m, c);
    lemma_real_associative(abs(n), c, c);
    lemma_real_associative(m, c, c);
}

} // verus!
