//! That a wall is refused.
use crate::accumulation::has_finite_rows;
use crate::binary64::{exponent, fl_le, fl_lt, fl_mul, negative, significand, Binary64};
use crate::chains::{lemma_tiny_positive, lemma_unit_of, unit_of};
use crate::errors::{
    abs, half_unit, lemma_mul_value, lemma_real_associative, lemma_real_cancel,
    lemma_real_distributes, lemma_real_mul_ordered, lemma_real_one, lemma_real_positive,
    lemma_real_quotient, lemma_zero_value, mag_value, power, tiny, value,
};
use crate::exactness::{is_finite, is_zero};
use crate::folds::summed;
use crate::icp::{
    inliers, lemma_counts_nested, normal_entry, normal_row, pass, Correspondence, Gate, Pose,
};
use crate::identities::{lemma_scaled_error, lemma_square_of_two};
use crate::linear::{fl, is_degenerate, pivot_scale, ONE, PIVOT_RTOL};
use crate::nullspace::is_unnoticed;
use crate::ordering::lemma_weighted_smaller;
use crate::pivots::{
    diagonal_form, factors_finitely_to_collapse, law_unnoticed_motion_refused_up_to_rounding,
    lemma_scale_finite, lemma_values_ordered, refusal_loss, trace,
};
use crate::rgbd::RgbdLevel;
use crate::rotations::{lemma_abs_product, lemma_square_nonnegative};
use crate::semidefinite::{
    has_weights, law_normal_matrix_weighs_motions, lemma_diagonal_is_size, lemma_entry_near,
    lemma_reach_not_negative, reach, size_term,
};
use crate::systems::lemma_real_nonzero;
use crate::totals::{lemma_total_not_negative, lemma_total_same, total};
use vstd::arithmetic::power2::{lemma2_to64, lemma_pow2_adds, pow2};
use vstd::prelude::*;

verus! {

/// Whether every correspondence has `u` and `v` as entries `k` and `l` of its Jacobian row.
pub open spec fn shares_entries(
    rows: Seq<Correspondence>,
    k: int,
    u: Binary64,
    l: int,
    v: Binary64,
) -> bool {
    forall|r: int|
        0 <= r < rows.len() ==> (#[trigger] rows[r]).jacobian[k] == u && rows[r].jacobian[l] == v
}

/// The motion along a wall, in the plane of two of the axes.
pub open spec fn slide(k: int, u: real, l: int, v: real) -> spec_fn(int) -> real {
    |j: int|
        if j == k {
            v
        } else if j == l {
            -u
        } else {
            0 as real
        }
}

/// A sum of which all terms but two vanish.
proof fn lemma_two_terms(f: spec_fn(int) -> real, n: nat, k: int, l: int)
    requires
        k != l,
        forall|j: int| 0 <= j < n && j != k && j != l ==> #[trigger] f(j) == 0 as real,
    ensures
        total(f, n) == (if 0 <= k < n {
            f(k)
        } else {
            0 as real
        }) + (if 0 <= l < n {
            f(l)
        } else {
            0 as real
        }),
    decreases n,
{
    if n > 0 {
        lemma_two_terms(f, (n - 1) as nat, k, l);
        if n - 1 != k && n - 1 != l {
            assert(f(n - 1) == 0 as real);
        }
    }
}

proof fn lemma_square_of_negative(u: real)
    ensures
        (-u) * (-u) == u * u,
{
    lemma_real_distributes(-u, u, -u);
    lemma_real_distributes(-u, u, u);
    lemma_real_distributes(0 as real, 0 as real, -u);
    lemma_real_distributes(0 as real, 0 as real, u);
    lemma_real_associative(u, -u, u);
}

/// The motion along a wall is not noticed.
proof fn lemma_slide_unnoticed(c: Correspondence, k: int, l: int)
    requires
        0 <= k < 6,
        0 <= l < 6,
        k != l,
    ensures
        is_unnoticed(c, slide(k, value(c.jacobian[k]), l, value(c.jacobian[l]))),
{
    let (u, v) = (value(c.jacobian[k]), value(c.jacobian[l]));
    let x = slide(k, u, l, v);
    let f = |j: int| value(c.jacobian[j]) * x(j);
    assert forall|j: int| 0 <= j < 6 && j != k && j != l implies #[trigger] f(j) == 0 as real by {
        lemma_real_distributes(0 as real, 0 as real, value(c.jacobian[j]));
        lemma_real_associative(0 as real, value(c.jacobian[j]), u);
    }
    lemma_two_terms(f, 6, k, l);
    lemma_real_distributes(u, -u, v);
    lemma_real_distributes(0 as real, 0 as real, v);
    lemma_real_associative(v, -u, u);
}

/// The diagonal form and the size of the motion along a wall.
proof fn lemma_slide_forms(a: [[Binary64; 6]; 6], k: int, u: real, l: int, v: real)
    requires
        0 <= k < 6,
        0 <= l < 6,
        k != l,
    ensures
        diagonal_form(a, slide(k, u, l, v)) == (v * v) * value(a[k][k]) + (u * u) * value(a[l][l]),
        total(|j: int| abs(slide(k, u, l, v)(j)), 6) == abs(u) + abs(v),
{
    let x = slide(k, u, l, v);
    let f = |j: int| (x(j) * x(j)) * value(a[j][j]);
    let g = |j: int| abs(x(j));
    assert forall|j: int| 0 <= j < 6 && j != k && j != l implies #[trigger] f(j) == 0 as real
        && g(j) == 0 as real by {
        lemma_real_distributes(0 as real, 0 as real, 0 as real);
        lemma_real_distributes(0 as real, 0 as real, value(a[j][j]));
    }
    lemma_two_terms(f, 6, k, l);
    assert forall|j: int| 0 <= j < 6 && j != k && j != l implies #[trigger] g(j) == 0 as real by {}
    lemma_two_terms(g, 6, k, l);
    lemma_square_of_negative(u);
    lemma_total_same(f, |j: int| (x(j) * x(j)) * value(a[j][j]), 6);
    lemma_total_same(g, |j: int| abs(slide(k, u, l, v)(j)), 6);
}

/// The exact products of the two diagonal entries are in the ratio of the squares.
proof fn lemma_shared_squares(
    rows: Seq<Correspondence>,
    k: int,
    u: Binary64,
    l: int,
    v: Binary64,
)
    requires
        shares_entries(rows, k, u, l, v),
    ensures
        (value(v) * value(v)) * summed(rows, size_term(k, k)) == (value(u) * value(u)) * summed(
            rows,
            size_term(l, l),
        ),
        summed(rows, size_term(k, k)) >= 0 as real,
        summed(rows, size_term(l, l)) >= 0 as real,
    decreases rows.len(),
{
    let (p, q) = (value(u) * value(u), value(v) * value(v));
    if rows.len() == 0 {
        lemma_real_distributes(0 as real, 0 as real, p);
        lemma_real_distributes(0 as real, 0 as real, q);
        lemma_real_associative(0 as real, p, q);
        lemma_real_associative(0 as real, q, q);
    } else {
        let before = rows.drop_last();
        let c = rows.last();
        assert(rows[rows.len() - 1] == c);
        assert forall|r: int| 0 <= r < before.len() implies (#[trigger] before[r]).jacobian[k] == u
            && before[r].jacobian[l] == v by {
            assert(before[r] == rows[r]);
        }
        lemma_shared_squares(before, k, u, l, v);
        let w = abs(value(c.weight));
        let (s, t) = (summed(before, size_term(k, k)), summed(before, size_term(l, l)));
        let (y, z) = (size_term(k, k)(c), size_term(l, l)(c));
        lemma_abs_product(value(u), value(u));
        lemma_abs_product(value(v), value(v));
        lemma_square_nonnegative(value(u));
        lemma_square_nonnegative(value(v));
        lemma_real_associative(w, abs(value(u)), abs(value(u)));
        lemma_real_associative(w, abs(value(v)), abs(value(v)));
        assert(y == w * p && z == w * q);
        lemma_abs_product(w, p);
        lemma_abs_product(w, q);
        lemma_real_distributes(s, y, q);
        lemma_real_distributes(t, z, p);
        lemma_real_associative(s, q, q);
        lemma_real_associative(s + y, q, q);
        lemma_real_associative(t, p, p);
        lemma_real_associative(t + z, p, p);
        lemma_real_associative(w, p, q);
        lemma_real_associative(w, q, p);
        lemma_real_associative(p, q, q);
    }
}

/// A diagonal entry times the square of a coordinate, against the exact products: `c` is the
/// square, and the products times it are `p`.
proof fn lemma_scaled_entry(rows: Seq<Correspondence>, k: int, c: real)
    requires
        0 <= k < 6,
        rows.len() <= 0x6_0000,
        has_weights(rows),
        is_finite(normal_entry(rows, k, k)),
        0 as real <= c,
        summed(rows, size_term(k, k)) >= 0 as real,
    ensures
        ({
            let p = c * summed(rows, size_term(k, k));
            let g = (((8 * rows.len()) as real) * (tiny() * summed(rows, reach()))) * c;
            &&& p >= 0 as real
            &&& g >= 0 as real
            &&& abs(c * value(normal_entry(rows, k, k)) - p) <= p / (1000000000int as real) + g
        }),
{
    let a = summed(rows, size_term(k, k));
    let v = value(normal_entry(rows, k, k));
    let n = (8 * rows.len()) as real;
    let (h, d) = (half_unit(), tiny() * summed(rows, reach()));
    lemma_entry_near(rows, k, k);
    lemma_diagonal_is_size(rows, k);
    lemma_reach_not_negative(rows);
    lemma_tiny_positive();
    lemma_abs_product(tiny(), summed(rows, reach()));
    lemma_abs_product(n, d);
    lemma_abs_product(n * d, c);
    lemma_abs_product(c, a);
    lemma_real_distributes(v, a, c);
    lemma_real_distributes(v - a, a, c);
    lemma_real_associative(v, c, c);
    lemma_real_associative(a, c, c);
    lemma_abs_product(v - a, c);
    lemma_real_mul_ordered(abs(v - a), n * (h * a + d), c);
    lemma_real_associative(n * (h * a + d), c, c);
    lemma_scaled_error(c, n, h, a, d);
    lemma_unit_of(n);
    assert(n <= 3145728 as real);
    let small = (1 as real) / (1000000000int as real);
    lemma_real_mul_ordered(n * h, small, c * a);
    lemma_part_of(c * a);
}

proof fn lemma_part_of(p: real)
    ensures
        ((1 as real) / (1000000000int as real)) * p == p / (1000000000int as real),
{
    let q = 1000000000int as real;
    lemma_real_quotient(1 as real, q);
    lemma_real_quotient(p, q);
    lemma_real_associative((1 as real) / q, p, q);
    lemma_real_associative((1 as real) / q, q, p);
    lemma_real_associative(p, q, q);
    lemma_real_one(p);
    lemma_real_cancel(((1 as real) / q) * p, p / q, q);
    lemma_real_cancel(p / q, ((1 as real) / q) * p, q);
}

/// The linear part of the bound on the diagonal form: `y` and `z` are its two terms, `p` the exact
/// products, `e` and `f` what is lost below the normal numbers, and `m` the square of the last
/// coordinate times the scale.
proof fn lemma_wall_form(y: real, z: real, p: real, e: real, f: real, m: real, loss: real)
    requires
        p >= 0 as real,
        e >= 0 as real,
        f >= 0 as real,
        abs(y - p) <= p / (1000000000int as real) + e,
        abs(z - p) <= p / (1000000000int as real) + f,
        z <= m,
        (7 as real) * (e + f) <= loss,
        (10000000000int as real) * loss <= m,
    ensures
        (100 as real) * (y + z) <= (202 as real) * m,
{
}

/// The value of the relative threshold.
proof fn lemma_tolerance_value()
    ensures
        mag_value(PIVOT_RTOL as nat) >= (99 as real) / (10000000000int as real),
        is_finite(fl(PIVOT_RTOL)),
        fl_le(fl(0), fl(PIVOT_RTOL)),
        fl_le(fl(PIVOT_RTOL), fl(ONE)),
{
    reveal(fl_le);
    let m = PIVOT_RTOL as nat;
    assert(significand(m) == 0x0015_798e_e230_8c3a);
    assert(exponent(m) == -79);
    lemma2_to64();
    lemma_pow2_adds(64, 15);
    let p = pow2(79);
    assert(p == 604462909807314587353088int);
    let (v, q) = (mag_value(m), p as real);
    let s = 0x0015_798e_e230_8c3a as real;
    lemma_real_quotient(1 as real, q);
    lemma_real_associative(s, power(-79), q);
    lemma_real_one(s);
    assert(v * q == s);
    let low = (99 as real) / (10000000000int as real);
    assert(low * q <= v * q);
    lemma_real_cancel(low, v, q);
}

/// The linear part of the threshold: `r` is the exact product of the tolerance and the scale `s`.
proof fn lemma_threshold_bound(t: real, r: real, s: real, d: real)
    requires
        abs(t - r) <= unit_of(r) + d,
        r >= (99 as real) * (s / (10000000000int as real)),
        s >= 0 as real,
    ensures
        t >= (98 as real) * (s / (10000000000int as real)) - d,
{
    lemma_unit_of(r);
}

/// The threshold of a block, against its scale.
pub proof fn lemma_threshold_value(scale: Binary64)
    requires
        is_finite(scale),
        !negative(scale),
    ensures
        value(scale) >= 0 as real,
        value(fl_mul(fl(PIVOT_RTOL), scale)) >= (98 as real) * (value(scale) / (
        10000000000int as real)) - tiny(),
{
    lemma_tolerance_value();
    lemma_weighted_smaller(fl(PIVOT_RTOL), scale);
    lemma_mul_value(fl(PIVOT_RTOL), scale);
    lemma_zero_value(fl(0));
    assert(!fl_lt(scale, fl(0))) by {
        reveal(fl_lt);
    }
    lemma_values_ordered(fl(0), scale);
    let (t, s) = (value(fl(PIVOT_RTOL)), value(scale));
    let q = 10000000000int as real;
    let low = (99 as real) / q;
    lemma_real_mul_ordered(low, t, s);
    lemma_real_quotient(99 as real, q);
    lemma_real_quotient(s, q);
    lemma_real_associative(low, s, q);
    lemma_real_associative(low, q, s);
    lemma_real_associative(s, q, q);
    lemma_real_associative(99 as real, s / q, q);
    lemma_real_cancel((99 as real) * (s / q), low * s, q);
    lemma_threshold_bound(value(fl_mul(fl(PIVOT_RTOL), scale)), t * s, s, tiny());
}

/// What is lost below the normal numbers, against its parts: `m` and `c` are the squares of the two
/// coordinates.
proof fn lemma_loss_parts(rows: Seq<Correspondence>, a: [[Binary64; 6]; 6], u: real, v: real)
    requires
        u != 0 as real,
    ensures
        ({
            let s = abs(u) + abs(v);
            let n = (8 * rows.len()) as real;
            let d = tiny() * summed(rows, reach());
            let loss = refusal_loss(rows, a, s);
            &&& loss > 0 as real
            &&& (7 as real) * ((n * d) * (v * v) + (n * d) * (u * u)) <= loss
            &&& tiny() * (u * u) <= loss
        }),
{
    let s = abs(u) + abs(v);
    let ss = s * s;
    let n = (8 * rows.len()) as real;
    let (t, d) = (tiny(), tiny() * summed(rows, reach()));
    let c = (4 as real) + trace(a);
    lemma_tiny_positive();
    lemma_reach_not_negative(rows);
    lemma_abs_product(t, summed(rows, reach()));
    lemma_abs_product(n, d);
    lemma_square_of_two(abs(u), abs(v));
    lemma_abs_product(u, u);
    lemma_abs_product(v, v);
    lemma_abs_product(u, v);
    lemma_square_nonnegative(u);
    lemma_square_nonnegative(v);
    if u * u == 0 as real {
        lemma_real_nonzero(u, u);
    }
    assert(ss >= u * u + v * v);
    // the first part
    assert((56 * rows.len()) as real == (7 as real) * n);
    lemma_real_associative(7 as real, n, d * ss);
    lemma_real_associative(n, d, ss);
    lemma_real_mul_ordered(v * v + u * u, ss, n * d);
    lemma_real_distributes(v * v, u * u, n * d);
    lemma_real_associative(v * v, n * d, t);
    lemma_real_associative(u * u, n * d, t);
    lemma_real_associative(v * v + u * u, n * d, t);
    lemma_real_associative(ss, n * d, t);
    lemma_abs_product(n * d, v * v);
    lemma_abs_product(n * d, u * u);
    // the other part
    lemma_total_not_negative(|k: int| abs(value(a[k][k])), 6);
    lemma_real_mul_ordered(1 as real, c, t);
    lemma_real_one(t);
    lemma_real_associative(1 as real, t, t);
    lemma_real_associative(c, t, t);
    lemma_real_mul_ordered(t, t * c, ss);
    lemma_real_mul_ordered(u * u, ss, t);
    lemma_real_associative(u * u, t, t);
    lemma_real_associative(ss, t, t);
    lemma_real_positive(t, u * u);
}

/// The linear part of the errors: `d` is the diagonal form and `m` the square of the last
/// coordinate times the scale.
proof fn lemma_wall_error(rows: Seq<Correspondence>, d: real, m: real, loss: real)
    requires
        rows.len() <= 0x6_0000,
        (100 as real) * d <= (202 as real) * m,
        (10000000000int as real) * loss <= m,
        loss > 0 as real,
    ensures
        ({
            let e = ((96 * rows.len()) as real) * (half_unit() * d) + (480 as real) * (half_unit()
                * d) + loss;
            (10000000000int as real) * (e + (4 as real) * (half_unit() * e)) <= (87 as real) * m
        }),
{
    let n = (96 * rows.len()) as real;
    let h = half_unit();
    let e = n * (h * d) + (480 as real) * (h * d) + loss;
    assert(n <= 37748736 as real);
    lemma_unit_of(d);
    lemma_unit_of(e);
    lemma_real_associative(d, h, n);
    lemma_real_associative(e, h, n);
    if d >= 0 as real {
        lemma_real_mul_ordered(n, 37748736 as real, h * d);
    } else {
        lemma_real_distributes(-d, d, h);
        lemma_real_distributes(0 as real, 0 as real, h);
        lemma_real_mul_ordered(h * d, 0 as real, n);
        lemma_real_distributes(0 as real, 0 as real, n);
        lemma_real_associative(h * d, n, n);
    }
    if e < 0 as real {
        lemma_real_distributes(-e, e, h);
        lemma_real_distributes(0 as real, 0 as real, h);
    }
}

/// A wall is refused, whichever way it faces: where all correspondences share two components `u`
/// and `v` of their normals, the level has no more pixels than 768 rows of 512, the numbers are
/// finite up to the first pivot that has collapsed, and what is lost below the normal numbers is
/// little next to `u^2` times the scale, the equations are degenerate. The wall may slide by `v`
/// and `-u` along the two axes; where the axis of `u` comes after that of `v`, this asks that `v`
/// be zero.
pub proof fn law_wall_refused(
    src: RgbdLevel,
    tgt: RgbdLevel,
    pose: Pose,
    gate: Gate,
    view: spec_fn([Binary64; 3]) -> Option<[Binary64; 2]>,
    k: int,
    u: Binary64,
    l: int,
    v: Binary64,
)
    requires
        3 <= k < 6,
        3 <= l < 6,
        k < l || (l < k && is_zero(v)),
        value(u) != 0 as real,
        shares_entries(inliers(src, tgt, pose, gate, view, src.num_pixels()), k, u, l, v),
        fl_le(fl(0), gate.huber_delta),
        has_finite_rows(src, tgt, pose, gate, view),
        src.num_pixels() <= 0x6_0000,
        forall|p: int, q: int|
            0 <= p < 6 && 0 <= q < 6 ==> is_finite(
                #[trigger] pass(src, tgt, pose, gate, view).a[p][q],
            ),
        factors_finitely_to_collapse(pass(src, tgt, pose, gate, view).a),
        ({
            let a = pass(src, tgt, pose, gate, view).a;
            let rows = inliers(src, tgt, pose, gate, view, src.num_pixels());
            (10000000000int as real) * refusal_loss(rows, a, abs(value(u)) + abs(value(v))) <= (
            value(u) * value(u)) * value(pivot_scale(a, l))
        }),
    ensures
        is_degenerate(pass(src, tgt, pose, gate, view).a),
{
    let n = src.num_pixels();
    let rows = inliers(src, tgt, pose, gate, view, n);
    let a = pass(src, tgt, pose, gate, view).a;
    let (p, q) = (value(u), value(v));
    let x = slide(k, p, l, q);
    let s = abs(p) + abs(q);
    let scale = pivot_scale(a, l);
    let (c, m) = (p * p, (p * p) * value(scale));
    let loss = refusal_loss(rows, a, s);
    lemma_counts_nested(src, tgt, pose, gate, view, n);
    law_normal_matrix_weighs_motions(src, tgt, pose, gate, view, x);
    assert forall|i: int| 0 <= i < 6 implies is_finite(#[trigger] a[i][i]) && a[i][i]
        == normal_entry(rows, i, i) by {
        assert(a[i] == normal_row(rows, i));
        assert(is_finite(a[i][i]));
    }
    // the diagonal form
    lemma_slide_forms(a, k, p, l, q);
    lemma_shared_squares(rows, k, u, l, v);
    lemma_square_nonnegative(p);
    lemma_square_nonnegative(q);
    lemma_scaled_entry(rows, k, q * q);
    lemma_scaled_entry(rows, l, c);
    lemma_loss_parts(rows, a, p, q);
    lemma_scale_finite(a, l);
    assert(!fl_lt(scale, a[l][l])) by {
        reveal(fl_lt);
        assert(is_finite(a[3][3]) && is_finite(a[4][4]) && is_finite(a[5][5]));
    }
    lemma_values_ordered(a[l][l], scale);
    lemma_real_mul_ordered(value(a[l][l]), value(scale), c);
    lemma_real_associative(value(a[l][l]), c, c);
    lemma_real_associative(value(scale), c, c);
    let b = ((8 * rows.len()) as real) * (tiny() * summed(rows, reach()));
    lemma_wall_form(
        (q * q) * value(a[k][k]),
        c * value(a[l][l]),
        c * summed(rows, size_term(l, l)),
        b * (q * q),
        b * c,
        m,
        loss,
    );
    lemma_wall_error(rows, diagonal_form(a, x), m, loss);
    // the threshold
    lemma_threshold_value(scale);
    let t = value(fl_mul(fl(PIVOT_RTOL), scale));
    let part = value(scale) / (10000000000int as real);
    lemma_real_mul_ordered((98 as real) * part - tiny(), t, c);
    lemma_real_distributes((98 as real) * part - tiny(), tiny(), c);
    lemma_real_associative(98 as real, part, c);
    lemma_real_quotient(value(scale), 10000000000int as real);
    lemma_real_associative(part, c, 10000000000int as real);
    lemma_real_associative(part, 10000000000int as real, c);
    lemma_real_associative(c, 10000000000int as real, part);
    lemma_square_of_negative(p);
    assert forall|r: int| 0 <= r < rows.len() implies is_unnoticed(#[trigger] rows[r], x) by {
        assert(rows[r].jacobian[k] == u && rows[r].jacobian[l] == v);
        lemma_slide_unnoticed(rows[r], k, l);
    }
    if is_zero(v) {
        lemma_zero_value(v);
    }
    law_unnoticed_motion_refused_up_to_rounding(src, tgt, pose, gate, view, x, l);
}

} // verus!
