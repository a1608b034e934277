//! What the pivots of a factorisation say of the quadratic form of its matrix, and which motions
//! are refused for them.
use crate::accumulation::has_finite_rows;
use crate::binary64::{fl_div, fl_le, fl_lt, fl_mul, is_nan, magnitude, negative, order, Binary64};
use crate::chains::{lemma_quotient_step, lemma_tiny_positive, lemma_unit_of, unit_of};
use crate::errors::{
    abs, half_unit, lemma_real_associative, lemma_real_distributes, lemma_real_mul_ordered,
    lemma_real_one, lemma_tiny_small, lemma_value_positive, lemma_zero_value, tiny, value,
};
use crate::exactness::{is_finite, is_zero, lemma_div_at_most_one};
use crate::folds::summed;
use crate::forms::{
    form, lemma_form_added, lemma_form_near, lemma_form_of_product, lemma_form_outer,
    lemma_form_same, lemma_form_scaled, lemma_square_of_sum,
};
use crate::icp::{inliers, normal_entry, normal_row, pass, Correspondence, Gate, Pose};
use crate::identities::lemma_mean_of_squares;
use crate::laws::{law_reported_pivot_is_at_most_one, law_reported_pivot_is_weakest};
use crate::linear::{
    factor, fl, guarded_solution, is_collapsed, is_degenerate, pivot, pivot_scale, residual,
    weakest_pivot, ONE, PIVOT_RTOL,
};
use crate::nullspace::{is_unnoticed, lemma_one_term, pulled};
use crate::residuals::{
    factors_finitely, gram, lemma_diagonal_part, lemma_lower_near, lemma_matrix_near,
    lemma_pivot_closed, row_error, spread,
};
use crate::rgbd::RgbdLevel;
use crate::rotations::{
    lemma_abs_product, lemma_magnitudes_ordered, lemma_one_value, lemma_square_nonnegative,
};
use crate::semidefinite::{
    form_error, law_normal_matrix_weighs_motions, lemma_noticing_vanishes, noticing, reach,
};
use crate::systems::low;
use crate::totals::{
    lemma_total_added, lemma_total_holds, lemma_total_not_negative, lemma_total_ordered,
    lemma_total_same, lemma_total_scaled, lemma_total_swapped, total,
};
use vstd::prelude::*;

verus! {

/// The sum of the absolute values of the diagonal of a matrix.
pub open spec fn trace(a: [[Binary64; 6]; 6]) -> real {
    total(|k: int| abs(value(a[k][k])), 6)
}

/// The sum of the diagonal entries of a matrix, each times the square of an entry of `x`.
pub open spec fn diagonal_form(a: [[Binary64; 6]; 6], x: spec_fn(int) -> real) -> real {
    total(|k: int| (x(k) * x(k)) * value(a[k][k]), 6)
}

/// The form of a matrix of numbers.
pub open spec fn matrix_form(a: [[Binary64; 6]; 6], x: spec_fn(int) -> real) -> real {
    form(|i: int, k: int| value(a[i][k]), x, 6)
}

/// What the factorisation of `a` strays along `x`: a number of half units of the diagonal form,
/// and what is lost below the normal numbers.
pub open spec fn factor_error(a: [[Binary64; 6]; 6], x: spec_fn(int) -> real) -> real {
    let s = total(|k: int| abs(x(k)), 6);
    (480 as real) * (half_unit() * diagonal_form(a, x)) + (320 as real) * ((tiny() * ((4 as real)
        + trace(a))) * (s * s))
}

/// The errors of accumulation and factorisation along `x`.
pub open spec fn refusal_error(
    rows: Seq<Correspondence>,
    a: [[Binary64; 6]; 6],
    x: spec_fn(int) -> real,
) -> real {
    form_error(rows, diagonal_form(a, x), total(|k: int| abs(x(k)), 6)) + factor_error(a, x)
}

/// The part of these errors that is lost below the normal numbers, where `s` is the sum of the
/// absolute values of the motion.
pub open spec fn refusal_loss(rows: Seq<Correspondence>, a: [[Binary64; 6]; 6], s: real) -> real {
    ((56 * rows.len()) as real) * ((tiny() * summed(rows, reach())) * (s * s)) + (320 as real) * ((
    tiny() * ((4 as real) + trace(a))) * (s * s))
}

// ---------------------------------------------------------------------------
// The diagonal of the factor
// ---------------------------------------------------------------------------

/// What is lost below the normal numbers in an entry of the factor.
spec fn entry_loss(a: [[Binary64; 6]; 6]) -> real {
    (40 as real) * (tiny() * spread(a))
}

/// A row of the factor is as long as the diagonal entry says.
proof fn lemma_gram_diagonal(a: [[Binary64; 6]; 6], i: int)
    requires
        0 <= i < 6,
        factors_finitely(a),
    ensures
        gram(a, i, i) <= (2 as real) * value(a[i][i]) + (2 as real) * entry_loss(a),
        gram(a, i, i) >= 0 as real,
        abs(low(a, i, i)) <= (1 as real) + gram(a, i, i),
{
    lemma_lower_near(a, i, i);
    let f = |k: int| low(a, i, k) * low(a, i, k);
    let g = |k: int| abs(low(a, i, k)) * abs(low(a, i, k));
    assert forall|k: int| 0 <= k < 6 implies #[trigger] g(k) >= 0 as real && f(k) == g(k) by {
        lemma_abs_product(low(a, i, k), low(a, i, k));
        lemma_square_nonnegative(low(a, i, k));
    }
    lemma_total_same(f, g, 6);
    lemma_total_not_negative(g, 6);
    lemma_total_holds(g, 6, i);
    let t = total(g, 6);
    lemma_unit_of(t);
    lemma_real_associative(t, half_unit(), t);
    lemma_mean_of_squares(abs(low(a, i, i)), 1 as real);
    lemma_real_one(abs(low(a, i, i)));
    lemma_real_one(1 as real);
}

/// The diagonal of the factor is bounded by that of the matrix.
proof fn lemma_spread_bounded(a: [[Binary64; 6]; 6])
    requires
        factors_finitely(a),
    ensures
        spread(a) <= (4 as real) * ((4 as real) + trace(a)),
        spread(a) >= 1 as real,
{
    let f = |k: int| abs(low(a, k, k));
    let d = |k: int| abs(value(a[k][k]));
    let c = (1 as real) + (2 as real) * entry_loss(a);
    let g = |k: int| (2 as real) * d(k) + c;
    assert forall|k: int| 0 <= k < 6 implies #[trigger] f(k) <= g(k) by {
        lemma_gram_diagonal(a, k);
    }
    lemma_total_ordered(f, g, 6);
    assert(total(g, 6) == (2 as real) * total(d, 6) + (6 as real) * c) by {
        reveal_with_fuel(total, 7);
    }
    lemma_diagonal_part(a, 0);
    lemma_tiny_small();
    let p = spread(a);
    lemma_real_mul_ordered(tiny(), (1 as real) / (1000000int as real), p);
    lemma_real_part(p);
    lemma_total_same(d, |k: int| abs(value(a[k][k])), 6);
    lemma_total_not_negative(d, 6);
}

proof fn lemma_real_part(p: real)
    ensures
        (1000000int as real) * (((1 as real) / (1000000int as real)) * p) == p,
{
    lemma_real_associative(1000000int as real, (1 as real) / (1000000int as real), p);
    lemma_real_one(p);
}

// ---------------------------------------------------------------------------
// Forms
// ---------------------------------------------------------------------------

/// The form of `|L| |L^T|` is bounded by its diagonal.
proof fn lemma_gram_form(a: [[Binary64; 6]; 6], z: spec_fn(int) -> real)
    ensures
        form(|i: int, j: int| gram(a, i, j), z, 6) <= (6 as real) * total(
            |j: int| (z(j) * z(j)) * gram(a, j, j),
            6,
        ),
{
    let u = |i: int, k: int| abs(low(a, i, k));
    let gu = |i: int, j: int| total(|k: int| u(i, k) * u(j, k), 6);
    let g = |i: int, j: int| gram(a, i, j);
    assert forall|i: int, j: int| 0 <= i < 6 && 0 <= j < 6 implies #[trigger] g(i, j) == gu(
        i,
        j,
    ) by {
        lemma_total_same(
            |k: int| abs(low(a, i, k)) * abs(low(a, j, k)),
            |k: int| u(i, k) * u(j, k),
            6,
        );
    }
    lemma_form_same(g, gu, z, 6);
    lemma_form_of_product(u, z, 6);
    let v = |k: int| total(|j: int| u(j, k) * z(j), 6);
    let sq = |k: int| v(k) * v(k);
    lemma_total_same(sq, |k: int| v(k) * v(k), 6);
    let terms = |j: int, k: int| (u(j, k) * z(j)) * (u(j, k) * z(j));
    let down = |k: int| total(|j: int| terms(j, k), 6);
    let six = |k: int| (6 as real) * down(k);
    assert forall|k: int| 0 <= k < 6 implies #[trigger] sq(k) <= six(k) by {
        let p = |j: int| u(j, k) * z(j);
        lemma_square_of_sum(p);
        lemma_total_same(|j: int| p(j) * p(j), |j: int| terms(j, k), 6);
    }
    lemma_total_ordered(sq, six, 6);
    lemma_total_scaled(down, 6 as real, 6);
    lemma_total_same(six, |k: int| (6 as real) * down(k), 6);
    lemma_total_swapped(terms, 6, 6);
    let across = |j: int| total(|k: int| terms(j, k), 6);
    let want = |j: int| (z(j) * z(j)) * gram(a, j, j);
    assert forall|j: int| 0 <= j < 6 implies #[trigger] across(j) == want(j) by {
        let c = z(j) * z(j);
        let q = |k: int| abs(low(a, j, k)) * abs(low(a, j, k));
        let t = |k: int| terms(j, k);
        assert forall|k: int| 0 <= k < 6 implies #[trigger] t(k) == c * q(k) by {
            lemma_squares_of_product(u(j, k), z(j));
        }
        lemma_total_scaled(q, c, 6);
        lemma_total_same(t, |k: int| c * q(k), 6);
    }
    lemma_total_same(across, want, 6);
    lemma_total_same(down, |k: int| total(|j: int| terms(j, k), 6), 6);
}

proof fn lemma_squares_of_product(u: real, z: real)
    ensures
        (u * z) * (u * z) == (z * z) * (u * u),
{
    lemma_real_associative(u, z, u * z);
    lemma_real_associative(z, u, z);
    lemma_real_associative(u, z * z, u);
    lemma_real_associative(u, u, z * z);
    lemma_real_associative(u * u, z * z, z);
    lemma_real_associative(u, z, z);
}

/// The form of the bounds on the entries of `L L^T`.
proof fn lemma_row_error_form(a: [[Binary64; 6]; 6], z: spec_fn(int) -> real, s: real)
    requires
        s == total(z, 6),
    ensures
        form(|i: int, j: int| row_error(a, gram(a, i, j)), z, 6) == ((40 as real) * half_unit())
            * form(|i: int, j: int| gram(a, i, j), z, 6) + (entry_loss(a) * s) * s,
{
    let h = (40 as real) * half_unit();
    let b = entry_loss(a);
    let g = |i: int, j: int| gram(a, i, j);
    let one = |k: int| 1 as real;
    let e = |i: int, j: int| row_error(a, gram(a, i, j));
    let scaled = |i: int, j: int| h * g(i, j);
    let flat = |i: int, j: int| (b * one(i)) * one(j);
    assert forall|i: int, j: int| 0 <= i < 6 && 0 <= j < 6 implies #[trigger] e(i, j) == scaled(
        i,
        j,
    ) + flat(i, j) by {
        lemma_real_one(b);
        lemma_real_associative(40 as real, half_unit(), g(i, j));
    }
    lemma_form_same(e, |i: int, j: int| scaled(i, j) + flat(i, j), z, 6);
    lemma_form_added(scaled, flat, z, 6);
    lemma_form_scaled(g, h, z, 6);
    lemma_form_same(scaled, |i: int, j: int| h * g(i, j), z, 6);
    lemma_form_outer(b, one, z, 6);
    lemma_form_same(flat, |i: int, j: int| (b * one(i)) * one(j), z, 6);
    let p = |k: int| one(k) * z(k);
    assert forall|k: int| 0 <= k < 6 implies #[trigger] p(k) == z(k) by {
        lemma_real_one(z(k));
    }
    lemma_total_same(p, z, 6);
}

/// The diagonal of `|L| |L^T|` against that of the matrix.
proof fn lemma_gram_diagonals(a: [[Binary64; 6]; 6], z: spec_fn(int) -> real, s: real)
    requires
        factors_finitely(a),
        forall|k: int| 0 <= k < 6 ==> #[trigger] z(k) >= 0 as real,
        s == total(z, 6),
    ensures
        total(|j: int| (z(j) * z(j)) * gram(a, j, j), 6) <= (2 as real) * diagonal_form(a, z) + (
        2 as real) * (entry_loss(a) * (s * s)),
        entry_loss(a) * (s * s) >= 0 as real,
{
    let b = entry_loss(a);
    let two = 2 as real;
    let f = |j: int| (z(j) * z(j)) * gram(a, j, j);
    let g = |j: int| (z(j) * z(j)) * value(a[j][j]);
    let q = |j: int| z(j) * z(j);
    let r = |j: int| two * g(j) + (two * b) * q(j);
    assert forall|j: int| 0 <= j < 6 implies #[trigger] f(j) <= r(j) by {
        lemma_gram_diagonal(a, j);
        let (m, v) = (gram(a, j, j), value(a[j][j]));
        lemma_square_nonnegative(z(j));
        lemma_real_mul_ordered(m, two * v + two * b, q(j));
        lemma_real_distributes(two * v, two * b, q(j));
        lemma_real_associative(two, v, q(j));
        lemma_real_associative(v, q(j), v);
        lemma_real_associative(m, q(j), v);
    }
    lemma_total_ordered(f, r, 6);
    let (g2, q2) = (|j: int| two * g(j), |j: int| (two * b) * q(j));
    lemma_total_scaled(g, two, 6);
    lemma_total_scaled(q, two * b, 6);
    lemma_total_added(g2, q2, 6);
    lemma_total_same(r, |j: int| g2(j) + q2(j), 6);
    lemma_total_same(g2, |j: int| two * g(j), 6);
    lemma_total_same(q2, |j: int| (two * b) * q(j), 6);
    // the sum of the squares is at most the square of the sum
    let c = |j: int| s * z(j);
    assert forall|j: int| 0 <= j < 6 implies #[trigger] q(j) <= c(j) by {
        assert(z(j) >= 0 as real);
        lemma_total_holds(z, 6, j);
        lemma_real_mul_ordered(z(j), s, z(j));
    }
    lemma_total_ordered(q, c, 6);
    lemma_total_scaled(z, s, 6);
    lemma_total_same(c, |j: int| s * z(j), 6);
    lemma_diagonal_part(a, 0);
    lemma_abs_product(tiny(), spread(a));
    lemma_square_nonnegative(s);
    lemma_abs_product(b, s * s);
    lemma_real_mul_ordered(total(q, 6), s * s, b);
    lemma_real_associative(two, b, total(q, 6));
    lemma_real_associative(total(q, 6), b, b);
    lemma_real_associative(s * s, b, b);
    lemma_total_same(g, |k: int| (z(k) * z(k)) * value(a[k][k]), 6);
}

/// The linear part: `fg` is the form of `|L| |L^T|`, `q` the sum over its diagonal, `d` the
/// diagonal form, and `b` what is lost below the normal numbers.
proof fn lemma_factor_bound(fg: real, q: real, d: real, b: real)
    requires
        fg <= (6 as real) * q,
        q <= (2 as real) * d + (2 as real) * b,
        b >= 0 as real,
    ensures
        ((40 as real) * half_unit()) * fg + b <= (480 as real) * (half_unit() * d) + (2 as real)
            * b,
{
    let h = half_unit();
    let t = (12 as real) * d + (12 as real) * b;
    lemma_real_mul_ordered(fg, t, h);
    lemma_real_associative(40 as real, h, fg);
    lemma_real_associative(fg, h, h);
    lemma_real_associative(t, h, h);
    lemma_real_distributes((12 as real) * d, (12 as real) * b, h);
    lemma_real_associative(12 as real, d, h);
    lemma_real_associative(12 as real, b, h);
    lemma_real_associative(d, h, h);
    lemma_unit_of(b);
}

/// The form of a matrix is the sum of the squares of `L^T x` up to the error of the factorisation.
proof fn lemma_factor_form(a: [[Binary64; 6]; 6], x: spec_fn(int) -> real)
    requires
        forall|p: int, q: int| 0 <= q <= p < 6 ==> #[trigger] a[p][q] == a[q][p],
        factors_finitely(a),
    ensures
        abs(matrix_form(a, x) - total(|k: int| pulled(a, x, k) * pulled(a, x, k), 6))
            <= factor_error(a, x),
{
    let u = |i: int, k: int| low(a, i, k);
    let v = |i: int, j: int| value(a[i][j]);
    let t = |i: int, j: int| total(|k: int| u(i, k) * u(j, k), 6);
    let e = |i: int, j: int| row_error(a, gram(a, i, j));
    let z = |k: int| abs(x(k));
    let s = total(z, 6);
    assert forall|i: int, j: int| 0 <= i < 6 && 0 <= j < 6 implies abs(#[trigger] v(i, j) - t(i, j))
        <= e(i, j) by {
        lemma_matrix_near(a, i, j);
        lemma_total_same(
            |k: int| low(a, i, k) * low(a, j, k),
            |k: int| u(i, k) * u(j, k),
            6,
        );
    }
    lemma_form_near(v, t, e, x, 6);
    lemma_form_of_product(u, x, 6);
    let w = |k: int| total(|j: int| u(j, k) * x(j), 6);
    let (ww, pp) = (|k: int| w(k) * w(k), |k: int| pulled(a, x, k) * pulled(a, x, k));
    assert forall|k: int| 0 <= k < 6 implies #[trigger] ww(k) == pp(k) by {
        lemma_total_same(|j: int| u(j, k) * x(j), |j: int| low(a, j, k) * x(j), 6);
    }
    lemma_total_same(ww, pp, 6);
    lemma_total_same(ww, |k: int| w(k) * w(k), 6);
    lemma_row_error_form(a, z, s);
    lemma_gram_form(a, z);
    lemma_gram_diagonals(a, z, s);
    let b = entry_loss(a);
    lemma_real_associative(b, s, s);
    let fg = form(|i: int, j: int| gram(a, i, j), z, 6);
    let q = total(|j: int| (z(j) * z(j)) * gram(a, j, j), 6);
    lemma_factor_bound(fg, q, diagonal_form(a, z), b * (s * s));
    // the squares of the absolute values
    let (f, g) = (
        |k: int| (z(k) * z(k)) * value(a[k][k]),
        |k: int| (x(k) * x(k)) * value(a[k][k]),
    );
    assert forall|k: int| 0 <= k < 6 implies #[trigger] f(k) == g(k) by {
        lemma_abs_product(x(k), x(k));
        lemma_square_nonnegative(x(k));
    }
    lemma_total_same(f, g, 6);
    // the loss in terms of the matrix
    lemma_spread_bounded(a);
    lemma_tiny_positive();
    let c = (4 as real) + trace(a);
    lemma_real_mul_ordered(spread(a), (4 as real) * c, tiny());
    lemma_real_associative(spread(a), tiny(), c);
    lemma_real_associative(4 as real, c, tiny());
    lemma_real_associative(c, tiny(), c);
    lemma_square_nonnegative(s);
    lemma_real_mul_ordered(b, (160 as real) * (tiny() * c), s * s);
    lemma_real_associative(160 as real, tiny() * c, s * s);
    lemma_total_same(z, |k: int| abs(x(k)), 6);
}

// ---------------------------------------------------------------------------
// Pivots
// ---------------------------------------------------------------------------

/// The form of `a` along `x`, with the error of the factorisation on top.
pub open spec fn seen(a: [[Binary64; 6]; 6], x: spec_fn(int) -> real) -> real {
    matrix_form(a, x) + factor_error(a, x)
}

/// The linear part: `y` is the square of the diagonal entry, `p` the squared pivot, `m` the square
/// of the last coordinate, and `e` what is seen.
proof fn lemma_pivot_seen(y: real, p: real, m: real, e: real)
    requires
        abs(y - p) <= (4 as real) * unit_of(y),
        y >= 0 as real,
        m >= 0 as real,
        y * m <= e,
    ensures
        e >= 0 as real,
        p * m <= e + (4 as real) * (half_unit() * e),
{
    let h = half_unit();
    let c = (4 as real) * h;
    lemma_unit_of(y);
    lemma_abs_product(y, m);
    lemma_real_mul_ordered(p, y + (4 as real) * (y * h), m);
    lemma_real_associative(4 as real, y, h);
    lemma_real_associative(4 as real, h, y);
    lemma_real_distributes(y, c * y, m);
    lemma_real_associative(c, y, m);
    lemma_real_mul_ordered(y * m, e, c);
    lemma_real_associative(y * m, c, c);
    lemma_real_associative(e, c, c);
    lemma_real_associative(4 as real, h, e);
    lemma_unit_of(e);
}

/// A pivot bounds how little of a motion is seen: where the factorisation is finite, the squared
/// pivot of the last coordinate of a motion, times the square of that coordinate, is at most the
/// form of the matrix along the motion, up to rounding.
pub proof fn law_pivot_bounds_form(a: [[Binary64; 6]; 6], x: spec_fn(int) -> real, i: int)
    requires
        0 <= i < 6,
        forall|k: int| i < k < 6 ==> #[trigger] x(k) == 0 as real,
        forall|p: int, q: int| 0 <= q <= p < 6 ==> #[trigger] a[p][q] == a[q][p],
        factors_finitely(a),
    ensures
        seen(a, x) >= 0 as real,
        value(pivot(a, i)) * (x(i) * x(i)) <= seen(a, x) + (4 as real) * (half_unit() * seen(a, x)),
{
    lemma_factor_form(a, x);
    let squares = |k: int| pulled(a, x, k) * pulled(a, x, k);
    assert forall|k: int| 0 <= k < 6 implies #[trigger] squares(k) >= 0 as real by {
        lemma_square_nonnegative(pulled(a, x, k));
    }
    lemma_total_holds(squares, 6, i);
    let f = |j: int| low(a, j, i) * x(j);
    assert forall|j: int| 0 <= j < 6 && j != i implies #[trigger] f(j) == 0 as real by {
        if j < i {
            lemma_real_distributes(0 as real, 0 as real, x(j));
        } else {
            assert(x(j) == 0 as real);
            lemma_real_distributes(0 as real, 0 as real, low(a, j, i));
            lemma_real_associative(0 as real, low(a, j, i), x(j));
        }
    }
    lemma_one_term(f, 6, i);
    let l = low(a, i, i);
    lemma_squares_of_product(l, x(i));
    lemma_real_associative(x(i) * x(i), l * l, l);
    lemma_square_nonnegative(l);
    lemma_square_nonnegative(x(i));
    lemma_pivot_closed(a, i);
    lemma_pivot_seen(l * l, value(pivot(a, i)), x(i) * x(i), seen(a, x));
}

// ---------------------------------------------------------------------------
// Thresholds
// ---------------------------------------------------------------------------

/// Finite numbers are ordered as their values.
pub proof fn lemma_values_ordered(x: Binary64, y: Binary64)
    requires
        is_finite(x),
        is_finite(y),
        !fl_lt(y, x),
    ensures
        value(x) <= value(y),
{
    reveal(fl_lt);
    lemma_zero_value(fl(0));
    lemma_magnitudes_ordered(0, magnitude(x));
    lemma_magnitudes_ordered(0, magnitude(y));
    if negative(x) && negative(y) {
        lemma_magnitudes_ordered(magnitude(y), magnitude(x));
    } else if !negative(x) && !negative(y) {
        lemma_magnitudes_ordered(magnitude(x), magnitude(y));
    } else if !negative(x) {
        lemma_zero_value(x);
        lemma_zero_value(y);
    }
}

/// The scale of a block of finite entries.
pub proof fn lemma_scale_finite(a: [[Binary64; 6]; 6], i: int)
    requires
        0 <= i < 6,
        forall|k: int| 0 <= k < 6 ==> is_finite(#[trigger] a[k][k]),
    ensures
        is_finite(pivot_scale(a, i)),
        !negative(pivot_scale(a, i)),
        !is_nan(fl_mul(fl(PIVOT_RTOL), pivot_scale(a, i))),
        !negative(fl_mul(fl(PIVOT_RTOL), pivot_scale(a, i))),
{
    reveal(fl_lt);
    reveal(fl_mul);
    let first = if i < 3 {
        0int
    } else {
        3int
    };
    assert(is_finite(a[first][first]));
    assert(is_finite(a[first + 1][first + 1]));
    assert(is_finite(a[first + 2][first + 2]));
}

/// A finite pivot that has not collapsed has the value of its threshold or more.
pub proof fn lemma_sound_pivot(a: [[Binary64; 6]; 6], i: int)
    requires
        0 <= i < 6,
        forall|k: int| 0 <= k < 6 ==> is_finite(#[trigger] a[k][k]),
        is_finite(pivot(a, i)),
        !is_collapsed(a, i),
    ensures
        value(fl_mul(fl(PIVOT_RTOL), pivot_scale(a, i))) <= value(pivot(a, i)),
        value(pivot(a, i)) >= 0 as real,
        order(pivot(a, i)) >= 0,
{
    let t = fl_mul(fl(PIVOT_RTOL), pivot_scale(a, i));
    lemma_scale_finite(a, i);
    assert(is_finite(t) && order(pivot(a, i)) >= 0) by {
        reveal(fl_lt);
    }
    lemma_values_ordered(t, pivot(a, i));
    lemma_zero_value(fl(0));
    lemma_magnitudes_ordered(0, magnitude(t));
}

// ---------------------------------------------------------------------------
// The reported pivot
// ---------------------------------------------------------------------------

/// The weakest of pivots that have not collapsed is not below zero.
proof fn lemma_weakest_not_negative(a: [[Binary64; 6]; 6], n: int)
    requires
        0 <= n <= 6,
        forall|i: int|
            0 <= i < n ==> order(#[trigger] fl_div(pivot(a, i), pivot_scale(a, i))) >= 0,
    ensures
        order(weakest_pivot(a, n)) >= 0,
    decreases n,
{
    if n > 0 {
        lemma_weakest_not_negative(a, n - 1);
        assert(order(fl_div(pivot(a, n - 1), pivot_scale(a, n - 1))) >= 0);
    }
}

/// A ratio of a number that is not below zero to a positive one.
proof fn lemma_ratio_not_negative(r: Binary64, d: Binary64)
    requires
        is_finite(r),
        order(r) >= 0,
        is_finite(d),
        !negative(d),
        !is_zero(d),
    ensures
        order(fl_div(r, d)) >= 0,
        !is_nan(fl_div(r, d)),
{
    reveal(fl_div);
}

/// The linear part: `v` is the ratio times the scale, `p` the squared pivot and `t` what is lost
/// below the normal numbers.
proof fn lemma_ratio_bound(v: real, p: real, t: real)
    requires
        abs(v - p) <= (2 as real) * unit_of(v) + (2 as real) * t,
        p >= 0 as real,
        t >= 0 as real,
    ensures
        v <= p + (3 as real) * (half_unit() * p) + (3 as real) * t,
{
    lemma_unit_of(v);
    lemma_unit_of(p);
    lemma_real_associative(p, half_unit(), p);
}

/// The same against what is seen, `e`: `q` is `p` times the square of the coordinate.
proof fn lemma_seen_bound(q: real, e: real)
    requires
        q <= e + (4 as real) * (half_unit() * e),
        q >= 0 as real,
        e >= 0 as real,
    ensures
        q + (3 as real) * (half_unit() * q) <= e + (8 as real) * (half_unit() * e),
{
    lemma_unit_of(q);
    lemma_unit_of(e);
    lemma_real_associative(q, half_unit(), q);
    lemma_real_associative(e, half_unit(), e);
}

/// The reported pivot bounds how little of any motion is seen: where the factorisation of an
/// accepted matrix is finite, the reported pivot times the scale of the last coordinate of a motion
/// and the square of that coordinate is at most the form of the matrix along the motion, up to
/// rounding.
pub proof fn law_reported_pivot_bounds_form(
    a: [[Binary64; 6]; 6],
    b: [Binary64; 6],
    x: spec_fn(int) -> real,
    i: int,
)
    requires
        0 <= i < 6,
        forall|k: int| i < k < 6 ==> #[trigger] x(k) == 0 as real,
        forall|p: int, q: int| 0 <= q <= p < 6 ==> #[trigger] a[p][q] == a[q][p],
        factors_finitely(a),
    ensures
        guarded_solution(a, b) matches Some((y, weakest)) ==> {
            let m = value(pivot_scale(a, i)) * (x(i) * x(i));
            value(weakest) * m <= seen(a, x) + (8 as real) * (half_unit() * seen(a, x)) + (
            4 as real) * (tiny() * m)
        },
{
    if guarded_solution(a, b) is Some {
        let weakest = weakest_pivot(a, 6);
        let scale = pivot_scale(a, i);
        let square = pivot(a, i);
        let ratio = fl_div(square, scale);
        assert forall|k: int| 0 <= k < 6 implies is_finite(#[trigger] a[k][k]) by {
            assert(is_finite(residual(a, k, k, 0)));
        }
        assert forall|k: int| 0 <= k < 6 implies order(
            #[trigger] fl_div(pivot(a, k), pivot_scale(a, k)),
        ) >= 0 by {
            lemma_accepted_ratio(a, k);
        }
        lemma_weakest_not_negative(a, 6);
        lemma_accepted_ratio(a, i);
        law_reported_pivot_is_weakest(a, b, i);
        law_reported_pivot_is_at_most_one(a, b);
        law_pivot_bounds_form(a, x, i);
        let (w, s, p, e) = (value(weakest), value(scale), value(square), seen(a, x));
        let c = x(i) * x(i);
        let m = s * c;
        lemma_square_nonnegative(x(i));
        lemma_value_positive(magnitude(scale));
        lemma_tiny_positive();
        lemma_abs_product(s, c);
        lemma_abs_product(p, c);
        lemma_abs_product(tiny(), m);
        lemma_seen_bound(p * c, e);
        lemma_one_value();
        assert(is_finite(weakest)) by {
            reveal(fl_le);
        }
        if is_finite(ratio) {
            let v = value(ratio);
            lemma_values_ordered(weakest, ratio);
            lemma_quotient_step(square, scale);
            lemma_abs_product(tiny(), s);
            lemma_ratio_bound(v * s, p, tiny() * s);
            // each side times the square of the coordinate
            let h = half_unit();
            let r = p + (3 as real) * (h * p) + (3 as real) * (tiny() * s);
            lemma_real_mul_ordered(w, v, m);
            lemma_real_associative(v, s, c);
            lemma_real_mul_ordered(v * s, r, c);
            lemma_real_distributes(p + (3 as real) * (h * p), (3 as real) * (tiny() * s), c);
            lemma_real_distributes(p, (3 as real) * (h * p), c);
            lemma_real_associative(3 as real, h * p, c);
            lemma_real_associative(h, p, c);
            lemma_real_associative(3 as real, tiny() * s, c);
            lemma_real_associative(tiny(), s, c);
        } else {
            lemma_large_pivot(square, scale);
            assert(!fl_lt(fl(ONE), weakest)) by {
                reveal(fl_le);
                reveal(fl_lt);
            }
            lemma_values_ordered(weakest, fl(ONE));
            lemma_real_mul_ordered(w, 1 as real, m);
            lemma_real_one(m);
            lemma_real_mul_ordered(s, p, c);
            lemma_unit_of(p * c);
        }
    }
}

/// The reported pivot bounds how little of any motion the correspondences notice: where an accepted
/// pass and its factorisation are finite, the reported pivot times the scale of the last coordinate
/// of a motion and the square of that coordinate is at most the weighted sum of the squares of what
/// the correspondences notice of it, up to rounding.
pub proof fn law_reported_pivot_bounds_noticing(
    src: RgbdLevel,
    tgt: RgbdLevel,
    pose: Pose,
    gate: Gate,
    view: spec_fn([Binary64; 3]) -> Option<[Binary64; 2]>,
    x: spec_fn(int) -> real,
    i: int,
)
    requires
        0 <= i < 6,
        forall|k: int| i < k < 6 ==> #[trigger] x(k) == 0 as real,
        fl_le(fl(0), gate.huber_delta),
        has_finite_rows(src, tgt, pose, gate, view),
        src.num_pixels() <= 0x0002_0000_0000_0000,
        factors_finitely(pass(src, tgt, pose, gate, view).a),
    ensures
        ({
            let eqs = pass(src, tgt, pose, gate, view);
            let rows = inliers(src, tgt, pose, gate, view, src.num_pixels());
            let e = summed(rows, noticing(x)) + refusal_error(rows, eqs.a, x);
            let m = value(pivot_scale(eqs.a, i)) * (x(i) * x(i));
            guarded_solution(eqs.a, eqs.b) matches Some((y, weakest)) ==> value(weakest) * m <= e
                + (8 as real) * (half_unit() * e) + (4 as real) * (tiny() * m)
        }),
{
    let eqs = pass(src, tgt, pose, gate, view);
    let rows = inliers(src, tgt, pose, gate, view, src.num_pixels());
    lemma_pass_symmetric(src, tgt, pose, gate, view);
    assert forall|p: int, q: int| 0 <= p < 6 && 0 <= q < 6 implies is_finite(
        #[trigger] eqs.a[p][q],
    ) by {
        if q <= p {
            assert(is_finite(residual(eqs.a, p, q, 0)));
        } else {
            assert(eqs.a[q][p] == eqs.a[p][q]);
            assert(is_finite(residual(eqs.a, q, p, 0)));
        }
    }
    lemma_seen_by_rows(src, tgt, pose, gate, view, x);
    law_reported_pivot_bounds_form(eqs.a, eqs.b, x, i);
    let (s, h) = (seen(eqs.a, x), half_unit());
    let e = summed(rows, noticing(x)) + refusal_error(rows, eqs.a, x);
    lemma_real_mul_ordered(s, e, h);
    lemma_real_associative(s, h, h);
    lemma_real_associative(e, h, h);
}

/// The matrix of a pass is symmetric.
proof fn lemma_pass_symmetric(
    src: RgbdLevel,
    tgt: RgbdLevel,
    pose: Pose,
    gate: Gate,
    view: spec_fn([Binary64; 3]) -> Option<[Binary64; 2]>,
)
    ensures
        ({
            let a = pass(src, tgt, pose, gate, view).a;
            forall|p: int, q: int| 0 <= q <= p < 6 ==> #[trigger] a[p][q] == a[q][p]
        }),
{
    let a = pass(src, tgt, pose, gate, view).a;
    let rows = inliers(src, tgt, pose, gate, view, src.num_pixels());
    assert forall|p: int, q: int| 0 <= q <= p < 6 implies #[trigger] a[p][q] == a[q][p] by {
        assert(a[p] == normal_row(rows, p));
        assert(a[q] == normal_row(rows, q));
        assert(a[p][q] == normal_entry(rows, p, q));
        assert(a[q][p] == normal_entry(rows, q, p));
    }
}

/// What is seen of a motion is what the correspondences notice, up to the errors.
proof fn lemma_seen_by_rows(
    src: RgbdLevel,
    tgt: RgbdLevel,
    pose: Pose,
    gate: Gate,
    view: spec_fn([Binary64; 3]) -> Option<[Binary64; 2]>,
    x: spec_fn(int) -> real,
)
    requires
        fl_le(fl(0), gate.huber_delta),
        has_finite_rows(src, tgt, pose, gate, view),
        src.num_pixels() <= 0x0002_0000_0000_0000,
        forall|p: int, q: int|
            0 <= p < 6 && 0 <= q < 6 ==> is_finite(
                #[trigger] pass(src, tgt, pose, gate, view).a[p][q],
            ),
    ensures
        ({
            let a = pass(src, tgt, pose, gate, view).a;
            let rows = inliers(src, tgt, pose, gate, view, src.num_pixels());
            seen(a, x) <= summed(rows, noticing(x)) + refusal_error(rows, a, x)
        }),
{
    let a = pass(src, tgt, pose, gate, view).a;
    law_normal_matrix_weighs_motions(src, tgt, pose, gate, view, x);
    lemma_total_same(
        |k: int| (x(k) * x(k)) * value(a[k][k]),
        |i: int| (x(i) * x(i)) * value(a[i][i]),
        6,
    );
}

/// A pivot whose ratio to its scale is infinite exceeds the scale.
proof fn lemma_large_pivot(square: Binary64, scale: Binary64)
    requires
        is_finite(square),
        order(square) >= 0,
        is_finite(scale),
        !negative(scale),
        !is_zero(scale),
        !is_finite(fl_div(square, scale)),
    ensures
        value(scale) <= value(square),
{
    reveal(fl_div);
    reveal(fl_le);
    assert(!is_zero(square) && !negative(square));
    if magnitude(square) <= magnitude(scale) {
        lemma_div_at_most_one(square, scale);
    }
    lemma_magnitudes_ordered(magnitude(scale), magnitude(square));
}

/// The pivot, its scale and their ratio in a row of an accepted matrix.
proof fn lemma_accepted_ratio(a: [[Binary64; 6]; 6], i: int)
    requires
        0 <= i < 6,
        factors_finitely(a),
        !is_degenerate(a),
    ensures
        is_finite(pivot(a, i)),
        order(pivot(a, i)) >= 0,
        value(pivot(a, i)) >= 0 as real,
        is_finite(pivot_scale(a, i)),
        !negative(pivot_scale(a, i)),
        !is_zero(pivot_scale(a, i)),
        order(fl_div(pivot(a, i), pivot_scale(a, i))) >= 0,
        !is_nan(fl_div(pivot(a, i), pivot_scale(a, i))),
{
    assert forall|k: int| 0 <= k < 6 implies is_finite(#[trigger] a[k][k]) by {
        assert(is_finite(residual(a, k, k, 0)));
    }
    assert(is_finite(residual(a, i, i, i)));
    assert(!is_collapsed(a, i));
    lemma_scale_finite(a, i);
    lemma_sound_pivot(a, i);
    reveal(fl_le);
    lemma_ratio_not_negative(pivot(a, i), pivot_scale(a, i));
}

// ---------------------------------------------------------------------------
// Refusals
// ---------------------------------------------------------------------------

/// Whether the numbers of row `i` of the factorisation are finite: its residuals, its entries
/// before the diagonal and, where its pivot has not collapsed, the one on the diagonal.
pub open spec fn has_finite_row(a: [[Binary64; 6]; 6], i: int) -> bool {
    &&& forall|j: int, k: int| 0 <= k <= j <= i ==> is_finite(#[trigger] residual(a, i, j, k))
    &&& forall|j: int| 0 <= j < i ==> is_finite(#[trigger] factor(a, i, j))
    &&& !is_collapsed(a, i) ==> is_finite(factor(a, i, i))
}

/// Whether the rows of the factorisation are finite up to the first pivot that has collapsed.
pub open spec fn factors_finitely_to_collapse(a: [[Binary64; 6]; 6]) -> bool {
    forall|i: int|
        0 <= i < 6 && (forall|p: int| 0 <= p < i ==> !#[trigger] is_collapsed(a, p))
            ==> #[trigger] has_finite_row(a, i)
}

/// Without a collapsed pivot the whole factorisation is finite.
proof fn lemma_sound_rows(a: [[Binary64; 6]; 6])
    requires
        factors_finitely_to_collapse(a),
        forall|p: int| 0 <= p < 6 ==> !#[trigger] is_collapsed(a, p),
    ensures
        factors_finitely(a),
{
    assert forall|i: int, j: int, k: int| 0 <= k <= j <= i < 6 implies is_finite(
        #[trigger] residual(a, i, j, k),
    ) by {
        assert(has_finite_row(a, i));
    }
    assert forall|i: int, j: int| 0 <= j <= i < 6 implies is_finite(#[trigger] factor(a, i, j)) by {
        assert(has_finite_row(a, i));
        assert(!is_collapsed(a, i));
    }
}

/// A motion that is hardly seen is refused: where what is seen of it, at most `e`, is below the
/// square of its last coordinate times the threshold of that coordinate, with room for the
/// rounding of a root, the equations are degenerate.
pub proof fn law_hardly_seen_motion_refused(
    a: [[Binary64; 6]; 6],
    x: spec_fn(int) -> real,
    i: int,
    e: real,
)
    requires
        0 <= i < 6,
        forall|k: int| i < k < 6 ==> #[trigger] x(k) == 0 as real,
        forall|p: int, q: int| 0 <= q <= p < 6 ==> #[trigger] a[p][q] == a[q][p],
        forall|p: int, q: int| 0 <= p < 6 && 0 <= q < 6 ==> is_finite(#[trigger] a[p][q]),
        factors_finitely_to_collapse(a),
        seen(a, x) <= e,
        e + (4 as real) * (half_unit() * e) < value(fl_mul(fl(PIVOT_RTOL), pivot_scale(a, i))) * (x(
            i,
        ) * x(i)),
    ensures
        is_degenerate(a),
{
    if !is_degenerate(a) {
        assert forall|p: int| 0 <= p < 6 implies !#[trigger] is_collapsed(a, p) by {}
        lemma_sound_rows(a);
        law_pivot_bounds_form(a, x, i);
        assert(is_finite(residual(a, i, i, i)));
        assert(!is_collapsed(a, i));
        lemma_sound_pivot(a, i);
        lemma_square_nonnegative(x(i));
        let t = value(fl_mul(fl(PIVOT_RTOL), pivot_scale(a, i)));
        lemma_real_mul_ordered(t, value(pivot(a, i)), x(i) * x(i));
        let (s, h) = (seen(a, x), half_unit());
        lemma_real_mul_ordered(s, e, h);
        lemma_real_associative(s, h, h);
        lemma_real_associative(e, h, h);
    }
}

/// A motion that the correspondences hardly notice is refused: where the weighted sum of the
/// squares of what they notice, with the errors of accumulation and factorisation, is below the
/// square of its last coordinate times the threshold of that coordinate, the equations are
/// degenerate.
pub proof fn law_hardly_noticed_motion_refused(
    src: RgbdLevel,
    tgt: RgbdLevel,
    pose: Pose,
    gate: Gate,
    view: spec_fn([Binary64; 3]) -> Option<[Binary64; 2]>,
    x: spec_fn(int) -> real,
    i: int,
)
    requires
        0 <= i < 6,
        forall|k: int| i < k < 6 ==> #[trigger] x(k) == 0 as real,
        fl_le(fl(0), gate.huber_delta),
        has_finite_rows(src, tgt, pose, gate, view),
        src.num_pixels() <= 0x0002_0000_0000_0000,
        forall|p: int, q: int|
            0 <= p < 6 && 0 <= q < 6 ==> is_finite(
                #[trigger] pass(src, tgt, pose, gate, view).a[p][q],
            ),
        factors_finitely_to_collapse(pass(src, tgt, pose, gate, view).a),
        ({
            let a = pass(src, tgt, pose, gate, view).a;
            let rows = inliers(src, tgt, pose, gate, view, src.num_pixels());
            let e = summed(rows, noticing(x)) + refusal_error(rows, a, x);
            e + (4 as real) * (half_unit() * e) < value(fl_mul(fl(PIVOT_RTOL), pivot_scale(a, i)))
                * (x(i) * x(i))
        }),
    ensures
        is_degenerate(pass(src, tgt, pose, gate, view).a),
{
    let a = pass(src, tgt, pose, gate, view).a;
    let rows = inliers(src, tgt, pose, gate, view, src.num_pixels());
    lemma_pass_symmetric(src, tgt, pose, gate, view);
    lemma_seen_by_rows(src, tgt, pose, gate, view, x);
    law_hardly_seen_motion_refused(
        a,
        x,
        i,
        summed(rows, noticing(x)) + refusal_error(rows, a, x),
    );
}

/// A motion that no correspondence notices is refused, as those along a wall are, whichever way
/// it faces: where the numbers are finite up to the first pivot that has collapsed, and the errors
/// of accumulation and factorisation along the motion are below the square of its last coordinate
/// times the threshold of that coordinate, the equations are degenerate.
pub proof fn law_unnoticed_motion_refused_up_to_rounding(
    src: RgbdLevel,
    tgt: RgbdLevel,
    pose: Pose,
    gate: Gate,
    view: spec_fn([Binary64; 3]) -> Option<[Binary64; 2]>,
    x: spec_fn(int) -> real,
    i: int,
)
    requires
        0 <= i < 6,
        forall|k: int| i < k < 6 ==> #[trigger] x(k) == 0 as real,
        fl_le(fl(0), gate.huber_delta),
        has_finite_rows(src, tgt, pose, gate, view),
        src.num_pixels() <= 0x0002_0000_0000_0000,
        forall|p: int, q: int|
            0 <= p < 6 && 0 <= q < 6 ==> is_finite(
                #[trigger] pass(src, tgt, pose, gate, view).a[p][q],
            ),
        factors_finitely_to_collapse(pass(src, tgt, pose, gate, view).a),
        ({
            let a = pass(src, tgt, pose, gate, view).a;
            let rows = inliers(src, tgt, pose, gate, view, src.num_pixels());
            let e = refusal_error(rows, a, x);
            &&& forall|r: int| 0 <= r < rows.len() ==> is_unnoticed(#[trigger] rows[r], x)
            &&& e + (4 as real) * (half_unit() * e) < value(
                fl_mul(fl(PIVOT_RTOL), pivot_scale(a, i)),
            ) * (x(i) * x(i))
        }),
    ensures
        is_degenerate(pass(src, tgt, pose, gate, view).a),
{
    let rows = inliers(src, tgt, pose, gate, view, src.num_pixels());
    lemma_noticing_vanishes(rows, x);
    law_hardly_noticed_motion_refused(src, tgt, pose, gate, view, x, i);
}

} // verus!
