//! How nearly the accumulated matrix is positive semidefinite.
use crate::accumulation::{has_finite_rows, is_finite_row, lemma_weights_bounded};
use crate::binary64::{fl_le, fl_mul, Binary64};
use crate::chains::{
    lemma_finite_factors, lemma_finite_operands, lemma_tiny_positive, lemma_unit_of, unit_of,
};
use crate::errors::{
    abs, half_unit, lemma_mul_value, lemma_real_associative, lemma_real_distributes,
    lemma_real_mul_ordered, lemma_real_one, tiny, value,
};
use crate::exactness::is_finite;
use crate::folds::{folded, jj_term, lemma_folded_near, lemma_sums_folded, sizes, summed, values};
use crate::forms::{
    form, lemma_form_added, lemma_form_near, lemma_form_outer, lemma_form_same, lemma_form_scaled,
    lemma_square_of_sum,
};
use crate::icp::{
    inliers, lemma_counts_nested, normal_entry, normal_row, pass, Correspondence, Gate, Pose,
};
use crate::identities::lemma_half;
use crate::linear::fl;
use crate::nullspace::{is_unnoticed, noticed};
use crate::rgbd::RgbdLevel;
use crate::rotations::{lemma_abs_product, lemma_square_nonnegative};
use crate::sums::lemma_weight_value;
use crate::totals::{
    lemma_total_added, lemma_total_holds, lemma_total_not_negative, lemma_total_ordered,
    lemma_total_same, lemma_total_scaled, total,
};
use vstd::prelude::*;

verus! {

// ---------------------------------------------------------------------------
// Terms
// ---------------------------------------------------------------------------

/// The exact product behind a term of entry `(i, k)`.
pub open spec fn exact_term(i: int, k: int) -> spec_fn(Correspondence) -> real {
    |c: Correspondence|
        (value(c.weight) * value(c.jacobian[i])) * value(c.jacobian[k])
}

/// Its absolute value.
pub open spec fn size_term(i: int, k: int) -> spec_fn(Correspondence) -> real {
    |c: Correspondence|
        (abs(value(c.weight)) * abs(value(c.jacobian[i]))) * abs(value(c.jacobian[k]))
}

/// One more than the sum of the absolute values of a row: the size of what a product with one of
/// its entries can lose below the normal numbers.
pub open spec fn reach() -> spec_fn(Correspondence) -> real {
    |c: Correspondence| (1 as real) + total(|k: int| abs(value(c.jacobian[k])), 6)
}

/// The linear part of a term: `p` is `w * j_i`, `q` its rounding, `m` the absolute value of the
/// other factor, and `t` the rounding of their product.
pub proof fn lemma_term_bound(x: real, qj: real, t: real, d: real, m: real)
    requires
        abs(qj - x) <= unit_of(x) + d * m,
        abs(t - qj) <= unit_of(qj) + d,
        d >= 0 as real,
        d * m >= 0 as real,
    ensures
        abs(t - x) <= (3 as real) * unit_of(x) + (2 as real) * (d + d * m),
        abs(t) <= (2 as real) * abs(x) + (2 as real) * (d + d * m),
{
    lemma_unit_of(x);
    lemma_unit_of(qj);
}

/// A term is near the exact product.
proof fn lemma_term_near(c: Correspondence, i: int, k: int)
    requires
        0 <= i < 6,
        0 <= k < 6,
        is_finite(jj_term(i, k)(c)),
    ensures
        ({
            let (t, x) = (value(jj_term(i, k)(c)), exact_term(i, k)(c));
            let d = tiny() * reach()(c);
            &&& abs(x) == size_term(i, k)(c)
            &&& abs(t - x) <= (3 as real) * (half_unit() * size_term(i, k)(c)) + (2 as real) * d
            &&& abs(t) <= (2 as real) * size_term(i, k)(c) + (2 as real) * d
        }),
{
    let (w, j, l) = (value(c.weight), value(c.jacobian[i]), value(c.jacobian[k]));
    let q = fl_mul(c.weight, c.jacobian[i]);
    lemma_finite_factors(q, c.jacobian[k]);
    lemma_finite_factors(c.weight, c.jacobian[i]);
    lemma_mul_value(c.weight, c.jacobian[i]);
    lemma_mul_value(q, c.jacobian[k]);
    lemma_tiny_positive();
    let (p, v) = (w * j, value(q));
    let x = p * l;
    let m = abs(l);
    lemma_abs_product(w, j);
    lemma_abs_product(p, l);
    // the rounding of the first product, times the other factor
    lemma_real_distributes(v, p, l);
    lemma_abs_product(v - p, l);
    lemma_real_mul_ordered(abs(v - p), unit_of(p) + tiny(), m);
    lemma_real_distributes(unit_of(p), tiny(), m);
    lemma_real_associative(abs(p), half_unit(), m);
    assert(unit_of(p) * m == unit_of(x));
    lemma_abs_product(tiny(), l);
    lemma_term_bound(x, v * l, value(jj_term(i, k)(c)), tiny(), m);
    lemma_real_associative(abs(x), half_unit(), m);
    // one factor is part of the reach
    let f = |n: int| abs(value(c.jacobian[n]));
    lemma_total_holds(f, 6, k);
    let one = 1 as real;
    lemma_real_mul_ordered(one + m, reach()(c), tiny());
    lemma_real_distributes(one, m, tiny());
    lemma_real_one(tiny());
    lemma_real_associative(m, tiny(), m);
    lemma_real_associative(reach()(c), tiny(), m);
}

/// The sum of the terms against that of the exact products, and the sum of their absolute values.
proof fn lemma_terms_near(rows: Seq<Correspondence>, i: int, k: int)
    requires
        0 <= i < 6,
        0 <= k < 6,
        is_finite(folded(rows, jj_term(i, k))),
    ensures
        ({
            let t = jj_term(i, k);
            let a = summed(rows, size_term(i, k));
            let d = tiny() * summed(rows, reach());
            &&& abs(summed(rows, values(t)) - summed(rows, exact_term(i, k))) <= (3 as real) * (
            half_unit() * a) + (2 as real) * d
            &&& summed(rows, sizes(t)) <= (2 as real) * a + (2 as real) * d
            &&& a >= 0 as real
            &&& summed(rows, reach()) >= rows.len() as real
        }),
    decreases rows.len(),
{
    let h = half_unit();
    if rows.len() == 0 {
        lemma_real_distributes(0 as real, 0 as real, h);
        lemma_real_associative(0 as real, h, h);
        lemma_real_distributes(0 as real, 0 as real, tiny());
        lemma_real_associative(0 as real, tiny(), h);
    } else {
        let before = rows.drop_last();
        let c = rows.last();
        lemma_finite_operands(folded(before, jj_term(i, k)), jj_term(i, k)(c));
        lemma_terms_near(before, i, k);
        lemma_term_near(c, i, k);
        let (a, b) = (summed(before, size_term(i, k)), size_term(i, k)(c));
        lemma_real_distributes(a, b, h);
        lemma_real_associative(a, h, h);
        lemma_real_associative(b, h, h);
        lemma_real_associative(a + b, h, h);
        let (r, s) = (summed(before, reach()), reach()(c));
        lemma_real_distributes(r, s, tiny());
        lemma_real_associative(r, tiny(), h);
        lemma_real_associative(s, tiny(), h);
        lemma_real_associative(r + s, tiny(), h);
        let f = |n: int| abs(value(c.jacobian[n]));
        lemma_total_not_negative(f, 6);
        assert(rows.len() as real == (before.len() as real) + (1 as real));
    }
}

/// The error of an entry of the matrix, where `a` is the sum of the absolute values of its exact
/// products.
pub open spec fn entry_error(rows: Seq<Correspondence>, a: real) -> real {
    ((8 * rows.len()) as real) * (half_unit() * a + tiny() * summed(rows, reach()))
}

/// The linear part: `n` times `u` and `n` times `d` stand for themselves.
proof fn lemma_entry_bound(
    e: real,
    x: real,
    s: real,
    u: real,
    d: real,
    nu: real,
    nd: real,
    nt: real,
)
    requires
        abs(s - x) <= (3 as real) * u + (2 as real) * d,
        abs(e - s) <= (4 as real) * nu + nd + (2 as real) * nt,
        nt <= nd,
        0 as real <= u <= nu,
        0 as real <= d <= nd,
    ensures
        abs(e - x) <= (8 as real) * (nu + nd),
{
}

/// An entry of the matrix is near the sum of the exact products.
proof fn lemma_sum_near(rows: Seq<Correspondence>, i: int, k: int)
    requires
        0 <= i < 6,
        0 <= k < 6,
        rows.len() <= 0x0002_0000_0000_0000,
        is_finite(folded(rows, jj_term(i, k))),
    ensures
        abs(value(folded(rows, jj_term(i, k))) - summed(rows, exact_term(i, k))) <= entry_error(
            rows,
            summed(rows, size_term(i, k)),
        ),
{
    let t = jj_term(i, k);
    let n = rows.len() as real;
    let a = summed(rows, size_term(i, k));
    let b = summed(rows, reach());
    let (h, d) = (half_unit(), tiny());
    lemma_tiny_positive();
    lemma_folded_near(rows, t);
    lemma_terms_near(rows, i, k);
    if rows.len() == 0 {
        lemma_real_distributes(0 as real, 0 as real, h * a + d * b);
        lemma_real_distributes(0 as real, 0 as real, h * summed(rows, sizes(t)) + d);
    } else {
        let size = summed(rows, sizes(t));
        let (u, v) = (h * a, d * b);
        lemma_abs_product(h, a);
        lemma_abs_product(d, b);
        assert(u >= 0 as real && v >= 0 as real);
        // 2 n (h size + d)
        lemma_real_mul_ordered(size, (2 as real) * a + (2 as real) * v, h);
        lemma_real_associative(size, h, h);
        lemma_real_distributes((2 as real) * a, (2 as real) * v, h);
        lemma_real_associative(2 as real, a, h);
        lemma_real_associative(a, h, h);
        lemma_real_associative(2 as real, v, h);
        lemma_unit_of(v);
        assert(h * size <= (2 as real) * u + (2 as real) * unit_of(v));
        let m = (2 * rows.len()) as real;
        assert(m == (2 as real) * n);
        let y = h * size + d;
        let z = (2 as real) * u + v / (2 as real) + d;
        lemma_real_mul_ordered(y, z, m);
        lemma_real_associative(y, m, m);
        lemma_real_associative(z, m, m);
        lemma_scaled_parts(n, u, v, d);
        // at least one row
        lemma_real_mul_ordered(1 as real, n, u);
        lemma_real_mul_ordered(1 as real, n, v);
        lemma_real_one(u);
        lemma_real_one(v);
        lemma_real_mul_ordered(1 as real, b, d);
        lemma_real_one(d);
        lemma_real_associative(b, d, d);
        lemma_real_mul_ordered(d, v, n);
        lemma_real_associative(d, n, n);
        lemma_real_associative(v, n, n);
        lemma_entry_bound(
            value(folded(rows, t)),
            summed(rows, exact_term(i, k)),
            summed(rows, values(t)),
            u,
            v,
            n * u,
            n * v,
            n * d,
        );
        lemma_real_distributes(u, v, n);
        lemma_real_associative(u, n, n);
        lemma_real_associative(u + v, n, n);
        lemma_real_associative(8 as real, n, u + v);
        assert((8 * rows.len()) as real == (8 as real) * n);
    }
}

proof fn lemma_scaled_parts(n: real, u: real, v: real, d: real)
    ensures
        ((2 as real) * n) * ((2 as real) * u + v / (2 as real) + d) == (4 as real) * (n * u) + n * v
            + (2 as real) * (n * d),
{
    let half = v / (2 as real);
    lemma_real_associative(2 as real, n, (2 as real) * u + half + d);
    lemma_real_distributes((2 as real) * u + half, d, n);
    lemma_real_distributes((2 as real) * u, half, n);
    lemma_real_associative(2 as real, u, n);
    lemma_real_associative(u, n, n);
    lemma_real_associative(d, n, n);
    lemma_real_distributes(half, half, n);
    lemma_real_associative(v, n, n);
    lemma_real_associative((2 as real) * u + half + d, n, n);
}

// ---------------------------------------------------------------------------
// Forms
// ---------------------------------------------------------------------------

/// The matrix of the sums of exact products.
spec fn exact_matrix(rows: Seq<Correspondence>) -> spec_fn(int, int) -> real {
    |i: int, k: int| summed(rows, exact_term(i, k))
}

/// The matrix of the sums of their absolute values.
spec fn size_matrix(rows: Seq<Correspondence>) -> spec_fn(int, int) -> real {
    |i: int, k: int| summed(rows, size_term(i, k))
}

/// Whether the weights of correspondences are not below zero.
pub open spec fn has_weights(rows: Seq<Correspondence>) -> bool {
    forall|r: int| 0 <= r < rows.len() ==> value((#[trigger] rows[r]).weight) >= 0 as real
}

proof fn lemma_weights_before(rows: Seq<Correspondence>)
    requires
        rows.len() > 0,
        has_weights(rows),
    ensures
        has_weights(rows.drop_last()),
        value(rows.last().weight) >= 0 as real,
{
    let before = rows.drop_last();
    assert forall|r: int| 0 <= r < before.len() implies value((#[trigger] before[r]).weight)
        >= 0 as real by {
        assert(before[r] == rows[r]);
    }
    assert(rows[rows.len() - 1] == rows.last());
}

proof fn lemma_form_of_nothing(s: spec_fn(int, int) -> real, y: spec_fn(int) -> real)
    requires
        forall|i: int, k: int| #[trigger] s(i, k) == 0 as real,
    ensures
        form(s, y, 6) == 0 as real,
{
    let none = |i: int, k: int| (0 as real) * s(i, k);
    assert forall|i: int, k: int| 0 <= i < 6 && 0 <= k < 6 implies #[trigger] s(i, k) == none(
        i,
        k,
    ) by {
        lemma_real_distributes(0 as real, 0 as real, s(i, k));
    }
    lemma_form_same(s, none, y, 6);
    lemma_form_scaled(s, 0 as real, y, 6);
    lemma_form_same(none, |i: int, k: int| (0 as real) * s(i, k), y, 6);
    lemma_real_distributes(0 as real, 0 as real, form(s, y, 6));
}

/// The weight of a correspondence times the square of what it notices of the motion `x`.
pub open spec fn noticing(x: spec_fn(int) -> real) -> spec_fn(Correspondence) -> real {
    |c: Correspondence| value(c.weight) * (noticed(c, x) * noticed(c, x))
}

/// The form of the exact matrix is the sum of the weighted squares of what is noticed.
proof fn lemma_exact_form(rows: Seq<Correspondence>, x: spec_fn(int) -> real)
    ensures
        form(exact_matrix(rows), x, 6) == summed(rows, noticing(x)),
    decreases rows.len(),
{
    if rows.len() == 0 {
        lemma_form_of_nothing(exact_matrix(rows), x);
    } else {
        let before = rows.drop_last();
        let c = rows.last();
        lemma_exact_form(before, x);
        let w = value(c.weight);
        let v = |k: int| value(c.jacobian[k]);
        let s = exact_matrix(before);
        let t = |i: int, k: int| (w * v(i)) * v(k);
        lemma_form_same(exact_matrix(rows), |i: int, k: int| s(i, k) + t(i, k), x, 6);
        lemma_form_added(s, t, x, 6);
        lemma_form_outer(w, v, x, 6);
        lemma_form_same(t, |i: int, k: int| (w * v(i)) * v(k), x, 6);
        lemma_total_same(|k: int| v(k) * x(k), |k: int| value(c.jacobian[k]) * x(k), 6);
        lemma_real_associative(w, noticed(c, x), noticed(c, x));
    }
}

/// What is noticed is not below zero.
proof fn lemma_noticing_not_negative(rows: Seq<Correspondence>, x: spec_fn(int) -> real)
    requires
        has_weights(rows),
    ensures
        summed(rows, noticing(x)) >= 0 as real,
    decreases rows.len(),
{
    if rows.len() > 0 {
        lemma_weights_before(rows);
        lemma_noticing_not_negative(rows.drop_last(), x);
        let d = noticed(rows.last(), x);
        lemma_square_nonnegative(d);
        lemma_real_mul_ordered(0 as real, value(rows.last().weight), d * d);
        lemma_real_distributes(0 as real, 0 as real, d * d);
    }
}

/// What is noticed of a motion that no correspondence notices is zero.
pub proof fn lemma_noticing_vanishes(rows: Seq<Correspondence>, x: spec_fn(int) -> real)
    requires
        forall|r: int| 0 <= r < rows.len() ==> is_unnoticed(#[trigger] rows[r], x),
    ensures
        summed(rows, noticing(x)) == 0 as real,
    decreases rows.len(),
{
    if rows.len() > 0 {
        let before = rows.drop_last();
        assert forall|r: int| 0 <= r < before.len() implies is_unnoticed(
            #[trigger] before[r],
            x,
        ) by {
            assert(before[r] == rows[r]);
        }
        assert(is_unnoticed(rows[rows.len() - 1], x));
        lemma_noticing_vanishes(before, x);
        let w = value(rows.last().weight);
        lemma_real_distributes(0 as real, 0 as real, w);
        lemma_real_distributes(0 as real, 0 as real, 0 as real);
        lemma_real_associative(0 as real, w, w);
    }
}

/// The sum of the diagonal entries of the matrix of absolute values, each times a square.
spec fn diagonal_sum(rows: Seq<Correspondence>, z: spec_fn(int) -> real) -> real {
    total(|i: int| (z(i) * z(i)) * summed(rows, size_term(i, i)), 6)
}

/// The form of the matrix of absolute values is bounded by its diagonal.
proof fn lemma_size_form(rows: Seq<Correspondence>, z: spec_fn(int) -> real)
    ensures
        form(size_matrix(rows), z, 6) <= (6 as real) * diagonal_sum(rows, z),
    decreases rows.len(),
{
    let diagonal = |i: int| (z(i) * z(i)) * summed(rows, size_term(i, i));
    if rows.len() == 0 {
        lemma_form_of_nothing(size_matrix(rows), z);
        assert forall|i: int| 0 <= i < 6 implies #[trigger] diagonal(i) >= 0 as real by {
            lemma_real_distributes(0 as real, 0 as real, z(i) * z(i));
            lemma_real_associative(0 as real, z(i) * z(i), z(i));
        }
        lemma_total_not_negative(diagonal, 6);
    } else {
        let before = rows.drop_last();
        let c = rows.last();
        lemma_size_form(before, z);
        let w = abs(value(c.weight));
        let v = |k: int| abs(value(c.jacobian[k]));
        let s = size_matrix(before);
        let t = |i: int, k: int| (w * v(i)) * v(k);
        lemma_form_same(size_matrix(rows), |i: int, k: int| s(i, k) + t(i, k), z, 6);
        lemma_form_added(s, t, z, 6);
        lemma_form_outer(w, v, z, 6);
        lemma_form_same(t, |i: int, k: int| (w * v(i)) * v(k), z, 6);
        let p = |k: int| v(k) * z(k);
        let d = total(p, 6);
        lemma_square_of_sum(p);
        let q = |k: int| p(k) * p(k);
        lemma_total_same(q, |i: int| p(i) * p(i), 6);
        lemma_real_mul_ordered(d * d, (6 as real) * total(q, 6), w);
        lemma_real_associative(d, d, w);
        lemma_real_associative(w, d, d);
        lemma_real_associative(6 as real, total(q, 6), w);
        lemma_real_associative(total(q, 6), w, w);
        // the diagonal grows by the squares
        let earlier = |i: int| (z(i) * z(i)) * summed(before, size_term(i, i));
        let step = |i: int| w * q(i);
        assert forall|i: int| 0 <= i < 6 implies #[trigger] diagonal(i) == earlier(i) + step(i) by {
            let (x, y) = (summed(before, size_term(i, i)), size_term(i, i)(c));
            lemma_real_distributes(x, y, z(i) * z(i));
            lemma_real_associative(x, z(i) * z(i), x);
            lemma_real_associative(y, z(i) * z(i), x);
            lemma_real_associative(x + y, z(i) * z(i), x);
            lemma_square_spread(w, v(i), z(i));
        }
        lemma_total_added(earlier, step, 6);
        lemma_total_same(diagonal, |i: int| earlier(i) + step(i), 6);
        lemma_total_scaled(q, w, 6);
        lemma_total_same(step, |i: int| w * q(i), 6);
    }
}

proof fn lemma_square_spread(w: real, v: real, z: real)
    ensures
        (z * z) * ((w * v) * v) == w * ((v * z) * (v * z)),
{
    lemma_real_associative(w, v, v);
    lemma_real_associative(w, v * v, z * z);
    lemma_real_associative(v, z, v * z);
    lemma_real_associative(v, v, z * z);
    lemma_real_associative(z, v, z);
    lemma_real_associative(z * z, (w * v) * v, z);
    lemma_real_associative(v, z * z, v);
    lemma_real_associative(v, z, z);
    lemma_real_associative(v * z, v, z);
    lemma_real_associative(v, v * z, z);
}

// ---------------------------------------------------------------------------
// The accumulated matrix
// ---------------------------------------------------------------------------

proof fn lemma_terms_symmetric(rows: Seq<Correspondence>, i: int, k: int)
    ensures
        summed(rows, exact_term(i, k)) == summed(rows, exact_term(k, i)),
        summed(rows, size_term(i, k)) == summed(rows, size_term(k, i)),
    decreases rows.len(),
{
    if rows.len() > 0 {
        lemma_terms_symmetric(rows.drop_last(), i, k);
        let c = rows.last();
        lemma_real_associative(value(c.weight), value(c.jacobian[i]), value(c.jacobian[k]));
        lemma_real_associative(
            abs(value(c.weight)),
            abs(value(c.jacobian[i])),
            abs(value(c.jacobian[k])),
        );
    }
}

/// Every entry of the matrix is near the sum of the exact products.
pub proof fn lemma_entry_near(rows: Seq<Correspondence>, i: int, k: int)
    requires
        0 <= i < 6,
        0 <= k < 6,
        rows.len() <= 0x0002_0000_0000_0000,
        is_finite(normal_entry(rows, i, k)),
    ensures
        abs(value(normal_entry(rows, i, k)) - summed(rows, exact_term(i, k))) <= entry_error(
            rows,
            summed(rows, size_term(i, k)),
        ),
{
    lemma_terms_symmetric(rows, i, k);
    if i <= k {
        lemma_sums_folded(rows, i, k);
        lemma_sum_near(rows, i, k);
    } else {
        lemma_sums_folded(rows, k, i);
        lemma_sum_near(rows, k, i);
    }
}

/// Where weights are not below zero, the exact products on the diagonal are their absolute
/// values.
pub proof fn lemma_diagonal_is_size(rows: Seq<Correspondence>, i: int)
    requires
        has_weights(rows),
    ensures
        summed(rows, exact_term(i, i)) == summed(rows, size_term(i, i)),
    decreases rows.len(),
{
    if rows.len() > 0 {
        lemma_weights_before(rows);
        lemma_diagonal_is_size(rows.drop_last(), i);
        let c = rows.last();
        let (w, j) = (value(c.weight), value(c.jacobian[i]));
        lemma_abs_product(w, j);
        lemma_abs_product(w * j, j);
        lemma_real_associative(w, j, j);
        lemma_square_nonnegative(j);
        lemma_abs_product(w, j * j);
    }
}

/// The linear part: half of `a` is more than the relative part of the error.
proof fn lemma_diagonal_bound(v: real, a: real, mh: real, mb: real)
    requires
        abs(v - a) <= mh * a + mb,
        mh <= (1 as real) / (2 as real),
        a >= 0 as real,
    ensures
        a <= (2 as real) * v + (2 as real) * mb,
{
    lemma_real_mul_ordered(mh, (1 as real) / (2 as real), a);
    lemma_half(a);
}

/// A diagonal entry bounds the sum of the absolute values of its exact products.
proof fn lemma_diagonal_holds(rows: Seq<Correspondence>, i: int)
    requires
        0 <= i < 6,
        rows.len() <= 0x0002_0000_0000_0000,
        has_weights(rows),
        is_finite(normal_entry(rows, i, i)),
    ensures
        summed(rows, size_term(i, i)) <= (2 as real) * value(normal_entry(rows, i, i)) + (2 as real)
            * (((8 * rows.len()) as real) * (tiny() * summed(rows, reach()))),
{
    let m = (8 * rows.len()) as real;
    let a = summed(rows, size_term(i, i));
    let b = tiny() * summed(rows, reach());
    lemma_entry_near(rows, i, i);
    lemma_diagonal_is_size(rows, i);
    lemma_sums_folded(rows, i, i);
    lemma_terms_near(rows, i, i);
    let h = half_unit();
    lemma_real_distributes(h * a, b, m);
    lemma_real_associative(h * a, m, m);
    lemma_real_associative(b, m, m);
    lemma_real_associative(h * a + b, m, m);
    lemma_real_associative(m, h, a);
    lemma_unit_of(m);
    assert(m * h == unit_of(m));
    lemma_diagonal_bound(value(normal_entry(rows, i, i)), a, m * h, m * b);
}

/// The error of the form of the matrix: `d` is the sum of the diagonal entries, each times the
/// square of an entry of the vector, and `s` the sum of the absolute values of the vector.
pub open spec fn form_error(rows: Seq<Correspondence>, d: real, s: real) -> real {
    ((96 * rows.len()) as real) * (half_unit() * d) + ((56 * rows.len()) as real) * ((tiny()
        * summed(rows, reach())) * (s * s))
}

/// The form of the bounds on the entries.
proof fn lemma_bound_form(rows: Seq<Correspondence>, z: spec_fn(int) -> real, s: real)
    requires
        s == total(z, 6),
    ensures
        ({
            let m = (8 * rows.len()) as real;
            let b = tiny() * summed(rows, reach());
            form(|i: int, k: int| entry_error(rows, summed(rows, size_term(i, k))), z, 6) == m * (
            half_unit() * form(size_matrix(rows), z, 6) + (b * s) * s)
        }),
{
    let m = (8 * rows.len()) as real;
    let h = half_unit();
    let b = tiny() * summed(rows, reach());
    let a = size_matrix(rows);
    let one = |k: int| 1 as real;
    let scaled = |i: int, k: int| h * a(i, k);
    let flat = |i: int, k: int| (b * one(i)) * one(k);
    let both = |i: int, k: int| scaled(i, k) + flat(i, k);
    let e = |i: int, k: int| entry_error(rows, summed(rows, size_term(i, k)));
    assert forall|i: int, k: int| 0 <= i < 6 && 0 <= k < 6 implies #[trigger] e(i, k) == m * both(
        i,
        k,
    ) by {
        lemma_real_one(b);
    }
    lemma_form_same(e, |i: int, k: int| m * both(i, k), z, 6);
    lemma_form_scaled(both, m, z, 6);
    lemma_form_same(both, |i: int, k: int| scaled(i, k) + flat(i, k), z, 6);
    lemma_form_added(scaled, flat, z, 6);
    lemma_form_scaled(a, h, z, 6);
    lemma_form_same(scaled, |i: int, k: int| h * a(i, k), z, 6);
    lemma_form_outer(b, one, z, 6);
    lemma_form_same(flat, |i: int, k: int| (b * one(i)) * one(k), z, 6);
    let p = |k: int| one(k) * z(k);
    assert forall|k: int| 0 <= k < 6 implies #[trigger] p(k) == z(k) by {
        lemma_real_one(z(k));
    }
    lemma_total_same(p, z, 6);
}

/// The diagonal of the matrix of absolute values against that of the accumulated matrix.
proof fn lemma_diagonals_hold(rows: Seq<Correspondence>, z: spec_fn(int) -> real, s: real)
    requires
        rows.len() <= 0x0002_0000_0000_0000,
        has_weights(rows),
        forall|i: int| 0 <= i < 6 ==> is_finite(#[trigger] normal_entry(rows, i, i)),
        forall|i: int| 0 <= i < 6 ==> #[trigger] z(i) >= 0 as real,
        s == total(z, 6),
    ensures
        ({
            let b = ((8 * rows.len()) as real) * (tiny() * summed(rows, reach()));
            diagonal_sum(rows, z) <= (2 as real) * total(
                |i: int| (z(i) * z(i)) * value(normal_entry(rows, i, i)),
                6,
            ) + (2 as real) * (b * (s * s))
        }),
{
    let b = ((8 * rows.len()) as real) * (tiny() * summed(rows, reach()));
    let two = 2 as real;
    let f = |i: int| (z(i) * z(i)) * summed(rows, size_term(i, i));
    let g = |i: int| (z(i) * z(i)) * value(normal_entry(rows, i, i));
    let q = |i: int| z(i) * z(i);
    let r = |i: int| two * g(i) + (two * b) * q(i);
    assert forall|i: int| 0 <= i < 6 implies #[trigger] f(i) <= r(i) by {
        assert(is_finite(normal_entry(rows, i, i)));
        lemma_diagonal_holds(rows, i);
        let (a, v) = (summed(rows, size_term(i, i)), value(normal_entry(rows, i, i)));
        lemma_square_nonnegative(z(i));
        lemma_real_mul_ordered(a, two * v + two * b, q(i));
        lemma_real_distributes(two * v, two * b, q(i));
        lemma_real_associative(two, v, q(i));
        lemma_real_associative(v, q(i), v);
        lemma_real_associative(a, q(i), v);
    }
    lemma_total_ordered(f, r, 6);
    let (g2, q2) = (|i: int| two * g(i), |i: int| (two * b) * q(i));
    lemma_total_scaled(g, two, 6);
    lemma_total_scaled(q, two * b, 6);
    lemma_total_added(g2, q2, 6);
    lemma_total_same(r, |i: int| g2(i) + q2(i), 6);
    lemma_total_same(g2, |i: int| two * g(i), 6);
    lemma_total_same(q2, |i: int| (two * b) * q(i), 6);
    // the sum of the squares is at most the square of the sum
    let c = |i: int| s * z(i);
    assert forall|i: int| 0 <= i < 6 implies #[trigger] q(i) <= c(i) by {
        assert(z(i) >= 0 as real);
        lemma_total_holds(z, 6, i);
        lemma_real_mul_ordered(z(i), s, z(i));
    }
    lemma_total_ordered(q, c, 6);
    lemma_total_scaled(z, s, 6);
    lemma_total_same(c, |i: int| s * z(i), 6);
    lemma_reach_not_negative(rows);
    lemma_tiny_positive();
    lemma_abs_product(tiny(), summed(rows, reach()));
    lemma_abs_product((8 * rows.len()) as real, tiny() * summed(rows, reach()));
    lemma_real_mul_ordered(total(q, 6), s * s, b);
    lemma_real_associative(two, b, total(q, 6));
    lemma_real_associative(total(q, 6), b, b);
    lemma_real_associative(s * s, b, b);
}

pub proof fn lemma_reach_not_negative(rows: Seq<Correspondence>)
    ensures
        summed(rows, reach()) >= 0 as real,
    decreases rows.len(),
{
    if rows.len() > 0 {
        lemma_reach_not_negative(rows.drop_last());
        let c = rows.last();
        lemma_total_not_negative(|k: int| abs(value(c.jacobian[k])), 6);
    }
}

/// The linear part: `u` is `m h` times the sum over the diagonal, and `v` is `m b s s`.
proof fn lemma_form_bound(m: real, h: real, fa: real, d: real, da: real, b: real, ss: real)
    requires
        fa <= (6 as real) * d,
        d <= (2 as real) * da + (2 as real) * ((m * b) * ss),
        0 as real <= m * h <= (1 as real) / (2 as real),
        (m * b) * ss >= 0 as real,
    ensures
        (m * h) * fa + (m * b) * ss <= (12 as real) * ((m * h) * da) + (7 as real) * ((m * b) * ss),
{
    let c = m * h;
    let e = (m * b) * ss;
    let t = (12 as real) * da + (12 as real) * e;
    lemma_real_mul_ordered(fa, t, c);
    lemma_real_associative(fa, c, c);
    lemma_real_associative(t, c, c);
    lemma_real_distributes((12 as real) * da, (12 as real) * e, c);
    lemma_real_associative(12 as real, da, c);
    lemma_real_associative(12 as real, e, c);
    lemma_real_associative(da, c, c);
    lemma_real_mul_ordered(c, (1 as real) / (2 as real), e);
    lemma_real_associative(e, c, c);
    lemma_half(e);
}

/// The form of the accumulated matrix is that of the exact one up to the error.
proof fn lemma_form_nearly_exact(rows: Seq<Correspondence>, x: spec_fn(int) -> real)
    requires
        rows.len() <= 0x0002_0000_0000_0000,
        has_weights(rows),
        forall|i: int, k: int|
            0 <= i < 6 && 0 <= k < 6 ==> is_finite(#[trigger] normal_entry(rows, i, k)),
    ensures
        abs(
            form(|i: int, k: int| value(normal_entry(rows, i, k)), x, 6) - form(
                exact_matrix(rows),
                x,
                6,
            ),
        ) <= form_error(
            rows,
            total(|i: int| (x(i) * x(i)) * value(normal_entry(rows, i, i)), 6),
            total(|i: int| abs(x(i)), 6),
        ),
{
    let m = (8 * rows.len()) as real;
    let n = rows.len() as real;
    let h = half_unit();
    let b = tiny() * summed(rows, reach());
    let z = |i: int| abs(x(i));
    let s = total(z, 6);
    let v = |i: int, k: int| value(normal_entry(rows, i, k));
    let e = |i: int, k: int| entry_error(rows, summed(rows, size_term(i, k)));
    assert forall|i: int, k: int| 0 <= i < 6 && 0 <= k < 6 implies abs(
        #[trigger] v(i, k) - exact_matrix(rows)(i, k),
    ) <= e(i, k) by {
        assert(is_finite(normal_entry(rows, i, k)));
        lemma_entry_near(rows, i, k);
    }
    lemma_form_near(v, exact_matrix(rows), e, x, 6);
    lemma_bound_form(rows, z, s);
    lemma_size_form(rows, z);
    assert forall|i: int| 0 <= i < 6 implies is_finite(#[trigger] normal_entry(rows, i, i)) by {}
    lemma_diagonals_hold(rows, z, s);
    let g = |i: int| (z(i) * z(i)) * value(normal_entry(rows, i, i));
    let gx = |i: int| (x(i) * x(i)) * value(normal_entry(rows, i, i));
    assert forall|i: int| 0 <= i < 6 implies #[trigger] g(i) == gx(i) by {
        lemma_abs_product(x(i), x(i));
        lemma_square_nonnegative(x(i));
    }
    lemma_total_same(g, gx, 6);
    let (fa, d, da) = (form(size_matrix(rows), z, 6), diagonal_sum(rows, z), total(g, 6));
    // m (h fa + b s s)
    lemma_real_associative(b, s, s);
    lemma_real_distributes(h * fa, (b * s) * s, m);
    lemma_real_associative(h * fa, m, m);
    lemma_real_associative((b * s) * s, m, m);
    lemma_real_associative(h * fa + (b * s) * s, m, m);
    lemma_real_associative(m, h, fa);
    lemma_real_associative(m, b, s * s);
    lemma_unit_of(m);
    lemma_reach_not_negative(rows);
    lemma_tiny_positive();
    lemma_abs_product(tiny(), summed(rows, reach()));
    lemma_square_nonnegative(s);
    lemma_abs_product(m, b);
    lemma_abs_product(m * b, s * s);
    lemma_form_bound(m, h, fa, d, da, b, s * s);
    // the counts
    assert(m == (8 as real) * n);
    lemma_real_associative(m, h, da);
    assert((96 * rows.len()) as real == (12 as real) * m);
    assert((56 * rows.len()) as real == (7 as real) * m);
    lemma_real_associative(12 as real, m, h * da);
    lemma_real_associative(7 as real, m, b * (s * s));
    lemma_total_same(z, |i: int| abs(x(i)), 6);
}

/// The accumulated matrix weighs what the correspondences notice of a motion: where they and the
/// entries are finite, `x^T a x` is the weighted sum of the squares of the changes of their
/// residuals, up to the error of the form.
pub proof fn law_normal_matrix_weighs_motions(
    src: RgbdLevel,
    tgt: RgbdLevel,
    pose: Pose,
    gate: Gate,
    view: spec_fn([Binary64; 3]) -> Option<[Binary64; 2]>,
    x: spec_fn(int) -> real,
)
    requires
        fl_le(fl(0), gate.huber_delta),
        has_finite_rows(src, tgt, pose, gate, view),
        src.num_pixels() <= 0x0002_0000_0000_0000,
        forall|i: int, k: int|
            0 <= i < 6 && 0 <= k < 6 ==> is_finite(
                #[trigger] pass(src, tgt, pose, gate, view).a[i][k],
            ),
    ensures
        ({
            let a = pass(src, tgt, pose, gate, view).a;
            let rows = inliers(src, tgt, pose, gate, view, src.num_pixels());
            &&& has_weights(rows)
            &&& abs(
                form(|i: int, k: int| value(a[i][k]), x, 6) - summed(rows, noticing(x)),
            ) <= form_error(
                rows,
                total(|i: int| (x(i) * x(i)) * value(a[i][i]), 6),
                total(|i: int| abs(x(i)), 6),
            )
        }),
{
    let n = src.num_pixels();
    let rows = inliers(src, tgt, pose, gate, view, n);
    let a = pass(src, tgt, pose, gate, view).a;
    lemma_counts_nested(src, tgt, pose, gate, view, n);
    lemma_weights_bounded(src, tgt, pose, gate, view, n);
    assert forall|r: int| 0 <= r < rows.len() implies value((#[trigger] rows[r]).weight)
        >= 0 as real by {
        assert(is_finite_row(rows[r]));
        lemma_weight_value(rows[r].weight);
    }
    assert forall|i: int, k: int| 0 <= i < 6 && 0 <= k < 6 implies is_finite(
        #[trigger] normal_entry(rows, i, k),
    ) && a[i][k] == normal_entry(rows, i, k) by {
        assert(a[i] == normal_row(rows, i));
        assert(is_finite(a[i][k]));
    }
    lemma_form_nearly_exact(rows, x);
    lemma_exact_form(rows, x);
    lemma_form_same(
        |i: int, k: int| value(a[i][k]),
        |i: int, k: int| value(normal_entry(rows, i, k)),
        x,
        6,
    );
    lemma_total_same(
        |i: int| (x(i) * x(i)) * value(a[i][i]),
        |i: int| (x(i) * x(i)) * value(normal_entry(rows, i, i)),
        6,
    );
}

/// The accumulated matrix is nearly positive semidefinite: where the correspondences and the
/// entries are finite, `x^T a x` does not fall below zero by more than a part of the sum of
/// `x_i^2 a_ii` that grows with the number of correspondences, and what is lost below the normal
/// numbers.
pub proof fn law_normal_matrix_nearly_semidefinite(
    src: RgbdLevel,
    tgt: RgbdLevel,
    pose: Pose,
    gate: Gate,
    view: spec_fn([Binary64; 3]) -> Option<[Binary64; 2]>,
    x: spec_fn(int) -> real,
)
    requires
        fl_le(fl(0), gate.huber_delta),
        has_finite_rows(src, tgt, pose, gate, view),
        src.num_pixels() <= 0x0002_0000_0000_0000,
        forall|i: int, k: int|
            0 <= i < 6 && 0 <= k < 6 ==> is_finite(
                #[trigger] pass(src, tgt, pose, gate, view).a[i][k],
            ),
    ensures
        ({
            let a = pass(src, tgt, pose, gate, view).a;
            form(|i: int, k: int| value(a[i][k]), x, 6) >= -form_error(
                inliers(src, tgt, pose, gate, view, src.num_pixels()),
                total(|i: int| (x(i) * x(i)) * value(a[i][i]), 6),
                total(|i: int| abs(x(i)), 6),
            )
        }),
{
    law_normal_matrix_weighs_motions(src, tgt, pose, gate, view, x);
    lemma_noticing_not_negative(inliers(src, tgt, pose, gate, view, src.num_pixels()), x);
}

/// The accumulated matrix nearly vanishes along a motion that no correspondence notices: where
/// the correspondences and the entries are finite, `x^T a x` is zero up to the error of the form.
pub proof fn law_unnoticed_motion_nearly_vanishes(
    src: RgbdLevel,
    tgt: RgbdLevel,
    pose: Pose,
    gate: Gate,
    view: spec_fn([Binary64; 3]) -> Option<[Binary64; 2]>,
    x: spec_fn(int) -> real,
)
    requires
        fl_le(fl(0), gate.huber_delta),
        has_finite_rows(src, tgt, pose, gate, view),
        src.num_pixels() <= 0x0002_0000_0000_0000,
        forall|i: int, k: int|
            0 <= i < 6 && 0 <= k < 6 ==> is_finite(
                #[trigger] pass(src, tgt, pose, gate, view).a[i][k],
            ),
        ({
            let rows = inliers(src, tgt, pose, gate, view, src.num_pixels());
            forall|r: int| 0 <= r < rows.len() ==> is_unnoticed(#[trigger] rows[r], x)
        }),
    ensures
        ({
            let a = pass(src, tgt, pose, gate, view).a;
            abs(form(|i: int, k: int| value(a[i][k]), x, 6)) <= form_error(
                inliers(src, tgt, pose, gate, view, src.num_pixels()),
                total(|i: int| (x(i) * x(i)) * value(a[i][i]), 6),
                total(|i: int| abs(x(i)), 6),
            )
        }),
{
    let rows = inliers(src, tgt, pose, gate, view, src.num_pixels());
    law_normal_matrix_weighs_motions(src, tgt, pose, gate, view, x);
    lemma_noticing_vanishes(rows, x);
}

} // verus!
