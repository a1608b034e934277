//! What holds of the sums over correspondences where no step rounds, over the real numbers.
use crate::accumulation::{
    has_finite_rows, is_finite_row, is_joined, is_weight, law_parts_add_up, lemma_weights_bounded,
};
use crate::binary64::{fl_le, magnitude, Binary64};
use crate::errors::{
    lemma_real_associative, lemma_real_distributes, lemma_real_mul_ordered, lemma_value_positive,
    lemma_zero_value, value,
};
use crate::exactness::is_zero;
use crate::icp::{
    inliers, normal_entry, normal_row, pass, sum_jj, sum_jr, sum_rr, Correspondence, Gate, Pose,
};
use crate::identities::lemma_outer_term;
use crate::linear::fl;
use crate::rgbd::RgbdLevel;
use crate::rotations::lemma_square_nonnegative;
use crate::totals::{
    lemma_total_added, lemma_total_same, lemma_total_scaled, lemma_total_zero, total,
};
use vstd::prelude::*;

verus! {

/// Whether the last correspondence enters the sums without rounding.
pub open spec fn enters_exactly(rows: Seq<Correspondence>) -> bool {
    let c = rows.last();
    let before = rows.drop_last();
    &&& forall|i: int, k: int|
        0 <= i < 6 && 0 <= k < 6 ==> value(#[trigger] sum_jj(rows, i, k)) == value(
            sum_jj(before, i, k),
        ) + (value(c.weight) * value(c.jacobian[i])) * value(c.jacobian[k])
    &&& forall|i: int|
        0 <= i < 6 ==> value(#[trigger] sum_jr(rows, i)) == value(sum_jr(before, i)) + (value(
            c.weight,
        ) * value(c.jacobian[i])) * value(c.residual)
    &&& value(sum_rr(rows)) == value(sum_rr(before)) + value(c.residual) * value(c.residual)
}

/// Whether the sums over correspondences round in no step.
pub open spec fn sums_exactly(rows: Seq<Correspondence>) -> bool
    decreases rows.len(),
{
    rows.len() == 0 || (sums_exactly(rows.drop_last()) && enters_exactly(rows))
}

/// The sums of a sequence of correspondences are those of its parts, added: where no step rounds,
/// entry by entry.
pub proof fn law_sums_of_parts_add(
    first: Seq<Correspondence>,
    second: Seq<Correspondence>,
    i: int,
    k: int,
)
    requires
        0 <= i < 6,
        0 <= k < 6,
        sums_exactly(first),
        sums_exactly(second),
        sums_exactly(first + second),
    ensures
        value(normal_entry(first + second, i, k)) == value(normal_entry(first, i, k)) + value(
            normal_entry(second, i, k),
        ),
        value(sum_jr(first + second, i)) == value(sum_jr(first, i)) + value(sum_jr(second, i)),
        value(sum_rr(first + second)) == value(sum_rr(first)) + value(sum_rr(second)),
    decreases second.len(),
{
    let whole = first + second;
    if second.len() == 0 {
        assert(whole =~= first);
        lemma_zero_value(fl(0));
    } else {
        let before = second.drop_last();
        assert(whole.drop_last() =~= first + before);
        assert(whole.last() == second.last());
        law_sums_of_parts_add(first, before, i, k);
        assert(enters_exactly(whole) && enters_exactly(second));
    }
}

/// The equations of source maps that are joined from two parts are those of the parts, added:
/// where no step rounds, entry by entry.
pub proof fn law_equations_of_parts_add(
    whole: RgbdLevel,
    first: RgbdLevel,
    second: RgbdLevel,
    tgt: RgbdLevel,
    pose: Pose,
    gate: Gate,
    view: spec_fn([Binary64; 3]) -> Option<[Binary64; 2]>,
    i: int,
    k: int,
)
    requires
        is_joined(whole, first, second),
        sums_exactly(inliers(whole, tgt, pose, gate, view, whole.num_pixels())),
        sums_exactly(inliers(first, tgt, pose, gate, view, first.num_pixels())),
        sums_exactly(inliers(second, tgt, pose, gate, view, second.num_pixels())),
        0 <= i < 6,
        0 <= k < 6,
    ensures
        ({
            let eqs = pass(whole, tgt, pose, gate, view);
            let e1 = pass(first, tgt, pose, gate, view);
            let e2 = pass(second, tgt, pose, gate, view);
            &&& value(eqs.a[i][k]) == value(e1.a[i][k]) + value(e2.a[i][k])
            &&& value(eqs.b[i]) == value(e1.b[i]) + value(e2.b[i])
            &&& value(eqs.sum_sq_residual) == value(e1.sum_sq_residual) + value(e2.sum_sq_residual)
        }),
{
    law_parts_add_up(whole, first, second, tgt, pose, gate, view);
    let p = inliers(first, tgt, pose, gate, view, first.num_pixels());
    let q = inliers(second, tgt, pose, gate, view, second.num_pixels());
    law_sums_of_parts_add(p, q, i, k);
    assert(pass(whole, tgt, pose, gate, view).a[i] == normal_row(p + q, i));
    assert(pass(first, tgt, pose, gate, view).a[i] == normal_row(p, i));
    assert(pass(second, tgt, pose, gate, view).a[i] == normal_row(q, i));
}

/// `x^T a x` for the accumulated matrix `a`.
pub open spec fn quadratic(rows: Seq<Correspondence>, x: spec_fn(int) -> real) -> real {
    total(|i: int| x(i) * total(|k: int| value(normal_entry(rows, i, k)) * x(k), 6), 6)
}

/// The accumulated matrix is positive semidefinite where no step rounds.
pub proof fn law_normal_matrix_semidefinite(
    src: RgbdLevel,
    tgt: RgbdLevel,
    pose: Pose,
    gate: Gate,
    view: spec_fn([Binary64; 3]) -> Option<[Binary64; 2]>,
    x: spec_fn(int) -> real,
)
    requires
        fl_le(fl(0), gate.huber_delta),
        has_finite_rows(src, tgt, pose, gate, view),
        sums_exactly(inliers(src, tgt, pose, gate, view, src.num_pixels())),
    ensures
        total(
            |i: int|
                x(i) * total(
                    |k: int| value(pass(src, tgt, pose, gate, view).a[i][k]) * x(k),
                    6,
                ),
            6,
        ) >= 0 as real,
{
    let n = src.num_pixels();
    let rows = inliers(src, tgt, pose, gate, view, n);
    let a = pass(src, tgt, pose, gate, view).a;
    lemma_weights_bounded(src, tgt, pose, gate, view, n);
    assert forall|r: int| 0 <= r < rows.len() implies value(
        (#[trigger] rows[r]).weight,
    ) >= 0 as real by {
        assert(is_finite_row(rows[r]));
        lemma_weight_value(rows[r].weight);
    }
    lemma_quadratic_grows(rows, x);
    let f = |i: int| x(i) * total(|k: int| value(a[i][k]) * x(k), 6);
    let g = |i: int| x(i) * total(|k: int| value(normal_entry(rows, i, k)) * x(k), 6);
    assert forall|i: int| 0 <= i < 6 implies #[trigger] f(i) == g(i) by {
        assert(a[i] == normal_row(rows, i));
        lemma_total_same(
            |k: int| value(a[i][k]) * x(k),
            |k: int| value(normal_entry(rows, i, k)) * x(k),
            6,
        );
    }
    lemma_total_same(f, g, 6);
}

/// A number that is not below zero, as a real number.
pub proof fn lemma_weight_value(w: Binary64)
    requires
        is_weight(w),
    ensures
        value(w) >= 0 as real,
{
    reveal(fl_le);
    if is_zero(w) {
        lemma_zero_value(w);
    } else {
        lemma_value_positive(magnitude(w));
    }
}

proof fn lemma_quadratic_grows(rows: Seq<Correspondence>, x: spec_fn(int) -> real)
    requires
        sums_exactly(rows),
        forall|r: int| 0 <= r < rows.len() ==> value((#[trigger] rows[r]).weight) >= 0 as real,
    ensures
        quadratic(rows, x) >= 0 as real,
    decreases rows.len(),
{
    if rows.len() == 0 {
        lemma_quadratic_of_none(rows, x);
    } else {
        let before = rows.drop_last();
        assert forall|r: int| 0 <= r < before.len() implies value(
            (#[trigger] before[r]).weight,
        ) >= 0 as real by {
            assert(before[r] == rows[r]);
        }
        lemma_quadratic_grows(before, x);
        lemma_quadratic_step(rows, x);
        let w = value(rows.last().weight);
        assert(rows[rows.len() - 1] == rows.last());
        let d = total(|k: int| value(rows.last().jacobian[k]) * x(k), 6);
        lemma_square_nonnegative(d);
        lemma_real_mul_ordered(0 as real, w, d * d);
        lemma_real_distributes(0 as real, 0 as real, d * d);
        lemma_real_associative(w, d, d);
    }
}

proof fn lemma_quadratic_of_none(rows: Seq<Correspondence>, x: spec_fn(int) -> real)
    requires
        rows.len() == 0,
    ensures
        quadratic(rows, x) == 0 as real,
{
    let f = |i: int| x(i) * total(|k: int| value(normal_entry(rows, i, k)) * x(k), 6);
    lemma_zero_value(fl(0));
    assert forall|i: int| 0 <= i < 6 implies #[trigger] f(i) == 0 as real by {
        let g = |k: int| value(normal_entry(rows, i, k)) * x(k);
        assert forall|k: int| 0 <= k < 6 implies #[trigger] g(k) == 0 as real by {
            lemma_real_distributes(0 as real, 0 as real, x(k));
        }
        lemma_total_zero(g, 6);
        lemma_real_distributes(0 as real, 0 as real, x(i));
        lemma_real_associative(0 as real, x(i), x(i));
    }
    lemma_total_zero(f, 6);
}

/// An entry of the matrix grows by the product of the last row's entries.
proof fn lemma_entry_step(rows: Seq<Correspondence>, i: int, k: int)
    requires
        0 <= i < 6,
        0 <= k < 6,
        enters_exactly(rows),
    ensures
        value(normal_entry(rows, i, k)) == value(normal_entry(rows.drop_last(), i, k)) + (value(
            rows.last().weight,
        ) * value(rows.last().jacobian[i])) * value(rows.last().jacobian[k]),
{
    let c = rows.last();
    lemma_real_associative(value(c.weight), value(c.jacobian[i]), value(c.jacobian[k]));
}

/// A row of `a x` grows by the last row's entry times its product with `x`.
pub proof fn lemma_row_step(rows: Seq<Correspondence>, x: spec_fn(int) -> real, i: int)
    requires
        0 <= i < 6,
        enters_exactly(rows),
    ensures
        ({
            let c = rows.last();
            total(|k: int| value(normal_entry(rows, i, k)) * x(k), 6) == total(
                |k: int| value(normal_entry(rows.drop_last(), i, k)) * x(k),
                6,
            ) + (value(c.weight) * value(c.jacobian[i])) * total(
                |k: int| value(c.jacobian[k]) * x(k),
                6,
            )
        }),
{
    let c = rows.last();
    let before = rows.drop_last();
    let w = value(c.weight) * value(c.jacobian[i]);
    let f = |k: int| value(normal_entry(rows, i, k)) * x(k);
    let g = |k: int| value(normal_entry(before, i, k)) * x(k);
    let j = |k: int| value(c.jacobian[k]) * x(k);
    let h = |k: int| w * j(k);
    assert forall|k: int| 0 <= k < 6 implies #[trigger] f(k) == g(k) + h(k) by {
        lemma_entry_step(rows, i, k);
        let v = value(c.jacobian[k]);
        lemma_real_distributes(value(normal_entry(before, i, k)), w * v, x(k));
        lemma_real_associative(w, v, x(k));
    }
    lemma_total_same(f, |k: int| g(k) + h(k), 6);
    lemma_total_added(g, h, 6);
    lemma_total_scaled(j, w, 6);
    lemma_total_same(h, |k: int| w * j(k), 6);
}

/// `x^T a x` grows by the weight times the square of the last row's product with `x`.
proof fn lemma_quadratic_step(rows: Seq<Correspondence>, x: spec_fn(int) -> real)
    requires
        enters_exactly(rows),
    ensures
        ({
            let c = rows.last();
            let d = total(|k: int| value(c.jacobian[k]) * x(k), 6);
            quadratic(rows, x) == quadratic(rows.drop_last(), x) + (value(c.weight) * d) * d
        }),
{
    let c = rows.last();
    let before = rows.drop_last();
    let w = value(c.weight);
    let j = |k: int| value(c.jacobian[k]) * x(k);
    let d = total(j, 6);
    let f = |i: int| x(i) * total(|k: int| value(normal_entry(rows, i, k)) * x(k), 6);
    let g = |i: int| x(i) * total(|k: int| value(normal_entry(before, i, k)) * x(k), 6);
    let h = |i: int| (w * d) * j(i);
    assert forall|i: int| 0 <= i < 6 implies #[trigger] f(i) == g(i) + h(i) by {
        lemma_row_step(rows, x, i);
        let v = value(c.jacobian[i]);
        let t = total(|k: int| value(normal_entry(before, i, k)) * x(k), 6);
        lemma_total_same(j, |k: int| value(c.jacobian[k]) * x(k), 6);
        lemma_outer_term(x(i), w, v, d);
        lemma_real_distributes(t, (w * v) * d, x(i));
        lemma_real_associative(t, x(i), x(i));
        lemma_real_associative((w * v) * d, x(i), x(i));
        lemma_real_associative(t + (w * v) * d, x(i), x(i));
    }
    lemma_total_same(f, |i: int| g(i) + h(i), 6);
    lemma_total_added(g, h, 6);
    lemma_total_scaled(j, w * d, 6);
    lemma_total_same(h, |i: int| (w * d) * j(i), 6);
    lemma_total_same(j, |k: int| value(c.jacobian[k]) * x(k), 6);
}

} // verus!
