//! What holds of the sums over correspondences up to rounding.
use crate::accumulation::{is_joined, law_parts_add_up};
use crate::binary64::{fl_add, fl_mul, Binary64};
use crate::chains::{lemma_finite_operands, lemma_tiny_positive, lemma_unit_of, unit_of};
use crate::errors::{
    abs, half_unit, lemma_add_value, lemma_real_associative, lemma_real_distributes,
    lemma_real_mul_ordered, lemma_zero_value, tiny, value,
};
use crate::exactness::is_finite;
use crate::icp::{
    inliers, lemma_counts_nested, normal_entry, normal_row, pass, sum_jj, sum_jr, sum_rr,
    Correspondence, Gate, Pose,
};
use crate::linear::fl;
use crate::rgbd::RgbdLevel;
use vstd::prelude::*;

verus! {

// ---------------------------------------------------------------------------
// Sums from the first term on
// ---------------------------------------------------------------------------

/// The terms of a sum over correspondences, added from the first on.
pub open spec fn folded(
    rows: Seq<Correspondence>,
    t: spec_fn(Correspondence) -> Binary64,
) -> Binary64
    decreases rows.len(),
{
    if rows.len() == 0 {
        fl(0)
    } else {
        fl_add(folded(rows.drop_last(), t), t(rows.last()))
    }
}

/// The exact sum of the terms.
pub open spec fn summed(rows: Seq<Correspondence>, t: spec_fn(Correspondence) -> real) -> real
    decreases rows.len(),
{
    if rows.len() == 0 {
        0 as real
    } else {
        summed(rows.drop_last(), t) + t(rows.last())
    }
}

/// The values of terms.
pub open spec fn values(t: spec_fn(Correspondence) -> Binary64) -> spec_fn(Correspondence) -> real {
    |c: Correspondence| value(t(c))
}

/// The absolute values of terms.
pub open spec fn sizes(t: spec_fn(Correspondence) -> Binary64) -> spec_fn(Correspondence) -> real {
    |c: Correspondence| abs(value(t(c)))
}

/// The error of a sum of `n` terms whose absolute values add up to `size`.
pub open spec fn fold_error(n: nat, size: real) -> real {
    ((2 * n) as real) * (half_unit() * size + tiny())
}

/// A sum is bounded by that of the absolute values.
proof fn lemma_summed_bounded(rows: Seq<Correspondence>, t: spec_fn(Correspondence) -> Binary64)
    ensures
        abs(summed(rows, values(t))) <= summed(rows, sizes(t)),
    decreases rows.len(),
{
    if rows.len() > 0 {
        lemma_summed_bounded(rows.drop_last(), t);
    }
}

/// The linear part of a step: `s` is the sum before, `e` how far it strays from `x`, and `n` the
/// sum with the term `t`.
proof fn lemma_fold_step(s: real, x: real, t: real, n: real, e: real, size: real, d: real)
    requires
        abs(s - x) <= e,
        abs(n - (s + t)) <= unit_of(s + t) + d,
        abs(x + t) <= size,
        e <= (0x0020_0000_0000_0000 as real) * (half_unit() * size + d),
        d >= 0 as real,
    ensures
        abs(n - (x + t)) <= e + (2 as real) * (half_unit() * size + d),
{
    lemma_unit_of(s + t);
    lemma_unit_of(size);
    lemma_real_associative(size, half_unit(), size);
}

/// A sum strays from the exact one by twice a unit of the sum of the absolute values for each
/// term.
pub proof fn lemma_folded_near(rows: Seq<Correspondence>, t: spec_fn(Correspondence) -> Binary64)
    requires
        rows.len() <= 0x0010_0000_0000_0000,
        is_finite(folded(rows, t)),
    ensures
        abs(value(folded(rows, t)) - summed(rows, values(t))) <= fold_error(
            rows.len(),
            summed(rows, sizes(t)),
        ),
    decreases rows.len(),
{
    lemma_tiny_positive();
    let size = summed(rows, sizes(t));
    lemma_summed_bounded(rows, t);
    lemma_unit_of(size);
    lemma_real_associative(size, half_unit(), size);
    if rows.len() == 0 {
        lemma_zero_value(fl(0));
        lemma_real_distributes(0 as real, 0 as real, half_unit() * size + tiny());
    } else {
        let before = rows.drop_last();
        let (s, c) = (folded(before, t), t(rows.last()));
        lemma_finite_operands(s, c);
        lemma_folded_near(before, t);
        lemma_add_value(s, c);
        let small = summed(before, sizes(t));
        lemma_summed_bounded(before, t);
        let m = (2 * before.len()) as real;
        let (x, y) = (half_unit() * small + tiny(), half_unit() * size + tiny());
        lemma_real_mul_ordered(small, size, half_unit());
        lemma_real_associative(small, half_unit(), small);
        lemma_real_mul_ordered(x, y, m);
        lemma_real_associative(x, m, m);
        lemma_real_associative(y, m, m);
        lemma_real_mul_ordered(m, 0x0020_0000_0000_0000 as real, y);
        lemma_fold_step(
            value(s),
            summed(before, values(t)),
            value(c),
            value(folded(rows, t)),
            m * y,
            size,
            tiny(),
        );
        lemma_real_distributes(m, 2 as real, y);
        assert((2 * rows.len()) as real == m + (2 as real));
    }
}

/// The exact sum over two parts.
pub proof fn lemma_summed_parts(
    first: Seq<Correspondence>,
    second: Seq<Correspondence>,
    t: spec_fn(Correspondence) -> real,
)
    ensures
        summed(first + second, t) == summed(first, t) + summed(second, t),
    decreases second.len(),
{
    if second.len() == 0 {
        assert(first + second =~= first);
    } else {
        assert((first + second).drop_last() =~= first + second.drop_last());
        assert((first + second).last() == second.last());
        lemma_summed_parts(first, second.drop_last(), t);
    }
}

/// The bound on what the sum over `n` terms differs from the sums over its two parts.
pub open spec fn parts_error(n: nat, size: real) -> real {
    ((4 * n) as real) * (half_unit() * size + tiny())
}

/// The sums over two parts nearly add up to that over both.
proof fn lemma_folded_parts(
    first: Seq<Correspondence>,
    second: Seq<Correspondence>,
    t: spec_fn(Correspondence) -> Binary64,
)
    requires
        first.len() + second.len() <= 0x0010_0000_0000_0000,
        is_finite(folded(first, t)),
        is_finite(folded(second, t)),
        is_finite(folded(first + second, t)),
    ensures
        abs(
            value(folded(first + second, t)) - value(folded(first, t)) - value(folded(second, t)),
        ) <= parts_error(first.len() + second.len(), summed(first + second, sizes(t))),
{
    let whole = first + second;
    lemma_folded_near(first, t);
    lemma_folded_near(second, t);
    lemma_folded_near(whole, t);
    lemma_summed_parts(first, second, values(t));
    lemma_summed_parts(first, second, sizes(t));
    lemma_summed_bounded(first, t);
    lemma_summed_bounded(second, t);
    lemma_tiny_positive();
    let (p, q) = (first.len(), second.len());
    let (u, v, w) = (summed(first, sizes(t)), summed(second, sizes(t)), summed(whole, sizes(t)));
    lemma_error_ordered(p, u, w);
    lemma_error_ordered(q, v, w);
    let y = half_unit() * w + tiny();
    let (m, n) = ((2 * p) as real, (2 * q) as real);
    lemma_real_distributes(m, n, y);
    lemma_real_distributes(m + n, m + n, y);
    assert((2 * (p + q)) as real == m + n);
    assert((4 * (p + q)) as real == (m + n) + (m + n));
}

/// A larger size has a larger error.
proof fn lemma_error_ordered(n: nat, small: real, size: real)
    requires
        small <= size,
    ensures
        fold_error(n, small) <= fold_error(n, size),
{
    lemma_real_mul_ordered(small, size, half_unit());
    lemma_real_associative(small, half_unit(), small);
    lemma_real_associative(size, half_unit(), size);
    let (x, y) = (half_unit() * small + tiny(), half_unit() * size + tiny());
    let m = (2 * n) as real;
    lemma_real_mul_ordered(x, y, m);
    lemma_real_associative(x, m, m);
    lemma_real_associative(y, m, m);
}

// ---------------------------------------------------------------------------
// The sums of a pass
// ---------------------------------------------------------------------------

/// The term of a correspondence in entry `(i, k)` of `J^T W J`.
pub open spec fn jj_term(i: int, k: int) -> spec_fn(Correspondence) -> Binary64 {
    |c: Correspondence| fl_mul(fl_mul(c.weight, c.jacobian[i]), c.jacobian[k])
}

/// The term of a correspondence in entry `i` of `J^T W r`.
pub open spec fn jr_term(i: int) -> spec_fn(Correspondence) -> Binary64 {
    |c: Correspondence| fl_mul(fl_mul(c.weight, c.jacobian[i]), c.residual)
}

/// The square of the residual of a correspondence.
pub open spec fn rr_term() -> spec_fn(Correspondence) -> Binary64 {
    |c: Correspondence| fl_mul(c.residual, c.residual)
}

/// The sums of a pass are sums of terms.
pub proof fn lemma_sums_folded(rows: Seq<Correspondence>, i: int, k: int)
    ensures
        sum_jj(rows, i, k) == folded(rows, jj_term(i, k)),
        sum_jr(rows, i) == folded(rows, jr_term(i)),
        sum_rr(rows) == folded(rows, rr_term()),
    decreases rows.len(),
{
    if rows.len() > 0 {
        lemma_sums_folded(rows.drop_last(), i, k);
    }
}

/// The sum of the absolute values of the terms of entry `(i, k)`.
pub open spec fn entry_size(rows: Seq<Correspondence>, i: int, k: int) -> real {
    if i <= k {
        summed(rows, sizes(jj_term(i, k)))
    } else {
        summed(rows, sizes(jj_term(k, i)))
    }
}

/// The sums over correspondences are nearly those over two parts, added: where they are finite,
/// the difference is bounded by the number of correspondences times a part of the sum of the
/// absolute values of the terms.
pub proof fn law_sums_of_parts_nearly_add(
    first: Seq<Correspondence>,
    second: Seq<Correspondence>,
    i: int,
    k: int,
)
    requires
        0 <= i < 6,
        0 <= k < 6,
        first.len() + second.len() <= 0x0010_0000_0000_0000,
    ensures
        ({
            let whole = first + second;
            let n = first.len() + second.len();
            let (e, e1, e2) = (
                normal_entry(whole, i, k),
                normal_entry(first, i, k),
                normal_entry(second, i, k),
            );
            let (b, b1, b2) = (sum_jr(whole, i), sum_jr(first, i), sum_jr(second, i));
            let (r, r1, r2) = (sum_rr(whole), sum_rr(first), sum_rr(second));
            &&& is_finite(e) && is_finite(e1) && is_finite(e2) ==> abs(
                value(e) - value(e1) - value(e2),
            ) <= parts_error(n, entry_size(whole, i, k))
            &&& is_finite(b) && is_finite(b1) && is_finite(b2) ==> abs(
                value(b) - value(b1) - value(b2),
            ) <= parts_error(n, summed(whole, sizes(jr_term(i))))
            &&& is_finite(r) && is_finite(r1) && is_finite(r2) ==> abs(
                value(r) - value(r1) - value(r2),
            ) <= parts_error(n, summed(whole, sizes(rr_term())))
        }),
{
    let whole = first + second;
    let (p, q) = if i <= k {
        (i, k)
    } else {
        (k, i)
    };
    lemma_sums_folded(first, p, q);
    lemma_sums_folded(second, p, q);
    lemma_sums_folded(whole, p, q);
    lemma_sums_folded(first, i, k);
    lemma_sums_folded(second, i, k);
    lemma_sums_folded(whole, i, k);
    let (t, u, v) = (jj_term(p, q), jr_term(i), rr_term());
    if is_finite(folded(whole, t)) && is_finite(folded(first, t)) && is_finite(folded(second, t)) {
        lemma_folded_parts(first, second, t);
    }
    if is_finite(folded(whole, u)) && is_finite(folded(first, u)) && is_finite(folded(second, u)) {
        lemma_folded_parts(first, second, u);
    }
    if is_finite(folded(whole, v)) && is_finite(folded(first, v)) && is_finite(folded(second, v)) {
        lemma_folded_parts(first, second, v);
    }
}

/// The equations of source maps that are joined from two parts are nearly those of the parts,
/// added: where they are finite, entry by entry up to rounding.
pub proof fn law_equations_of_parts_nearly_add(
    whole: RgbdLevel,
    first: RgbdLevel,
    second: RgbdLevel,
    tgt: RgbdLevel,
    pose: Pose,
    gate: Gate,
    view: spec_fn([Binary64; 3]) -> Option<[Binary64; 2]>,
    i: int,
    k: int,
)
    requires
        is_joined(whole, first, second),
        whole.num_pixels() <= 0x0010_0000_0000_0000,
        0 <= i < 6,
        0 <= k < 6,
    ensures
        ({
            let (e, e1, e2) = (
                pass(whole, tgt, pose, gate, view),
                pass(first, tgt, pose, gate, view),
                pass(second, tgt, pose, gate, view),
            );
            let rows = inliers(whole, tgt, pose, gate, view, whole.num_pixels());
            let n = rows.len();
            &&& is_finite(e.a[i][k]) && is_finite(e1.a[i][k]) && is_finite(e2.a[i][k]) ==> abs(
                value(e.a[i][k]) - value(e1.a[i][k]) - value(e2.a[i][k]),
            ) <= parts_error(n, entry_size(rows, i, k))
            &&& is_finite(e.b[i]) && is_finite(e1.b[i]) && is_finite(e2.b[i]) ==> abs(
                value(e.b[i]) - value(e1.b[i]) - value(e2.b[i]),
            ) <= parts_error(n, summed(rows, sizes(jr_term(i))))
            &&& is_finite(e.sum_sq_residual) && is_finite(e1.sum_sq_residual) && is_finite(
                e2.sum_sq_residual,
            ) ==> abs(
                value(e.sum_sq_residual) - value(e1.sum_sq_residual) - value(e2.sum_sq_residual),
            ) <= parts_error(n, summed(rows, sizes(rr_term())))
        }),
{
    law_parts_add_up(whole, first, second, tgt, pose, gate, view);
    lemma_counts_nested(whole, tgt, pose, gate, view, whole.num_pixels());
    let p = inliers(first, tgt, pose, gate, view, first.num_pixels());
    let q = inliers(second, tgt, pose, gate, view, second.num_pixels());
    law_sums_of_parts_nearly_add(p, q, i, k);
    assert(pass(whole, tgt, pose, gate, view).a[i] == normal_row(p + q, i));
    assert(pass(first, tgt, pose, gate, view).a[i] == normal_row(p, i));
    assert(pass(second, tgt, pose, gate, view).a[i] == normal_row(q, i));
}

} // verus!
