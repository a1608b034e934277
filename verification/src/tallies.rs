//! That the sums of a pass are those over its pixels, up to rounding.
use crate::binary64::{fl_mul, Binary64};
use crate::chains::{lemma_unit_of, unit_of};
use crate::errors::{
    abs, half_unit, lemma_real_associative, lemma_real_distributes, lemma_real_mul_ordered,
    lemma_real_one, lemma_tiny_small, lemma_zero_value, tiny, value,
};
use crate::exactness::is_finite;
use crate::folds::{folded, jj_term, jr_term, lemma_sums_folded, rr_term, summed};
use crate::icp::{
    inliers, lemma_counts_nested, normal_entry, normal_row, outcome, pass, Correspondence, Gate,
    PixelOutcome, Pose,
};
use crate::linear::fl;
use crate::rgbd::RgbdLevel;
use crate::rotations::lemma_abs_product;
use crate::semidefinite::lemma_term_bound;
use crate::totals::total;
use crate::vectors::{large, lemma_product_fits, lemma_sum_fits};
use vstd::prelude::*;

verus! {

/// What the terms of a sum can lose below the normal numbers, each.
pub open spec fn term_loss() -> real {
    (4000000000int as real) * tiny()
}

/// The error of a sum of `n` terms whose sizes add up to `size`.
pub open spec fn tally_error(n: nat, size: real) -> real {
    ((5 * n) as real) * (half_unit() * size + term_loss())
}

/// The linear part of a step: `s` is the sum before, `x` the exact one, `t` the term and `e` the
/// exact one, `n` the new sum, `p` the error before, `a` the size and `q` a part of it.
pub proof fn lemma_tally_step(
    s: real,
    x: real,
    t: real,
    e: real,
    n: real,
    p: real,
    q: real,
    a: real,
    d: real,
)
    requires
        abs(s - x) <= p,
        abs(t - e) <= (3 as real) * (half_unit() * abs(e)) + d,
        abs(n - (s + t)) <= unit_of(s + t),
        abs(x) + abs(e) <= a,
        q == half_unit() * a + d,
        p <= (5000000000000int as real) * q,
        d >= 0 as real,
    ensures
        abs(n - (x + e)) <= p + (5 as real) * q,
{
    lemma_unit_of(s + t);
    lemma_unit_of(e);
    lemma_unit_of(a);
    lemma_real_associative(abs(e), half_unit(), d);
    lemma_real_associative(a, half_unit(), d);
    let (u, w) = (abs(s - x), abs(t - e));
    assert(abs(s + t) <= a + u + w);
    assert(abs(n - (x + e)) <= unit_of(s + t) + u + w);
}

/// Whether a term of a sum is near an exact one of moderate size.
spec fn is_near_term(
    t: spec_fn(Correspondence) -> Binary64,
    e: spec_fn(Correspondence) -> real,
    c: Correspondence,
) -> bool {
    &&& is_finite(t(c))
    &&& abs(value(t(c)) - e(c)) <= (3 as real) * (half_unit() * abs(e(c))) + term_loss()
    &&& abs(e(c)) <= 1000000000000000000int as real
}

/// The absolute values of exact terms.
pub open spec fn sized(e: spec_fn(Correspondence) -> real) -> spec_fn(Correspondence) -> real {
    |c: Correspondence| abs(e(c))
}

pub proof fn lemma_loss_small()
    ensures
        0 as real <= term_loss() <= 1 as real,
{
    lemma_tiny_small();
}

/// A sum of terms is near the exact sum.
proof fn lemma_terms_add_up(
    rows: Seq<Correspondence>,
    t: spec_fn(Correspondence) -> Binary64,
    e: spec_fn(Correspondence) -> real,
)
    requires
        rows.len() <= 1000000000000,
        forall|r: int| 0 <= r < rows.len() ==> is_near_term(t, e, #[trigger] rows[r]),
    ensures
        is_finite(folded(rows, t)),
        abs(value(folded(rows, t)) - summed(rows, e)) <= tally_error(
            rows.len(),
            summed(rows, sized(e)),
        ),
        abs(summed(rows, e)) <= summed(rows, sized(e)),
        summed(rows, sized(e)) <= (rows.len() as real) * (1000000000000000000int as real),
    decreases rows.len(),
{
    let m = 1000000000000000000int as real;
    let d = term_loss();
    let h = half_unit();
    lemma_loss_small();
    if rows.len() == 0 {
        lemma_zero_value(fl(0));
        lemma_real_distributes(0 as real, 0 as real, h * (0 as real) + d);
        lemma_real_distributes(0 as real, 0 as real, m);
    } else {
        let before = rows.drop_last();
        let c = rows.last();
        assert(rows[rows.len() - 1] == c);
        assert(is_near_term(t, e, c));
        assert forall|r: int| 0 <= r < before.len() implies is_near_term(
            t,
            e,
            #[trigger] before[r],
        ) by {
            assert(before[r] == rows[r]);
        }
        lemma_terms_add_up(before, t, e);
        let (a0, a) = (summed(before, sized(e)), summed(rows, sized(e)));
        let (s, x) = (folded(before, t), summed(before, e));
        let (q0, q) = (h * a0 + d, h * a + d);
        let k = (5 * before.len()) as real;
        lemma_real_mul_ordered(a0, a, h);
        lemma_real_associative(a0, h, h);
        lemma_real_associative(a, h, h);
        lemma_real_mul_ordered(q0, q, k);
        lemma_real_associative(q0, k, k);
        lemma_real_associative(q, k, k);
        lemma_unit_of(a);
        assert(q >= 0 as real);
        lemma_real_mul_ordered(k, 5000000000000int as real, q);
        let p = k * q;
        // the sizes stay below the limit
        lemma_real_distributes(before.len() as real, 1 as real, m);
        lemma_real_one(m);
        assert(rows.len() as real == (before.len() as real) + (1 as real));
        lemma_real_mul_ordered(before.len() as real, 1000000000000int as real, m);
        lemma_unit_of(e(c));
        lemma_real_associative(abs(e(c)), h, h);
        lemma_sum_limit(value(s), x, value(t(c)), e(c), p, q, a0, d);
        lemma_sum_fits(s, t(c));
        lemma_tally_step(
            value(s),
            x,
            value(t(c)),
            e(c),
            value(folded(rows, t)),
            p,
            q,
            a,
            d,
        );
        lemma_real_distributes(k, 5 as real, q);
        assert((5 * rows.len()) as real == k + (5 as real));
    }
}

/// The sum before and the term stay below the limit.
proof fn lemma_sum_limit(s: real, x: real, t: real, e: real, p: real, q: real, a: real, d: real)
    requires
        abs(s - x) <= p,
        abs(x) <= a,
        a <= large(),
        abs(e) <= 1000000000000000000int as real,
        abs(t - e) <= (3 as real) * (half_unit() * abs(e)) + d,
        q == half_unit() * (a + abs(e)) + d,
        p <= (5000000000000int as real) * q,
        0 as real <= d <= 1 as real,
    ensures
        abs(s + t) <= (40 as real) * large(),
{
    lemma_unit_of(e);
    lemma_unit_of(a + abs(e));
    lemma_real_associative(abs(e), half_unit(), d);
    lemma_real_associative(a + abs(e), half_unit(), d);
    assert(a + abs(e) >= 0 as real);
}

// ---------------------------------------------------------------------------
// Terms
// ---------------------------------------------------------------------------

/// The exact product behind a term of entry `(i, k)` of `J^T W J`.
pub open spec fn exact_jj(i: int, k: int) -> spec_fn(Correspondence) -> real {
    |c: Correspondence| (value(c.weight) * value(c.jacobian[i])) * value(c.jacobian[k])
}

/// The exact product behind a term of entry `i` of `J^T W r`.
pub open spec fn exact_jr(i: int) -> spec_fn(Correspondence) -> real {
    |c: Correspondence| (value(c.weight) * value(c.jacobian[i])) * value(c.residual)
}

/// The exact square of a residual.
pub open spec fn exact_rr() -> spec_fn(Correspondence) -> real {
    |c: Correspondence| value(c.residual) * value(c.residual)
}

/// Whether a number is finite and at most `1e9`.
pub open spec fn is_moderate(x: Binary64) -> bool {
    is_finite(x) && abs(value(x)) <= 1000000000 as real
}

/// Whether a correspondence is made of numbers up to `1e9`, with a weight up to one.
pub open spec fn is_moderate_row(c: Correspondence) -> bool {
    &&& is_finite(c.weight) && abs(value(c.weight)) <= 1 as real
    &&& is_moderate(c.residual)
    &&& forall|k: int| 0 <= k < 6 ==> is_moderate(#[trigger] c.jacobian[k])
}

/// A product of three numbers.
proof fn lemma_triple_near(w: Binary64, a: Binary64, b: Binary64)
    requires
        is_finite(w),
        abs(value(w)) <= 1 as real,
        is_moderate(a),
        is_moderate(b),
    ensures
        ({
            let (t, e) = (fl_mul(fl_mul(w, a), b), (value(w) * value(a)) * value(b));
            &&& is_finite(t)
            &&& abs(value(t) - e) <= (3 as real) * (half_unit() * abs(e)) + term_loss()
            &&& abs(e) <= 1000000000000000000int as real
        }),
{
    let (x, y, z) = (value(w), value(a), value(b));
    let m = 1000000000 as real;
    let p = x * y;
    lemma_tiny_small();
    lemma_abs_product(x, y);
    lemma_real_mul_ordered(abs(x), 1 as real, abs(y));
    lemma_real_one(abs(y));
    lemma_product_fits(w, a);
    let q = fl_mul(w, a);
    let v = value(q);
    lemma_unit_of(p);
    assert(abs(v) <= (2 as real) * m);
    lemma_abs_product(v, z);
    lemma_real_mul_ordered(abs(v), (2 as real) * m, abs(z));
    lemma_real_mul_ordered(abs(z), m, (2 as real) * m);
    lemma_real_associative(abs(z), (2 as real) * m, m);
    lemma_product_fits(q, b);
    let e = p * z;
    lemma_abs_product(p, z);
    lemma_real_mul_ordered(abs(p), m, abs(z));
    lemma_real_mul_ordered(abs(z), m, m);
    lemma_real_associative(abs(z), m, m);
    // the rounding of the first product, times the other factor
    let d = abs(z);
    lemma_real_distributes(v, p, z);
    lemma_abs_product(v - p, z);
    lemma_real_mul_ordered(abs(v - p), unit_of(p) + tiny(), d);
    lemma_real_distributes(unit_of(p), tiny(), d);
    lemma_real_associative(abs(p), half_unit(), d);
    lemma_real_associative(abs(p), d, half_unit());
    lemma_abs_product(tiny(), z);
    lemma_term_bound(e, v * z, value(fl_mul(q, b)), tiny(), d);
    lemma_real_mul_ordered(d, m, tiny());
    lemma_real_associative(d, tiny(), m);
    lemma_real_associative(m, tiny(), m);
    lemma_real_associative(abs(e), half_unit(), d);
}

/// A square.
pub proof fn lemma_square_near(r: Binary64)
    requires
        is_moderate(r),
    ensures
        ({
            let (t, e) = (fl_mul(r, r), value(r) * value(r));
            &&& is_finite(t)
            &&& abs(value(t) - e) <= (3 as real) * (half_unit() * abs(e)) + term_loss()
            &&& abs(e) <= 1000000000000000000int as real
        }),
{
    let x = value(r);
    let m = 1000000000 as real;
    lemma_tiny_small();
    lemma_abs_product(x, x);
    lemma_real_mul_ordered(abs(x), m, abs(x));
    lemma_real_mul_ordered(abs(x), m, m);
    lemma_real_associative(abs(x), m, m);
    lemma_product_fits(r, r);
    lemma_unit_of(x * x);
    lemma_real_associative(abs(x * x), half_unit(), m);
}

// ---------------------------------------------------------------------------
// Pixels
// ---------------------------------------------------------------------------

/// The term of pixel `i`: that of its correspondence where it is kept, and none elsewhere.
pub open spec fn pixel_term(
    src: RgbdLevel,
    tgt: RgbdLevel,
    pose: Pose,
    gate: Gate,
    view: spec_fn([Binary64; 3]) -> Option<[Binary64; 2]>,
    e: spec_fn(Correspondence) -> real,
    i: int,
) -> real {
    match outcome(src, tgt, pose, gate, view, i) {
        PixelOutcome::Inlier(c) => e(c),
        _ => 0 as real,
    }
}

/// The sum over the correspondences is that over the pixels.
proof fn lemma_summed_over_pixels(
    src: RgbdLevel,
    tgt: RgbdLevel,
    pose: Pose,
    gate: Gate,
    view: spec_fn([Binary64; 3]) -> Option<[Binary64; 2]>,
    e: spec_fn(Correspondence) -> real,
    n: nat,
)
    ensures
        summed(inliers(src, tgt, pose, gate, view, n), e) == total(
            |i: int| pixel_term(src, tgt, pose, gate, view, e, i),
            n,
        ),
    decreases n,
{
    if n > 0 {
        let m = (n - 1) as nat;
        lemma_summed_over_pixels(src, tgt, pose, gate, view, e, m);
        let before = inliers(src, tgt, pose, gate, view, m);
        if let PixelOutcome::Inlier(c) = outcome(src, tgt, pose, gate, view, n - 1) {
            assert(before.push(c).drop_last() =~= before);
            assert(before.push(c).last() == c);
        }
    }
}

/// Whether the correspondences of a pass are made of moderate numbers.
pub open spec fn has_moderate_rows(
    src: RgbdLevel,
    tgt: RgbdLevel,
    pose: Pose,
    gate: Gate,
    view: spec_fn([Binary64; 3]) -> Option<[Binary64; 2]>,
) -> bool {
    forall|i: int|
        0 <= i < src.vertices.len() && i < src.normals.len() ==> (#[trigger] outcome(
            src,
            tgt,
            pose,
            gate,
            view,
            i,
        ) matches PixelOutcome::Inlier(c) ==> is_moderate_row(c))
}

proof fn lemma_rows_moderate(
    src: RgbdLevel,
    tgt: RgbdLevel,
    pose: Pose,
    gate: Gate,
    view: spec_fn([Binary64; 3]) -> Option<[Binary64; 2]>,
    n: nat,
)
    requires
        n <= src.num_pixels(),
        has_moderate_rows(src, tgt, pose, gate, view),
    ensures
        ({
            let rows = inliers(src, tgt, pose, gate, view, n);
            forall|r: int| 0 <= r < rows.len() ==> is_moderate_row(#[trigger] rows[r])
        }),
    decreases n,
{
    if n > 0 {
        lemma_rows_moderate(src, tgt, pose, gate, view, (n - 1) as nat);
        let before = inliers(src, tgt, pose, gate, view, (n - 1) as nat);
        let rows = inliers(src, tgt, pose, gate, view, n);
        if let PixelOutcome::Inlier(c) = outcome(src, tgt, pose, gate, view, n - 1) {
            assert(rows == before.push(c));
            assert forall|r: int| 0 <= r < rows.len() implies is_moderate_row(
                #[trigger] rows[r],
            ) by {
                if r < before.len() {
                    assert(rows[r] == before[r]);
                }
            }
        } else {
            assert(rows == before);
        }
    }
}

/// The sums of a pass are those over its pixels: each pixel that is kept adds the weighted products
/// of its Jacobian row to the matrix, those with its residual to the right-hand side, and the
/// square of its residual to the sum of squares, and no other pixel adds anything. Where the
/// correspondences are made of numbers up to `1e9`, the sums are finite and hold up to rounding.
pub proof fn law_pass_adds_up_pixels(
    src: RgbdLevel,
    tgt: RgbdLevel,
    pose: Pose,
    gate: Gate,
    view: spec_fn([Binary64; 3]) -> Option<[Binary64; 2]>,
    i: int,
    k: int,
)
    requires
        0 <= i < 6,
        0 <= k < 6,
        src.num_pixels() <= 1000000000000,
        has_moderate_rows(src, tgt, pose, gate, view),
    ensures
        ({
            let eqs = pass(src, tgt, pose, gate, view);
            let n = src.num_pixels();
            let over = |e: spec_fn(Correspondence) -> real|
                total(|j: int| pixel_term(src, tgt, pose, gate, view, e, j), n);
            &&& is_finite(eqs.a[i][k])
            &&& abs(value(eqs.a[i][k]) - over(exact_jj(i, k))) <= tally_error(
                eqs.num_inliers as nat,
                over(sized(exact_jj(i, k))),
            )
            &&& is_finite(eqs.b[i])
            &&& abs(value(eqs.b[i]) - over(exact_jr(i))) <= tally_error(
                eqs.num_inliers as nat,
                over(sized(exact_jr(i))),
            )
            &&& is_finite(eqs.sum_sq_residual)
            &&& abs(value(eqs.sum_sq_residual) - over(exact_rr())) <= tally_error(
                eqs.num_inliers as nat,
                over(sized(exact_rr())),
            )
        }),
{
    let eqs = pass(src, tgt, pose, gate, view);
    let n = src.num_pixels();
    let rows = inliers(src, tgt, pose, gate, view, n);
    lemma_counts_nested(src, tgt, pose, gate, view, n);
    lemma_rows_moderate(src, tgt, pose, gate, view, n);
    assert(eqs.a[i] == normal_row(rows, i));
    assert(eqs.a[i][k] == normal_entry(rows, i, k));
    let (p, q) = if i <= k {
        (i, k)
    } else {
        (k, i)
    };
    lemma_sums_folded(rows, p, q);
    lemma_sums_folded(rows, i, k);
    assert forall|r: int| 0 <= r < rows.len() implies is_near_term(
        jj_term(p, q),
        exact_jj(i, k),
        #[trigger] rows[r],
    ) by {
        let c = rows[r];
        assert(is_moderate(c.jacobian[p]) && is_moderate(c.jacobian[q]));
        lemma_triple_near(c.weight, c.jacobian[p], c.jacobian[q]);
        let (x, y, z) = (value(c.weight), value(c.jacobian[i]), value(c.jacobian[k]));
        lemma_real_associative(x, y, z);
        lemma_real_associative(x, z, y);
    }
    lemma_terms_add_up(rows, jj_term(p, q), exact_jj(i, k));
    assert forall|r: int| 0 <= r < rows.len() implies is_near_term(
        jr_term(i),
        exact_jr(i),
        #[trigger] rows[r],
    ) by {
        let c = rows[r];
        assert(is_moderate(c.jacobian[i]));
        lemma_triple_near(c.weight, c.jacobian[i], c.residual);
    }
    lemma_terms_add_up(rows, jr_term(i), exact_jr(i));
    assert forall|r: int| 0 <= r < rows.len() implies is_near_term(
        rr_term(),
        exact_rr(),
        #[trigger] rows[r],
    ) by {
        lemma_square_near(rows[r].residual);
    }
    lemma_terms_add_up(rows, rr_term(), exact_rr());
    lemma_summed_over_pixels(src, tgt, pose, gate, view, exact_jj(i, k), n);
    lemma_summed_over_pixels(src, tgt, pose, gate, view, sized(exact_jj(i, k)), n);
    lemma_summed_over_pixels(src, tgt, pose, gate, view, exact_jr(i), n);
    lemma_summed_over_pixels(src, tgt, pose, gate, view, sized(exact_jr(i)), n);
    lemma_summed_over_pixels(src, tgt, pose, gate, view, exact_rr(), n);
    lemma_summed_over_pixels(src, tgt, pose, gate, view, sized(exact_rr()), n);
}

} // verus!
