//! What the reported measures and the planned iterations mean for their inputs.
use crate::binary64::{fl_div, fl_lt, fl_of, fl_sqrt, negative, Binary64};
use crate::chains::{lemma_root_step, lemma_tiny_positive, lemma_unit_of, unit_of};
use crate::errors::{
    abs, dust, half_unit, lemma_real_associative, lemma_real_distributes, lemma_real_mul_ordered,
    lemma_real_one, lemma_sqrt_value, lemma_tiny_small, lemma_zero_value, tiny, value,
};
use crate::exactness::{is_finite, is_zero, lemma_sqrt_zero};
use crate::gates::lemma_quotient_fits;
use crate::icp::{
    common_levels, evaluated, fraction, initial_estimate, planned_iterations, registered, Estimate,
    IcpPlaneCriteria, NormalEquations,
};
use crate::laws::total_planned;
use crate::linear::fl;
use crate::numbers::{law_count_value, law_order_is_that_of_values};
use crate::rgbd::RgbdPyramid;
use crate::rotations::{lemma_abs_product, lemma_square_nonnegative};
use crate::rounding::INFINITE;
use crate::runs::law_iterations_counted;
use crate::vectors::large;
use vstd::prelude::*;

verus! {

// ---------------------------------------------------------------------------
// Fractions
// ---------------------------------------------------------------------------

/// The linear part: `f` is the quotient times the whole `w`, and `p` the part.
proof fn lemma_part_below(f: real, p: real, w: real, t: real)
    requires
        abs(f - p) <= half_unit() * p + t,
        0 as real <= p <= w - (1 as real),
        w <= 0x0020_0000_0000_0000 as real,
        (0x0020_0000_0000_0000 as real) * t < 1 as real,
    ensures
        f < w,
{
    lemma_unit_of(p);
    lemma_real_associative(p, half_unit(), p);
}

/// The fraction of two counts is their quotient, up to one rounding: times the whole it is the
/// part. It is one where the part is the whole, below one where it is less, and zero where there is
/// nothing to divide by.
pub proof fn law_fraction_is_quotient(part: nat, whole: nat)
    requires
        part <= whole <= 0x0020_0000_0000_0000,
    ensures
        is_finite(fraction(part, whole)),
        whole > 0 ==> abs(value(fraction(part, whole)) * (whole as real) - part as real)
            <= half_unit() * (part as real) + tiny() * (whole as real),
        part < whole ==> value(fraction(part, whole)) < 1 as real,
        part == 0 || whole == 0 ==> value(fraction(part, whole)) == 0 as real,
{
    law_count_value(part);
    law_count_value(whole);
    lemma_zero_value(fl(0));
    if whole > 0 {
        let (a, d) = (fl_of(part), fl_of(whole));
        let (p, w) = (part as real, whole as real);
        lemma_real_mul_ordered(1 as real, large(), w);
        lemma_real_one(w);
        lemma_quotient_fits(a, d);
        let f = value(fraction(part, whole));
        lemma_tiny_small();
        lemma_real_mul_ordered(tiny(), dust(), w);
        lemma_real_mul_ordered(w, 0x0020_0000_0000_0000 as real, dust());
        lemma_real_associative(w, dust(), dust());
        if part < whole {
            assert((part as int) + 1 <= whole as int);
            lemma_part_below(f * w, p, w, tiny() * w);
            if f >= 1 as real {
                lemma_real_mul_ordered(1 as real, f, w);
            }
        }
        if part == 0 {
            assert(is_zero(a)) by {
                reveal(fl_of);
            }
            assert(is_zero(fl_div(a, d))) by {
                reveal(fl_div);
                if is_zero(d) {
                    lemma_zero_value(d);
                }
            }
            lemma_zero_value(fl_div(a, d));
        }
    }
}

// ---------------------------------------------------------------------------
// The residual
// ---------------------------------------------------------------------------

/// The linear part: `s` is the square of the root, `q` the quotient, each times the count, `m` the
/// sum and `t` what is lost below the normal numbers.
proof fn lemma_mean_bound(s: real, q: real, m: real, t: real)
    requires
        abs(s - q) <= (4 as real) * (half_unit() * s),
        abs(q - m) <= half_unit() * m + t,
        s >= 0 as real,
        m >= 0 as real,
        t >= 0 as real,
    ensures
        abs(s - m) <= (6 as real) * (half_unit() * m) + (2 as real) * t,
{
    lemma_unit_of(s);
    lemma_unit_of(m);
    lemma_real_associative(s, half_unit(), s);
    lemma_real_associative(m, half_unit(), m);
}

/// The reported residual is the root of the mean square: its square times the number of inliers is
/// the sum of their squared residuals, up to rounding. Without inliers it is infinite.
pub proof fn law_rmse_is_root_of_mean_square(est: Estimate, eqs: NormalEquations)
    requires
        is_finite(eqs.sum_sq_residual),
        0 as real <= value(eqs.sum_sq_residual) <= large(),
        eqs.num_inliers <= 0x0020_0000_0000_0000,
    ensures
        eqs.num_inliers == 0 ==> evaluated(est, eqs).rmse == fl(INFINITE),
        eqs.num_inliers > 0 ==> {
            let (r, m) = (value(evaluated(est, eqs).rmse), value(eqs.sum_sq_residual));
            let n = eqs.num_inliers as real;
            &&& is_finite(evaluated(est, eqs).rmse)
            &&& r >= 0 as real
            &&& abs((r * r) * n - m) <= (6 as real) * (half_unit() * m) + (2 as real) * (tiny() * n)
        },
{
    if eqs.num_inliers > 0 {
        let d = fl_of(eqs.num_inliers as nat);
        law_count_value(eqs.num_inliers as nat);
        let (m, n) = (value(eqs.sum_sq_residual), eqs.num_inliers as real);
        lemma_real_mul_ordered(1 as real, n, large());
        lemma_real_one(large());
        lemma_real_associative(1 as real, large(), n);
        lemma_real_associative(n, large(), n);
        lemma_quotient_fits(eqs.sum_sq_residual, d);
        let mean = fl_div(eqs.sum_sq_residual, d);
        let root = fl_sqrt(mean);
        let (q, r) = (value(mean), value(root));
        lemma_tiny_positive();
        lemma_abs_product(tiny(), n);
        assert(negative(mean) ==> is_zero(mean)) by {
            lemma_zero_value(fl(0));
            law_order_is_that_of_values(eqs.sum_sq_residual, fl(0));
            law_order_is_that_of_values(d, fl(0));
            reveal(fl_div);
            reveal(fl_lt);
        }
        if is_zero(mean) {
            lemma_zero_value(mean);
            lemma_sqrt_zero(mean);
            lemma_zero_value(root);
            lemma_real_distributes(0 as real, 0 as real, 0 as real);
            lemma_real_distributes(0 as real, 0 as real, n);
            lemma_unit_of(m);
            lemma_real_associative(m, half_unit(), m);
        } else {
            lemma_root_step(mean);
            let s = r * r;
            lemma_square_nonnegative(r);
            lemma_sqrt_value(mean);
            lemma_real_distributes(s, q, n);
            lemma_abs_product(s - q, n);
            lemma_real_mul_ordered(abs(s - q), (4 as real) * unit_of(s), n);
            lemma_real_associative(4 as real, unit_of(s), n);
            lemma_real_associative(s, half_unit(), n);
            lemma_real_associative(half_unit(), s, n);
            lemma_abs_product(s, n);
            lemma_mean_bound(s * n, q * n, m, tiny() * n);
        }
    }
}

/// An evaluation reports the pose, the iterations and the observability of the estimate, and the
/// number of associated pixels of the equations.
pub proof fn law_evaluation_reports_estimate(est: Estimate, eqs: NormalEquations)
    ensures
        evaluated(est, eqs).rotation == est.pose.rotation,
        evaluated(est, eqs).translation == est.pose.translation,
        evaluated(est, eqs).iterations == est.iterations,
        evaluated(est, eqs).observability == est.observability,
        evaluated(est, eqs).num_associated == eqs.num_associated,
{
}

/// The fractions that an evaluation reports: inliers among associated pixels, and associated among
/// valid ones, each up to one rounding.
pub proof fn law_evaluation_reports_fractions(est: Estimate, eqs: NormalEquations)
    requires
        eqs.num_inliers <= eqs.num_associated <= eqs.num_valid <= 0x0020_0000_0000_0000,
    ensures
        ({
            let r = evaluated(est, eqs);
            let (n, a, v) = (
                eqs.num_inliers as real,
                eqs.num_associated as real,
                eqs.num_valid as real,
            );
            let (f, g) = (value(r.inlier_fraction), value(r.overlap_fraction));
            &&& eqs.num_associated > 0 ==> abs(f * a - n) <= half_unit() * n + tiny() * a
            &&& eqs.num_associated == 0 ==> f == 0 as real
            &&& eqs.num_valid > 0 ==> abs(g * v - a) <= half_unit() * a + tiny() * v
            &&& eqs.num_valid == 0 ==> g == 0 as real
        }),
{
    law_fraction_is_quotient(eqs.num_inliers as nat, eqs.num_associated as nat);
    law_fraction_is_quotient(eqs.num_associated as nat, eqs.num_valid as nat);
}

// ---------------------------------------------------------------------------
// Planned iterations
// ---------------------------------------------------------------------------

/// The sum of the entries of a list.
pub open spec fn sum_of(list: Seq<usize>) -> nat
    decreases list.len(),
{
    if list.len() == 0 {
        0
    } else {
        sum_of(list.drop_last()) + list.last() as nat
    }
}

/// The iterations planned for a level are the entry of the list for it, the last one where the list
/// is too short, and none where it is empty.
pub proof fn law_planned_iterations_are_entries(list: Seq<usize>, coarse: nat)
    ensures
        coarse < list.len() ==> planned_iterations(list, coarse) == list[coarse as int],
        0 < list.len() <= coarse ==> planned_iterations(list, coarse) == list[list.len() - 1],
        list.len() == 0 ==> planned_iterations(list, coarse) == 0,
{
}

/// The sum of the entries for `n` levels.
pub open spec fn sum_for_levels(list: Seq<usize>, n: nat) -> nat {
    if n <= list.len() {
        sum_of(list.take(n as int))
    } else if list.len() > 0 {
        sum_of(list) + (n - list.len()) as nat * list[list.len() - 1] as nat
    } else {
        0
    }
}

proof fn lemma_sum_for_level(list: Seq<usize>, n: nat)
    ensures
        sum_for_levels(list, n + 1) == sum_for_levels(list, n) + planned_iterations(list, n),
        sum_for_levels(list, 0) == 0,
{
    law_planned_iterations_are_entries(list, n);
    if n < list.len() {
        assert(list.take((n + 1) as int).drop_last() =~= list.take(n as int));
        assert(list.take((n + 1) as int).last() == list[n as int]);
    } else if list.len() > 0 {
        let last = list[list.len() - 1] as nat;
        assert(list.take(list.len() as int) =~= list);
        assert(0nat * last == 0);
        assert((n + 1 - list.len()) as nat * last == (n - list.len()) as nat * last + last)
            by (nonlinear_arith)
            requires
                n >= list.len(),
        ;
    }
    assert(list.take(0).len() == 0);
}

proof fn lemma_planned_in_total(list: Seq<usize>, n: nat, coarse: nat)
    requires
        coarse <= n,
    ensures
        total_planned(list, n, coarse) + sum_for_levels(list, coarse) == sum_for_levels(list, n),
    decreases n - coarse,
{
    if coarse < n {
        lemma_planned_in_total(list, n, coarse + 1);
        lemma_sum_for_level(list, coarse);
    }
}

/// Without a tolerance above zero, a registration that succeeds has run all iterations that the
/// list asks for: the sum of the entries for the levels that both pyramids have. With one, it has
/// run no more.
pub proof fn law_registration_runs_the_schedule(
    source: RgbdPyramid,
    target: RgbdPyramid,
    rotation: [[Binary64; 3]; 3],
    translation: [Binary64; 3],
    criteria: IcpPlaneCriteria,
    views: spec_fn(usize, [Binary64; 3]) -> Option<[Binary64; 2]>,
    trig: spec_fn(Binary64) -> (Binary64, Binary64),
    n: nat,
)
    requires
        n <= source.levels.len(),
        n <= target.levels.len(),
        n == source.levels.len() || n == target.levels.len(),
    ensures
        registered(
            source,
            target,
            initial_estimate(rotation, translation),
            criteria,
            views,
            trig,
        ) matches Ok(r) ==> {
            let sum = sum_for_levels(criteria.iters_per_level@, n);
            &&& r.iterations <= sum
            &&& !fl_lt(fl(0), criteria.update_tolerance) && sum <= usize::MAX ==> r.iterations
                == sum
        },
{
    law_iterations_counted(source, target, rotation, translation, criteria, views, trig);
    assert(common_levels(source, target) == n);
    lemma_planned_in_total(criteria.iters_per_level@, n, 0);
    lemma_sum_for_level(criteria.iters_per_level@, 0);
}

} // verus!
