//! What a Gauss-Newton step does, and how a registration is made of steps.
use crate::binary64::{
    fl_add, fl_div, fl_le, fl_lt, fl_max, fl_mul, fl_neg, fl_sqrt, negative, Binary64,
};
use crate::chains::{lemma_root_step, lemma_unit_of, unit_of};
use crate::errors::{
    abs, half_unit, lemma_neg_value, lemma_real_associative, lemma_real_distributes,
    lemma_real_mul_ordered, lemma_sqrt_value, lemma_tiny_small, lemma_zero_value, value,
};
use crate::exactness::{is_finite, is_zero, lemma_sqrt_zero};
use crate::icp::{
    common_levels, descended, evaluated, gate_of, initial_estimate, level_view, moved, negated6,
    pass, refined, registered, stepped, twist_norm, Estimate, IcpPlaneCriteria, NormalEquations,
};
use crate::linear::{
    block_scale, fl, guarded_solution, is_small_angle, pivot, pivot_scale, rotation_by,
    rotation_exp, squared_norm, weakest_pivot, SMALL_ANGLE,
};
use crate::measures::law_planned_iterations_are_entries;
use crate::numbers::{law_extremes_of_values, law_order_is_that_of_values};
use crate::ordering::{lemma_add_grows, lemma_square_sign};
use crate::residuals::{law_solution_nearly_satisfies_system, residual_bound, solves_finitely};
use crate::rgbd::{RgbdIcpError, RgbdLevel, RgbdPyramid};
use crate::rotations::{lemma_small_angle_value, lemma_square_nonnegative};
use crate::rounding::INFINITE;
use crate::tallies::{is_moderate, lemma_loss_small, lemma_square_near, lemma_tally_step, term_loss};
use crate::totals::total;
use crate::vectors::lemma_sum_fits;
use vstd::prelude::*;

verus! {

// ---------------------------------------------------------------------------
// Lengths
// ---------------------------------------------------------------------------

/// A square is added to a sum of squares: `s` is the sum so far and `x` the exact one, `p` how far
/// they are apart, and `a` the sum of all squares.
proof fn lemma_square_added(s: Binary64, v: Binary64, x: real, p: real, a: real) -> (n: Binary64)
    requires
        is_finite(s),
        is_moderate(v),
        abs(value(s) - x) <= p,
        x >= 0 as real,
        x + value(v) * value(v) <= a,
        a <= 6000000000000000000int as real,
        p <= (30 as real) * (half_unit() * a + term_loss()),
    ensures
        n == fl_add(s, fl_mul(v, v)),
        is_finite(n),
        abs(value(n) - (x + value(v) * value(v))) <= p + (5 as real) * (half_unit() * a
            + term_loss()),
{
    let t = fl_mul(v, v);
    let e = value(v) * value(v);
    let q = half_unit() * a + term_loss();
    lemma_square_near(v);
    lemma_loss_small();
    lemma_square_nonnegative(value(v));
    lemma_unit_of(a);
    lemma_unit_of(e);
    lemma_real_associative(a, half_unit(), a);
    lemma_real_associative(abs(e), half_unit(), a);
    lemma_sum_fits(s, t);
    let n = fl_add(s, t);
    lemma_tally_step(value(s), x, value(t), e, value(n), p, q, a, term_loss());
    n
}

/// The linear part of a root: `r` is the square of the root, `s` the sum and `x` the exact one.
proof fn lemma_root_bound(r: real, s: real, x: real, d: real)
    requires
        abs(r - s) <= (4 as real) * unit_of(r),
        abs(s - x) <= (30 as real) * (half_unit() * x + d),
        r >= 0 as real,
        x >= 0 as real,
        d >= 0 as real,
    ensures
        abs(r - x) <= (40 as real) * (half_unit() * x + d),
{
    lemma_unit_of(r);
    lemma_unit_of(x);
    lemma_real_associative(x, half_unit(), x);
}

/// The root of a sum near `x` is near the root of `x`.
proof fn lemma_root_of_sum(s: Binary64, x: real)
    requires
        is_finite(s),
        abs(value(s) - x) <= (30 as real) * (half_unit() * x + term_loss()),
        x >= 0 as real,
        !negative(s) || is_zero(s),
    ensures
        ({
            let r = value(fl_sqrt(s));
            &&& is_finite(fl_sqrt(s))
            &&& r >= 0 as real
            &&& abs(r * r - x) <= (40 as real) * (half_unit() * x + term_loss())
        }),
{
    let r = value(fl_sqrt(s));
    lemma_loss_small();
    if is_zero(s) {
        lemma_sqrt_zero(s);
        lemma_zero_value(s);
        lemma_zero_value(fl_sqrt(s));
        lemma_real_distributes(0 as real, 0 as real, 0 as real);
        lemma_unit_of(x);
        lemma_real_associative(x, half_unit(), x);
    } else {
        lemma_root_step(s);
        lemma_sqrt_value(s);
        lemma_square_nonnegative(r);
        lemma_root_bound(r * r, value(s), x, term_loss());
    }
}

/// The sum of the squares of a twist.
pub open spec fn squares_of(x: [Binary64; 6]) -> real {
    total(|k: int| value(x[k]) * value(x[k]), 6)
}

/// The length of a twist is the root of the sum of its six squares, up to rounding.
pub proof fn law_twist_norm_is_length(x: [Binary64; 6])
    requires
        forall|k: int| 0 <= k < 6 ==> is_moderate(#[trigger] x[k]),
    ensures
        ({
            let r = value(twist_norm(x));
            &&& is_finite(twist_norm(x))
            &&& r >= 0 as real
            &&& abs(r * r - squares_of(x)) <= (40 as real) * (half_unit() * squares_of(x)
                + term_loss())
        }),
{
    assert(is_moderate(x[0]) && is_moderate(x[1]) && is_moderate(x[2]));
    assert(is_moderate(x[3]) && is_moderate(x[4]) && is_moderate(x[5]));
    let a = squares_of(x);
    let (e0, e1, e2) = (
        value(x[0]) * value(x[0]),
        value(x[1]) * value(x[1]),
        value(x[2]) * value(x[2]),
    );
    let (e3, e4, e5) = (
        value(x[3]) * value(x[3]),
        value(x[4]) * value(x[4]),
        value(x[5]) * value(x[5]),
    );
    lemma_square_near(x[0]);
    lemma_square_near(x[1]);
    lemma_square_near(x[2]);
    lemma_square_near(x[3]);
    lemma_square_near(x[4]);
    lemma_square_near(x[5]);
    lemma_square_nonnegative(value(x[0]));
    lemma_square_nonnegative(value(x[1]));
    lemma_square_nonnegative(value(x[2]));
    lemma_square_nonnegative(value(x[3]));
    lemma_square_nonnegative(value(x[4]));
    lemma_square_nonnegative(value(x[5]));
    reveal_with_fuel(total, 7);
    assert(a == e0 + e1 + e2 + e3 + e4 + e5);
    lemma_loss_small();
    lemma_unit_of(a);
    lemma_real_associative(a, half_unit(), a);
    let q = half_unit() * a + term_loss();
    lemma_zero_value(fl(0));
    let s1 = lemma_square_added(fl(0), x[0], 0 as real, 0 as real, a);
    let s2 = lemma_square_added(s1, x[1], e0, (5 as real) * q, a);
    let s3 = lemma_square_added(s2, x[2], e0 + e1, (10 as real) * q, a);
    let s4 = lemma_square_added(s3, x[3], e0 + e1 + e2, (15 as real) * q, a);
    let s5 = lemma_square_added(s4, x[4], e0 + e1 + e2 + e3, (20 as real) * q, a);
    let s6 = lemma_square_added(s5, x[5], e0 + e1 + e2 + e3 + e4, (25 as real) * q, a);
    assert(twist_norm(x) == fl_sqrt(s6));
    lemma_square_sign(x[0]);
    lemma_square_sign(x[1]);
    lemma_square_sign(x[2]);
    lemma_square_sign(x[3]);
    lemma_square_sign(x[4]);
    lemma_square_sign(x[5]);
    assert(fl_le(fl(0), fl(0))) by {
        reveal(fl_le);
    }
    lemma_add_grows(fl(0), fl_mul(x[0], x[0]));
    lemma_add_grows(s1, fl_mul(x[1], x[1]));
    lemma_add_grows(s2, fl_mul(x[2], x[2]));
    lemma_add_grows(s3, fl_mul(x[3], x[3]));
    lemma_add_grows(s4, fl_mul(x[4], x[4]));
    lemma_add_grows(s5, fl_mul(x[5], x[5]));
    assert(!negative(s6) || is_zero(s6)) by {
        reveal(fl_le);
    }
    lemma_root_of_sum(s6, a);
}

/// The rotation by a vector is made with the sine and cosine of its length: the angle that they are
/// asked for is the length of the vector, up to rounding.
pub proof fn law_rotation_asks_for_length(
    w: [Binary64; 3],
    trig: spec_fn(Binary64) -> (Binary64, Binary64),
) -> (angle: Binary64)
    requires
        forall|k: int| 0 <= k < 3 ==> is_moderate(#[trigger] w[k]),
    ensures
        angle == fl_sqrt(squared_norm(w)),
        rotation_exp(w, trig) == rotation_by(w, trig(angle).0, trig(angle).1),
        is_finite(angle),
        value(angle) >= 0 as real,
        ({
            let n = total(|k: int| value(w[k]) * value(w[k]), 3);
            abs(value(angle) * value(angle) - n) <= (40 as real) * (half_unit() * n + term_loss())
        }),
{
    assert(is_moderate(w[0]) && is_moderate(w[1]) && is_moderate(w[2]));
    let (e0, e1, e2) = (
        value(w[0]) * value(w[0]),
        value(w[1]) * value(w[1]),
        value(w[2]) * value(w[2]),
    );
    lemma_square_near(w[0]);
    lemma_square_near(w[1]);
    lemma_square_near(w[2]);
    lemma_square_nonnegative(value(w[0]));
    lemma_square_nonnegative(value(w[1]));
    lemma_square_nonnegative(value(w[2]));
    reveal_with_fuel(total, 4);
    let n = e0 + e1 + e2;
    lemma_loss_small();
    lemma_unit_of(n);
    lemma_unit_of(e0);
    lemma_real_associative(n, half_unit(), n);
    lemma_real_associative(e0, half_unit(), n);
    let q = half_unit() * n + term_loss();
    let s1 = fl_mul(w[0], w[0]);
    let s2 = lemma_square_added(s1, w[1], e0, (5 as real) * q, n);
    let s3 = lemma_square_added(s2, w[2], e0 + e1, (10 as real) * q, n);
    assert(s3 == squared_norm(w));
    lemma_square_sign(w[0]);
    lemma_square_sign(w[1]);
    lemma_square_sign(w[2]);
    lemma_add_grows(s1, fl_mul(w[1], w[1]));
    lemma_add_grows(s2, fl_mul(w[2], w[2]));
    assert(!negative(s3) || is_zero(s3)) by {
        reveal(fl_le);
    }
    lemma_root_of_sum(s3, n);
    fl_sqrt(s3)
}

/// A rotation is expanded around zero only by vectors that are no longer than `3e-9`.
pub proof fn law_expansion_is_for_short_vectors(w: [Binary64; 3])
    requires
        forall|k: int| 0 <= k < 3 ==> is_moderate(#[trigger] w[k]),
        is_small_angle(w),
    ensures
        total(|k: int| value(w[k]) * value(w[k]), 3) <= (9 as real) / (
        1000000000000000000int as real),
{
    let trig = |x: Binary64| (x, x);
    let angle = law_rotation_asks_for_length(w, trig);
    lemma_small_angle_value();
    law_order_is_that_of_values(angle, fl(SMALL_ANGLE));
    let r = value(angle);
    let c = (2 as real) / (1000000000int as real);
    let n = total(|k: int| value(w[k]) * value(w[k]), 3);
    lemma_real_mul_ordered(r, c, r);
    lemma_real_mul_ordered(r, c, c);
    lemma_real_associative(r, c, c);
    lemma_tiny_small();
    lemma_unit_of(n);
    lemma_square_nonnegative(value(w[0]));
    lemma_square_nonnegative(value(w[1]));
    lemma_square_nonnegative(value(w[2]));
    reveal_with_fuel(total, 4);
    lemma_real_associative(n, half_unit(), n);
    lemma_short_bound(n, r * r, c * c, term_loss());
}

proof fn lemma_short_bound(n: real, r: real, c: real, d: real)
    requires
        r <= c,
        c == (4 as real) / (1000000000000000000int as real),
        n >= 0 as real,
        abs(r - n) <= (40 as real) * (half_unit() * n + d),
        d <= (1 as real) / (1000000000000000000000000000000int as real),
    ensures
        n <= (9 as real) / (1000000000000000000int as real),
{
    lemma_unit_of(n);
    lemma_real_associative(n, half_unit(), n);
}

// ---------------------------------------------------------------------------
// Scales and pivots
// ---------------------------------------------------------------------------

/// The scale that a pivot is held against is the largest diagonal entry of its own block, and zero
/// where none is above it.
pub proof fn law_scale_is_largest_of_block(a: [[Binary64; 6]; 6], i: int)
    requires
        0 <= i < 6,
        forall|k: int| 0 <= k < 6 ==> is_finite(#[trigger] a[k][k]),
    ensures
        is_finite(pivot_scale(a, i)),
        value(pivot_scale(a, i)) >= 0 as real,
        forall|k: int|
            0 <= k < 6 && (k < 3 <==> i < 3) ==> value(#[trigger] a[k][k]) <= value(
                pivot_scale(a, i),
            ),
        value(pivot_scale(a, i)) == 0 as real || exists|k: int|
            0 <= k < 6 && (k < 3 <==> i < 3) && value(#[trigger] a[k][k]) == value(
                pivot_scale(a, i),
            ),
{
    let f = if i < 3 {
        0int
    } else {
        3int
    };
    lemma_zero_value(fl(0));
    assert(is_finite(a[f][f]) && is_finite(a[f + 1][f + 1]) && is_finite(a[f + 2][f + 2]));
    let m1 = fl_max(fl(0), a[f][f]);
    let m2 = fl_max(m1, a[f + 1][f + 1]);
    law_extremes_of_values(fl(0), a[f][f]);
    law_extremes_of_values(m1, a[f + 1][f + 1]);
    law_extremes_of_values(m2, a[f + 2][f + 2]);
    assert(pivot_scale(a, i) == block_scale(a, f));
    assert forall|k: int| 0 <= k < 6 && (k < 3 <==> i < 3) implies value(#[trigger] a[k][k])
        <= value(pivot_scale(a, i)) by {
        assert(k == f || k == f + 1 || k == f + 2);
    }
}

/// The reported pivot is one of the six relative pivots, or infinite where none of them is a
/// number.
pub proof fn law_reported_pivot_is_attained(a: [[Binary64; 6]; 6], b: [Binary64; 6])
    ensures
        guarded_solution(a, b) matches Some((x, weakest)) ==> weakest == fl(INFINITE) || exists|
            i: int,
        |
            0 <= i < 6 && weakest == #[trigger] fl_div(pivot(a, i), pivot_scale(a, i)),
{
    lemma_weakest_attained(a, 6);
}

proof fn lemma_weakest_attained(a: [[Binary64; 6]; 6], n: int)
    requires
        0 <= n <= 6,
    ensures
        weakest_pivot(a, n) == fl(INFINITE) || exists|i: int|
            0 <= i < n && weakest_pivot(a, n) == #[trigger] fl_div(pivot(a, i), pivot_scale(a, i)),
    decreases n,
{
    if n > 0 {
        lemma_weakest_attained(a, n - 1);
        let ratio = fl_div(pivot(a, n - 1), pivot_scale(a, n - 1));
        assert(weakest_pivot(a, n) == ratio || weakest_pivot(a, n) == weakest_pivot(a, n - 1));
    }
}

// ---------------------------------------------------------------------------
// One step
// ---------------------------------------------------------------------------

/// A step that succeeds moves the pose by the twist that solves the normal equations, counts one
/// iteration, reports the pivot of the solve, and returns the length of the twist: `a x = -b` up to
/// the residual bound where the solve is finite, the pose is turned by the first three entries of
/// `x` and then moved by the others, and the length is that of all six.
pub proof fn law_step_applies_solution(
    eqs: NormalEquations,
    est: Estimate,
    trig: spec_fn(Binary64) -> (Binary64, Binary64),
) -> (x: [Binary64; 6])
    requires
        forall|p: int, q: int| 0 <= q <= p < 6 ==> #[trigger] eqs.a[p][q] == eqs.a[q][p],
    ensures
        stepped(eqs, est, trig) matches Ok((next, length)) ==> {
            &&& forall|i: int|
                0 <= i < 6 && is_finite(#[trigger] eqs.b[i]) && solves_finitely(
                    eqs.a,
                    negated6(eqs.b),
                ) ==> abs(
                    total(|j: int| value(eqs.a[i][j]) * value(x[j]), 6) + value(eqs.b[i]),
                ) <= residual_bound(eqs.a, x, i)
            &&& next.pose == moved(est.pose, rotation_exp([x[0], x[1], x[2]], trig), x)
            &&& length == twist_norm(x)
            &&& est.iterations < usize::MAX ==> next.iterations == est.iterations + 1
            &&& est.iterations == usize::MAX ==> next.iterations == usize::MAX
            &&& guarded_solution(eqs.a, negated6(eqs.b)) == Some((x, next.observability))
        },
        stepped(eqs, est, trig) is Ok <==> eqs.num_inliers >= 6 && guarded_solution(
            eqs.a,
            negated6(eqs.b),
        ) is Some,
{
    match guarded_solution(eqs.a, negated6(eqs.b)) {
        None => arbitrary(),
        Some((x, weakest)) => {
            assert forall|i: int|
                0 <= i < 6 && is_finite(#[trigger] eqs.b[i]) && solves_finitely(
                    eqs.a,
                    negated6(eqs.b),
                ) implies abs(
                total(|j: int| value(eqs.a[i][j]) * value(x[j]), 6) + value(eqs.b[i]),
            ) <= residual_bound(eqs.a, x, i) by {
                law_solution_nearly_satisfies_system(eqs.a, negated6(eqs.b), i);
                lemma_neg_value(eqs.b[i]);
                assert(negated6(eqs.b)[i] == fl_neg(eqs.b[i]));
            }
            x
        },
    }
}

/// Why a step is refused: fewer than six correspondences are reported with their number, and of six
/// or more only a system without a solution is refused, as singular.
pub proof fn law_step_refusals(
    eqs: NormalEquations,
    est: Estimate,
    trig: spec_fn(Binary64) -> (Binary64, Binary64),
)
    ensures
        eqs.num_inliers < 6 ==> stepped(eqs, est, trig) == Err::<
            (Estimate, Binary64),
            RgbdIcpError,
        >(RgbdIcpError::TooFewCorrespondences(eqs.num_inliers)),
        eqs.num_inliers >= 6 ==> (stepped(eqs, est, trig) matches Err(e) ==> e
            == RgbdIcpError::SingularNormalEquations && guarded_solution(
            eqs.a,
            negated6(eqs.b),
        ) is None),
{
}

// ---------------------------------------------------------------------------
// One level
// ---------------------------------------------------------------------------

/// The step from an estimate on a level: a fresh pass under its pose, and a solve.
pub open spec fn step_from(
    src: RgbdLevel,
    tgt: RgbdLevel,
    criteria: IcpPlaneCriteria,
    view: spec_fn([Binary64; 3]) -> Option<[Binary64; 2]>,
    trig: spec_fn(Binary64) -> (Binary64, Binary64),
    est: Estimate,
) -> Result<(Estimate, Binary64), RgbdIcpError> {
    let gate = gate_of(criteria, trig(criteria.max_normal_angle_rad).1);
    stepped(pass(src, tgt, est.pose, gate, view), est, trig)
}

/// Whether each estimate of a chain is the step from the one before, and no step but the last is
/// shorter than the tolerance.
pub open spec fn is_chain(
    src: RgbdLevel,
    tgt: RgbdLevel,
    criteria: IcpPlaneCriteria,
    view: spec_fn([Binary64; 3]) -> Option<[Binary64; 2]>,
    trig: spec_fn(Binary64) -> (Binary64, Binary64),
    chain: Seq<Estimate>,
) -> bool {
    forall|j: int|
        0 <= j < chain.len() - 1 ==> (step_from(
            src,
            tgt,
            criteria,
            view,
            trig,
            #[trigger] chain[j],
        ) matches Ok((next, length)) && next == chain[j + 1] && (j < chain.len() - 2 ==> !fl_lt(
            length,
            criteria.update_tolerance,
        )))
}

/// Whether the last step of a chain is shorter than the tolerance.
pub open spec fn has_settled(
    src: RgbdLevel,
    tgt: RgbdLevel,
    criteria: IcpPlaneCriteria,
    view: spec_fn([Binary64; 3]) -> Option<[Binary64; 2]>,
    trig: spec_fn(Binary64) -> (Binary64, Binary64),
    chain: Seq<Estimate>,
) -> bool {
    chain.len() >= 2 && (step_from(
        src,
        tgt,
        criteria,
        view,
        trig,
        chain[chain.len() - 2],
    ) matches Ok((next, length)) && fl_lt(length, criteria.update_tolerance))
}

/// A refinement is a chain of steps, each on a fresh pass: it ends after the planned number of them
/// or, before, with the first that is shorter than the tolerance; a step that is refused refuses
/// the refinement.
pub proof fn law_refinement_is_chain_of_steps(
    src: RgbdLevel,
    tgt: RgbdLevel,
    criteria: IcpPlaneCriteria,
    view: spec_fn([Binary64; 3]) -> Option<[Binary64; 2]>,
    trig: spec_fn(Binary64) -> (Binary64, Binary64),
    est: Estimate,
    iters: nat,
) -> (chain: Seq<Estimate>)
    ensures
        1 <= chain.len() <= iters + 1,
        chain[0] == est,
        is_chain(src, tgt, criteria, view, trig, chain),
        match refined(src, tgt, criteria, view, trig, est, iters) {
            Ok(to) => to == chain.last() && (chain.len() == iters + 1 || has_settled(
                src,
                tgt,
                criteria,
                view,
                trig,
                chain,
            )),
            Err(e) => {
                &&& chain.len() <= iters
                &&& !has_settled(src, tgt, criteria, view, trig, chain)
                &&& step_from(src, tgt, criteria, view, trig, chain.last()) == Err::<
                    (Estimate, Binary64),
                    RgbdIcpError,
                >(e)
            },
        },
    decreases iters,
{
    if iters == 0 {
        seq![est]
    } else {
        match step_from(src, tgt, criteria, view, trig, est) {
            Err(e) => seq![est],
            Ok((next, length)) => if fl_lt(length, criteria.update_tolerance) {
                let chain = seq![est, next];
                assert(chain[0] == est && chain[1] == next);
                chain
            } else {
                let rest = law_refinement_is_chain_of_steps(
                    src,
                    tgt,
                    criteria,
                    view,
                    trig,
                    next,
                    (iters - 1) as nat,
                );
                let chain = seq![est] + rest;
                assert forall|j: int| 0 <= j < chain.len() - 1 implies (step_from(
                    src,
                    tgt,
                    criteria,
                    view,
                    trig,
                    #[trigger] chain[j],
                ) matches Ok((to, far)) && to == chain[j + 1] && (j < chain.len() - 2 ==> !fl_lt(
                    far,
                    criteria.update_tolerance,
                ))) by {
                    if j > 0 {
                        assert(chain[j] == rest[j - 1]);
                        assert(chain[j + 1] == rest[j]);
                    } else {
                        assert(chain[1] == rest[0]);
                    }
                }
                assert(chain.last() == rest.last());
                if rest.len() >= 2 {
                    assert(chain[chain.len() - 2] == rest[rest.len() - 2]);
                } else {
                    assert(chain[chain.len() - 2] == est);
                }
                chain
            },
        }
    }
}

// ---------------------------------------------------------------------------
// All levels
// ---------------------------------------------------------------------------

/// The refinement of the level with index `coarse`, counted from the coarsest of `n`: the levels of
/// both pyramids with the same index meet, each point is projected into that level, and the
/// iterations are the entry of the list.
#[verifier::opaque]
pub open spec fn refinement_at(
    source: RgbdPyramid,
    target: RgbdPyramid,
    criteria: IcpPlaneCriteria,
    views: spec_fn(usize, [Binary64; 3]) -> Option<[Binary64; 2]>,
    trig: spec_fn(Binary64) -> (Binary64, Binary64),
    n: nat,
    coarse: int,
    est: Estimate,
) -> Result<Estimate, RgbdIcpError> {
    let level = n - 1 - coarse;
    let list = criteria.iters_per_level@;
    let iters = if list.len() == 0 {
        0nat
    } else if coarse < list.len() {
        list[coarse] as nat
    } else {
        list[list.len() - 1] as nat
    };
    refined(
        source.levels[level],
        target.levels[level],
        criteria,
        |p: [Binary64; 3]| views(level as usize, p),
        trig,
        est,
        iters,
    )
}

/// A descent is the refinement of the coarsest level, followed by the descent from the next.
proof fn lemma_descent_unfolds(
    source: RgbdPyramid,
    target: RgbdPyramid,
    criteria: IcpPlaneCriteria,
    views: spec_fn(usize, [Binary64; 3]) -> Option<[Binary64; 2]>,
    trig: spec_fn(Binary64) -> (Binary64, Binary64),
    est: Estimate,
    n: nat,
    coarse: nat,
)
    requires
        coarse < n,
    ensures
        descended(source, target, criteria, views, trig, est, n, coarse) == match refinement_at(
            source,
            target,
            criteria,
            views,
            trig,
            n,
            coarse as int,
            est,
        ) {
            Err(e) => Err::<Estimate, RgbdIcpError>(e),
            Ok(next) => descended(source, target, criteria, views, trig, next, n, coarse + 1),
        },
{
    reveal(refinement_at);
    let level = n - 1 - coarse;
    law_planned_iterations_are_entries(criteria.iters_per_level@, coarse);
    assert(level_view(views, level as usize) =~= |p: [Binary64; 3]| views(level as usize, p));
}

proof fn lemma_descent_stops(
    source: RgbdPyramid,
    target: RgbdPyramid,
    criteria: IcpPlaneCriteria,
    views: spec_fn(usize, [Binary64; 3]) -> Option<[Binary64; 2]>,
    trig: spec_fn(Binary64) -> (Binary64, Binary64),
    est: Estimate,
    n: nat,
    coarse: nat,
) -> (stops: Seq<Estimate>)
    requires
        coarse <= n,
    ensures
        1 <= stops.len() <= n - coarse + 1,
        stops[0] == est,
        forall|j: int|
            0 <= j < stops.len() - 1 ==> refinement_at(
                source,
                target,
                criteria,
                views,
                trig,
                n,
                coarse + j,
                #[trigger] stops[j],
            ) == Ok::<Estimate, RgbdIcpError>(stops[j + 1]),
        match descended(source, target, criteria, views, trig, est, n, coarse) {
            Ok(to) => stops.len() == n - coarse + 1 && to == stops.last(),
            Err(e) => stops.len() <= n - coarse && refinement_at(
                source,
                target,
                criteria,
                views,
                trig,
                n,
                coarse + stops.len() - 1,
                stops.last(),
            ) == Err::<Estimate, RgbdIcpError>(e),
        },
    decreases n - coarse,
{
    if coarse >= n {
        seq![est]
    } else {
        lemma_descent_unfolds(source, target, criteria, views, trig, est, n, coarse);
        match refinement_at(source, target, criteria, views, trig, n, coarse as int, est) {
            Err(e) => seq![est],
            Ok(next) => {
                let rest = lemma_descent_stops(
                    source,
                    target,
                    criteria,
                    views,
                    trig,
                    next,
                    n,
                    coarse + 1,
                );
                let stops = seq![est] + rest;
                assert forall|j: int| 0 <= j < stops.len() - 1 implies refinement_at(
                    source,
                    target,
                    criteria,
                    views,
                    trig,
                    n,
                    coarse + j,
                    #[trigger] stops[j],
                ) == Ok::<Estimate, RgbdIcpError>(stops[j + 1]) by {
                    if j > 0 {
                        assert(stops[j] == rest[j - 1]);
                        assert(stops[j + 1] == rest[j]);
                    } else {
                        assert(stops[1] == rest[0]);
                    }
                }
                assert(stops.last() == rest.last());
                stops
            },
        }
    }
}

/// A registration refines the levels that both pyramids have from the coarsest to the finest, each
/// from where the one before stopped, and then evaluates a fresh pass over the finest level under
/// the pose that it has come to. The first refinement that is refused refuses the registration.
pub proof fn law_registration_refines_each_level(
    source: RgbdPyramid,
    target: RgbdPyramid,
    rotation: [[Binary64; 3]; 3],
    translation: [Binary64; 3],
    criteria: IcpPlaneCriteria,
    views: spec_fn(usize, [Binary64; 3]) -> Option<[Binary64; 2]>,
    trig: spec_fn(Binary64) -> (Binary64, Binary64),
    n: nat,
) -> (stops: Seq<Estimate>)
    requires
        0 < n <= source.levels.len(),
        n <= target.levels.len(),
        n == source.levels.len() || n == target.levels.len(),
    ensures
        1 <= stops.len() <= n + 1,
        stops[0].pose.rotation == rotation,
        stops[0].pose.translation == translation,
        stops[0].iterations == 0,
        value(stops[0].observability) == 0 as real,
        forall|j: int|
            0 <= j < stops.len() - 1 ==> refinement_at(
                source,
                target,
                criteria,
                views,
                trig,
                n,
                j,
                #[trigger] stops[j],
            ) == Ok::<Estimate, RgbdIcpError>(stops[j + 1]),
        match registered(
            source,
            target,
            initial_estimate(rotation, translation),
            criteria,
            views,
            trig,
        ) {
            Ok(r) => {
                let gate = gate_of(criteria, trig(criteria.max_normal_angle_rad).1);
                let eqs = pass(
                    source.levels[0],
                    target.levels[0],
                    stops.last().pose,
                    gate,
                    |p: [Binary64; 3]| views(0, p),
                );
                &&& stops.len() == n + 1
                &&& r == evaluated(stops.last(), eqs)
            },
            Err(e) => stops.len() <= n && refinement_at(
                source,
                target,
                criteria,
                views,
                trig,
                n,
                stops.len() - 1,
                stops.last(),
            ) == Err::<Estimate, RgbdIcpError>(e),
        },
{
    let start = initial_estimate(rotation, translation);
    lemma_zero_value(fl(0));
    assert(common_levels(source, target) == n);
    assert(level_view(views, 0) =~= |p: [Binary64; 3]| views(0, p));
    lemma_descent_stops(source, target, criteria, views, trig, start, n, 0)
}

} // verus!
