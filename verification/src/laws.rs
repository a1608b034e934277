//! What holds of a registration as a whole, whatever the frames are.
use crate::binary64::{
    fl_abs, fl_add, fl_div, fl_le, fl_lt, fl_mul, fl_neg, fl_of, fl_sub, is_nan, magnitude,
    negative, order, Binary64,
};
use crate::exactness::{
    is_finite, is_zero, lemma_add_zero, lemma_count_monotone, lemma_div_at_most_one,
    lemma_div_monotone, lemma_mul_one, lemma_mul_zero, lemma_product_over_factor,
    lemma_sqrt_not_negative, lemma_sqrt_zero, lemma_sub_zero, lemma_zero_div, same_value,
};
use crate::icp::{
    associated_count, common_levels, descended, difference, dot, equations_of, evaluated, fraction,
    gate_of, gated, huber_weight, initial_estimate, inliers, is_step_error, jacobian_row,
    lemma_counts_nested, level_view, moved, negated6, normal_entry, normal_row, outcome, pass,
    pixel_of, planned_iterations, refined, registered, rotated, stepped, sum_jj, sum_jr, sum_rr,
    transformed, twist_norm, valid_count, widened, Correspondence, Estimate, Gate, IcpPlaneCriteria,
    IcpPlaneResult, NormalEquations, PixelOutcome, Pose,
};
use crate::linear::{
    backward, backward_rest, block_scale, factor, fl, forward, forward_rest, guarded_solution,
    is_collapsed, is_degenerate, is_small_angle, pivot, pivot_scale, product, product_entry,
    residual, rodrigues, rotation_exp, row_dot, solution, squared_norm, weakest_pivot, ONE,
    ONE_HALF, PIVOT_RTOL, SIX, TWENTY_FOUR,
};
use crate::rgbd::{RgbdIcpError, RgbdLevel, RgbdPyramid};
use crate::rounding::INFINITE;
use vstd::prelude::*;

verus! {

// ---------------------------------------------------------------------------
// Association and gating
// ---------------------------------------------------------------------------

/// The accumulated matrix is symmetric.
pub proof fn law_normal_matrix_symmetric(
    src: RgbdLevel,
    tgt: RgbdLevel,
    pose: Pose,
    gate: Gate,
    view: spec_fn([Binary64; 3]) -> Option<[Binary64; 2]>,
    i: int,
    k: int,
)
    requires
        0 <= i < 6,
        0 <= k < 6,
    ensures
        pass(src, tgt, pose, gate, view).a[i][k] == pass(src, tgt, pose, gate, view).a[k][i],
{
    let rows = inliers(src, tgt, pose, gate, view, src.num_pixels());
    let a = pass(src, tgt, pose, gate, view).a;
    assert(a[i] == normal_row(rows, i));
    assert(a[k] == normal_row(rows, k));
    assert(a[i][k] == normal_entry(rows, i, k));
    assert(a[k][i] == normal_entry(rows, k, i));
}

/// Every correspondence is an associated pixel, every associated pixel is a valid one, and
/// every valid one is a pixel of the source level. The counts are exact.
pub proof fn law_counts_nested(
    src: RgbdLevel,
    tgt: RgbdLevel,
    pose: Pose,
    gate: Gate,
    view: spec_fn([Binary64; 3]) -> Option<[Binary64; 2]>,
)
    ensures
        ({
            let n = src.num_pixels();
            let eqs = pass(src, tgt, pose, gate, view);
            &&& eqs.num_inliers <= eqs.num_associated <= eqs.num_valid <= n
            &&& eqs.num_inliers == inliers(src, tgt, pose, gate, view, n).len()
            &&& eqs.num_associated == associated_count(src, tgt, pose, gate, view, n)
            &&& eqs.num_valid == valid_count(src, n)
        }),
{
    lemma_counts_nested(src, tgt, pose, gate, view, src.num_pixels());
}

/// Which pixels are associated does not depend on the gates: the count measures the
/// evidence before gating.
pub proof fn law_association_precedes_gates(
    src: RgbdLevel,
    tgt: RgbdLevel,
    pose: Pose,
    gate: Gate,
    other: Gate,
    view: spec_fn([Binary64; 3]) -> Option<[Binary64; 2]>,
)
    ensures
        pass(src, tgt, pose, gate, view).num_associated == pass(
            src,
            tgt,
            pose,
            other,
            view,
        ).num_associated,
{
    lemma_association_precedes_gates(src, tgt, pose, gate, other, view, src.num_pixels());
}

proof fn lemma_association_precedes_gates(
    src: RgbdLevel,
    tgt: RgbdLevel,
    pose: Pose,
    gate: Gate,
    other: Gate,
    view: spec_fn([Binary64; 3]) -> Option<[Binary64; 2]>,
    n: nat,
)
    ensures
        associated_count(src, tgt, pose, gate, view, n) == associated_count(
            src,
            tgt,
            pose,
            other,
            view,
            n,
        ),
    decreases n,
{
    if n > 0 {
        lemma_association_precedes_gates(src, tgt, pose, gate, other, view, (n - 1) as nat);
    }
}

/// An associated pair is kept exactly where its squared distance does not exceed the threshold
/// and the cosine of the angle between its normals is not below the threshold.
pub proof fn law_gates_decide(
    p: [Binary64; 3],
    n_s: [Binary64; 3],
    v_t: [Binary64; 3],
    n_t: [Binary64; 3],
    rotation: [[Binary64; 3]; 3],
    gate: Gate,
)
    ensures
        gated(p, n_s, v_t, n_t, rotation, gate) is Inlier <==> !fl_lt(
            gate.max_dist_sq,
            squared_norm(difference(p, v_t)),
        ) && !fl_lt(dot(rotated(rotation, n_s), n_t), gate.cos_max_angle),
        gated(p, n_s, v_t, n_t, rotation, gate) is Inlier || gated(
            p,
            n_s,
            v_t,
            n_t,
            rotation,
            gate,
        ) is Rejected,
{
}

/// The weight of a residual lies between zero and one, and is one up to the Huber scale.
pub proof fn law_huber_weight_bounded(r: Binary64, delta: Binary64)
    requires
        !is_nan(r),
        fl_le(fl(0), delta),
    ensures
        fl_le(fl(0), huber_weight(r, delta)),
        fl_le(huber_weight(r, delta), fl(ONE)),
        fl_le(fl_abs(r), delta) ==> huber_weight(r, delta) == fl(ONE),
{
    reveal(fl_le);
    reveal(fl_abs);
    reveal(fl_div);
    let s = fl_abs(r);
    if !fl_le(s, delta) {
        assert(order(delta) < order(s));
        if negative(delta) || magnitude(s) == INFINITE {
            // a negative zero, or an infinite residual
            assert(is_zero(fl_div(delta, s)));
        } else {
            lemma_div_at_most_one(delta, s);
        }
    }
}

// ---------------------------------------------------------------------------
// The guarded solve
// ---------------------------------------------------------------------------

/// A solve that is accepted has a positive scale in both blocks and no collapsed pivot.
pub proof fn law_accepted_pivots_hold(a: [[Binary64; 6]; 6], b: [Binary64; 6])
    ensures
        guarded_solution(a, b) is Some <==> {
            &&& !fl_le(block_scale(a, 0), fl(0))
            &&& !fl_le(block_scale(a, 3), fl(0))
            &&& forall|i: int|
                0 <= i < 6 ==> !fl_lt(
                    #[trigger] pivot(a, i),
                    fl_mul(fl(PIVOT_RTOL), pivot_scale(a, i)),
                )
        },
{
    if guarded_solution(a, b) is Some {
        assert forall|i: int| 0 <= i < 6 implies !fl_lt(
            #[trigger] pivot(a, i),
            fl_mul(fl(PIVOT_RTOL), pivot_scale(a, i)),
        ) by {
            assert(!is_collapsed(a, i));
        }
    } else if !fl_le(block_scale(a, 0), fl(0)) && !fl_le(block_scale(a, 3), fl(0)) {
        let i = choose|i: int| 0 <= i < 6 && #[trigger] is_collapsed(a, i);
        assert(fl_lt(pivot(a, i), fl_mul(fl(PIVOT_RTOL), pivot_scale(a, i))));
    }
}

/// The reported pivot is the weakest: none of the pivots, relative to its block, is below
/// it.
pub proof fn law_reported_pivot_is_weakest(a: [[Binary64; 6]; 6], b: [Binary64; 6], i: int)
    requires
        0 <= i < 6,
    ensures
        guarded_solution(a, b) matches Some((x, weakest)) ==> !fl_lt(
            fl_div(pivot(a, i), pivot_scale(a, i)),
            weakest,
        ),
{
    lemma_weakest_pivot(a, 6, i);
}

proof fn lemma_weakest_pivot(a: [[Binary64; 6]; 6], n: int, i: int)
    requires
        0 <= i < n,
    ensures
        !is_nan(weakest_pivot(a, n)),
        !fl_lt(fl_div(pivot(a, i), pivot_scale(a, i)), weakest_pivot(a, n)),
    decreases n,
{
    reveal(fl_lt);
    assert(!is_nan(weakest_pivot(a, n - 1))) by {
        if n - 1 > 0 {
            lemma_weakest_pivot(a, n - 1, 0);
        }
    }
    if i < n - 1 {
        lemma_weakest_pivot(a, n - 1, i);
    }
}

/// The reported pivot is at most one: that of the first row is not above the scale of its block.
pub proof fn law_reported_pivot_is_at_most_one(a: [[Binary64; 6]; 6], b: [Binary64; 6])
    requires
        is_finite(a[0][0]),
    ensures
        guarded_solution(a, b) matches Some((x, weakest)) ==> fl_le(weakest, fl(ONE)),
{
    if guarded_solution(a, b) is Some {
        let scale = block_scale(a, 0);
        let square = a[0][0];
        reveal(fl_lt);
        reveal(fl_le);
        assert(!negative(scale) && magnitude(scale) > 0 && !is_nan(scale));
        assert(fl_le(square, scale));
        let ratio = fl_div(square, scale);
        assert(fl_le(ratio, fl(ONE))) by {
            if magnitude(scale) == INFINITE || is_zero(square) || negative(square) {
                reveal(fl_div);
            } else {
                lemma_div_at_most_one(square, scale);
            }
        }
        lemma_weakest_pivot(a, 6, 0);
    }
}

/// The reported pivot of a solve that is accepted does not fall below the relative threshold
/// by more than the last digit, where the thresholds of both blocks are not subnormal.
pub proof fn law_reported_pivot_is_above_threshold(a: [[Binary64; 6]; 6], b: [Binary64; 6])
    requires
        magnitude(fl_mul(fl(PIVOT_RTOL), block_scale(a, 0))) >= 0x0010_0000_0000_0000,
        magnitude(fl_mul(fl(PIVOT_RTOL), block_scale(a, 3))) >= 0x0010_0000_0000_0000,
    ensures
        guarded_solution(a, b) matches Some((x, weakest)) ==> fl_le(
            fl((PIVOT_RTOL - 1) as u64),
            weakest,
        ),
{
    if guarded_solution(a, b) is Some {
        assert forall|i: int| 0 <= i < 6 implies is_nan(
            #[trigger] fl_div(pivot(a, i), pivot_scale(a, i)),
        ) || fl_le(fl((PIVOT_RTOL - 1) as u64), fl_div(pivot(a, i), pivot_scale(a, i))) by {
            assert(!is_collapsed(a, i));
            assert(!is_nan(pivot_scale(a, i))) by {
                reveal(fl_lt);
            }
            lemma_accepted_pivot(pivot(a, i), pivot_scale(a, i));
        }
        lemma_weakest_above(a, 6);
    }
}

/// A squared pivot that has not collapsed is, relative to its scale, not below the threshold
/// by more than the last digit.
proof fn lemma_accepted_pivot(square: Binary64, scale: Binary64)
    requires
        !fl_le(scale, fl(0)),
        !is_nan(scale),
        magnitude(fl_mul(fl(PIVOT_RTOL), scale)) >= 0x0010_0000_0000_0000,
        !fl_lt(square, fl_mul(fl(PIVOT_RTOL), scale)),
    ensures
        is_nan(fl_div(square, scale)) || fl_le(
            fl((PIVOT_RTOL - 1) as u64),
            fl_div(square, scale),
        ),
{
    reveal(fl_lt);
    reveal(fl_le);
    let floor = fl_mul(fl(PIVOT_RTOL), scale);
    if is_nan(square) || magnitude(square) == INFINITE || magnitude(scale) == INFINITE {
        reveal(fl_mul);
        reveal(fl_div);
    } else {
        assert(!negative(floor) && !is_nan(floor)) by {
            reveal(fl_mul);
        }
        assert(order(square) >= order(floor));
        lemma_product_over_factor(fl(PIVOT_RTOL), scale);
        lemma_div_monotone(floor, square, scale);
    }
}

proof fn lemma_weakest_above(a: [[Binary64; 6]; 6], n: int)
    requires
        0 <= n <= 6,
        forall|i: int|
            0 <= i < 6 ==> is_nan(#[trigger] fl_div(pivot(a, i), pivot_scale(a, i))) || fl_le(
                fl((PIVOT_RTOL - 1) as u64),
                fl_div(pivot(a, i), pivot_scale(a, i)),
            ),
    ensures
        fl_le(fl((PIVOT_RTOL - 1) as u64), weakest_pivot(a, n)),
    decreases n,
{
    reveal(fl_le);
    reveal(fl_lt);
    if n > 0 {
        lemma_weakest_above(a, n - 1);
        assert(is_nan(fl_div(pivot(a, n - 1), pivot_scale(a, n - 1))) || fl_le(
            fl((PIVOT_RTOL - 1) as u64),
            fl_div(pivot(a, n - 1), pivot_scale(a, n - 1)),
        ));
    }
}

/// The threshold of a block depends on its own diagonal alone: the rotation entries, which
/// grow with the square of the depth, do not loosen the guard of the translation, nor the
/// other way round.
pub proof fn law_blocks_guarded_separately(
    a: [[Binary64; 6]; 6],
    other: [[Binary64; 6]; 6],
    i: int,
)
    requires
        0 <= i < 6,
        forall|k: int| 0 <= k < 6 && (k < 3 <==> i < 3) ==> #[trigger] a[k][k] == other[k][k],
    ensures
        pivot_scale(a, i) == pivot_scale(other, i),
{
    if i < 3 {
        assert(a[0][0] == other[0][0]);
        assert(a[1][1] == other[1][1]);
        assert(a[2][2] == other[2][2]);
    } else {
        assert(a[3][3] == other[3][3]);
        assert(a[4][4] == other[4][4]);
        assert(a[5][5] == other[5][5]);
    }
}

/// A coordinate of the twist that no correspondence constrains is refused, as the shifts along a
/// wall that faces along an axis are: where the rows before it factor into finite numbers and its
/// block has a scale, the equations are degenerate.
pub proof fn law_unconstrained_coordinate_refused(
    rows: Seq<Correspondence>,
    num_associated: usize,
    num_valid: usize,
    i: int,
)
    requires
        0 <= i < 6,
        forall|r: int| 0 <= r < rows.len() ==> is_unconstrained(#[trigger] rows[r], i),
        factors_before(equations_of(rows, num_associated, num_valid).a, i),
        fl_lt(
            fl(0),
            fl_mul(
                fl(PIVOT_RTOL),
                pivot_scale(equations_of(rows, num_associated, num_valid).a, i),
            ),
        ),
    ensures
        is_degenerate(equations_of(rows, num_associated, num_valid).a),
{
    let a = equations_of(rows, num_associated, num_valid).a;
    assert forall|k: int| 0 <= k <= i implies is_zero(#[trigger] a[i][k]) by {
        lemma_unconstrained_sums(rows, i, k);
        assert(a[i] == normal_row(rows, i));
        assert(a[i][k] == normal_entry(rows, i, k));
    }
    lemma_empty_row_factors(a, i, i);
    lemma_empty_row_residual(a, i, i, i);
    reveal(fl_lt);
    assert(is_collapsed(a, i));
}

/// Whether a correspondence does not constrain coordinate `i` of the twist, and its
/// products stay finite.
pub open spec fn is_unconstrained(c: Correspondence, i: int) -> bool {
    &&& is_zero(c.jacobian[i])
    &&& is_finite(c.weight)
    &&& forall|k: int|
        0 <= k < 6 ==> is_finite(#[trigger] c.jacobian[k]) && is_finite(
            fl_mul(c.weight, c.jacobian[k]),
        )
}

/// Whether the rows of the Cholesky factor before row `i` are finite, without a zero on the
/// diagonal.
pub open spec fn factors_before(a: [[Binary64; 6]; 6], i: int) -> bool {
    forall|k: int, t: int|
        0 <= t <= k < i ==> is_finite(#[trigger] factor(a, k, t)) && (t == k ==> !is_zero(
            factor(a, k, t),
        ))
}

proof fn lemma_unconstrained_sums(rows: Seq<Correspondence>, i: int, k: int)
    requires
        0 <= i < 6,
        0 <= k < 6,
        forall|r: int| 0 <= r < rows.len() ==> is_unconstrained(#[trigger] rows[r], i),
    ensures
        is_zero(sum_jj(rows, i, k)),
        is_zero(sum_jj(rows, k, i)),
    decreases rows.len(),
{
    if rows.len() > 0 {
        let before = rows.drop_last();
        let c = rows.last();
        assert(rows[rows.len() - 1] == c);
        assert forall|r: int| 0 <= r < before.len() implies is_unconstrained(
            #[trigger] before[r],
            i,
        ) by {
            assert(before[r] == rows[r]);
        }
        lemma_unconstrained_sums(before, i, k);
        assert(is_finite(c.jacobian[k]));
        lemma_mul_zero(c.weight, c.jacobian[i]);
        lemma_mul_zero(c.jacobian[k], fl_mul(c.weight, c.jacobian[i]));
        lemma_mul_zero(fl_mul(c.weight, c.jacobian[k]), c.jacobian[i]);
        lemma_add_zero(
            sum_jj(before, i, k),
            fl_mul(fl_mul(c.weight, c.jacobian[i]), c.jacobian[k]),
        );
        lemma_add_zero(
            sum_jj(before, k, i),
            fl_mul(fl_mul(c.weight, c.jacobian[k]), c.jacobian[i]),
        );
    }
}

proof fn lemma_empty_row_factors(a: [[Binary64; 6]; 6], i: int, n: int)
    requires
        0 <= n <= i < 6,
        forall|k: int| 0 <= k <= i ==> is_zero(#[trigger] a[i][k]),
        factors_before(a, i),
    ensures
        forall|k: int| 0 <= k < n ==> is_zero(#[trigger] factor(a, i, k)),
    decreases n, 1int,
{
    if n > 0 {
        lemma_empty_row_factors(a, i, n - 1);
        lemma_empty_row_residual(a, i, n - 1, n - 1);
        let d = factor(a, n - 1, n - 1);
        lemma_zero_div(residual(a, i, n - 1, n - 1), d);
    }
}

proof fn lemma_empty_row_residual(a: [[Binary64; 6]; 6], i: int, j: int, k: int)
    requires
        0 <= k <= j <= i < 6,
        forall|t: int| 0 <= t <= i ==> is_zero(#[trigger] a[i][t]),
        factors_before(a, i),
        forall|t: int| 0 <= t < j ==> is_zero(#[trigger] factor(a, i, t)),
    ensures
        is_zero(residual(a, i, j, k)),
    decreases k,
{
    if k > 0 {
        lemma_empty_row_residual(a, i, j, k - 1);
        let f = factor(a, i, k - 1);
        let g = factor(a, j, k - 1);
        assert(is_zero(f));
        assert(is_finite(g));
        lemma_mul_zero(g, f);
        lemma_sub_zero(residual(a, i, j, k - 1), fl_mul(f, g));
    } else {
        assert(is_zero(a[i][j]));
    }
}

// ---------------------------------------------------------------------------
// A matched pose
// ---------------------------------------------------------------------------

/// Whether all entries of a vector are finite.
pub open spec fn is_finite3(v: [Binary64; 3]) -> bool {
    is_finite(v[0]) && is_finite(v[1]) && is_finite(v[2])
}

/// Whether all entries of a pose are finite.
pub open spec fn is_finite_pose(pose: Pose) -> bool {
    &&& is_finite3(pose.rotation[0])
    &&& is_finite3(pose.rotation[1])
    &&& is_finite3(pose.rotation[2])
    &&& is_finite3(pose.translation)
}

/// Whether two vectors hold the same numbers.
pub open spec fn same_vector(a: [Binary64; 3], b: [Binary64; 3]) -> bool {
    same_value(a[0], b[0]) && same_value(a[1], b[1]) && same_value(a[2], b[2])
}

/// Whether two poses hold the same numbers.
pub open spec fn same_pose(a: Pose, b: Pose) -> bool {
    &&& same_vector(a.rotation[0], b.rotation[0])
    &&& same_vector(a.rotation[1], b.rotation[1])
    &&& same_vector(a.rotation[2], b.rotation[2])
    &&& same_vector(a.translation, b.translation)
}

/// A source point that moves onto its target vertex passes the distance gate; where its
/// normal passes too, the residual is zero and has full weight.
pub proof fn law_coincident_points_match(
    p: [Binary64; 3],
    n_s: [Binary64; 3],
    n_t: [Binary64; 3],
    rotation: [[Binary64; 3]; 3],
    gate: Gate,
)
    requires
        is_finite3(p),
        is_finite3(n_t),
        !fl_lt(gate.max_dist_sq, fl(0)),
        fl_le(fl(0), gate.huber_delta),
        !fl_lt(dot(rotated(rotation, n_s), n_t), gate.cos_max_angle),
    ensures
        gated(p, n_s, p, n_t, rotation, gate) matches PixelOutcome::Inlier(c) && is_zero(
            c.residual,
        ) && c.weight == fl(ONE),
{
    let d = difference(p, p);
    lemma_self_difference(p[0]);
    lemma_self_difference(p[1]);
    lemma_self_difference(p[2]);
    lemma_dot_zero(d, d);
    lemma_dot_zero(n_t, d);
    reveal(fl_lt);
    reveal(fl_le);
    reveal(fl_abs);
}

proof fn lemma_self_difference(x: Binary64)
    requires
        is_finite(x),
    ensures
        is_zero(fl_sub(x, x)),
{
    reveal(fl_add);
    reveal(fl_neg);
}

proof fn lemma_dot_zero(a: [Binary64; 3], z: [Binary64; 3])
    requires
        is_finite3(a),
        is_zero(z[0]),
        is_zero(z[1]),
        is_zero(z[2]),
    ensures
        is_zero(dot(a, z)),
        is_zero(dot(z, a)),
{
    lemma_mul_zero(a[0], z[0]);
    lemma_mul_zero(a[1], z[1]);
    lemma_mul_zero(a[2], z[2]);
    lemma_add_zero(fl_mul(a[0], z[0]), fl_mul(a[1], z[1]));
    lemma_add_zero(fl_add(fl_mul(a[0], z[0]), fl_mul(a[1], z[1])), fl_mul(a[2], z[2]));
    lemma_add_zero(fl_mul(z[0], a[0]), fl_mul(z[1], a[1]));
    lemma_add_zero(fl_add(fl_mul(z[0], a[0]), fl_mul(z[1], a[1])), fl_mul(z[2], a[2]));
}

/// Whether a correspondence has a zero residual of full weight and a finite Jacobian row.
pub open spec fn is_matched(c: Correspondence) -> bool {
    &&& is_zero(c.residual)
    &&& c.weight == fl(ONE)
    &&& forall|k: int| 0 <= k < 6 ==> is_finite(#[trigger] c.jacobian[k])
}

/// Where all residuals vanish, a Gauss-Newton step that succeeds on a finite factor keeps
/// the pose, and its update has length zero.
pub proof fn law_matched_pose_is_kept(
    rows: Seq<Correspondence>,
    num_associated: usize,
    num_valid: usize,
    est: Estimate,
    trig: spec_fn(Binary64) -> (Binary64, Binary64),
)
    requires
        forall|r: int| 0 <= r < rows.len() ==> is_matched(#[trigger] rows[r]),
        factors_before(equations_of(rows, num_associated, num_valid).a, 6),
        is_finite_pose(est.pose),
    ensures
        stepped(equations_of(rows, num_associated, num_valid), est, trig) matches Ok(
            (next, length),
        ) ==> same_pose(next.pose, est.pose) && is_zero(length),
{
    let eqs = equations_of(rows, num_associated, num_valid);
    let b = negated6(eqs.b);
    assert forall|i: int| 0 <= i < 6 implies is_zero(#[trigger] b[i]) by {
        lemma_matched_sums(rows, i);
        assert(eqs.b[i] == sum_jr(rows, i));
        reveal(fl_neg);
    }
    if let Ok((next, length)) = stepped(eqs, est, trig) {
        let x = solution(eqs.a, b);
        lemma_zero_forward(eqs.a, b, 6);
        lemma_zero_backward(eqs.a, b, 0);
        assert forall|i: int| 0 <= i < 6 implies is_zero(#[trigger] x[i]) by {
            assert(x[i] == backward(eqs.a, b, i));
        }
        assert(is_zero(x[0]) && is_zero(x[1]) && is_zero(x[2]));
        assert(is_zero(x[3]) && is_zero(x[4]) && is_zero(x[5]));
        lemma_zero_norm(x);
        let w = [x[0], x[1], x[2]];
        law_zero_rotation_is_identity(w, trig);
        lemma_identity_moves_nothing(est.pose, rotation_exp(w, trig), x);
    }
}

proof fn lemma_matched_sums(rows: Seq<Correspondence>, i: int)
    requires
        0 <= i < 6,
        forall|r: int| 0 <= r < rows.len() ==> is_matched(#[trigger] rows[r]),
    ensures
        is_zero(sum_jr(rows, i)),
    decreases rows.len(),
{
    if rows.len() > 0 {
        let before = rows.drop_last();
        let c = rows.last();
        assert(rows[rows.len() - 1] == c);
        assert forall|r: int| 0 <= r < before.len() implies is_matched(#[trigger] before[r]) by {
            assert(before[r] == rows[r]);
        }
        lemma_matched_sums(before, i);
        assert(is_finite(c.jacobian[i]));
        lemma_mul_one(c.jacobian[i]);
        lemma_mul_zero(c.jacobian[i], c.residual);
        lemma_add_zero(
            sum_jr(before, i),
            fl_mul(fl_mul(c.weight, c.jacobian[i]), c.residual),
        );
    }
}

pub proof fn lemma_zero_forward(a: [[Binary64; 6]; 6], b: [Binary64; 6], n: int)
    requires
        0 <= n <= 6,
        factors_before(a, 6),
        forall|i: int| 0 <= i < 6 ==> is_zero(#[trigger] b[i]),
    ensures
        forall|i: int| 0 <= i < n ==> is_zero(#[trigger] forward(a, b, i)),
    decreases n,
{
    if n > 0 {
        lemma_zero_forward(a, b, n - 1);
        lemma_zero_forward_rest(a, b, n - 1, n - 1);
        let d = factor(a, n - 1, n - 1);
        lemma_zero_div(forward_rest(a, b, n - 1, n - 1), d);
    }
}

proof fn lemma_zero_forward_rest(a: [[Binary64; 6]; 6], b: [Binary64; 6], i: int, k: int)
    requires
        0 <= k <= i < 6,
        factors_before(a, 6),
        forall|t: int| 0 <= t < 6 ==> is_zero(#[trigger] b[t]),
        forall|t: int| 0 <= t < i ==> is_zero(#[trigger] forward(a, b, t)),
    ensures
        is_zero(forward_rest(a, b, i, k)),
    decreases k,
{
    if k > 0 {
        lemma_zero_forward_rest(a, b, i, k - 1);
        let f = factor(a, i, k - 1);
        let y = forward(a, b, k - 1);
        assert(is_finite(f) && is_zero(y));
        lemma_mul_zero(f, y);
        lemma_sub_zero(forward_rest(a, b, i, k - 1), fl_mul(f, y));
    } else {
        assert(is_zero(b[i]));
    }
}

pub proof fn lemma_zero_backward(a: [[Binary64; 6]; 6], b: [Binary64; 6], n: int)
    requires
        0 <= n <= 6,
        factors_before(a, 6),
        forall|i: int| 0 <= i < 6 ==> is_zero(#[trigger] forward(a, b, i)),
    ensures
        forall|i: int| n <= i < 6 ==> is_zero(#[trigger] backward(a, b, i)),
    decreases 6 - n,
{
    if n < 6 {
        lemma_zero_backward(a, b, n + 1);
        lemma_zero_backward_rest(a, b, n, 6);
        let d = factor(a, n, n);
        lemma_zero_div(backward_rest(a, b, n, 6), d);
    }
}

proof fn lemma_zero_backward_rest(a: [[Binary64; 6]; 6], b: [Binary64; 6], i: int, k: int)
    requires
        0 <= i < k <= 6,
        factors_before(a, 6),
        forall|t: int| 0 <= t < 6 ==> is_zero(#[trigger] forward(a, b, t)),
        forall|t: int| i < t < 6 ==> is_zero(#[trigger] backward(a, b, t)),
    ensures
        is_zero(backward_rest(a, b, i, k)),
    decreases k,
{
    if k > i + 1 {
        lemma_zero_backward_rest(a, b, i, k - 1);
        let f = factor(a, k - 1, i);
        let x = backward(a, b, k - 1);
        assert(is_finite(f) && is_zero(x));
        lemma_mul_zero(f, x);
        lemma_sub_zero(backward_rest(a, b, i, k - 1), fl_mul(f, x));
    } else {
        assert(is_zero(forward(a, b, i)));
    }
}

proof fn lemma_zero_norm(x: [Binary64; 6])
    requires
        forall|i: int| 0 <= i < 6 ==> is_zero(#[trigger] x[i]),
    ensures
        is_zero(twist_norm(x)),
{
    lemma_mul_zero(x[0], x[0]);
    lemma_mul_zero(x[1], x[1]);
    lemma_mul_zero(x[2], x[2]);
    lemma_mul_zero(x[3], x[3]);
    lemma_mul_zero(x[4], x[4]);
    lemma_mul_zero(x[5], x[5]);
    let s0 = fl_add(fl(0), fl_mul(x[0], x[0]));
    let s1 = fl_add(s0, fl_mul(x[1], x[1]));
    let s2 = fl_add(s1, fl_mul(x[2], x[2]));
    let s3 = fl_add(s2, fl_mul(x[3], x[3]));
    let s4 = fl_add(s3, fl_mul(x[4], x[4]));
    let s5 = fl_add(s4, fl_mul(x[5], x[5]));
    lemma_add_zero(fl(0), fl_mul(x[0], x[0]));
    lemma_add_zero(s0, fl_mul(x[1], x[1]));
    lemma_add_zero(s1, fl_mul(x[2], x[2]));
    lemma_add_zero(s2, fl_mul(x[3], x[3]));
    lemma_add_zero(s3, fl_mul(x[4], x[4]));
    lemma_add_zero(s4, fl_mul(x[5], x[5]));
    lemma_sqrt_zero(s5);
}

/// Whether a matrix has ones on its diagonal and zeros elsewhere.
pub open spec fn is_identity(m: [[Binary64; 3]; 3]) -> bool {
    forall|i: int, j: int|
        0 <= i < 3 && 0 <= j < 3 ==> if i == j {
            #[trigger] m[i][j] == fl(ONE)
        } else {
            is_zero(m[i][j])
        }
}

/// The rotation by the zero vector is the identity.
pub proof fn law_zero_rotation_is_identity(
    w: [Binary64; 3],
    trig: spec_fn(Binary64) -> (Binary64, Binary64),
)
    requires
        is_zero(w[0]),
        is_zero(w[1]),
        is_zero(w[2]),
    ensures
        is_identity(rotation_exp(w, trig)),
{
    let theta2 = squared_norm(w);
    lemma_dot_zero(w, w);
    assert(is_zero(theta2));
    lemma_sqrt_zero(theta2);
    assert(is_small_angle(w)) by {
        reveal(fl_lt);
    }
    lemma_zero_div(theta2, fl(SIX));
    lemma_zero_div(theta2, fl(TWENTY_FOUR));
    let a = fl_sub(fl(ONE), fl_div(theta2, fl(SIX)));
    let b = fl_sub(fl(ONE_HALF), fl_div(theta2, fl(TWENTY_FOUR)));
    lemma_sub_zero(fl(ONE), fl_div(theta2, fl(SIX)));
    lemma_sub_zero(fl(ONE_HALF), fl_div(theta2, fl(TWENTY_FOUR)));
    assert(a == fl(ONE) && b == fl(ONE_HALF));
    let m = rodrigues(w, theta2, a, b);
    assert(rotation_exp(w, trig) == m);
    lemma_diagonal_of_zero(w[0], theta2, b);
    lemma_diagonal_of_zero(w[1], theta2, b);
    lemma_diagonal_of_zero(w[2], theta2, b);
    reveal(fl_neg);
    let na = fl_neg(a);
    lemma_off_diagonal_of_zero(na, w[2], b, w[0], w[1]);
    lemma_off_diagonal_of_zero(a, w[1], b, w[0], w[2]);
    lemma_off_diagonal_of_zero(a, w[2], b, w[1], w[0]);
    lemma_off_diagonal_of_zero(na, w[0], b, w[1], w[2]);
    lemma_off_diagonal_of_zero(na, w[1], b, w[2], w[0]);
    lemma_off_diagonal_of_zero(a, w[0], b, w[2], w[1]);
}

proof fn lemma_diagonal_of_zero(z: Binary64, theta2: Binary64, b: Binary64)
    requires
        is_zero(z),
        is_zero(theta2),
        is_finite(b),
    ensures
        fl_add(fl(ONE), fl_mul(b, fl_sub(fl_mul(z, z), theta2))) == fl(ONE),
{
    lemma_mul_zero(z, z);
    lemma_sub_zero(fl_mul(z, z), theta2);
    lemma_mul_zero(b, fl_sub(fl_mul(z, z), theta2));
    lemma_add_zero(fl(ONE), fl_mul(b, fl_sub(fl_mul(z, z), theta2)));
}

proof fn lemma_off_diagonal_of_zero(
    a: Binary64,
    x: Binary64,
    b: Binary64,
    y: Binary64,
    z: Binary64,
)
    requires
        is_finite(a),
        is_finite(b),
        is_zero(x),
        is_zero(y),
        is_zero(z),
    ensures
        is_zero(fl_add(fl_mul(a, x), fl_mul(fl_mul(b, y), z))),
{
    lemma_mul_zero(a, x);
    lemma_mul_zero(b, y);
    lemma_mul_zero(fl_mul(b, y), z);
    lemma_add_zero(fl_mul(a, x), fl_mul(fl_mul(b, y), z));
}

proof fn lemma_identity_moves_nothing(pose: Pose, m: [[Binary64; 3]; 3], x: [Binary64; 6])
    requires
        is_finite_pose(pose),
        is_identity(m),
        is_zero(x[3]),
        is_zero(x[4]),
        is_zero(x[5]),
    ensures
        same_pose(moved(pose, m, x), pose),
{
    assert(m[0][0] == fl(ONE) && m[1][1] == fl(ONE) && m[2][2] == fl(ONE));
    assert(is_zero(m[0][1]) && is_zero(m[0][2]) && is_zero(m[1][0]));
    assert(is_zero(m[1][2]) && is_zero(m[2][0]) && is_zero(m[2][1]));
    let r = pose.rotation;
    let t = pose.translation;
    lemma_identity_rows(m, r[0][0], r[1][0], r[2][0]);
    lemma_identity_rows(m, r[0][1], r[1][1], r[2][1]);
    lemma_identity_rows(m, r[0][2], r[1][2], r[2][2]);
    lemma_identity_rows(m, t[0], t[1], t[2]);
    lemma_add_zero(row_dot(m, 0, t), x[3]);
    lemma_add_zero(row_dot(m, 1, t), x[4]);
    lemma_add_zero(row_dot(m, 2, t), x[5]);
    let q = product(m, r);
    assert(q[0][0] == product_entry(m, r, 0, 0));
}

proof fn lemma_identity_rows(m: [[Binary64; 3]; 3], u: Binary64, v: Binary64, w: Binary64)
    requires
        is_identity(m),
        is_finite(u),
        is_finite(v),
        is_finite(w),
    ensures
        same_value(fl_add(fl_add(fl_mul(m[0][0], u), fl_mul(m[0][1], v)), fl_mul(m[0][2], w)), u),
        same_value(fl_add(fl_add(fl_mul(m[1][0], u), fl_mul(m[1][1], v)), fl_mul(m[1][2], w)), v),
        same_value(fl_add(fl_add(fl_mul(m[2][0], u), fl_mul(m[2][1], v)), fl_mul(m[2][2], w)), w),
{
    assert(m[0][0] == fl(ONE) && m[1][1] == fl(ONE) && m[2][2] == fl(ONE));
    assert(is_zero(m[0][1]) && is_zero(m[0][2]) && is_zero(m[1][0]));
    assert(is_zero(m[1][2]) && is_zero(m[2][0]) && is_zero(m[2][1]));
    lemma_mul_one(u);
    lemma_mul_one(v);
    lemma_mul_one(w);
    lemma_mul_zero(u, m[1][0]);
    lemma_mul_zero(u, m[2][0]);
    lemma_mul_zero(v, m[0][1]);
    lemma_mul_zero(v, m[2][1]);
    lemma_mul_zero(w, m[0][2]);
    lemma_mul_zero(w, m[1][2]);
    let a = fl_add(u, fl_mul(m[0][1], v));
    lemma_add_zero(u, fl_mul(m[0][1], v));
    lemma_add_zero(a, fl_mul(m[0][2], w));
    let b = fl_add(fl_mul(m[1][0], u), v);
    lemma_add_zero(v, fl_mul(m[1][0], u));
    lemma_add_zero(b, fl_mul(m[1][2], w));
    let c = fl_add(fl_mul(m[2][0], u), fl_mul(m[2][1], v));
    lemma_add_zero(fl_mul(m[2][0], u), fl_mul(m[2][1], v));
    lemma_add_zero(w, c);
}

// ---------------------------------------------------------------------------
// Whole registrations
// ---------------------------------------------------------------------------

/// The thresholds of a registration.
pub open spec fn run_gate(
    criteria: IcpPlaneCriteria,
    trig: spec_fn(Binary64) -> (Binary64, Binary64),
) -> Gate {
    gate_of(criteria, trig(criteria.max_normal_angle_rad).1)
}

/// The association pass of a registration over one level under a given pose.
pub open spec fn level_pass(
    source: RgbdPyramid,
    target: RgbdPyramid,
    criteria: IcpPlaneCriteria,
    views: spec_fn(usize, [Binary64; 3]) -> Option<[Binary64; 2]>,
    trig: spec_fn(Binary64) -> (Binary64, Binary64),
    level: int,
    pose: Pose,
) -> NormalEquations {
    pass(
        source.levels[level],
        target.levels[level],
        pose,
        run_gate(criteria, trig),
        level_view(views, level as usize),
    )
}

/// A registration complains about the number of levels exactly where a pyramid is empty.
pub proof fn law_empty_pyramid_refused(
    source: RgbdPyramid,
    target: RgbdPyramid,
    start: Estimate,
    criteria: IcpPlaneCriteria,
    views: spec_fn(usize, [Binary64; 3]) -> Option<[Binary64; 2]>,
    trig: spec_fn(Binary64) -> (Binary64, Binary64),
)
    ensures
        registered(source, target, start, criteria, views, trig) matches Err(
            RgbdIcpError::InvalidNumLevels(_),
        ) <==> source.levels.len() == 0 || target.levels.len() == 0,
        source.levels.len() == 0 || target.levels.len() == 0 ==> registered(
            source,
            target,
            start,
            criteria,
            views,
            trig,
        ) == Err::<IcpPlaneResult, RgbdIcpError>(RgbdIcpError::InvalidNumLevels(0)),
{
    let n = common_levels(source, target);
    if n > 0 {
        lemma_descent_errors(source, target, criteria, views, trig, start, n, 0);
    }
}

/// Where a registration complains about too few correspondences, fewer than six survived
/// gating.
pub proof fn law_too_few_is_fewer_than_six(
    source: RgbdPyramid,
    target: RgbdPyramid,
    start: Estimate,
    criteria: IcpPlaneCriteria,
    views: spec_fn(usize, [Binary64; 3]) -> Option<[Binary64; 2]>,
    trig: spec_fn(Binary64) -> (Binary64, Binary64),
)
    ensures
        registered(source, target, start, criteria, views, trig) matches Err(
            RgbdIcpError::TooFewCorrespondences(count),
        ) ==> count < 6,
{
    let n = common_levels(source, target);
    if n > 0 {
        lemma_descent_errors(source, target, criteria, views, trig, start, n, 0);
    }
}

proof fn lemma_refine_errors(
    src: RgbdLevel,
    tgt: RgbdLevel,
    criteria: IcpPlaneCriteria,
    view: spec_fn([Binary64; 3]) -> Option<[Binary64; 2]>,
    trig: spec_fn(Binary64) -> (Binary64, Binary64),
    est: Estimate,
    iters: nat,
)
    ensures
        refined(src, tgt, criteria, view, trig, est, iters) matches Err(e) ==> is_step_error(e),
    decreases iters,
{
    if iters > 0 {
        let eqs = pass(src, tgt, est.pose, run_gate(criteria, trig), view);
        if let Ok((next, length)) = stepped(eqs, est, trig) {
            lemma_refine_errors(src, tgt, criteria, view, trig, next, (iters - 1) as nat);
        }
    }
}

proof fn lemma_descent_errors(
    source: RgbdPyramid,
    target: RgbdPyramid,
    criteria: IcpPlaneCriteria,
    views: spec_fn(usize, [Binary64; 3]) -> Option<[Binary64; 2]>,
    trig: spec_fn(Binary64) -> (Binary64, Binary64),
    est: Estimate,
    n: nat,
    coarse: nat,
)
    ensures
        descended(source, target, criteria, views, trig, est, n, coarse) matches Err(e)
            ==> is_step_error(e),
    decreases n - coarse,
{
    if coarse < n {
        let level = n - 1 - coarse;
        let view = level_view(views, level as usize);
        let iters = planned_iterations(criteria.iters_per_level@, coarse);
        lemma_refine_errors(
            source.levels[level],
            target.levels[level],
            criteria,
            view,
            trig,
            est,
            iters,
        );
        if let Ok(next) = refined(
            source.levels[level],
            target.levels[level],
            criteria,
            view,
            trig,
            est,
            iters,
        ) {
            lemma_descent_errors(source, target, criteria, views, trig, next, n, coarse + 1);
        }
    }
}

/// Levels beyond the list of iterations reuse its last entry.
pub proof fn law_schedule_reuses_last_entry(list: Seq<usize>, coarse: nat)
    requires
        0 < list.len() <= coarse,
    ensures
        planned_iterations(list, coarse) == planned_iterations(list, (list.len() - 1) as nat),
{
}

/// An empty list of iterations runs none: the result is the evaluated initial guess.
pub proof fn law_empty_schedule_evaluates_guess(
    source: RgbdPyramid,
    target: RgbdPyramid,
    start: Estimate,
    criteria: IcpPlaneCriteria,
    views: spec_fn(usize, [Binary64; 3]) -> Option<[Binary64; 2]>,
    trig: spec_fn(Binary64) -> (Binary64, Binary64),
)
    requires
        criteria.iters_per_level.len() == 0,
        source.levels.len() > 0,
        target.levels.len() > 0,
    ensures
        registered(source, target, start, criteria, views, trig) == Ok::<
            IcpPlaneResult,
            RgbdIcpError,
        >(
            evaluated(
                start,
                level_pass(source, target, criteria, views, trig, 0, start.pose),
            ),
        ),
{
    lemma_empty_descent(
        source,
        target,
        criteria,
        views,
        trig,
        start,
        common_levels(source, target),
        0,
    );
}

proof fn lemma_empty_descent(
    source: RgbdPyramid,
    target: RgbdPyramid,
    criteria: IcpPlaneCriteria,
    views: spec_fn(usize, [Binary64; 3]) -> Option<[Binary64; 2]>,
    trig: spec_fn(Binary64) -> (Binary64, Binary64),
    est: Estimate,
    n: nat,
    coarse: nat,
)
    requires
        criteria.iters_per_level.len() == 0,
    ensures
        descended(source, target, criteria, views, trig, est, n, coarse) == Ok::<
            Estimate,
            RgbdIcpError,
        >(est),
    decreases n - coarse,
{
    if coarse < n {
        lemma_empty_descent(source, target, criteria, views, trig, est, n, coarse + 1);
    }
}

/// The iterations planned for the levels from `coarse` on, counted from the coarsest.
pub open spec fn total_planned(list: Seq<usize>, num_levels: nat, coarse: nat) -> nat
    decreases num_levels - coarse,
{
    if coarse >= num_levels {
        0
    } else {
        planned_iterations(list, coarse) + total_planned(list, num_levels, coarse + 1)
    }
}

/// What an accepted estimate rests on: nothing was done, or the last solve was on at least
/// six correspondences of some level, its equations were not degenerate, and its weakest
/// pivot is the reported one.
pub open spec fn rests_on_solve(
    source: RgbdPyramid,
    target: RgbdPyramid,
    criteria: IcpPlaneCriteria,
    views: spec_fn(usize, [Binary64; 3]) -> Option<[Binary64; 2]>,
    trig: spec_fn(Binary64) -> (Binary64, Binary64),
    num_levels: nat,
    observability: Binary64,
) -> bool {
    exists|level: int, pose: Pose|
        #![trigger level_pass(source, target, criteria, views, trig, level, pose)]
        {
            let eqs = level_pass(source, target, criteria, views, trig, level, pose);
            &&& 0 <= level < num_levels
            &&& eqs.num_inliers >= 6
            &&& !is_degenerate(eqs.a)
            &&& observability == weakest_pivot(eqs.a, 6)
        }
}

/// A registration that succeeds has done no more iterations than planned. Where it has done
/// none, the pose is the initial guess and the reported observability is zero; where it has
/// done some, the pose does not rest on a degenerate solve: the last one was on at least six
/// correspondences, with no collapsed pivot, and its weakest pivot is reported.
pub proof fn law_success_rests_on_sound_solves(
    source: RgbdPyramid,
    target: RgbdPyramid,
    rotation: [[Binary64; 3]; 3],
    translation: [Binary64; 3],
    criteria: IcpPlaneCriteria,
    views: spec_fn(usize, [Binary64; 3]) -> Option<[Binary64; 2]>,
    trig: spec_fn(Binary64) -> (Binary64, Binary64),
)
    ensures
        registered(
            source,
            target,
            initial_estimate(rotation, translation),
            criteria,
            views,
            trig,
        ) matches Ok(r) ==> {
            let n = common_levels(source, target);
            &&& r.iterations <= total_planned(criteria.iters_per_level@, n, 0)
            &&& r.iterations == 0 ==> r.rotation == rotation && r.translation == translation
                && r.observability == fl(0)
            &&& r.iterations > 0 ==> rests_on_solve(
                source,
                target,
                criteria,
                views,
                trig,
                n,
                r.observability,
            )
        },
{
    let n = common_levels(source, target);
    let start = initial_estimate(rotation, translation);
    if n > 0 {
        lemma_descent_progress(source, target, criteria, views, trig, start, n, 0);
    }
}

/// What `to` has in common with `from` after at most `iters` iterations.
spec fn is_progress(
    source: RgbdPyramid,
    target: RgbdPyramid,
    criteria: IcpPlaneCriteria,
    views: spec_fn(usize, [Binary64; 3]) -> Option<[Binary64; 2]>,
    trig: spec_fn(Binary64) -> (Binary64, Binary64),
    n: nat,
    from: Estimate,
    to: Estimate,
    iters: nat,
) -> bool {
    &&& from.iterations <= to.iterations <= from.iterations + iters
    &&& to == from || (to.iterations > 0 && rests_on_solve(
        source,
        target,
        criteria,
        views,
        trig,
        n,
        to.observability,
    ))
}

proof fn lemma_refine_progress(
    source: RgbdPyramid,
    target: RgbdPyramid,
    criteria: IcpPlaneCriteria,
    views: spec_fn(usize, [Binary64; 3]) -> Option<[Binary64; 2]>,
    trig: spec_fn(Binary64) -> (Binary64, Binary64),
    n: nat,
    level: int,
    est: Estimate,
    iters: nat,
)
    requires
        0 <= level < n,
    ensures
        refined(
            source.levels[level],
            target.levels[level],
            criteria,
            level_view(views, level as usize),
            trig,
            est,
            iters,
        ) matches Ok(to) ==> is_progress(
            source,
            target,
            criteria,
            views,
            trig,
            n,
            est,
            to,
            iters,
        ),
    decreases iters,
{
    if iters > 0 {
        let eqs = level_pass(source, target, criteria, views, trig, level, est.pose);
        if let Ok((next, length)) = stepped(eqs, est, trig) {
            assert(rests_on_solve(
                source,
                target,
                criteria,
                views,
                trig,
                n,
                next.observability,
            ));
            lemma_refine_progress(
                source,
                target,
                criteria,
                views,
                trig,
                n,
                level,
                next,
                (iters - 1) as nat,
            );
        }
    }
}

proof fn lemma_descent_progress(
    source: RgbdPyramid,
    target: RgbdPyramid,
    criteria: IcpPlaneCriteria,
    views: spec_fn(usize, [Binary64; 3]) -> Option<[Binary64; 2]>,
    trig: spec_fn(Binary64) -> (Binary64, Binary64),
    est: Estimate,
    n: nat,
    coarse: nat,
)
    ensures
        descended(source, target, criteria, views, trig, est, n, coarse) matches Ok(to)
            ==> is_progress(
            source,
            target,
            criteria,
            views,
            trig,
            n,
            est,
            to,
            total_planned(criteria.iters_per_level@, n, coarse),
        ),
    decreases n - coarse,
{
    if coarse < n {
        let level = n - 1 - coarse;
        let iters = planned_iterations(criteria.iters_per_level@, coarse);
        lemma_refine_progress(source, target, criteria, views, trig, n, level, est, iters);
        if let Ok(next) = refined(
            source.levels[level],
            target.levels[level],
            criteria,
            level_view(views, level as usize),
            trig,
            est,
            iters,
        ) {
            lemma_descent_progress(source, target, criteria, views, trig, next, n, coarse + 1);
        }
    }
}

/// The reported measures of a registration that succeeds: both fractions lie between zero
/// and one, and the residual is not negative.
pub proof fn law_measures_in_range(
    source: RgbdPyramid,
    target: RgbdPyramid,
    start: Estimate,
    criteria: IcpPlaneCriteria,
    views: spec_fn(usize, [Binary64; 3]) -> Option<[Binary64; 2]>,
    trig: spec_fn(Binary64) -> (Binary64, Binary64),
)
    ensures
        registered(source, target, start, criteria, views, trig) matches Ok(r) ==> {
            &&& fl_le(fl(0), r.inlier_fraction) && fl_le(r.inlier_fraction, fl(ONE))
            &&& fl_le(fl(0), r.overlap_fraction) && fl_le(r.overlap_fraction, fl(ONE))
            &&& !fl_lt(r.rmse, fl(0))
        },
{
    let n = common_levels(source, target);
    if n > 0 {
        if let Ok(est) = descended(source, target, criteria, views, trig, start, n, 0) {
            let eqs = level_pass(source, target, criteria, views, trig, 0, est.pose);
            law_counts_nested(
                source.levels[0],
                target.levels[0],
                est.pose,
                run_gate(criteria, trig),
                level_view(views, 0),
            );
            law_fraction_in_range(eqs.num_inliers as nat, eqs.num_associated as nat);
            law_fraction_in_range(eqs.num_associated as nat, eqs.num_valid as nat);
            lemma_sqrt_not_negative(
                fl_div(eqs.sum_sq_residual, fl_of(eqs.num_inliers as nat)),
            );
            reveal(fl_lt);
        }
    }
}

/// The quotient of a part by its whole lies between zero and one, and is one where the part
/// is the whole.
pub proof fn law_fraction_in_range(part: nat, whole: nat)
    requires
        part <= whole <= usize::MAX,
    ensures
        fl_le(fl(0), fraction(part, whole)),
        fl_le(fraction(part, whole), fl(ONE)),
        part == whole && whole > 0 ==> fraction(part, whole) == fl(ONE),
{
    if whole > 0 {
        lemma_count_monotone(part, whole);
        lemma_div_at_most_one(fl_of(part), fl_of(whole));
    } else {
        reveal(fl_le);
    }
}

/// The inlier fraction measures match quality alone: it does not change with the number of
/// valid source pixels. The overlap fraction does not change with the number of inliers.
pub proof fn law_quality_and_overlap_are_separate(
    est: Estimate,
    eqs: NormalEquations,
    other: NormalEquations,
)
    ensures
        eqs.num_inliers == other.num_inliers && eqs.num_associated == other.num_associated
            ==> evaluated(est, eqs).inlier_fraction == evaluated(est, other).inlier_fraction,
        eqs.num_valid == other.num_valid && eqs.num_associated == other.num_associated
            ==> evaluated(est, eqs).overlap_fraction == evaluated(est, other).overlap_fraction,
{
}

/// Where a tolerance is not positive, no level stops early: a refinement that succeeds has
/// done all its iterations.
pub proof fn law_no_tolerance_runs_all(
    src: RgbdLevel,
    tgt: RgbdLevel,
    criteria: IcpPlaneCriteria,
    view: spec_fn([Binary64; 3]) -> Option<[Binary64; 2]>,
    trig: spec_fn(Binary64) -> (Binary64, Binary64),
    est: Estimate,
    iters: nat,
)
    requires
        !fl_lt(fl(0), criteria.update_tolerance),
        est.iterations + iters <= usize::MAX,
    ensures
        refined(src, tgt, criteria, view, trig, est, iters) matches Ok(to) ==> to.iterations
            == est.iterations + iters,
    decreases iters,
{
    if iters > 0 {
        let eqs = pass(src, tgt, est.pose, run_gate(criteria, trig), view);
        if let Ok((next, length)) = stepped(eqs, est, trig) {
            assert(!fl_lt(length, criteria.update_tolerance)) by {
                let (x, weakest) = guarded_solution(eqs.a, negated6(eqs.b)).unwrap();
                assert(length == twist_norm(x));
                lemma_twist_norm_not_negative(x);
                reveal(fl_lt);
            }
            law_no_tolerance_runs_all(src, tgt, criteria, view, trig, next, (iters - 1) as nat);
        }
    }
}

pub proof fn lemma_twist_norm_not_negative(x: [Binary64; 6])
    ensures
        !fl_lt(twist_norm(x), fl(0)),
{
    let s0 = fl_add(fl(0), fl_mul(x[0], x[0]));
    let s2 = fl_add(fl_add(s0, fl_mul(x[1], x[1])), fl_mul(x[2], x[2]));
    let s4 = fl_add(fl_add(s2, fl_mul(x[3], x[3])), fl_mul(x[4], x[4]));
    lemma_sqrt_not_negative(fl_add(s4, fl_mul(x[5], x[5])));
}

/// Whether a level is matched under a pose: at least six correspondences survive, all of
/// them with a zero residual, and they constrain all six degrees of freedom.
pub open spec fn is_matched_level(
    source: RgbdPyramid,
    target: RgbdPyramid,
    criteria: IcpPlaneCriteria,
    views: spec_fn(usize, [Binary64; 3]) -> Option<[Binary64; 2]>,
    trig: spec_fn(Binary64) -> (Binary64, Binary64),
    level: int,
    pose: Pose,
) -> bool {
    let src = source.levels[level];
    let rows = inliers(
        src,
        target.levels[level],
        pose,
        run_gate(criteria, trig),
        level_view(views, level as usize),
        src.num_pixels(),
    );
    let eqs = level_pass(source, target, criteria, views, trig, level, pose);
    &&& eqs.num_inliers >= 6
    &&& !is_degenerate(eqs.a)
    &&& factors_before(eqs.a, 6)
    &&& forall|r: int| 0 <= r < rows.len() ==> is_matched(#[trigger] rows[r])
}

/// A registration that starts at a pose under which all levels are matched, as that of a
/// frame with itself at the identity, succeeds and returns that pose.
pub proof fn law_matched_frames_keep_pose(
    source: RgbdPyramid,
    target: RgbdPyramid,
    start: Estimate,
    criteria: IcpPlaneCriteria,
    views: spec_fn(usize, [Binary64; 3]) -> Option<[Binary64; 2]>,
    trig: spec_fn(Binary64) -> (Binary64, Binary64),
)
    requires
        common_levels(source, target) > 0,
        is_finite_pose(start.pose),
        forall|level: int, pose: Pose|
            0 <= level < common_levels(source, target) && same_pose(pose, start.pose)
                ==> #[trigger] is_matched_level(
                source,
                target,
                criteria,
                views,
                trig,
                level,
                pose,
            ),
    ensures
        registered(source, target, start, criteria, views, trig) matches Ok(r) && same_pose(
            Pose { rotation: r.rotation, translation: r.translation },
            start.pose,
        ),
{
    lemma_matched_descent(
        source,
        target,
        criteria,
        views,
        trig,
        start.pose,
        start,
        common_levels(source, target),
        0,
    );
}

proof fn lemma_matched_refinement(
    source: RgbdPyramid,
    target: RgbdPyramid,
    criteria: IcpPlaneCriteria,
    views: spec_fn(usize, [Binary64; 3]) -> Option<[Binary64; 2]>,
    trig: spec_fn(Binary64) -> (Binary64, Binary64),
    anchor: Pose,
    level: int,
    est: Estimate,
    iters: nat,
)
    requires
        is_finite_pose(anchor),
        same_pose(est.pose, anchor),
        forall|pose: Pose|
            same_pose(pose, anchor) ==> #[trigger] is_matched_level(
                source,
                target,
                criteria,
                views,
                trig,
                level,
                pose,
            ),
    ensures
        refined(
            source.levels[level],
            target.levels[level],
            criteria,
            level_view(views, level as usize),
            trig,
            est,
            iters,
        ) matches Ok(to) && same_pose(to.pose, anchor),
    decreases iters,
{
    if iters > 0 {
        let src = source.levels[level];
        let eqs = level_pass(source, target, criteria, views, trig, level, est.pose);
        assert(is_matched_level(source, target, criteria, views, trig, level, est.pose));
        let rows = inliers(
            src,
            target.levels[level],
            est.pose,
            run_gate(criteria, trig),
            level_view(views, level as usize),
            src.num_pixels(),
        );
        assert(stepped(eqs, est, trig) is Ok);
        law_matched_pose_is_kept(rows, eqs.num_associated, eqs.num_valid, est, trig);
        let (next, length) = stepped(eqs, est, trig).unwrap();
        assert(same_pose(next.pose, est.pose));
        lemma_matched_refinement(
            source,
            target,
            criteria,
            views,
            trig,
            anchor,
            level,
            next,
            (iters - 1) as nat,
        );
    }
}

proof fn lemma_matched_descent(
    source: RgbdPyramid,
    target: RgbdPyramid,
    criteria: IcpPlaneCriteria,
    views: spec_fn(usize, [Binary64; 3]) -> Option<[Binary64; 2]>,
    trig: spec_fn(Binary64) -> (Binary64, Binary64),
    anchor: Pose,
    est: Estimate,
    n: nat,
    coarse: nat,
)
    requires
        is_finite_pose(anchor),
        same_pose(est.pose, anchor),
        forall|level: int, pose: Pose|
            0 <= level < n && same_pose(pose, anchor) ==> #[trigger] is_matched_level(
                source,
                target,
                criteria,
                views,
                trig,
                level,
                pose,
            ),
    ensures
        descended(source, target, criteria, views, trig, est, n, coarse) matches Ok(to)
            && same_pose(to.pose, anchor),
    decreases n - coarse,
{
    if coarse < n {
        let level = n - 1 - coarse;
        let iters = planned_iterations(criteria.iters_per_level@, coarse);
        lemma_matched_refinement(
            source,
            target,
            criteria,
            views,
            trig,
            anchor,
            level,
            est,
            iters,
        );
        let next = refined(
            source.levels[level],
            target.levels[level],
            criteria,
            level_view(views, level as usize),
            trig,
            est,
            iters,
        ).unwrap();
        lemma_matched_descent(
            source,
            target,
            criteria,
            views,
            trig,
            anchor,
            next,
            n,
            coarse + 1,
        );
    }
}

// ---------------------------------------------------------------------------
// A frame with itself
// ---------------------------------------------------------------------------

/// Whether a pose moves nothing: the rotation is the identity, the translation zero.
pub open spec fn is_identity_pose(pose: Pose) -> bool {
    &&& is_identity(pose.rotation)
    &&& is_zero(pose.translation[0])
    &&& is_zero(pose.translation[1])
    &&& is_zero(pose.translation[2])
}

/// Whether pixel `i` of a level is measured in finite numbers, the camera sees its vertex in
/// pixel `i`, and its normal agrees with itself up to the angle with the given cosine. What is
/// asked of a vector is asked for either sign of its zeros.
pub open spec fn sees_pixel(
    level: RgbdLevel,
    view: spec_fn([Binary64; 3]) -> Option<[Binary64; 2]>,
    cos_max_angle: Binary64,
    i: int,
) -> bool {
    let vertex = widened(level.vertices[i].xyz);
    let normal = widened(level.normals[i].xyz);
    &&& is_finite3(vertex)
    &&& is_finite3(normal)
    &&& forall|p: [Binary64; 3]| #[trigger]
        same_vector(p, vertex) ==> {
            &&& view(p) matches Some(uv) && pixel_of(
                uv,
                level.width as nat,
                level.height as nat,
            ) == Some(i as nat)
            &&& forall|k: int| 0 <= k < 6 ==> is_finite(#[trigger] jacobian_row(p, normal)[k])
        }
    &&& forall|n: [Binary64; 3]| #[trigger]
        same_vector(n, normal) ==> !fl_lt(dot(n, normal), cos_max_angle)
}

/// Whether the camera sees every valid pixel of a level where it is.
pub open spec fn sees_itself(
    level: RgbdLevel,
    view: spec_fn([Binary64; 3]) -> Option<[Binary64; 2]>,
    cos_max_angle: Binary64,
) -> bool {
    forall|i: int|
        0 <= i < level.num_pixels() && level.vertices[i].valid && level.normals[i].valid
            ==> #[trigger] sees_pixel(level, view, cos_max_angle, i)
}

/// A frame registers with itself at the identity: where each level has six valid pixels or
/// more, which the camera sees where they are and which constrain all six degrees of freedom,
/// the registration succeeds, moves nothing, leaves no residual, and reports full quality and
/// full overlap.
pub proof fn law_frame_registers_with_itself(
    frame: RgbdPyramid,
    start: Estimate,
    criteria: IcpPlaneCriteria,
    views: spec_fn(usize, [Binary64; 3]) -> Option<[Binary64; 2]>,
    trig: spec_fn(Binary64) -> (Binary64, Binary64),
)
    requires
        frame.levels.len() > 0,
        is_identity_pose(start.pose),
        !fl_lt(criteria.max_dist_m, fl(0)),
        fl_le(fl(0), criteria.huber_delta_m),
        forall|l: int|
            0 <= l < frame.levels.len() ==> {
                let level = #[trigger] frame.levels[l];
                &&& valid_count(level, level.num_pixels()) >= 6
                &&& sees_itself(
                    level,
                    level_view(views, l as usize),
                    run_gate(criteria, trig).cos_max_angle,
                )
            },
        forall|l: int, pose: Pose|
            0 <= l < frame.levels.len() && is_identity_pose(pose) ==> {
                let eqs = #[trigger] level_pass(frame, frame, criteria, views, trig, l, pose);
                !is_degenerate(eqs.a) && factors_before(eqs.a, 6)
            },
    ensures
        registered(frame, frame, start, criteria, views, trig) matches Ok(r) && {
            &&& is_identity_pose(Pose { rotation: r.rotation, translation: r.translation })
            &&& is_zero(r.rmse)
            &&& r.inlier_fraction == fl(ONE)
            &&& r.overlap_fraction == fl(ONE)
        },
{
    let gate = run_gate(criteria, trig);
    assert forall|l: int, pose: Pose|
        0 <= l < common_levels(frame, frame) && same_pose(
            pose,
            start.pose,
        ) implies #[trigger] is_matched_level(frame, frame, criteria, views, trig, l, pose) by {
        lemma_same_as_identity(pose, start.pose);
        let level = frame.levels[l];
        let eqs = level_pass(frame, frame, criteria, views, trig, l, pose);
        lemma_distance_gate_open(criteria, trig);
        lemma_self_rows(level, pose, gate, level_view(views, l as usize), level.num_pixels());
        law_counts_nested(level, level, pose, gate, level_view(views, l as usize));
        assert(!is_degenerate(eqs.a) && factors_before(eqs.a, 6));
    }
    lemma_identity_is_finite(start.pose);
    law_matched_frames_keep_pose(frame, frame, start, criteria, views, trig);
    let est = descended(
        frame,
        frame,
        criteria,
        views,
        trig,
        start,
        common_levels(frame, frame),
        0,
    )->Ok_0;
    lemma_same_as_identity(est.pose, start.pose);
    let level = frame.levels[0];
    let view = level_view(views, 0);
    let eqs = level_pass(frame, frame, criteria, views, trig, 0, est.pose);
    let n = level.num_pixels();
    lemma_distance_gate_open(criteria, trig);
    lemma_self_rows(level, est.pose, gate, view, n);
    law_counts_nested(level, level, est.pose, gate, view);
    law_fraction_in_range(eqs.num_inliers as nat, eqs.num_associated as nat);
    law_fraction_in_range(eqs.num_associated as nat, eqs.num_valid as nat);
    lemma_matched_squares(inliers(level, level, est.pose, gate, view, n));
    lemma_count_monotone(0, eqs.num_inliers as nat);
    lemma_zero_div(eqs.sum_sq_residual, fl_of(eqs.num_inliers as nat));
    lemma_sqrt_zero(fl_div(eqs.sum_sq_residual, fl_of(eqs.num_inliers as nat)));
}

proof fn lemma_same_as_identity(pose: Pose, identity: Pose)
    requires
        same_pose(pose, identity),
        is_identity_pose(identity),
    ensures
        is_identity_pose(pose),
{
    let m = identity.rotation;
    let r = pose.rotation;
    assert(m[0][0] == fl(ONE) && m[1][1] == fl(ONE) && m[2][2] == fl(ONE));
    assert(is_zero(m[0][1]) && is_zero(m[0][2]) && is_zero(m[1][0]));
    assert(is_zero(m[1][2]) && is_zero(m[2][0]) && is_zero(m[2][1]));
    assert(is_identity(r));
}

proof fn lemma_identity_is_finite(pose: Pose)
    requires
        is_identity_pose(pose),
    ensures
        is_finite_pose(pose),
{
    let m = pose.rotation;
    assert(m[0][0] == fl(ONE) && m[1][1] == fl(ONE) && m[2][2] == fl(ONE));
    assert(is_zero(m[0][1]) && is_zero(m[0][2]) && is_zero(m[1][0]));
    assert(is_zero(m[1][2]) && is_zero(m[2][0]) && is_zero(m[2][1]));
}

proof fn lemma_distance_gate_open(
    criteria: IcpPlaneCriteria,
    trig: spec_fn(Binary64) -> (Binary64, Binary64),
)
    requires
        !fl_lt(criteria.max_dist_m, fl(0)),
    ensures
        !fl_lt(run_gate(criteria, trig).max_dist_sq, fl(0)),
{
    reveal(fl_lt);
    reveal(fl_mul);
}

/// Under a pose that moves nothing, a pixel that the camera sees where it is matches itself.
proof fn lemma_self_match(
    level: RgbdLevel,
    pose: Pose,
    gate: Gate,
    view: spec_fn([Binary64; 3]) -> Option<[Binary64; 2]>,
    i: int,
)
    requires
        is_identity_pose(pose),
        level.vertices[i].valid,
        level.normals[i].valid,
        0 <= i,
        sees_pixel(level, view, gate.cos_max_angle, i),
        !fl_lt(gate.max_dist_sq, fl(0)),
        fl_le(fl(0), gate.huber_delta),
    ensures
        outcome(level, level, pose, gate, view, i) matches PixelOutcome::Inlier(c) && is_matched(c),
{
    let vertex = widened(level.vertices[i].xyz);
    let normal = widened(level.normals[i].xyz);
    let m = pose.rotation;
    let t = pose.translation;
    let p = transformed(pose, vertex);
    lemma_identity_rows(m, vertex[0], vertex[1], vertex[2]);
    lemma_identity_rows(m, normal[0], normal[1], normal[2]);
    lemma_add_zero(row_dot(m, 0, vertex), t[0]);
    lemma_add_zero(row_dot(m, 1, vertex), t[1]);
    lemma_add_zero(row_dot(m, 2, vertex), t[2]);
    assert(same_vector(p, vertex));
    let n = rotated(m, normal);
    assert(same_vector(n, normal));
    let d = difference(p, vertex);
    lemma_same_difference(p[0], vertex[0]);
    lemma_same_difference(p[1], vertex[1]);
    lemma_same_difference(p[2], vertex[2]);
    lemma_dot_zero(d, d);
    lemma_dot_zero(normal, d);
    reveal(fl_lt);
    reveal(fl_le);
    reveal(fl_abs);
}

proof fn lemma_same_difference(x: Binary64, y: Binary64)
    requires
        is_finite(y),
        same_value(x, y),
    ensures
        is_zero(fl_sub(x, y)),
{
    if x == y {
        lemma_self_difference(x);
    } else {
        lemma_sub_zero(x, y);
    }
}

proof fn lemma_self_rows(
    level: RgbdLevel,
    pose: Pose,
    gate: Gate,
    view: spec_fn([Binary64; 3]) -> Option<[Binary64; 2]>,
    n: nat,
)
    requires
        is_identity_pose(pose),
        n <= level.num_pixels(),
        sees_itself(level, view, gate.cos_max_angle),
        !fl_lt(gate.max_dist_sq, fl(0)),
        fl_le(fl(0), gate.huber_delta),
    ensures
        ({
            let rows = inliers(level, level, pose, gate, view, n);
            &&& rows.len() == valid_count(level, n)
            &&& associated_count(level, level, pose, gate, view, n) == valid_count(level, n)
            &&& forall|r: int| 0 <= r < rows.len() ==> is_matched(#[trigger] rows[r])
        }),
    decreases n,
{
    if n > 0 {
        lemma_self_rows(level, pose, gate, view, (n - 1) as nat);
        if level.vertices[n - 1].valid && level.normals[n - 1].valid {
            assert(sees_pixel(level, view, gate.cos_max_angle, n - 1));
            lemma_self_match(level, pose, gate, view, n - 1);
        }
    }
}

proof fn lemma_matched_squares(rows: Seq<Correspondence>)
    requires
        forall|r: int| 0 <= r < rows.len() ==> is_matched(#[trigger] rows[r]),
    ensures
        is_zero(sum_rr(rows)),
    decreases rows.len(),
{
    if rows.len() > 0 {
        let before = rows.drop_last();
        let c = rows.last();
        assert(rows[rows.len() - 1] == c);
        assert forall|r: int| 0 <= r < before.len() implies is_matched(#[trigger] before[r]) by {
            assert(before[r] == rows[r]);
        }
        lemma_matched_squares(before);
        lemma_mul_zero(c.residual, c.residual);
        lemma_add_zero(sum_rr(before), fl_mul(c.residual, c.residual));
    }
}

} // verus!
