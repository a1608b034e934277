//! What holds of the normal equations of an association pass.
use crate::binary64::{fl_add, fl_le, fl_lt, fl_mul, is_nan, Binary64};
use crate::exactness::is_finite;
use crate::icp::{
    associated_count, difference, gate_of, gated, huber_weight, inliers, normal_entry, normal_row,
    outcome, pass, sum_jj, sum_rr, valid_count, Correspondence, Gate, IcpPlaneCriteria,
    PixelOutcome, Pose, STRAIGHT_ANGLE,
};
use crate::laws::{law_counts_nested, law_huber_weight_bounded};
use crate::linear::{fl, squared_norm, ONE};
use crate::ordering::{
    lemma_add_grows, lemma_add_monotone, lemma_square_monotone, lemma_square_sign,
    lemma_weighted_smaller,
};
use crate::rgbd::RgbdLevel;
use vstd::prelude::*;

verus! {

// ---------------------------------------------------------------------------
// Signs
// ---------------------------------------------------------------------------

/// Whether a correspondence is made of finite numbers.
pub open spec fn is_finite_row(c: Correspondence) -> bool {
    &&& is_finite(c.residual)
    &&& forall|k: int| 0 <= k < 6 ==> is_finite(#[trigger] c.jacobian[k])
}

/// Whether the correspondences of a pass are made of finite numbers.
pub open spec fn has_finite_rows(
    src: RgbdLevel,
    tgt: RgbdLevel,
    pose: Pose,
    gate: Gate,
    view: spec_fn([Binary64; 3]) -> Option<[Binary64; 2]>,
) -> bool {
    let rows = inliers(src, tgt, pose, gate, view, src.num_pixels());
    forall|r: int| 0 <= r < rows.len() ==> is_finite_row(#[trigger] rows[r])
}

/// The diagonal of the accumulated matrix and the sum of the squared residuals are not below
/// zero.
pub proof fn law_squares_not_negative(
    src: RgbdLevel,
    tgt: RgbdLevel,
    pose: Pose,
    gate: Gate,
    view: spec_fn([Binary64; 3]) -> Option<[Binary64; 2]>,
    i: int,
)
    requires
        0 <= i < 6,
        fl_le(fl(0), gate.huber_delta),
        has_finite_rows(src, tgt, pose, gate, view),
    ensures
        fl_le(fl(0), pass(src, tgt, pose, gate, view).a[i][i]),
        fl_le(fl(0), pass(src, tgt, pose, gate, view).sum_sq_residual),
{
    let n = src.num_pixels();
    let rows = inliers(src, tgt, pose, gate, view, n);
    lemma_weights_bounded(src, tgt, pose, gate, view, n);
    lemma_diagonal_sum(rows, i);
    lemma_residual_sum(rows);
    let a = pass(src, tgt, pose, gate, view).a;
    assert(a[i] == normal_row(rows, i));
    assert(a[i][i] == normal_entry(rows, i, i));
}

/// Whether a weight lies between zero and one.
pub open spec fn is_weight(w: Binary64) -> bool {
    fl_le(fl(0), w) && fl_le(w, fl(ONE))
}

pub proof fn lemma_weights_bounded(
    src: RgbdLevel,
    tgt: RgbdLevel,
    pose: Pose,
    gate: Gate,
    view: spec_fn([Binary64; 3]) -> Option<[Binary64; 2]>,
    n: nat,
)
    requires
        fl_le(fl(0), gate.huber_delta),
    ensures
        ({
            let rows = inliers(src, tgt, pose, gate, view, n);
            forall|r: int|
                0 <= r < rows.len() && is_finite((#[trigger] rows[r]).residual) ==> is_weight(
                    rows[r].weight,
                )
        }),
    decreases n,
{
    if n > 0 {
        lemma_weights_bounded(src, tgt, pose, gate, view, (n - 1) as nat);
        if let PixelOutcome::Inlier(c) = outcome(src, tgt, pose, gate, view, n - 1) {
            assert(c.weight == huber_weight(c.residual, gate.huber_delta));
            if is_finite(c.residual) {
                law_huber_weight_bounded(c.residual, gate.huber_delta);
            }
            let before = inliers(src, tgt, pose, gate, view, (n - 1) as nat);
            let rows = before.push(c);
            assert(inliers(src, tgt, pose, gate, view, n) == rows);
            assert forall|r: int|
                0 <= r < rows.len() && is_finite((#[trigger] rows[r]).residual) implies is_weight(
                rows[r].weight,
            ) by {
                if r < before.len() {
                    assert(rows[r] == before[r]);
                }
            }
        } else {
            assert(inliers(src, tgt, pose, gate, view, n) == inliers(
                src,
                tgt,
                pose,
                gate,
                view,
                (n - 1) as nat,
            ));
        }
    } else {
        assert(inliers(src, tgt, pose, gate, view, n) =~= Seq::empty());
    }
}

proof fn lemma_diagonal_sum(rows: Seq<Correspondence>, i: int)
    requires
        0 <= i < 6,
        forall|r: int|
            0 <= r < rows.len() ==> is_finite_row(#[trigger] rows[r]) && is_weight(rows[r].weight),
    ensures
        fl_le(fl(0), sum_jj(rows, i, i)),
    decreases rows.len(),
{
    reveal(fl_le);
    if rows.len() > 0 {
        let before = rows.drop_last();
        let c = rows.last();
        assert(rows[rows.len() - 1] == c);
        assert forall|r: int| 0 <= r < before.len() implies is_finite_row(#[trigger] before[r])
            && is_weight(before[r].weight) by {
            assert(before[r] == rows[r]);
        }
        lemma_diagonal_sum(before, i);
        let j = c.jacobian[i];
        assert(is_finite(j));
        lemma_weighted_smaller(c.weight, j);
        let t = fl_mul(fl_mul(c.weight, j), j);
        assert(fl_le(fl(0), t)) by {
            reveal(fl_mul);
        }
        lemma_add_grows(sum_jj(before, i, i), t);
    }
}

proof fn lemma_residual_sum(rows: Seq<Correspondence>)
    requires
        forall|r: int| 0 <= r < rows.len() ==> is_finite_row(#[trigger] rows[r]),
    ensures
        fl_le(fl(0), sum_rr(rows)),
    decreases rows.len(),
{
    reveal(fl_le);
    if rows.len() > 0 {
        let before = rows.drop_last();
        let c = rows.last();
        assert(rows[rows.len() - 1] == c);
        assert forall|r: int| 0 <= r < before.len() implies is_finite_row(#[trigger] before[r]) by {
            assert(before[r] == rows[r]);
        }
        lemma_residual_sum(before);
        lemma_square_sign(c.residual);
        lemma_add_grows(sum_rr(before), fl_mul(c.residual, c.residual));
    }
}

/// The sum of the squared residuals and the number of correspondences do not depend on the
/// Huber scale: the residuals are summed without their weights.
pub proof fn law_residual_ignores_huber_scale(
    src: RgbdLevel,
    tgt: RgbdLevel,
    pose: Pose,
    gate: Gate,
    other: Gate,
    view: spec_fn([Binary64; 3]) -> Option<[Binary64; 2]>,
)
    requires
        gate.max_dist_sq == other.max_dist_sq,
        gate.cos_max_angle == other.cos_max_angle,
    ensures
        pass(src, tgt, pose, gate, view).sum_sq_residual == pass(
            src,
            tgt,
            pose,
            other,
            view,
        ).sum_sq_residual,
        pass(src, tgt, pose, gate, view).num_inliers == pass(
            src,
            tgt,
            pose,
            other,
            view,
        ).num_inliers,
{
    lemma_residual_ignores_huber_scale(src, tgt, pose, gate, other, view, src.num_pixels());
}

proof fn lemma_residual_ignores_huber_scale(
    src: RgbdLevel,
    tgt: RgbdLevel,
    pose: Pose,
    gate: Gate,
    other: Gate,
    view: spec_fn([Binary64; 3]) -> Option<[Binary64; 2]>,
    n: nat,
)
    requires
        gate.max_dist_sq == other.max_dist_sq,
        gate.cos_max_angle == other.cos_max_angle,
    ensures
        ({
            let rows = inliers(src, tgt, pose, gate, view, n);
            let others = inliers(src, tgt, pose, other, view, n);
            rows.len() == others.len() && sum_rr(rows) == sum_rr(others)
        }),
    decreases n,
{
    if n > 0 {
        let m = (n - 1) as nat;
        lemma_residual_ignores_huber_scale(src, tgt, pose, gate, other, view, m);
        let rows = inliers(src, tgt, pose, gate, view, m);
        let others = inliers(src, tgt, pose, other, view, m);
        let o = outcome(src, tgt, pose, gate, view, m as int);
        let p = outcome(src, tgt, pose, other, view, m as int);
        assert(o is Inlier <==> p is Inlier);
        if let PixelOutcome::Inlier(c) = o {
            let d = p->Inlier_0;
            assert(c.residual == d.residual);
            assert(rows.push(c).drop_last() =~= rows);
            assert(others.push(d).drop_last() =~= others);
        }
    }
}

// ---------------------------------------------------------------------------
// Wider gates
// ---------------------------------------------------------------------------

/// Whether `wide` lets everything pass that `gate` lets pass.
pub open spec fn is_wider(wide: Gate, gate: Gate) -> bool {
    fl_le(gate.max_dist_sq, wide.max_dist_sq) && fl_le(wide.cos_max_angle, gate.cos_max_angle)
}

/// Wider gates never lose a correspondence: there are no fewer of them, and where they are made
/// of finite numbers, their squared residuals do not sum to less.
pub proof fn law_wider_gates_keep_correspondences(
    src: RgbdLevel,
    tgt: RgbdLevel,
    pose: Pose,
    gate: Gate,
    wide: Gate,
    view: spec_fn([Binary64; 3]) -> Option<[Binary64; 2]>,
)
    requires
        is_wider(wide, gate),
    ensures
        pass(src, tgt, pose, gate, view).num_inliers <= pass(
            src,
            tgt,
            pose,
            wide,
            view,
        ).num_inliers,
        has_finite_rows(src, tgt, pose, wide, view) ==> fl_le(
            pass(src, tgt, pose, gate, view).sum_sq_residual,
            pass(src, tgt, pose, wide, view).sum_sq_residual,
        ),
        forall|i: int|
            outcome(src, tgt, pose, gate, view, i) is Inlier ==> #[trigger] outcome(
                src,
                tgt,
                pose,
                wide,
                view,
                i,
            ) is Inlier,
{
    let n = src.num_pixels();
    law_counts_nested(src, tgt, pose, gate, view);
    law_counts_nested(src, tgt, pose, wide, view);
    lemma_wider_count(src, tgt, pose, gate, wide, view, n);
    if has_finite_rows(src, tgt, pose, wide, view) {
        lemma_wider_rows(src, tgt, pose, gate, wide, view, n);
    }
    assert forall|i: int|
        outcome(src, tgt, pose, gate, view, i) is Inlier implies #[trigger] outcome(
        src,
        tgt,
        pose,
        wide,
        view,
        i,
    ) is Inlier by {
        lemma_wider_outcome(src, tgt, pose, gate, wide, view, i);
    }
}

proof fn lemma_wider_outcome(
    src: RgbdLevel,
    tgt: RgbdLevel,
    pose: Pose,
    gate: Gate,
    wide: Gate,
    view: spec_fn([Binary64; 3]) -> Option<[Binary64; 2]>,
    i: int,
)
    requires
        is_wider(wide, gate),
    ensures
        outcome(src, tgt, pose, gate, view, i) matches PixelOutcome::Inlier(c) ==> (outcome(
            src,
            tgt,
            pose,
            wide,
            view,
            i,
        ) matches PixelOutcome::Inlier(d) && d.residual == c.residual),
{
    reveal(fl_le);
    reveal(fl_lt);
}

proof fn lemma_wider_count(
    src: RgbdLevel,
    tgt: RgbdLevel,
    pose: Pose,
    gate: Gate,
    wide: Gate,
    view: spec_fn([Binary64; 3]) -> Option<[Binary64; 2]>,
    n: nat,
)
    requires
        is_wider(wide, gate),
    ensures
        inliers(src, tgt, pose, gate, view, n).len() <= inliers(
            src,
            tgt,
            pose,
            wide,
            view,
            n,
        ).len(),
    decreases n,
{
    if n > 0 {
        lemma_wider_count(src, tgt, pose, gate, wide, view, (n - 1) as nat);
        lemma_wider_outcome(src, tgt, pose, gate, wide, view, n - 1);
    }
}

proof fn lemma_wider_rows(
    src: RgbdLevel,
    tgt: RgbdLevel,
    pose: Pose,
    gate: Gate,
    wide: Gate,
    view: spec_fn([Binary64; 3]) -> Option<[Binary64; 2]>,
    n: nat,
)
    requires
        is_wider(wide, gate),
        ({
            let rows = inliers(src, tgt, pose, wide, view, n);
            forall|r: int| 0 <= r < rows.len() ==> is_finite_row(#[trigger] rows[r])
        }),
    ensures
        ({
            let rows = inliers(src, tgt, pose, gate, view, n);
            let more = inliers(src, tgt, pose, wide, view, n);
            &&& fl_le(fl(0), sum_rr(rows))
            &&& fl_le(sum_rr(rows), sum_rr(more))
        }),
    decreases n,
{
    reveal(fl_le);
    if n > 0 {
        let m = (n - 1) as nat;
        let rows = inliers(src, tgt, pose, gate, view, m);
        let more = inliers(src, tgt, pose, wide, view, m);
        let all = inliers(src, tgt, pose, wide, view, n);
        assert forall|r: int| 0 <= r < more.len() implies is_finite_row(#[trigger] more[r]) by {
            assert(all[r] == more[r]);
        }
        lemma_wider_rows(src, tgt, pose, gate, wide, view, m);
        lemma_wider_outcome(src, tgt, pose, gate, wide, view, m as int);
        if let PixelOutcome::Inlier(d) = outcome(src, tgt, pose, wide, view, m as int) {
            assert(all == more.push(d));
            assert(all[more.len() as int] == d);
            assert(is_finite_row(d));
            let t = fl_mul(d.residual, d.residual);
            lemma_square_sign(d.residual);
            assert(more.push(d).drop_last() =~= more);
            lemma_add_grows(sum_rr(more), t);
            if let PixelOutcome::Inlier(c) = outcome(src, tgt, pose, gate, view, m as int) {
                assert(rows.push(c).drop_last() =~= rows);
                lemma_add_monotone(sum_rr(rows), sum_rr(more), t);
            }
        }
    }
}

/// Wider criteria have wider gates: a larger distance, and a larger angle where the cosine does
/// not grow with it up to the straight angle.
pub proof fn law_wider_criteria_have_wider_gates(
    narrow: IcpPlaneCriteria,
    wide: IcpPlaneCriteria,
    narrow_cosine: Binary64,
    wide_cosine: Binary64,
)
    requires
        fl_le(fl(0), narrow.max_dist_m),
        fl_le(narrow.max_dist_m, wide.max_dist_m),
        fl_le(fl(0), narrow.max_normal_angle_rad),
        fl_le(narrow.max_normal_angle_rad, wide.max_normal_angle_rad),
        fl_le(wide_cosine, narrow_cosine),
    ensures
        is_wider(gate_of(wide, wide_cosine), gate_of(narrow, narrow_cosine)),
{
    lemma_square_monotone(narrow.max_dist_m, wide.max_dist_m);
    reveal(fl_le);
    reveal(fl_lt);
}

/// The ends of the limits: a distance or an angle below zero rejects every pair that can be
/// measured, and an angle from the straight angle on rejects none for its normals.
pub proof fn law_limits_at_their_ends(
    p: [Binary64; 3],
    n_s: [Binary64; 3],
    v_t: [Binary64; 3],
    n_t: [Binary64; 3],
    rotation: [[Binary64; 3]; 3],
    criteria: IcpPlaneCriteria,
    cosine: Binary64,
)
    ensures
        ({
            let gate = gate_of(criteria, cosine);
            let met = gated(p, n_s, v_t, n_t, rotation, gate);
            let distance = squared_norm(difference(p, v_t));
            let between = crate::icp::dot(crate::icp::rotated(rotation, n_s), n_t);
            &&& fl_lt(criteria.max_dist_m, fl(0)) && !is_nan(distance) ==> met is Rejected
            &&& fl_lt(criteria.max_normal_angle_rad, fl(0)) && is_finite(between)
                ==> met is Rejected
            &&& fl_le(fl(STRAIGHT_ANGLE), criteria.max_normal_angle_rad) && !fl_lt(
                gate.max_dist_sq,
                distance,
            ) ==> met is Inlier
        }),
{
    let between = difference(p, v_t);
    if !is_nan(squared_norm(between)) {
        lemma_squared_norm_sign(between);
    }
    reveal(fl_le);
    reveal(fl_lt);
}

/// A squared length is not below zero.
proof fn lemma_squared_norm_sign(w: [Binary64; 3])
    requires
        !is_nan(squared_norm(w)),
    ensures
        fl_le(fl(0), squared_norm(w)),
{
    let (x, y, z) = (fl_mul(w[0], w[0]), fl_mul(w[1], w[1]), fl_mul(w[2], w[2]));
    assert(!is_nan(fl_add(x, y)) && !is_nan(x) && !is_nan(y) && !is_nan(z)) by {
        reveal(fl_add);
    }
    assert(!is_nan(w[0]) && !is_nan(w[1]) && !is_nan(w[2])) by {
        reveal(fl_mul);
    }
    lemma_square_sign(w[0]);
    lemma_square_sign(w[1]);
    lemma_square_sign(w[2]);
    lemma_add_grows(x, y);
    lemma_add_grows(fl_add(x, y), z);
}

// ---------------------------------------------------------------------------
// Parts of a level
// ---------------------------------------------------------------------------

/// Whether the maps of `whole` are those of `first` followed by those of `second`, and the maps
/// of each part are of the same length.
pub open spec fn is_joined(whole: RgbdLevel, first: RgbdLevel, second: RgbdLevel) -> bool {
    &&& whole.vertices@ == first.vertices@ + second.vertices@
    &&& whole.normals@ == first.normals@ + second.normals@
    &&& first.vertices.len() == first.normals.len()
    &&& second.vertices.len() == second.normals.len()
}

/// The pass over a source level is made of the passes over its parts: the counts add up, and the
/// correspondences, over which all sums run, are those of the first part followed by those of
/// the second.
pub proof fn law_parts_add_up(
    whole: RgbdLevel,
    first: RgbdLevel,
    second: RgbdLevel,
    tgt: RgbdLevel,
    pose: Pose,
    gate: Gate,
    view: spec_fn([Binary64; 3]) -> Option<[Binary64; 2]>,
)
    requires
        is_joined(whole, first, second),
    ensures
        ({
            let eqs = pass(whole, tgt, pose, gate, view);
            let e1 = pass(first, tgt, pose, gate, view);
            let e2 = pass(second, tgt, pose, gate, view);
            &&& eqs.num_valid == e1.num_valid + e2.num_valid
            &&& eqs.num_associated == e1.num_associated + e2.num_associated
            &&& eqs.num_inliers == e1.num_inliers + e2.num_inliers
        }),
        inliers(whole, tgt, pose, gate, view, whole.num_pixels()) == inliers(
            first,
            tgt,
            pose,
            gate,
            view,
            first.num_pixels(),
        ) + inliers(second, tgt, pose, gate, view, second.num_pixels()),
{
    law_counts_nested(whole, tgt, pose, gate, view);
    law_counts_nested(first, tgt, pose, gate, view);
    law_counts_nested(second, tgt, pose, gate, view);
    lemma_parts_add_up(whole, first, second, tgt, pose, gate, view, second.num_pixels());
}

proof fn lemma_first_part(
    whole: RgbdLevel,
    first: RgbdLevel,
    second: RgbdLevel,
    tgt: RgbdLevel,
    pose: Pose,
    gate: Gate,
    view: spec_fn([Binary64; 3]) -> Option<[Binary64; 2]>,
    n: nat,
)
    requires
        is_joined(whole, first, second),
        n <= first.num_pixels(),
    ensures
        inliers(whole, tgt, pose, gate, view, n) == inliers(first, tgt, pose, gate, view, n),
        associated_count(whole, tgt, pose, gate, view, n) == associated_count(
            first,
            tgt,
            pose,
            gate,
            view,
            n,
        ),
        valid_count(whole, n) == valid_count(first, n),
    decreases n,
{
    if n > 0 {
        lemma_first_part(whole, first, second, tgt, pose, gate, view, (n - 1) as nat);
        assert(whole.vertices[n - 1] == first.vertices[n - 1]);
        assert(whole.normals[n - 1] == first.normals[n - 1]);
    }
}

proof fn lemma_parts_add_up(
    whole: RgbdLevel,
    first: RgbdLevel,
    second: RgbdLevel,
    tgt: RgbdLevel,
    pose: Pose,
    gate: Gate,
    view: spec_fn([Binary64; 3]) -> Option<[Binary64; 2]>,
    n: nat,
)
    requires
        is_joined(whole, first, second),
        n <= second.num_pixels(),
    ensures
        ({
            let m = first.num_pixels();
            &&& inliers(whole, tgt, pose, gate, view, m + n) == inliers(
                first,
                tgt,
                pose,
                gate,
                view,
                m,
            ) + inliers(second, tgt, pose, gate, view, n)
            &&& associated_count(whole, tgt, pose, gate, view, m + n) == associated_count(
                first,
                tgt,
                pose,
                gate,
                view,
                m,
            ) + associated_count(second, tgt, pose, gate, view, n)
            &&& valid_count(whole, m + n) == valid_count(first, m) + valid_count(second, n)
        }),
    decreases n,
{
    let m = first.num_pixels();
    if n > 0 {
        lemma_parts_add_up(whole, first, second, tgt, pose, gate, view, (n - 1) as nat);
        let at = m + n - 1;
        assert(whole.vertices[at] == second.vertices[n - 1]);
        assert(whole.normals[at] == second.normals[n - 1]);
        assert(outcome(whole, tgt, pose, gate, view, at) == outcome(
            second,
            tgt,
            pose,
            gate,
            view,
            n - 1,
        ));
        assert((m + n - 1) as nat == m + (n - 1) as nat);
    } else {
        lemma_first_part(whole, first, second, tgt, pose, gate, view, m);
        assert(inliers(second, tgt, pose, gate, view, 0) =~= Seq::empty());
    }
}

} // verus!
