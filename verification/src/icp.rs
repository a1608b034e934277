//! Projective point-to-plane ICP on depth frame pyramids.
//!
//! Estimates the rigid transform `T_target_source` (`p_tgt = R * p_src + t`) between two
//! depth frames given as [`RgbdPyramid`]s, coarse to fine. Correspondences come from
//! projective association (no kd-tree): each source vertex is transformed by the current
//! estimate, projected into the target grid, and matched to the nearest pixel's vertex and
//! normal.
//!
//! Per correspondence the point-to-plane residual is `r = n_t . (T*p_s - v_t)` with Jacobian
//! row `[(p' x n_t)^T, n_t^T]` where `p' = T*p_s` (left perturbation
//! `T <- exp([w, t]) * T`). Maps hold single precision numbers; `J^T W J` and `J^T W r` are
//! accumulated in double precision and the 6x6 system is solved by Cholesky factorisation.
//!
//! Two functions come from the caller: the camera's projection of a point into a level of
//! the target pyramid, and sine and cosine of an angle. Each gives one answer to each
//! question.
use crate::binary64::{
    fl_abs, fl_add, fl_div, fl_index, fl_le, fl_lt, fl_mul, fl_neg, fl_of, fl_round, fl_sqrt,
    fl_sub, fl_widen, lemma_index_within, Binary32, Binary64,
};
use crate::linear::{
    cholesky_solve_6x6, fl, gives_angles, guarded_solution, is_degenerate, mat3_mul, mat3_row_dot,
    product, rotation_exp, row_dot, so3_exp, squared_norm, takes_angles, ONE,
};
use crate::rgbd::{RgbdIcpError, RgbdLevel, RgbdPyramid};
use crate::rounding::INFINITE;
use vstd::prelude::*;

verus! {

/// The encoding of `1e-6`.
pub const DEFAULT_UPDATE_TOLERANCE: u64 = 0x3eb0_c6f7_a0b5_ed8d;

/// The encoding of `0.1`.
pub const DEFAULT_MAX_DIST_M: u64 = 0x3fb9_9999_9999_999a;

/// The encoding of thirty degrees in radians.
pub const DEFAULT_MAX_NORMAL_ANGLE_RAD: u64 = 0x3fe0_c152_382d_7365;

/// The encoding of `0.02`.
pub const DEFAULT_HUBER_DELTA_M: u64 = 0x3f94_7ae1_47ae_147b;

/// The encoding of the straight angle in radians: no two normals disagree by more.
pub const STRAIGHT_ANGLE: u64 = 0x4009_21fb_5444_2d18;

/// The encoding of negative infinity.
pub const NEGATIVE_INFINITE: u64 = 0xfff0_0000_0000_0000;

/// Parameters of [`icp_projective_plane`].
#[derive(Debug, Clone)]
pub struct IcpPlaneCriteria {
    /// Gauss-Newton iterations per pyramid level, coarsest first. Levels beyond the list
    /// reuse the last entry; an empty list runs no iterations (the result is the evaluated
    /// initial guess).
    pub iters_per_level: Vec<usize>,
    /// Convergence threshold on the twist update norm `sqrt(|w|^2 + |dt|^2)` (rad / metres);
    /// a level stops early once the update falls below it.
    pub update_tolerance: Binary64,
    /// Reject correspondences further apart than this in metres; below zero, all whose distance
    /// is a number.
    pub max_dist_m: Binary64,
    /// Reject correspondences whose (rotated) source and target normals disagree by more than
    /// this angle in radians: none from the straight angle on, and below zero all whose normals
    /// have a finite product.
    pub max_normal_angle_rad: Binary64,
    /// Huber loss scale in metres: residuals beyond it get weight `delta/|r|`.
    pub huber_delta_m: Binary64,
}

impl Default for IcpPlaneCriteria {
    fn default() -> (r: IcpPlaneCriteria)
        ensures
            r.iters_per_level@ == seq![10usize, 7, 5],
            r.update_tolerance == fl(DEFAULT_UPDATE_TOLERANCE),
            r.max_dist_m == fl(DEFAULT_MAX_DIST_M),
            r.max_normal_angle_rad == fl(DEFAULT_MAX_NORMAL_ANGLE_RAD),
            r.huber_delta_m == fl(DEFAULT_HUBER_DELTA_M),
    {
        IcpPlaneCriteria {
            iters_per_level: vec![10, 7, 5],
            update_tolerance: Binary64::from_bits(DEFAULT_UPDATE_TOLERANCE),
            max_dist_m: Binary64::from_bits(DEFAULT_MAX_DIST_M),
            max_normal_angle_rad: Binary64::from_bits(DEFAULT_MAX_NORMAL_ANGLE_RAD),
            huber_delta_m: Binary64::from_bits(DEFAULT_HUBER_DELTA_M),
        }
    }
}

/// Result of [`icp_projective_plane`].
///
/// The transformation maps source-frame points into the target frame:
/// `p_tgt = rotation * p_src + translation`.
#[derive(Debug, Clone, Copy)]
pub struct IcpPlaneResult {
    /// Estimated rotation matrix (row-major).
    pub rotation: [[Binary64; 3]; 3],
    /// Estimated translation vector in metres.
    pub translation: [Binary64; 3],
    /// Root-mean-square point-to-plane residual (metres) of the gated correspondences at the
    /// finest level under the final transform; infinite where there are none.
    pub rmse: Binary64,
    /// Gated correspondences divided by *associated* ones at the finest level under the final
    /// transform: match quality alone. Deliberately not divided by all valid source pixels:
    /// that conflates quality with view overlap and collapses under camera motion, rejecting
    /// solves that converged perfectly. Pair it with [`Self::overlap_fraction`] and
    /// [`Self::num_associated`]: a small patch can match perfectly and still be too little to
    /// constrain a pose.
    pub inlier_fraction: Binary64,
    /// Source pixels that projected into the target frame onto valid geometry, before the
    /// distance and normal-angle gates: how much evidence the solve actually had.
    pub num_associated: usize,
    /// Associated pixels divided by valid source pixels: how much of the source view still
    /// overlaps the target. Falls as the camera moves away from the keyframe and is the signal
    /// to re-key, not to reject the solve.
    pub overlap_fraction: Binary64,
    /// Total Gauss-Newton iterations performed across all levels.
    pub iterations: usize,
    /// Weakest normal-equation pivot relative to its block, from the last solve: how well the
    /// geometry pins the least-constrained direction. Near zero means the pose can slide with
    /// no residual penalty, which neither [`Self::rmse`] nor [`Self::inlier_fraction`] can
    /// detect. Zero where no iteration was performed.
    pub observability: Binary64,
}

// ---------------------------------------------------------------------------
// Association of one pixel
// ---------------------------------------------------------------------------

/// Whether `f` can be asked about every point and level.
pub open spec fn takes_points<P: Fn(usize, [Binary64; 3]) -> Option<[Binary64; 2]>>(
    f: P,
) -> bool {
    forall|level: usize, p: [Binary64; 3]| #[trigger] call_requires(f, (level, p))
}

/// Whether `views` holds the answers of `f`: pixel coordinates of a point in a level, `None`
/// where the camera does not see it.
pub open spec fn gives_pixels<P: Fn(usize, [Binary64; 3]) -> Option<[Binary64; 2]>>(
    f: P,
    views: spec_fn(usize, [Binary64; 3]) -> Option<[Binary64; 2]>,
) -> bool {
    forall|level: usize, p: [Binary64; 3], r: Option<[Binary64; 2]>| #[trigger]
        call_ensures(f, (level, p), r) ==> r == views(level, p)
}

/// The projection into one level.
pub open spec fn level_view(
    views: spec_fn(usize, [Binary64; 3]) -> Option<[Binary64; 2]>,
    level: usize,
) -> spec_fn([Binary64; 3]) -> Option<[Binary64; 2]> {
    |p: [Binary64; 3]| views(level, p)
}

/// Whether the nearest pixel to the coordinates `uv` lies above or left of every grid.
pub open spec fn is_before_grid(uv: [Binary64; 2]) -> bool {
    fl_lt(fl_round(uv[0]), fl(0)) || fl_lt(fl_round(uv[1]), fl(0))
}

/// The pixel nearest to the coordinates `uv` in a grid, as a position in its maps.
pub open spec fn pixel_of(uv: [Binary64; 2], width: nat, height: nat) -> Option<nat> {
    let u = fl_round(uv[0]);
    let v = fl_round(uv[1]);
    if is_before_grid(uv) || fl_lt(fl_of((width - 1) as nat), u) || fl_lt(
        fl_of((height - 1) as nat),
        v,
    ) {
        None
    } else {
        Some(fl_index(v) * width + fl_index(u))
    }
}

/// Whether the column nearest to the coordinate `u` lies right of a grid.
pub open spec fn is_beyond_columns(u: Binary64, width: nat) -> bool {
    fl_lt(fl_of((width - 1) as nat), fl_round(u))
}

/// Whether a projection can be looked up in `tgt`: where it does not lie before the grid, the
/// grid has a column; where it does not lie right of it, the grid has a row too, and both maps
/// hold the pixel that it falls on.
pub open spec fn can_look_up(tgt: RgbdLevel, uv: Option<[Binary64; 2]>) -> bool {
    uv matches Some(c) ==> is_before_grid(c) || (tgt.width > 0 && (is_beyond_columns(
        c[0],
        tgt.width as nat,
    ) || (tgt.height > 0 && (pixel_of(c, tgt.width as nat, tgt.height as nat) matches Some(t)
        ==> t < tgt.num_pixels()))))
}

/// Whether the projections of `f` into `level` can be looked up in `tgt`: its maps cover its
/// grid, or `f` stays clear of what they miss.
pub open spec fn stays_within<P: Fn(usize, [Binary64; 3]) -> Option<[Binary64; 2]>>(
    f: P,
    level: usize,
    tgt: RgbdLevel,
) -> bool {
    ||| tgt.covers_grid()
    ||| forall|p: [Binary64; 3], r: Option<[Binary64; 2]>| #[trigger]
        call_ensures(f, (level, p), r) ==> can_look_up(tgt, r)
}

/// Where the maps cover the grid, every projection can be looked up.
pub proof fn lemma_covered(tgt: RgbdLevel, uv: Option<[Binary64; 2]>)
    requires
        tgt.covers_grid(),
    ensures
        can_look_up(tgt, uv),
{
    if let Some(c) = uv {
        let (width, height) = (tgt.width as nat, tgt.height as nat);
        if let Some(t) = pixel_of(c, width, height) {
            let row = fl_index(fl_round(c[1]));
            let column = fl_index(fl_round(c[0]));
            lemma_index_within(fl_round(c[0]), (width - 1) as nat);
            lemma_index_within(fl_round(c[1]), (height - 1) as nat);
            assert(row * width + column < width * height) by (nonlinear_arith)
                requires
                    row <= height - 1,
                    column <= width - 1,
            ;
        }
    }
}

/// The nearest pixel to the coordinates `uv` in a grid, as a position in its maps; `None`
/// where it lies outside.
pub fn nearest_pixel(uv: &[Binary64; 2], width: usize, height: usize) -> (r: Option<usize>)
    requires
        is_before_grid(*uv) || (width > 0 && (is_beyond_columns(uv[0], width as nat) || height
            > 0)),
        pixel_of(*uv, width as nat, height as nat) matches Some(i) ==> i <= usize::MAX,
    ensures
        match pixel_of(*uv, width as nat, height as nat) {
            Some(i) => r == Some(i as usize),
            None => r is None,
        },
{
    let zero: Binary64 = Binary64::from_bits(0);
    let u: Binary64 = uv[0].round();
    let v: Binary64 = uv[1].round();
    if u.less_than(zero) || v.less_than(zero) {
        return None;
    }
    if Binary64::of_count(width - 1).less_than(u) {
        return None;
    }
    if Binary64::of_count(height - 1).less_than(v) {
        return None;
    }
    let row: usize = v.to_index();
    let column: usize = u.to_index();
    assert(0 <= row * width) by (nonlinear_arith)
        requires
            row >= 0,
            width >= 0,
    ;
    Some(row * width + column)
}

/// A rigid transform: `p -> rotation * p + translation`.
#[derive(Debug, Clone, Copy)]
pub struct Pose {
    /// Rotation matrix (row-major).
    pub rotation: [[Binary64; 3]; 3],
    /// Translation vector in metres.
    pub translation: [Binary64; 3],
}

/// The thresholds that a pair of pixels is held to.
#[derive(Debug, Clone, Copy)]
pub struct Gate {
    /// Square of the largest distance in metres.
    pub max_dist_sq: Binary64,
    /// Cosine of the largest angle between the normals.
    pub cos_max_angle: Binary64,
    /// Huber loss scale in metres.
    pub huber_delta: Binary64,
}

/// A correspondence that survived gating: a weighted row of the linearised system.
#[derive(Debug, Clone, Copy)]
pub struct Correspondence {
    /// Jacobian row of the residual with respect to the twist.
    pub jacobian: [Binary64; 6],
    /// Signed distance from the target plane in metres.
    pub residual: Binary64,
    /// Huber weight.
    pub weight: Binary64,
}

/// What became of a source pixel in an association pass.
#[derive(Debug, Clone, Copy)]
pub enum PixelOutcome {
    /// It has no valid vertex or normal.
    Invalid,
    /// It does not project onto valid geometry of the target.
    Unassociated,
    /// It projects onto valid geometry that is too far away or turned too much.
    Rejected,
    /// It survived gating.
    Inlier(Correspondence),
}

/// The coordinates of a map entry in double precision.
pub open spec fn widened(xyz: [Binary32; 3]) -> [Binary64; 3] {
    [fl_widen(xyz[0]), fl_widen(xyz[1]), fl_widen(xyz[2])]
}

/// The scalar product, summed from the left.
pub open spec fn dot(a: [Binary64; 3], b: [Binary64; 3]) -> Binary64 {
    fl_add(fl_add(fl_mul(a[0], b[0]), fl_mul(a[1], b[1])), fl_mul(a[2], b[2]))
}

/// The difference of two vectors.
pub open spec fn difference(a: [Binary64; 3], b: [Binary64; 3]) -> [Binary64; 3] {
    [fl_sub(a[0], b[0]), fl_sub(a[1], b[1]), fl_sub(a[2], b[2])]
}

/// The vector `v` turned by the rotation `m`.
pub open spec fn rotated(m: [[Binary64; 3]; 3], v: [Binary64; 3]) -> [Binary64; 3] {
    [row_dot(m, 0, v), row_dot(m, 1, v), row_dot(m, 2, v)]
}

/// The point `p` moved by `pose`.
pub open spec fn transformed(pose: Pose, p: [Binary64; 3]) -> [Binary64; 3] {
    [
        fl_add(row_dot(pose.rotation, 0, p), pose.translation[0]),
        fl_add(row_dot(pose.rotation, 1, p), pose.translation[1]),
        fl_add(row_dot(pose.rotation, 2, p), pose.translation[2]),
    ]
}

/// The Jacobian row `[(p x n)^T, n^T]`.
pub open spec fn jacobian_row(p: [Binary64; 3], n: [Binary64; 3]) -> [Binary64; 6] {
    [
        fl_sub(fl_mul(p[1], n[2]), fl_mul(p[2], n[1])),
        fl_sub(fl_mul(p[2], n[0]), fl_mul(p[0], n[2])),
        fl_sub(fl_mul(p[0], n[1]), fl_mul(p[1], n[0])),
        n[0],
        n[1],
        n[2],
    ]
}

/// The Huber weight of the residual `r`: one up to `delta`, `delta / |r|` beyond it.
pub open spec fn huber_weight(r: Binary64, delta: Binary64) -> Binary64 {
    if fl_le(fl_abs(r), delta) {
        fl(ONE)
    } else {
        fl_div(delta, fl_abs(r))
    }
}

/// What becomes of a moved source point `p` with normal `n_s` that is associated with the
/// target vertex `v_t` and normal `n_t`.
pub open spec fn gated(
    p: [Binary64; 3],
    n_s: [Binary64; 3],
    v_t: [Binary64; 3],
    n_t: [Binary64; 3],
    rotation: [[Binary64; 3]; 3],
    gate: Gate,
) -> PixelOutcome {
    let diff = difference(p, v_t);
    if fl_lt(gate.max_dist_sq, squared_norm(diff)) {
        PixelOutcome::Rejected
    } else if fl_lt(dot(rotated(rotation, n_s), n_t), gate.cos_max_angle) {
        PixelOutcome::Rejected
    } else {
        let r = dot(n_t, diff);
        PixelOutcome::Inlier(
            Correspondence {
                jacobian: jacobian_row(p, n_t),
                residual: r,
                weight: huber_weight(r, gate.huber_delta),
            },
        )
    }
}

/// What becomes of source pixel `i`, whose vertex moves to `p`, which the camera sees at
/// `uv`.
pub open spec fn outcome_at(
    src: RgbdLevel,
    tgt: RgbdLevel,
    rotation: [[Binary64; 3]; 3],
    gate: Gate,
    i: int,
    p: [Binary64; 3],
    uv: Option<[Binary64; 2]>,
) -> PixelOutcome {
    if !src.vertices[i].valid || !src.normals[i].valid {
        PixelOutcome::Invalid
    } else {
        match uv {
            None => PixelOutcome::Unassociated,
            Some(c) => match pixel_of(c, tgt.width as nat, tgt.height as nat) {
                None => PixelOutcome::Unassociated,
                Some(t) => if !tgt.vertices[t as int].valid || !tgt.normals[t as int].valid {
                    PixelOutcome::Unassociated
                } else {
                    gated(
                        p,
                        widened(src.normals[i].xyz),
                        widened(tgt.vertices[t as int].xyz),
                        widened(tgt.normals[t as int].xyz),
                        rotation,
                        gate,
                    )
                },
            },
        }
    }
}

/// What becomes of source pixel `i`, where `view` projects points into the target level.
pub open spec fn outcome(
    src: RgbdLevel,
    tgt: RgbdLevel,
    pose: Pose,
    gate: Gate,
    view: spec_fn([Binary64; 3]) -> Option<[Binary64; 2]>,
    i: int,
) -> PixelOutcome {
    let p = transformed(pose, widened(src.vertices[i].xyz));
    outcome_at(src, tgt, pose.rotation, gate, i, p, view(p))
}

/// The coordinates of a map entry in double precision.
fn widen3(xyz: &[Binary32; 3]) -> (r: [Binary64; 3])
    ensures
        r == widened(*xyz),
{
    [xyz[0].widen(), xyz[1].widen(), xyz[2].widen()]
}

/// The point `p` moved by `pose`.
pub fn transform_point(pose: &Pose, p: &[Binary64; 3]) -> (r: [Binary64; 3])
    ensures
        r == transformed(*pose, *p),
{
    [
        mat3_row_dot(&pose.rotation, 0, p) + pose.translation[0],
        mat3_row_dot(&pose.rotation, 1, p) + pose.translation[1],
        mat3_row_dot(&pose.rotation, 2, p) + pose.translation[2],
    ]
}

/// Gates and weights an associated pair: the moved source point `p` with its normal `n_s`
/// in the source frame, and the target vertex `v_t` with its normal `n_t`.
pub fn gate_pair(
    p: &[Binary64; 3],
    n_s: &[Binary64; 3],
    v_t: &[Binary64; 3],
    n_t: &[Binary64; 3],
    rotation: &[[Binary64; 3]; 3],
    gate: &Gate,
) -> (r: PixelOutcome)
    ensures
        r == gated(*p, *n_s, *v_t, *n_t, *rotation, *gate),
{
    let diff: [Binary64; 3] = [p[0] - v_t[0], p[1] - v_t[1], p[2] - v_t[2]];
    assert(diff =~= difference(*p, *v_t));
    let dist_sq: Binary64 = diff[0] * diff[0] + diff[1] * diff[1] + diff[2] * diff[2];
    if gate.max_dist_sq.less_than(dist_sq) {
        return PixelOutcome::Rejected;
    }
    let turned: [Binary64; 3] = [
        mat3_row_dot(rotation, 0, n_s),
        mat3_row_dot(rotation, 1, n_s),
        mat3_row_dot(rotation, 2, n_s),
    ];
    let cosine: Binary64 = turned[0] * n_t[0] + turned[1] * n_t[1] + turned[2] * n_t[2];
    if cosine.less_than(gate.cos_max_angle) {
        return PixelOutcome::Rejected;
    }
    let residual: Binary64 = n_t[0] * diff[0] + n_t[1] * diff[1] + n_t[2] * diff[2];
    let jacobian: [Binary64; 6] = [
        p[1] * n_t[2] - p[2] * n_t[1],
        p[2] * n_t[0] - p[0] * n_t[2],
        p[0] * n_t[1] - p[1] * n_t[0],
        n_t[0],
        n_t[1],
        n_t[2],
    ];
    assert(jacobian =~= jacobian_row(*p, *n_t));
    let weight: Binary64 = if residual.abs().at_most(gate.huber_delta) {
        Binary64::from_bits(ONE)
    } else {
        gate.huber_delta / residual.abs()
    };
    PixelOutcome::Inlier(Correspondence { jacobian, residual, weight })
}

/// Decides what becomes of source pixel `i`, given where its vertex moves to and where the
/// camera sees it then.
pub fn match_pixel(
    src: &RgbdLevel,
    tgt: &RgbdLevel,
    rotation: &[[Binary64; 3]; 3],
    gate: &Gate,
    i: usize,
    p: &[Binary64; 3],
    uv: Option<[Binary64; 2]>,
) -> (r: PixelOutcome)
    requires
        i < src.num_pixels(),
        can_look_up(*tgt, uv),
    ensures
        r == outcome_at(*src, *tgt, *rotation, *gate, i as int, *p, uv),
{
    if !src.vertices[i].valid || !src.normals[i].valid {
        return PixelOutcome::Invalid;
    }
    match uv {
        None => PixelOutcome::Unassociated,
        Some(c) => match nearest_pixel(&c, tgt.width, tgt.height) {
            None => PixelOutcome::Unassociated,
            Some(t) => {
                if !tgt.vertices[t].valid || !tgt.normals[t].valid {
                    PixelOutcome::Unassociated
                } else {
                    gate_pair(
                        p,
                        &widen3(&src.normals[i].xyz),
                        &widen3(&tgt.vertices[t].xyz),
                        &widen3(&tgt.normals[t].xyz),
                        rotation,
                        gate,
                    )
                }
            },
        },
    }
}

// ---------------------------------------------------------------------------
// One association pass
// ---------------------------------------------------------------------------

/// Accumulated normal equations of one association pass over a level.
#[derive(Debug, Clone, Copy)]
pub struct NormalEquations {
    /// `J^T W J` (full symmetric 6x6).
    pub a: [[Binary64; 6]; 6],
    /// `J^T W r`.
    pub b: [Binary64; 6],
    /// Correspondences that survived gating.
    pub num_inliers: usize,
    /// Projected inside the target onto valid geometry (before gating).
    pub num_associated: usize,
    /// Source pixels with a valid vertex and normal.
    pub num_valid: usize,
    /// Unweighted sum of squared residuals over the inliers.
    pub sum_sq_residual: Binary64,
}

/// The correspondences among the first `n` source pixels, in pixel order.
pub open spec fn inliers(
    src: RgbdLevel,
    tgt: RgbdLevel,
    pose: Pose,
    gate: Gate,
    view: spec_fn([Binary64; 3]) -> Option<[Binary64; 2]>,
    n: nat,
) -> Seq<Correspondence>
    decreases n,
{
    if n == 0 {
        Seq::empty()
    } else {
        let before = inliers(src, tgt, pose, gate, view, (n - 1) as nat);
        match outcome(src, tgt, pose, gate, view, n - 1) {
            PixelOutcome::Inlier(c) => before.push(c),
            _ => before,
        }
    }
}

/// The number of valid pixels among the first `n` source pixels.
pub open spec fn valid_count(src: RgbdLevel, n: nat) -> nat
    decreases n,
{
    if n == 0 {
        0
    } else {
        let here = src.vertices[n - 1].valid && src.normals[n - 1].valid;
        valid_count(src, (n - 1) as nat) + if here {
            1nat
        } else {
            0
        }
    }
}

/// The number of associated pixels among the first `n` source pixels.
pub open spec fn associated_count(
    src: RgbdLevel,
    tgt: RgbdLevel,
    pose: Pose,
    gate: Gate,
    view: spec_fn([Binary64; 3]) -> Option<[Binary64; 2]>,
    n: nat,
) -> nat
    decreases n,
{
    if n == 0 {
        0
    } else {
        let o = outcome(src, tgt, pose, gate, view, n - 1);
        associated_count(src, tgt, pose, gate, view, (n - 1) as nat) + if o is Rejected
            || o is Inlier {
            1nat
        } else {
            0
        }
    }
}

/// The sum of `(w * j_i) * j_k` over the rows, from the first on.
pub open spec fn sum_jj(rows: Seq<Correspondence>, i: int, k: int) -> Binary64
    decreases rows.len(),
{
    if rows.len() == 0 {
        fl(0)
    } else {
        let c = rows.last();
        fl_add(
            sum_jj(rows.drop_last(), i, k),
            fl_mul(fl_mul(c.weight, c.jacobian[i]), c.jacobian[k]),
        )
    }
}

/// The sum of `(w * j_i) * r` over the rows, from the first on.
pub open spec fn sum_jr(rows: Seq<Correspondence>, i: int) -> Binary64
    decreases rows.len(),
{
    if rows.len() == 0 {
        fl(0)
    } else {
        let c = rows.last();
        fl_add(
            sum_jr(rows.drop_last(), i),
            fl_mul(fl_mul(c.weight, c.jacobian[i]), c.residual),
        )
    }
}

/// The sum of `r * r` over the rows, from the first on.
pub open spec fn sum_rr(rows: Seq<Correspondence>) -> Binary64
    decreases rows.len(),
{
    if rows.len() == 0 {
        fl(0)
    } else {
        let c = rows.last();
        fl_add(sum_rr(rows.drop_last()), fl_mul(c.residual, c.residual))
    }
}

/// Entry `(i, k)` of `J^T W J`: the upper triangle is accumulated, the lower one mirrors
/// it.
pub open spec fn normal_entry(rows: Seq<Correspondence>, i: int, k: int) -> Binary64 {
    if i <= k {
        sum_jj(rows, i, k)
    } else {
        sum_jj(rows, k, i)
    }
}

/// Row `i` of `J^T W J`.
pub open spec fn normal_row(rows: Seq<Correspondence>, i: int) -> [Binary64; 6] {
    [
        normal_entry(rows, i, 0),
        normal_entry(rows, i, 1),
        normal_entry(rows, i, 2),
        normal_entry(rows, i, 3),
        normal_entry(rows, i, 4),
        normal_entry(rows, i, 5),
    ]
}

/// The normal equations of the given correspondences.
pub open spec fn equations_of(
    rows: Seq<Correspondence>,
    num_associated: usize,
    num_valid: usize,
) -> NormalEquations {
    NormalEquations {
        a: [
            normal_row(rows, 0),
            normal_row(rows, 1),
            normal_row(rows, 2),
            normal_row(rows, 3),
            normal_row(rows, 4),
            normal_row(rows, 5),
        ],
        b: [
            sum_jr(rows, 0),
            sum_jr(rows, 1),
            sum_jr(rows, 2),
            sum_jr(rows, 3),
            sum_jr(rows, 4),
            sum_jr(rows, 5),
        ],
        num_inliers: rows.len() as usize,
        num_associated,
        num_valid,
        sum_sq_residual: sum_rr(rows),
    }
}

/// The normal equations of one association pass over all source pixels.
pub open spec fn pass(
    src: RgbdLevel,
    tgt: RgbdLevel,
    pose: Pose,
    gate: Gate,
    view: spec_fn([Binary64; 3]) -> Option<[Binary64; 2]>,
) -> NormalEquations {
    let n = src.num_pixels();
    equations_of(
        inliers(src, tgt, pose, gate, view, n),
        associated_count(src, tgt, pose, gate, view, n) as usize,
        valid_count(src, n) as usize,
    )
}

/// The thresholds that the criteria stand for, given the cosine of the largest angle. A
/// distance below zero lets no pair pass whose squared distance is a number. An angle below zero
/// lets no pair pass whose normals have a finite product, and one from the straight angle on lets
/// every pair pass: there the cosine does not tell how wide the angle is.
pub open spec fn gate_of(criteria: IcpPlaneCriteria, cos_max_angle: Binary64) -> Gate {
    Gate {
        max_dist_sq: if fl_lt(criteria.max_dist_m, fl(0)) {
            fl(NEGATIVE_INFINITE)
        } else {
            fl_mul(criteria.max_dist_m, criteria.max_dist_m)
        },
        cos_max_angle: if fl_lt(criteria.max_normal_angle_rad, fl(0)) {
            fl(INFINITE)
        } else if fl_le(fl(STRAIGHT_ANGLE), criteria.max_normal_angle_rad) {
            fl(NEGATIVE_INFINITE)
        } else {
            cos_max_angle
        },
        huber_delta: criteria.huber_delta_m,
    }
}

/// The thresholds that the criteria stand for, given the cosine of the largest angle.
pub fn gate_from(criteria: &IcpPlaneCriteria, cos_max_angle: Binary64) -> (r: Gate)
    ensures
        r == gate_of(*criteria, cos_max_angle),
{
    let zero: Binary64 = Binary64::from_bits(0);
    let angle: Binary64 = criteria.max_normal_angle_rad;
    Gate {
        max_dist_sq: if criteria.max_dist_m.less_than(zero) {
            Binary64::from_bits(NEGATIVE_INFINITE)
        } else {
            criteria.max_dist_m * criteria.max_dist_m
        },
        cos_max_angle: if angle.less_than(zero) {
            Binary64::from_bits(INFINITE)
        } else if Binary64::from_bits(STRAIGHT_ANGLE).at_most(angle) {
            Binary64::from_bits(NEGATIVE_INFINITE)
        } else {
            cos_max_angle
        },
        huber_delta: criteria.huber_delta_m,
    }
}

/// Among the first `n` pixels, every correspondence is associated and every associated
/// pixel is valid.
pub proof fn lemma_counts_nested(
    src: RgbdLevel,
    tgt: RgbdLevel,
    pose: Pose,
    gate: Gate,
    view: spec_fn([Binary64; 3]) -> Option<[Binary64; 2]>,
    n: nat,
)
    ensures
        inliers(src, tgt, pose, gate, view, n).len() <= associated_count(
            src,
            tgt,
            pose,
            gate,
            view,
            n,
        ) <= valid_count(src, n) <= n,
    decreases n,
{
    if n > 0 {
        lemma_counts_nested(src, tgt, pose, gate, view, (n - 1) as nat);
    }
}

/// Whether the accumulators hold the sums over `rows`, above the diagonal and on it.
spec fn holds_upper(eqs: NormalEquations, rows: Seq<Correspondence>) -> bool {
    &&& forall|i: int, k: int| 0 <= i <= k < 6 ==> #[trigger] eqs.a[i][k] == sum_jj(rows, i, k)
    &&& forall|i: int| 0 <= i < 6 ==> #[trigger] eqs.b[i] == sum_jr(rows, i)
    &&& eqs.sum_sq_residual == sum_rr(rows)
    &&& eqs.num_inliers == rows.len()
}

/// Adds a correspondence to the accumulators.
fn add_correspondence(
    eqs: &mut NormalEquations,
    c: &Correspondence,
    Ghost(rows): Ghost<Seq<Correspondence>>,
)
    requires
        holds_upper(*old(eqs), rows),
        old(eqs).num_inliers < usize::MAX,
    ensures
        holds_upper(*final(eqs), rows.push(*c)),
        final(eqs).num_associated == old(eqs).num_associated,
        final(eqs).num_valid == old(eqs).num_valid,
{
    let ghost more = rows.push(*c);
    proof {
        assert(more.drop_last() =~= rows);
        assert(more.last() == *c);
    }
    let mut i: usize = 0;
    while i < 6
        invariant
            i <= 6,
            more.len() == rows.len() + 1,
            more.drop_last() == rows,
            more.last() == *c,
            forall|p: int, q: int|
                0 <= p < i && p <= q < 6 ==> #[trigger] eqs.a[p][q] == sum_jj(more, p, q),
            forall|p: int, q: int|
                i <= p <= q < 6 ==> #[trigger] eqs.a[p][q] == sum_jj(rows, p, q),
            forall|p: int| 0 <= p < i ==> #[trigger] eqs.b[p] == sum_jr(more, p),
            forall|p: int| i <= p < 6 ==> #[trigger] eqs.b[p] == sum_jr(rows, p),
            eqs.sum_sq_residual == sum_rr(rows),
            eqs.num_inliers == rows.len(),
            eqs.num_inliers < usize::MAX,
            eqs.num_associated == old(eqs).num_associated,
            eqs.num_valid == old(eqs).num_valid,
        decreases 6 - i,
    {
        eqs.b[i] = eqs.b[i] + c.weight * c.jacobian[i] * c.residual;
        let mut k: usize = i;
        while k < 6
            invariant
                i <= k <= 6,
                i < 6,
                more.len() == rows.len() + 1,
                more.drop_last() == rows,
                more.last() == *c,
                forall|p: int, q: int|
                    0 <= p < i && p <= q < 6 ==> #[trigger] eqs.a[p][q] == sum_jj(more, p, q),
                forall|q: int|
                    i <= q < k ==> #[trigger] eqs.a[i as int][q] == sum_jj(more, i as int, q),
                forall|q: int|
                    k <= q < 6 ==> #[trigger] eqs.a[i as int][q] == sum_jj(rows, i as int, q),
                forall|p: int, q: int|
                    i < p <= q < 6 ==> #[trigger] eqs.a[p][q] == sum_jj(rows, p, q),
                forall|p: int| 0 <= p <= i ==> #[trigger] eqs.b[p] == sum_jr(more, p),
                forall|p: int| i < p < 6 ==> #[trigger] eqs.b[p] == sum_jr(rows, p),
                eqs.sum_sq_residual == sum_rr(rows),
                eqs.num_inliers == rows.len(),
                eqs.num_inliers < usize::MAX,
                eqs.num_associated == old(eqs).num_associated,
                eqs.num_valid == old(eqs).num_valid,
            decreases 6 - k,
        {
            eqs.a[i][k] = eqs.a[i][k] + c.weight * c.jacobian[i] * c.jacobian[k];
            k = k + 1;
        }
        i = i + 1;
    }
    eqs.num_inliers = eqs.num_inliers + 1;
    eqs.sum_sq_residual = eqs.sum_sq_residual + c.residual * c.residual;
}

/// Copies the accumulated upper triangle below the diagonal.
fn mirror_upper(eqs: &mut NormalEquations, Ghost(rows): Ghost<Seq<Correspondence>>)
    requires
        holds_upper(*old(eqs), rows),
    ensures
        *final(eqs) == equations_of(rows, old(eqs).num_associated, old(eqs).num_valid),
{
    let mut i: usize = 1;
    while i < 6
        invariant
            1 <= i <= 6,
            holds_upper(*eqs, rows),
            forall|p: int, q: int|
                0 <= q < p < i ==> #[trigger] eqs.a[p][q] == normal_entry(rows, p, q),
            eqs.num_associated == old(eqs).num_associated,
            eqs.num_valid == old(eqs).num_valid,
        decreases 6 - i,
    {
        let mut k: usize = 0;
        while k < i
            invariant
                k <= i < 6,
                holds_upper(*eqs, rows),
                forall|p: int, q: int|
                    0 <= q < p < i ==> #[trigger] eqs.a[p][q] == normal_entry(rows, p, q),
                forall|q: int|
                    0 <= q < k ==> #[trigger] eqs.a[i as int][q] == normal_entry(
                        rows,
                        i as int,
                        q,
                    ),
                eqs.num_associated == old(eqs).num_associated,
                eqs.num_valid == old(eqs).num_valid,
            decreases i - k,
        {
            eqs.a[i][k] = eqs.a[k][i];
            k = k + 1;
        }
        i = i + 1;
    }
    proof {
        let want = equations_of(rows, old(eqs).num_associated, old(eqs).num_valid);
        assert forall|p: int| 0 <= p < 6 implies #[trigger] eqs.a[p] == want.a[p] by {
            assert(want.a[p] == normal_row(rows, p));
            assert forall|q: int| 0 <= q < 6 implies #[trigger] eqs.a[p][q] == want.a[p][q] by {}
            assert(eqs.a[p] =~= want.a[p]);
        }
        assert(eqs.a =~= want.a);
        assert(eqs.b =~= want.b);
    }
}

/// One projective-association pass: gates, weights and accumulates `J^T W J` and
/// `J^T W r`.
pub fn accumulate_level<
    P: Fn(usize, [Binary64; 3]) -> Option<[Binary64; 2]>,
    T: Fn(Binary64) -> (Binary64, Binary64),
>(
    src: &RgbdLevel,
    tgt: &RgbdLevel,
    level: usize,
    pose: &Pose,
    criteria: &IcpPlaneCriteria,
    project: &P,
    sin_cos: &T,
) -> (eqs: NormalEquations)
    requires
        takes_points(*project),
        takes_angles(*sin_cos),
        stays_within(*project, level, *tgt),
    ensures
        eqs.num_inliers <= eqs.num_associated <= eqs.num_valid,
        eqs.num_valid == valid_count(*src, src.num_pixels()),
        forall|
            views: spec_fn(usize, [Binary64; 3]) -> Option<[Binary64; 2]>,
            trig: spec_fn(Binary64) -> (Binary64, Binary64),
        | #[trigger] gives_pixels(*project, views) && #[trigger] gives_angles(*sin_cos, trig)
            ==> eqs == pass(
            *src,
            *tgt,
            *pose,
            gate_of(*criteria, trig(criteria.max_normal_angle_rad).1),
            level_view(views, level),
        ),
{
    let zero: Binary64 = Binary64::from_bits(0);
    let mut eqs: NormalEquations = NormalEquations {
        a: [[zero; 6]; 6],
        b: [zero; 6],
        num_inliers: 0,
        num_associated: 0,
        num_valid: 0,
        sum_sq_residual: zero,
    };
    let (_, cos_max_angle): (Binary64, Binary64) = sin_cos(criteria.max_normal_angle_rad);
    let gate: Gate = gate_from(criteria, cos_max_angle);
    let ghost mut rows: Seq<Correspondence> = Seq::empty();
    let n: usize = if src.vertices.len() < src.normals.len() {
        src.vertices.len()
    } else {
        src.normals.len()
    };
    let mut i: usize = 0;
    while i < n
        invariant
            i <= n,
            n == src.num_pixels(),
            takes_points(*project),
            stays_within(*project, level, *tgt),
            holds_upper(eqs, rows),
            forall|views: spec_fn(usize, [Binary64; 3]) -> Option<[Binary64; 2]>| #[trigger]
                gives_pixels(*project, views) ==> {
                    let view = level_view(views, level);
                    &&& rows == inliers(*src, *tgt, *pose, gate, view, i as nat)
                    &&& eqs.num_associated == associated_count(
                        *src,
                        *tgt,
                        *pose,
                        gate,
                        view,
                        i as nat,
                    )
                },
            eqs.num_valid == valid_count(*src, i as nat),
            eqs.num_inliers <= eqs.num_associated <= eqs.num_valid <= i,
        decreases n - i,
    {
        if src.vertices[i].valid && src.normals[i].valid {
            eqs.num_valid = eqs.num_valid + 1;
            let p: [Binary64; 3] = transform_point(pose, &widen3(&src.vertices[i].xyz));
            let uv: Option<[Binary64; 2]> = project(level, p);
            assert(can_look_up(*tgt, uv)) by {
                if tgt.covers_grid() {
                    lemma_covered(*tgt, uv);
                }
            }
            let met: PixelOutcome = match_pixel(src, tgt, &pose.rotation, &gate, i, &p, uv);
            assert forall|views: spec_fn(usize, [Binary64; 3]) -> Option<[Binary64; 2]>|
                #[trigger] gives_pixels(*project, views) implies met == outcome(
                *src,
                *tgt,
                *pose,
                gate,
                level_view(views, level),
                i as int,
            ) by {
                assert(uv == level_view(views, level)(p));
            }
            match met {
                PixelOutcome::Inlier(c) => {
                    eqs.num_associated = eqs.num_associated + 1;
                    add_correspondence(&mut eqs, &c, Ghost(rows));
                    proof {
                        rows = rows.push(c);
                    }
                },
                PixelOutcome::Rejected => {
                    eqs.num_associated = eqs.num_associated + 1;
                },
                _ => {},
            }
        }
        i = i + 1;
    }
    mirror_upper(&mut eqs, Ghost(rows));
    eqs
}

// ---------------------------------------------------------------------------
// Gauss-Newton refinement
// ---------------------------------------------------------------------------

/// What a registration carries from one iteration to the next.
#[derive(Debug, Clone, Copy)]
pub struct Estimate {
    /// The current transform from the source to the target frame.
    pub pose: Pose,
    /// Iterations performed so far, held at `usize::MAX`.
    pub iterations: usize,
    /// Weakest relative pivot of the last solve; zero before the first.
    pub observability: Binary64,
}

/// Six numbers with the opposite signs.
pub open spec fn negated6(b: [Binary64; 6]) -> [Binary64; 6] {
    [fl_neg(b[0]), fl_neg(b[1]), fl_neg(b[2]), fl_neg(b[3]), fl_neg(b[4]), fl_neg(b[5])]
}

/// The length of a twist `[w, dt]`, its squares summed from the left.
pub open spec fn twist_norm(x: [Binary64; 6]) -> Binary64 {
    fl_sqrt(
        fl_add(
            fl_add(
                fl_add(
                    fl_add(
                        fl_add(fl_add(fl(0), fl_mul(x[0], x[0])), fl_mul(x[1], x[1])),
                        fl_mul(x[2], x[2]),
                    ),
                    fl_mul(x[3], x[3]),
                ),
                fl_mul(x[4], x[4]),
            ),
            fl_mul(x[5], x[5]),
        ),
    )
}

/// The pose turned by `delta` and then moved by the last three entries of the twist `x`.
pub open spec fn moved(pose: Pose, delta: [[Binary64; 3]; 3], x: [Binary64; 6]) -> Pose {
    Pose {
        rotation: product(delta, pose.rotation),
        translation: [
            fl_add(row_dot(delta, 0, pose.translation), x[3]),
            fl_add(row_dot(delta, 1, pose.translation), x[4]),
            fl_add(row_dot(delta, 2, pose.translation), x[5]),
        ],
    }
}

/// The estimate after the twist `x`, found with the given weakest pivot.
pub open spec fn updated(
    est: Estimate,
    x: [Binary64; 6],
    weakest: Binary64,
    trig: spec_fn(Binary64) -> (Binary64, Binary64),
) -> Estimate {
    Estimate {
        pose: moved(est.pose, rotation_exp([x[0], x[1], x[2]], trig), x),
        iterations: if est.iterations == usize::MAX {
            usize::MAX
        } else {
            (est.iterations + 1) as usize
        },
        observability: weakest,
    }
}

/// One Gauss-Newton step on the given normal equations: the new estimate and the length of
/// the update, or why there is none.
pub open spec fn stepped(
    eqs: NormalEquations,
    est: Estimate,
    trig: spec_fn(Binary64) -> (Binary64, Binary64),
) -> Result<(Estimate, Binary64), RgbdIcpError> {
    if eqs.num_inliers < 6 {
        Err(RgbdIcpError::TooFewCorrespondences(eqs.num_inliers))
    } else {
        // a x = -b for the twist x = [w, dt]
        match guarded_solution(eqs.a, negated6(eqs.b)) {
            None => Err(RgbdIcpError::SingularNormalEquations),
            Some((x, weakest)) => Ok((updated(est, x, weakest, trig), twist_norm(x))),
        }
    }
}

/// Whether an error is one that a Gauss-Newton step can have.
pub open spec fn is_step_error(e: RgbdIcpError) -> bool {
    match e {
        RgbdIcpError::InvalidNumLevels(_) => false,
        RgbdIcpError::TooFewCorrespondences(count) => count < 6,
        RgbdIcpError::SingularNormalEquations => true,
    }
}

/// One Gauss-Newton step on the given normal equations: the new estimate and the length of
/// the update.
pub fn gauss_newton_step<T: Fn(Binary64) -> (Binary64, Binary64)>(
    eqs: &NormalEquations,
    est: &Estimate,
    sin_cos: &T,
) -> (r: Result<(Estimate, Binary64), RgbdIcpError>)
    requires
        takes_angles(*sin_cos),
    ensures
        eqs.num_inliers < 6 ==> r == Err::<(Estimate, Binary64), RgbdIcpError>(
            RgbdIcpError::TooFewCorrespondences(eqs.num_inliers),
        ),
        eqs.num_inliers >= 6 && is_degenerate(eqs.a) ==> r == Err::<
            (Estimate, Binary64),
            RgbdIcpError,
        >(RgbdIcpError::SingularNormalEquations),
        eqs.num_inliers >= 6 && !is_degenerate(eqs.a) ==> r is Ok,
        forall|trig: spec_fn(Binary64) -> (Binary64, Binary64)| #[trigger]
            gives_angles(*sin_cos, trig) ==> r == stepped(*eqs, *est, trig),
{
    if eqs.num_inliers < 6 {
        return Err(RgbdIcpError::TooFewCorrespondences(eqs.num_inliers));
    }
    let neg_b: [Binary64; 6] = [
        eqs.b[0].negated(),
        eqs.b[1].negated(),
        eqs.b[2].negated(),
        eqs.b[3].negated(),
        eqs.b[4].negated(),
        eqs.b[5].negated(),
    ];
    assert(neg_b =~= negated6(eqs.b));
    match cholesky_solve_6x6(&eqs.a, &neg_b) {
        None => Err(RgbdIcpError::SingularNormalEquations),
        Some((x, weakest)) => {
            let omega: [Binary64; 3] = [x[0], x[1], x[2]];
            let delta: [[Binary64; 3]; 3] = so3_exp(&omega, sin_cos);
            let rotation: [[Binary64; 3]; 3] = mat3_mul(&delta, &est.pose.rotation);
            let translation: [Binary64; 3] = [
                mat3_row_dot(&delta, 0, &est.pose.translation) + x[3],
                mat3_row_dot(&delta, 1, &est.pose.translation) + x[4],
                mat3_row_dot(&delta, 2, &est.pose.translation) + x[5],
            ];
            let ghost want = moved(est.pose, delta, x);
            assert(translation =~= want.translation);
            let iterations: usize = if est.iterations == usize::MAX {
                usize::MAX
            } else {
                est.iterations + 1
            };
            let norm_sq: Binary64 = Binary64::from_bits(0) + x[0] * x[0] + x[1] * x[1] + x[2]
                * x[2] + x[3] * x[3] + x[4] * x[4] + x[5] * x[5];
            let next: Estimate = Estimate {
                pose: Pose { rotation, translation },
                iterations,
                observability: weakest,
            };
            Ok((next, norm_sq.sqrt()))
        },
    }
}

/// At most `iters` Gauss-Newton iterations on one level, each on a fresh association pass,
/// until an update is shorter than the tolerance.
pub open spec fn refined(
    src: RgbdLevel,
    tgt: RgbdLevel,
    criteria: IcpPlaneCriteria,
    view: spec_fn([Binary64; 3]) -> Option<[Binary64; 2]>,
    trig: spec_fn(Binary64) -> (Binary64, Binary64),
    est: Estimate,
    iters: nat,
) -> Result<Estimate, RgbdIcpError>
    decreases iters,
{
    if iters == 0 {
        Ok(est)
    } else {
        let gate = gate_of(criteria, trig(criteria.max_normal_angle_rad).1);
        match stepped(pass(src, tgt, est.pose, gate, view), est, trig) {
            Err(e) => Err(e),
            Ok((next, length)) => if fl_lt(length, criteria.update_tolerance) {
                Ok(next)
            } else {
                refined(src, tgt, criteria, view, trig, next, (iters - 1) as nat)
            },
        }
    }
}

/// The iterations planned for the level with index `coarse`, counted from the coarsest:
/// levels beyond the list reuse its last entry, an empty list plans none.
pub open spec fn planned_iterations(list: Seq<usize>, coarse: nat) -> nat {
    if coarse < list.len() {
        list[coarse as int] as nat
    } else if list.len() > 0 {
        list.last() as nat
    } else {
        0
    }
}

/// Whether no iteration is planned for any of `num_levels` levels.
pub open spec fn plans_nothing(list: Seq<usize>, num_levels: nat) -> bool {
    forall|coarse: nat| coarse < num_levels ==> #[trigger] planned_iterations(list, coarse) == 0
}

/// Whether a registration over `num_levels` levels looks into level `l`, counted from the
/// finest: the finest is evaluated at the end, the others are read where iterations are planned.
pub open spec fn is_read(list: Seq<usize>, num_levels: nat, l: int) -> bool {
    l == 0 || planned_iterations(list, (num_levels - 1 - l) as nat) > 0
}

/// The refinement of all levels from `coarse` on, counted from the coarsest, down to the
/// finest. The levels of a pyramid are stored finest first.
pub open spec fn descended(
    source: RgbdPyramid,
    target: RgbdPyramid,
    criteria: IcpPlaneCriteria,
    views: spec_fn(usize, [Binary64; 3]) -> Option<[Binary64; 2]>,
    trig: spec_fn(Binary64) -> (Binary64, Binary64),
    est: Estimate,
    num_levels: nat,
    coarse: nat,
) -> Result<Estimate, RgbdIcpError>
    decreases num_levels - coarse,
{
    if coarse >= num_levels {
        Ok(est)
    } else {
        let level = num_levels - 1 - coarse;
        match refined(
            source.levels[level],
            target.levels[level],
            criteria,
            level_view(views, level as usize),
            trig,
            est,
            planned_iterations(criteria.iters_per_level@, coarse),
        ) {
            Err(e) => Err(e),
            Ok(next) => descended(
                source,
                target,
                criteria,
                views,
                trig,
                next,
                num_levels,
                coarse + 1,
            ),
        }
    }
}

/// The quotient of two counts; zero where there is nothing to divide by.
pub open spec fn fraction(part: nat, whole: nat) -> Binary64 {
    if whole > 0 {
        fl_div(fl_of(part), fl_of(whole))
    } else {
        fl(0)
    }
}

/// The result that an estimate and the normal equations under its pose stand for.
pub open spec fn evaluated(est: Estimate, eqs: NormalEquations) -> IcpPlaneResult {
    IcpPlaneResult {
        rotation: est.pose.rotation,
        translation: est.pose.translation,
        rmse: if eqs.num_inliers > 0 {
            fl_sqrt(fl_div(eqs.sum_sq_residual, fl_of(eqs.num_inliers as nat)))
        } else {
            fl(INFINITE)
        },
        inlier_fraction: fraction(eqs.num_inliers as nat, eqs.num_associated as nat),
        num_associated: eqs.num_associated,
        overlap_fraction: fraction(eqs.num_associated as nat, eqs.num_valid as nat),
        iterations: est.iterations,
        observability: est.observability,
    }
}

/// The number of levels that two pyramids have in common.
pub open spec fn common_levels(source: RgbdPyramid, target: RgbdPyramid) -> nat {
    if source.levels.len() < target.levels.len() {
        source.levels.len() as nat
    } else {
        target.levels.len() as nat
    }
}

/// The estimate that a registration starts from.
pub open spec fn initial_estimate(
    rotation: [[Binary64; 3]; 3],
    translation: [Binary64; 3],
) -> Estimate {
    Estimate { pose: Pose { rotation, translation }, iterations: 0, observability: fl(0) }
}

/// What a registration returns.
pub open spec fn registered(
    source: RgbdPyramid,
    target: RgbdPyramid,
    start: Estimate,
    criteria: IcpPlaneCriteria,
    views: spec_fn(usize, [Binary64; 3]) -> Option<[Binary64; 2]>,
    trig: spec_fn(Binary64) -> (Binary64, Binary64),
) -> Result<IcpPlaneResult, RgbdIcpError> {
    let n = common_levels(source, target);
    if n == 0 {
        Err(RgbdIcpError::InvalidNumLevels(0))
    } else {
        match descended(source, target, criteria, views, trig, start, n, 0) {
            Err(e) => Err(e),
            Ok(est) => {
                let gate = gate_of(criteria, trig(criteria.max_normal_angle_rad).1);
                let eqs = pass(
                    source.levels[0],
                    target.levels[0],
                    est.pose,
                    gate,
                    level_view(views, 0),
                );
                Ok(evaluated(est, eqs))
            },
        }
    }
}

/// The iterations planned for the level with index `coarse`, counted from the coarsest.
pub fn iterations_at(list: &Vec<usize>, coarse: usize) -> (r: usize)
    ensures
        r == planned_iterations(list@, coarse as nat),
{
    if coarse < list.len() {
        list[coarse]
    } else if list.len() > 0 {
        list[list.len() - 1]
    } else {
        0
    }
}

/// At most `iters` Gauss-Newton iterations on one level.
pub fn refine_level<
    P: Fn(usize, [Binary64; 3]) -> Option<[Binary64; 2]>,
    T: Fn(Binary64) -> (Binary64, Binary64),
>(
    src: &RgbdLevel,
    tgt: &RgbdLevel,
    level: usize,
    start: &Estimate,
    iters: usize,
    criteria: &IcpPlaneCriteria,
    project: &P,
    sin_cos: &T,
) -> (r: Result<Estimate, RgbdIcpError>)
    requires
        takes_points(*project),
        takes_angles(*sin_cos),
        iters > 0 ==> stays_within(*project, level, *tgt),
    ensures
        r matches Err(e) ==> is_step_error(e),
        iters == 0 ==> r == Ok::<Estimate, RgbdIcpError>(*start),
        forall|
            views: spec_fn(usize, [Binary64; 3]) -> Option<[Binary64; 2]>,
            trig: spec_fn(Binary64) -> (Binary64, Binary64),
        | #[trigger] gives_pixels(*project, views) && #[trigger] gives_angles(*sin_cos, trig)
            ==> r == refined(
            *src,
            *tgt,
            *criteria,
            level_view(views, level),
            trig,
            *start,
            iters as nat,
        ),
{
    let mut est: Estimate = *start;
    let mut left: usize = iters;
    while left > 0
        invariant
            takes_points(*project),
            takes_angles(*sin_cos),
            iters > 0 ==> stays_within(*project, level, *tgt),
            iters == 0 ==> left == 0 && est == *start,
            forall|
                views: spec_fn(usize, [Binary64; 3]) -> Option<[Binary64; 2]>,
                trig: spec_fn(Binary64) -> (Binary64, Binary64),
            | #[trigger] gives_pixels(*project, views) && #[trigger] gives_angles(*sin_cos, trig)
                ==> refined(
                *src,
                *tgt,
                *criteria,
                level_view(views, level),
                trig,
                *start,
                iters as nat,
            ) == refined(
                *src,
                *tgt,
                *criteria,
                level_view(views, level),
                trig,
                est,
                left as nat,
            ),
        decreases left,
    {
        let eqs: NormalEquations = accumulate_level(
            src,
            tgt,
            level,
            &est.pose,
            criteria,
            project,
            sin_cos,
        );
        match gauss_newton_step(&eqs, &est, sin_cos) {
            Err(e) => {
                return Err(e);
            },
            Ok((next, length)) => {
                est = next;
                if length.less_than(criteria.update_tolerance) {
                    return Ok(est);
                }
            },
        }
        left = left - 1;
    }
    Ok(est)
}

/// The quotient of two counts; zero where there is nothing to divide by.
fn fraction_of(part: usize, whole: usize) -> (r: Binary64)
    ensures
        r == fraction(part as nat, whole as nat),
{
    if whole > 0 {
        Binary64::of_count(part) / Binary64::of_count(whole)
    } else {
        Binary64::from_bits(0)
    }
}

/// The result that an estimate and the normal equations under its pose stand for.
pub fn evaluate(est: &Estimate, eqs: &NormalEquations) -> (r: IcpPlaneResult)
    ensures
        r == evaluated(*est, *eqs),
{
    let rmse: Binary64 = if eqs.num_inliers > 0 {
        (eqs.sum_sq_residual / Binary64::of_count(eqs.num_inliers)).sqrt()
    } else {
        Binary64::from_bits(INFINITE)
    };
    IcpPlaneResult {
        rotation: est.pose.rotation,
        translation: est.pose.translation,
        rmse,
        inlier_fraction: fraction_of(eqs.num_inliers, eqs.num_associated),
        num_associated: eqs.num_associated,
        overlap_fraction: fraction_of(eqs.num_associated, eqs.num_valid),
        iterations: est.iterations,
        observability: est.observability,
    }
}

/// Projective point-to-plane ICP between two depth frame pyramids.
///
/// # Arguments
///
/// * `source` - Source frame pyramid.
/// * `target` - Target frame pyramid.
/// * `initial_rot` - Rotation of the initial guess, from source to target frame.
/// * `initial_trans` - Translation vector of the initial guess in metres.
/// * `criteria` - Gating, robustness and convergence parameters.
/// * `project` - The pixel coordinates of a point in a level of the target pyramid, or `None`
///   where its camera does not see the point.
/// * `sin_cos` - Sine and cosine of an angle.
///
/// # Errors
///
/// [`RgbdIcpError::SingularNormalEquations`] when the geometry does not constrain all six
/// degrees of freedom; [`RgbdIcpError::TooFewCorrespondences`] when fewer than 6
/// correspondences survive gating (low overlap / bad initial guess);
/// [`RgbdIcpError::InvalidNumLevels`] if either pyramid is empty.
pub fn icp_projective_plane<
    P: Fn(usize, [Binary64; 3]) -> Option<[Binary64; 2]>,
    T: Fn(Binary64) -> (Binary64, Binary64),
>(
    source: &RgbdPyramid,
    target: &RgbdPyramid,
    initial_rot: [[Binary64; 3]; 3],
    initial_trans: [Binary64; 3],
    criteria: IcpPlaneCriteria,
    project: &P,
    sin_cos: &T,
) -> (r: Result<IcpPlaneResult, RgbdIcpError>)
    requires
        takes_points(*project),
        takes_angles(*sin_cos),
        forall|l: int|
            0 <= l < common_levels(*source, *target) && is_read(
                criteria.iters_per_level@,
                common_levels(*source, *target),
                l,
            ) ==> stays_within(
                *project,
                l as usize,
                #[trigger] target.levels[l],
            ),
    ensures
        r == Err::<IcpPlaneResult, RgbdIcpError>(RgbdIcpError::InvalidNumLevels(0))
            <==> common_levels(*source, *target) == 0,
        r matches Err(e) ==> common_levels(*source, *target) == 0 || is_step_error(e),
        common_levels(*source, *target) > 0 && plans_nothing(
            criteria.iters_per_level@,
            common_levels(*source, *target),
        ) ==> {
            &&& r matches Ok(done)
            &&& done.rotation == initial_rot
            &&& done.translation == initial_trans
            &&& done.iterations == 0
            &&& done.observability == fl(0)
        },
        forall|
            views: spec_fn(usize, [Binary64; 3]) -> Option<[Binary64; 2]>,
            trig: spec_fn(Binary64) -> (Binary64, Binary64),
        | #[trigger] gives_pixels(*project, views) && #[trigger] gives_angles(*sin_cos, trig)
            ==> r == registered(
            *source,
            *target,
            initial_estimate(initial_rot, initial_trans),
            criteria,
            views,
            trig,
        ),
{
    let num_levels: usize = if source.levels.len() < target.levels.len() {
        source.levels.len()
    } else {
        target.levels.len()
    };
    if num_levels == 0 {
        return Err(RgbdIcpError::InvalidNumLevels(0));
    }
    let mut est: Estimate = Estimate {
        pose: Pose { rotation: initial_rot, translation: initial_trans },
        iterations: 0,
        observability: Binary64::from_bits(0),
    };
    let ghost start = est;
    // coarse to fine: levels[0] is the finest
    let mut coarse: usize = 0;
    while coarse < num_levels
        invariant
            coarse <= num_levels,
            num_levels == common_levels(*source, *target),
            takes_points(*project),
            takes_angles(*sin_cos),
            forall|l: int|
                0 <= l < num_levels && is_read(
                    criteria.iters_per_level@,
                    num_levels as nat,
                    l,
                ) ==> stays_within(
                    *project,
                    l as usize,
                    #[trigger] target.levels[l],
                ),
            start == initial_estimate(initial_rot, initial_trans),
            num_levels > 0,
            plans_nothing(criteria.iters_per_level@, num_levels as nat) ==> est == start,
            forall|
                views: spec_fn(usize, [Binary64; 3]) -> Option<[Binary64; 2]>,
                trig: spec_fn(Binary64) -> (Binary64, Binary64),
            | #[trigger] gives_pixels(*project, views) && #[trigger] gives_angles(*sin_cos, trig)
                ==> descended(
                *source,
                *target,
                criteria,
                views,
                trig,
                start,
                num_levels as nat,
                0,
            ) == descended(
                *source,
                *target,
                criteria,
                views,
                trig,
                est,
                num_levels as nat,
                coarse as nat,
            ),
        decreases num_levels - coarse,
    {
        let level: usize = num_levels - 1 - coarse;
        let iters: usize = iterations_at(&criteria.iters_per_level, coarse);
        assert(iters > 0 ==> stays_within(*project, level, target.levels[level as int]));
        match refine_level(
            &source.levels[level],
            &target.levels[level],
            level,
            &est,
            iters,
            &criteria,
            project,
            sin_cos,
        ) {
            Err(e) => {
                return Err(e);
            },
            Ok(next) => {
                est = next;
            },
        }
        coarse = coarse + 1;
    }
    // final metrics: one association pass at the finest level under the final pose
    assert(stays_within(*project, 0, target.levels[0]));
    let eqs: NormalEquations = accumulate_level(
        &source.levels[0],
        &target.levels[0],
        0,
        &est.pose,
        &criteria,
        project,
        sin_cos,
    );
    Ok(evaluate(&est, &eqs))
}

} // verus!
