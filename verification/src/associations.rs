//! What an association pass does with each pixel, and what it counts and adds up.
use crate::binary64::Binary64;
use crate::errors::value;
use crate::exactness::is_finite;
use crate::icp::{
    associated_count, gated, inliers, lemma_counts_nested, outcome, pass, transformed, valid_count,
    widened, Gate, Pose,
};
use crate::numbers::{law_widening_keeps_value, magnitude32, value32};
use crate::pixels::{falls_on, law_found_pixel_is_nearest, law_projection_falls_on_nearest_pixel};
use crate::rgbd::RgbdLevel;
use vstd::prelude::*;

verus! {

// ---------------------------------------------------------------------------
// One pixel
// ---------------------------------------------------------------------------

/// Whether a pixel of a level has a valid vertex and a valid normal.
pub open spec fn is_measured(level: RgbdLevel, i: int) -> bool {
    level.vertices[i].valid && level.normals[i].valid
}

/// Whether the coordinates `uv` fall on a column and a row of a grid.
pub open spec fn falls_within(uv: [Binary64; 2], width: nat, height: nat) -> bool {
    exists|column: nat, row: nat|
        column < width && row < height && #[trigger] falls_on(uv[0], column as int)
            && #[trigger] falls_on(uv[1], row as int)
}

/// Map entries keep their values in double precision.
pub proof fn law_entries_keep_their_values(level: RgbdLevel, i: int, k: int)
    requires
        0 <= k < 3,
    ensures
        magnitude32(level.vertices[i].xyz[k]) < 0x7f80_0000 ==> is_finite(
            widened(level.vertices[i].xyz)[k],
        ) && value(widened(level.vertices[i].xyz)[k]) == value32(level.vertices[i].xyz[k]),
        magnitude32(level.normals[i].xyz[k]) < 0x7f80_0000 ==> is_finite(
            widened(level.normals[i].xyz)[k],
        ) && value(widened(level.normals[i].xyz)[k]) == value32(level.normals[i].xyz[k]),
{
    law_widening_keeps_value(level.vertices[i].xyz[k]);
    law_widening_keeps_value(level.normals[i].xyz[k]);
}

/// What becomes of a source pixel: it is invalid exactly where it has not been measured. Where it
/// has been, its vertex is moved by the pose, and the pixel stays unassociated where the camera
/// does not see it there or sees it outside of the grid. Elsewhere it meets the target pixel in the
/// nearest column and row, and stays unassociated exactly where that has not been measured;
/// otherwise the moved vertex and the normal of the source are held against those of the target.
pub proof fn law_pixel_meets_nearest_target(
    src: RgbdLevel,
    tgt: RgbdLevel,
    pose: Pose,
    gate: Gate,
    view: spec_fn([Binary64; 3]) -> Option<[Binary64; 2]>,
    i: int,
)
    requires
        0 < tgt.width <= 0x0020_0000_0000_0000,
        0 < tgt.height <= 0x0020_0000_0000_0000,
    ensures
        ({
            let met = outcome(src, tgt, pose, gate, view, i);
            let p = transformed(pose, widened(src.vertices[i].xyz));
            &&& met is Invalid <==> !is_measured(src, i)
            &&& is_measured(src, i) && view(p) is None ==> met is Unassociated
            &&& is_measured(src, i) ==> (view(p) matches Some(uv) ==> {
                &&& !falls_within(uv, tgt.width as nat, tgt.height as nat) ==> met is Unassociated
                &&& forall|column: nat, row: nat|
                    column < tgt.width && row < tgt.height && #[trigger] falls_on(
                        uv[0],
                        column as int,
                    ) && #[trigger] falls_on(uv[1], row as int) ==> {
                        let t = row * tgt.width + column;
                        &&& !is_measured(tgt, t as int) ==> met is Unassociated
                        &&& is_measured(tgt, t as int) ==> met == gated(
                            p,
                            widened(src.normals[i].xyz),
                            widened(tgt.vertices[t as int].xyz),
                            widened(tgt.normals[t as int].xyz),
                            pose.rotation,
                            gate,
                        )
                    }
            })
        }),
{
    let p = transformed(pose, widened(src.vertices[i].xyz));
    if let Some(uv) = view(p) {
        let (width, height) = (tgt.width as nat, tgt.height as nat);
        law_found_pixel_is_nearest(uv, width, height);
        assert forall|column: nat, row: nat|
            column < tgt.width && row < tgt.height && #[trigger] falls_on(uv[0], column as int)
                && #[trigger] falls_on(uv[1], row as int) implies {
            let t = row * tgt.width + column;
            let met = outcome(src, tgt, pose, gate, view, i);
            &&& is_measured(src, i) && !is_measured(tgt, t as int) ==> met is Unassociated
            &&& is_measured(src, i) && is_measured(tgt, t as int) ==> met == gated(
                p,
                widened(src.normals[i].xyz),
                widened(tgt.vertices[t as int].xyz),
                widened(tgt.normals[t as int].xyz),
                pose.rotation,
                gate,
            )
        } by {
            law_projection_falls_on_nearest_pixel(uv, width, height, column, row);
        }
    }
}

// ---------------------------------------------------------------------------
// Counts
// ---------------------------------------------------------------------------

/// The pixels for which a level has both a vertex and a normal.
pub open spec fn is_pixel(level: RgbdLevel, i: int) -> bool {
    0 <= i < level.vertices.len() && i < level.normals.len()
}

/// The numbers below `n` that have a property.
spec fn those(f: spec_fn(int) -> bool, n: nat) -> Set<int> {
    Set::new(|i: int| 0 <= i < n && f(i))
}

proof fn lemma_those_counted(f: spec_fn(int) -> bool, n: nat)
    ensures
        those(f, 0).finite() && those(f, 0).len() == 0,
        those(f, n).finite(),
        those(f, n + 1).finite(),
        those(f, n + 1).len() == those(f, n).len() + if f(n as int) {
            1nat
        } else {
            0
        },
    decreases n,
{
    assert(those(f, 0) =~= Set::empty());
    if n > 0 {
        lemma_those_counted(f, (n - 1) as nat);
    }
    if f(n as int) {
        assert(those(f, n + 1) =~= those(f, n).insert(n as int));
    } else {
        assert(those(f, n + 1) =~= those(f, n));
    }
}

proof fn lemma_valid_counted(src: RgbdLevel, n: nat)
    ensures
        valid_count(src, n) == those(|i: int| is_measured(src, i), n).len(),
    decreases n,
{
    let f = |i: int| is_measured(src, i);
    if n > 0 {
        lemma_valid_counted(src, (n - 1) as nat);
        lemma_those_counted(f, (n - 1) as nat);
    } else {
        lemma_those_counted(f, 0);
    }
}

proof fn lemma_outcomes_counted(
    src: RgbdLevel,
    tgt: RgbdLevel,
    pose: Pose,
    gate: Gate,
    view: spec_fn([Binary64; 3]) -> Option<[Binary64; 2]>,
    n: nat,
)
    ensures
        associated_count(src, tgt, pose, gate, view, n) == those(
            |i: int|
                outcome(src, tgt, pose, gate, view, i) is Rejected || outcome(
                    src,
                    tgt,
                    pose,
                    gate,
                    view,
                    i,
                ) is Inlier,
            n,
        ).len(),
        inliers(src, tgt, pose, gate, view, n).len() == those(
            |i: int| outcome(src, tgt, pose, gate, view, i) is Inlier,
            n,
        ).len(),
    decreases n,
{
    let f = |i: int|
        outcome(src, tgt, pose, gate, view, i) is Rejected || outcome(
            src,
            tgt,
            pose,
            gate,
            view,
            i,
        ) is Inlier;
    let g = |i: int| outcome(src, tgt, pose, gate, view, i) is Inlier;
    if n > 0 {
        lemma_outcomes_counted(src, tgt, pose, gate, view, (n - 1) as nat);
        lemma_those_counted(f, (n - 1) as nat);
        lemma_those_counted(g, (n - 1) as nat);
    } else {
        lemma_those_counted(f, 0);
        lemma_those_counted(g, 0);
    }
}

/// A pass counts its pixels: the valid ones are those that have been measured, the associated ones
/// those that were rejected or kept, and the inliers those that were kept, each counted once.
pub proof fn law_pass_counts_pixels(
    src: RgbdLevel,
    tgt: RgbdLevel,
    pose: Pose,
    gate: Gate,
    view: spec_fn([Binary64; 3]) -> Option<[Binary64; 2]>,
)
    ensures
        ({
            let eqs = pass(src, tgt, pose, gate, view);
            let valid = Set::new(|i: int| is_pixel(src, i) && is_measured(src, i));
            let kept = Set::new(
                |i: int| is_pixel(src, i) && outcome(src, tgt, pose, gate, view, i) is Inlier,
            );
            let associated = Set::new(
                |i: int|
                    is_pixel(src, i) && (outcome(src, tgt, pose, gate, view, i) is Rejected
                        || outcome(src, tgt, pose, gate, view, i) is Inlier),
            );
            &&& valid.finite() && eqs.num_valid == valid.len()
            &&& associated.finite() && eqs.num_associated == associated.len()
            &&& kept.finite() && eqs.num_inliers == kept.len()
        }),
{
    let n = src.num_pixels();
    lemma_counts_nested(src, tgt, pose, gate, view, n);
    lemma_valid_counted(src, n);
    lemma_outcomes_counted(src, tgt, pose, gate, view, n);
    let f = |i: int| is_measured(src, i);
    let g = |i: int|
        outcome(src, tgt, pose, gate, view, i) is Rejected || outcome(
            src,
            tgt,
            pose,
            gate,
            view,
            i,
        ) is Inlier;
    let h = |i: int| outcome(src, tgt, pose, gate, view, i) is Inlier;
    lemma_those_counted(f, n);
    lemma_those_counted(g, n);
    lemma_those_counted(h, n);
    assert(Set::new(|i: int| is_pixel(src, i) && is_measured(src, i)) =~= those(f, n));
    assert(Set::new(
        |i: int|
            is_pixel(src, i) && (outcome(src, tgt, pose, gate, view, i) is Rejected || outcome(
                src,
                tgt,
                pose,
                gate,
                view,
                i,
            ) is Inlier),
    ) =~= those(g, n));
    assert(Set::new(
        |i: int| is_pixel(src, i) && outcome(src, tgt, pose, gate, view, i) is Inlier,
    ) =~= those(h, n));
}

} // verus!
