//! What holds of a registration over its levels: how often it iterates, and that it is made of
//! the registrations of its parts.
use crate::binary64::{fl_lt, Binary64};
use crate::exactness::is_finite;
use crate::icp::{
    common_levels, descended, initial_estimate, level_view, pass, planned_iterations, refined,
    registered, stepped, twist_norm, Estimate, IcpPlaneCriteria, IcpPlaneResult,
};
use crate::laws::{lemma_twist_norm_not_negative, level_pass, run_gate, total_planned};
use crate::linear::{fl, guarded_solution};
use crate::rgbd::{RgbdIcpError, RgbdLevel, RgbdPyramid};
use crate::rounding::INFINITE;
use vstd::prelude::*;

verus! {

/// A count as a machine word holds it: saturated at the largest one.
pub open spec fn held(count: nat) -> nat {
    if count > usize::MAX {
        usize::MAX as nat
    } else {
        count
    }
}

/// The number of levels from `coarse` on, counted from the coarsest, with planned iterations.
pub open spec fn working_levels(list: Seq<usize>, num_levels: nat, coarse: nat) -> nat
    decreases num_levels - coarse,
{
    if coarse >= num_levels {
        0
    } else {
        working_levels(list, num_levels, coarse + 1) + if planned_iterations(list, coarse) > 0 {
            1nat
        } else {
            0
        }
    }
}

/// Whether the steps that a refinement takes have updates of finite length.
pub open spec fn refines_finitely(
    src: RgbdLevel,
    tgt: RgbdLevel,
    criteria: IcpPlaneCriteria,
    view: spec_fn([Binary64; 3]) -> Option<[Binary64; 2]>,
    trig: spec_fn(Binary64) -> (Binary64, Binary64),
    est: Estimate,
    iters: nat,
) -> bool
    decreases iters,
{
    iters > 0 ==> (stepped(pass(src, tgt, est.pose, run_gate(criteria, trig), view), est, trig)
        matches Ok((next, length)) ==> is_finite(length) && (fl_lt(
        length,
        criteria.update_tolerance,
    ) || refines_finitely(src, tgt, criteria, view, trig, next, (iters - 1) as nat)))
}

/// Whether the steps that a registration takes on the levels from `coarse` on, counted from the
/// coarsest, have updates of finite length.
pub open spec fn descends_finitely(
    source: RgbdPyramid,
    target: RgbdPyramid,
    criteria: IcpPlaneCriteria,
    views: spec_fn(usize, [Binary64; 3]) -> Option<[Binary64; 2]>,
    trig: spec_fn(Binary64) -> (Binary64, Binary64),
    est: Estimate,
    num_levels: nat,
    coarse: nat,
) -> bool
    decreases num_levels - coarse,
{
    coarse < num_levels ==> {
        let level = num_levels - 1 - coarse;
        let (src, tgt) = (source.levels[level], target.levels[level]);
        let view = level_view(views, level as usize);
        let iters = planned_iterations(criteria.iters_per_level@, coarse);
        &&& refines_finitely(src, tgt, criteria, view, trig, est, iters)
        &&& refined(src, tgt, criteria, view, trig, est, iters) matches Ok(next)
            ==> descends_finitely(
            source,
            target,
            criteria,
            views,
            trig,
            next,
            num_levels,
            coarse + 1,
        )
    }
}

/// A registration that succeeds has iterated at least once on each level with planned
/// iterations and at most as often as planned; exactly as often where the tolerance is not
/// above zero; and exactly once on each such level where the tolerance is infinite and the
/// updates that the run makes are finite.
pub proof fn law_iterations_counted(
    source: RgbdPyramid,
    target: RgbdPyramid,
    rotation: [[Binary64; 3]; 3],
    translation: [Binary64; 3],
    criteria: IcpPlaneCriteria,
    views: spec_fn(usize, [Binary64; 3]) -> Option<[Binary64; 2]>,
    trig: spec_fn(Binary64) -> (Binary64, Binary64),
)
    ensures
        registered(
            source,
            target,
            initial_estimate(rotation, translation),
            criteria,
            views,
            trig,
        ) matches Ok(r) ==> {
            let n = common_levels(source, target);
            let planned = total_planned(criteria.iters_per_level@, n, 0);
            let working = working_levels(criteria.iters_per_level@, n, 0);
            &&& working <= r.iterations <= planned
            &&& !fl_lt(fl(0), criteria.update_tolerance) ==> r.iterations == held(planned)
            &&& criteria.update_tolerance == fl(INFINITE) && descends_finitely(
                source,
                target,
                criteria,
                views,
                trig,
                initial_estimate(rotation, translation),
                n,
                0,
            ) ==> r.iterations == working
        },
{
    let n = common_levels(source, target);
    if n > 0 {
        let start = initial_estimate(rotation, translation);
        lemma_descent_counted(source, target, criteria, views, trig, start, n, 0);
        lemma_working_levels_few(criteria.iters_per_level@, n, 0);
    }
}

proof fn lemma_working_levels_few(list: Seq<usize>, num_levels: nat, coarse: nat)
    requires
        coarse <= num_levels,
    ensures
        working_levels(list, num_levels, coarse) <= num_levels - coarse,
    decreases num_levels - coarse,
{
    if coarse < num_levels {
        lemma_working_levels_few(list, num_levels, coarse + 1);
    }
}

proof fn lemma_refinement_counted(
    source: RgbdPyramid,
    target: RgbdPyramid,
    criteria: IcpPlaneCriteria,
    views: spec_fn(usize, [Binary64; 3]) -> Option<[Binary64; 2]>,
    trig: spec_fn(Binary64) -> (Binary64, Binary64),
    level: int,
    est: Estimate,
    iters: nat,
)
    requires
        0 <= level < common_levels(source, target),
    ensures
        refined(
            source.levels[level],
            target.levels[level],
            criteria,
            level_view(views, level as usize),
            trig,
            est,
            iters,
        ) matches Ok(to) ==> {
            &&& est.iterations <= to.iterations <= est.iterations + iters
            &&& iters > 0 ==> to.iterations >= held(est.iterations as nat + 1)
            &&& !fl_lt(fl(0), criteria.update_tolerance) ==> to.iterations == held(
                est.iterations as nat + iters,
            )
            &&& iters > 0 && criteria.update_tolerance == fl(INFINITE) && refines_finitely(
                source.levels[level],
                target.levels[level],
                criteria,
                level_view(views, level as usize),
                trig,
                est,
                iters,
            ) ==> to.iterations == held(est.iterations as nat + 1)
        },
    decreases iters,
{
    if iters > 0 {
        let eqs = level_pass(source, target, criteria, views, trig, level, est.pose);
        if let Ok((next, length)) = stepped(eqs, est, trig) {
            assert(!fl_lt(fl(0), criteria.update_tolerance) ==> !fl_lt(
                length,
                criteria.update_tolerance,
            )) by {
                let (x, weakest) = guarded_solution(eqs.a, crate::icp::negated6(eqs.b)).unwrap();
                assert(length == twist_norm(x));
                lemma_twist_norm_not_negative(x);
                reveal(fl_lt);
            }
            assert(is_finite(length) && criteria.update_tolerance == fl(INFINITE) ==> fl_lt(
                length,
                criteria.update_tolerance,
            )) by {
                reveal(fl_lt);
            }
            lemma_refinement_counted(
                source,
                target,
                criteria,
                views,
                trig,
                level,
                next,
                (iters - 1) as nat,
            );
        }
    }
}

proof fn lemma_descent_counted(
    source: RgbdPyramid,
    target: RgbdPyramid,
    criteria: IcpPlaneCriteria,
    views: spec_fn(usize, [Binary64; 3]) -> Option<[Binary64; 2]>,
    trig: spec_fn(Binary64) -> (Binary64, Binary64),
    est: Estimate,
    n: nat,
    coarse: nat,
)
    requires
        n == common_levels(source, target),
    ensures
        descended(source, target, criteria, views, trig, est, n, coarse) matches Ok(to) ==> {
            let planned = total_planned(criteria.iters_per_level@, n, coarse);
            let working = working_levels(criteria.iters_per_level@, n, coarse);
            &&& held(est.iterations as nat + working) <= to.iterations <= est.iterations + planned
            &&& !fl_lt(fl(0), criteria.update_tolerance) ==> to.iterations == held(
                est.iterations as nat + planned,
            )
            &&& criteria.update_tolerance == fl(INFINITE) && descends_finitely(
                source,
                target,
                criteria,
                views,
                trig,
                est,
                n,
                coarse,
            ) ==> to.iterations == held(est.iterations as nat + working)
        },
    decreases n - coarse,
{
    if coarse < n {
        let level = n - 1 - coarse;
        let iters = planned_iterations(criteria.iters_per_level@, coarse);
        lemma_refinement_counted(source, target, criteria, views, trig, level, est, iters);
        if let Ok(next) = refined(
            source.levels[level],
            target.levels[level],
            criteria,
            level_view(views, level as usize),
            trig,
            est,
            iters,
        ) {
            lemma_descent_counted(source, target, criteria, views, trig, next, n, coarse + 1);
        }
    }
}

// ---------------------------------------------------------------------------
// Coarse to fine
// ---------------------------------------------------------------------------

/// Whether two criteria differ in their schedules at most.
pub open spec fn same_limits(a: IcpPlaneCriteria, b: IcpPlaneCriteria) -> bool {
    &&& a.update_tolerance == b.update_tolerance
    &&& a.max_dist_m == b.max_dist_m
    &&& a.max_normal_angle_rad == b.max_normal_angle_rad
    &&& a.huber_delta_m == b.huber_delta_m
}

/// The projections into the levels of a pyramid without its finest one.
pub open spec fn coarser_views(
    views: spec_fn(usize, [Binary64; 3]) -> Option<[Binary64; 2]>,
) -> spec_fn(usize, [Binary64; 3]) -> Option<[Binary64; 2]> {
    |level: usize, p: [Binary64; 3]| views((level + 1) as usize, p)
}

/// Whether two frames, with a schedule entry for each level, are split into their coarser levels
/// and their finest one.
pub open spec fn is_split(
    whole: (RgbdPyramid, RgbdPyramid, IcpPlaneCriteria),
    coarser: (RgbdPyramid, RgbdPyramid, IcpPlaneCriteria),
    finest: (RgbdPyramid, RgbdPyramid, IcpPlaneCriteria),
) -> bool {
    let n = whole.0.levels.len() as int;
    let list = whole.2.iters_per_level@;
    &&& n >= 2
    &&& whole.1.levels.len() == n
    &&& list.len() == n
    &&& coarser.0.levels@ == whole.0.levels@.skip(1)
    &&& coarser.1.levels@ == whole.1.levels@.skip(1)
    &&& coarser.2.iters_per_level@ == list.take(n - 1)
    &&& same_limits(coarser.2, whole.2)
    &&& finest.0.levels@ == whole.0.levels@.take(1)
    &&& finest.1.levels@ == whole.1.levels@.take(1)
    &&& finest.2.iters_per_level@ == list.skip(n - 1)
    &&& same_limits(finest.2, whole.2)
}

/// A registration runs coarse to fine: it is the registration of the coarser levels followed by
/// that of the finest level from the pose found there. The measures are those of the second, the
/// iterations add up, and the observability is that of the last solve. Where one of the two is
/// refused, so is the whole.
pub proof fn law_coarse_to_fine(
    whole: (RgbdPyramid, RgbdPyramid, IcpPlaneCriteria),
    coarser: (RgbdPyramid, RgbdPyramid, IcpPlaneCriteria),
    finest: (RgbdPyramid, RgbdPyramid, IcpPlaneCriteria),
    rotation: [[Binary64; 3]; 3],
    translation: [Binary64; 3],
    views: spec_fn(usize, [Binary64; 3]) -> Option<[Binary64; 2]>,
    trig: spec_fn(Binary64) -> (Binary64, Binary64),
)
    requires
        is_split(whole, coarser, finest),
    ensures
        ({
            let start = initial_estimate(rotation, translation);
            let all = registered(whole.0, whole.1, start, whole.2, views, trig);
            match registered(coarser.0, coarser.1, start, coarser.2, coarser_views(views), trig) {
                Err(e) => all == Err::<IcpPlaneResult, RgbdIcpError>(e),
                Ok(r1) => match registered(
                    finest.0,
                    finest.1,
                    initial_estimate(r1.rotation, r1.translation),
                    finest.2,
                    views,
                    trig,
                ) {
                    Err(e) => all == Err::<IcpPlaneResult, RgbdIcpError>(e),
                    Ok(r2) => all matches Ok(r) && {
                        &&& r.rotation == r2.rotation
                        &&& r.translation == r2.translation
                        &&& r.rmse == r2.rmse
                        &&& r.inlier_fraction == r2.inlier_fraction
                        &&& r.num_associated == r2.num_associated
                        &&& r.overlap_fraction == r2.overlap_fraction
                        &&& r.iterations == held(r1.iterations as nat + r2.iterations as nat)
                        &&& r.observability == if r2.iterations > 0 {
                            r2.observability
                        } else {
                            r1.observability
                        }
                    },
                },
            }
        }),
{
    let start = initial_estimate(rotation, translation);
    let n = whole.0.levels.len() as nat;
    lemma_descent_split(whole, coarser, finest, views, trig, start, 0);
    let views1 = coarser_views(views);
    let m = (n - 1) as nat;
    if let Ok(mid) = descended(coarser.0, coarser.1, coarser.2, views1, trig, start, m, 0) {
        let fresh = initial_estimate(mid.pose.rotation, mid.pose.translation);
        let list = whole.2.iters_per_level@;
        let iters = planned_iterations(list, m);
        let src = whole.0.levels[0];
        let tgt = whole.1.levels[0];
        let view = level_view(views, 0);
        assert(finest.0.levels[0] == src && finest.1.levels[0] == tgt);
        assert(planned_iterations(finest.2.iters_per_level@, 0) == iters);
        lemma_refinement_ignores_schedule(src, tgt, whole.2, finest.2, view, trig, fresh, iters);
        lemma_refinement_ignores_history(src, tgt, whole.2, view, trig, mid, fresh, iters);
        let late = refined(src, tgt, whole.2, view, trig, mid, iters);
        let alone = refined(src, tgt, whole.2, view, trig, fresh, iters);
        assert(descended(finest.0, finest.1, finest.2, views, trig, fresh, 1, 0) == alone) by {
            reveal_with_fuel(descended, 2);
        }
        assert(descended(whole.0, whole.1, whole.2, views, trig, mid, n, m) == late) by {
            reveal_with_fuel(descended, 2);
        }
        assert(common_levels(finest.0, finest.1) == 1);
        assert(common_levels(coarser.0, coarser.1) == m);
    }
}

proof fn lemma_refinement_ignores_schedule(
    src: RgbdLevel,
    tgt: RgbdLevel,
    a: IcpPlaneCriteria,
    b: IcpPlaneCriteria,
    view: spec_fn([Binary64; 3]) -> Option<[Binary64; 2]>,
    trig: spec_fn(Binary64) -> (Binary64, Binary64),
    est: Estimate,
    iters: nat,
)
    requires
        same_limits(b, a),
    ensures
        refined(src, tgt, a, view, trig, est, iters) == refined(
            src,
            tgt,
            b,
            view,
            trig,
            est,
            iters,
        ),
    decreases iters,
{
    if iters > 0 {
        assert(run_gate(a, trig) == run_gate(b, trig));
        let eqs = pass(src, tgt, est.pose, run_gate(a, trig), view);
        if let Ok((next, length)) = stepped(eqs, est, trig) {
            lemma_refinement_ignores_schedule(
                src,
                tgt,
                a,
                b,
                view,
                trig,
                next,
                (iters - 1) as nat,
            );
        }
    }
}

/// A refinement goes on from a pose whatever was done before: only the counter and the last
/// pivot carry over.
proof fn lemma_refinement_ignores_history(
    src: RgbdLevel,
    tgt: RgbdLevel,
    criteria: IcpPlaneCriteria,
    view: spec_fn([Binary64; 3]) -> Option<[Binary64; 2]>,
    trig: spec_fn(Binary64) -> (Binary64, Binary64),
    late: Estimate,
    fresh: Estimate,
    iters: nat,
)
    requires
        late.pose == fresh.pose,
        fresh.iterations + iters <= usize::MAX,
    ensures
        match (
            refined(src, tgt, criteria, view, trig, late, iters),
            refined(src, tgt, criteria, view, trig, fresh, iters),
        ) {
            (Ok(a), Ok(b)) => {
                &&& a.pose == b.pose
                &&& b.iterations >= fresh.iterations
                &&& b.iterations == fresh.iterations ==> b.observability == fresh.observability
                &&& a.iterations == held(
                    (late.iterations + (b.iterations - fresh.iterations)) as nat,
                )
                &&& a.observability == if b.iterations > fresh.iterations {
                    b.observability
                } else {
                    late.observability
                }
            },
            (Err(a), Err(b)) => a == b,
            _ => false,
        },
    decreases iters,
{
    if iters > 0 {
        let eqs = pass(src, tgt, late.pose, run_gate(criteria, trig), view);
        if let (Ok((a, l)), Ok((b, m))) = (stepped(eqs, late, trig), stepped(eqs, fresh, trig)) {
            lemma_refinement_ignores_history(
                src,
                tgt,
                criteria,
                view,
                trig,
                a,
                b,
                (iters - 1) as nat,
            );
        }
    }
}

proof fn lemma_descent_split(
    whole: (RgbdPyramid, RgbdPyramid, IcpPlaneCriteria),
    coarser: (RgbdPyramid, RgbdPyramid, IcpPlaneCriteria),
    finest: (RgbdPyramid, RgbdPyramid, IcpPlaneCriteria),
    views: spec_fn(usize, [Binary64; 3]) -> Option<[Binary64; 2]>,
    trig: spec_fn(Binary64) -> (Binary64, Binary64),
    est: Estimate,
    coarse: nat,
)
    requires
        is_split(whole, coarser, finest),
        coarse <= whole.0.levels.len() - 1,
    ensures
        ({
            let n = whole.0.levels.len() as nat;
            let m = (n - 1) as nat;
            let all = descended(whole.0, whole.1, whole.2, views, trig, est, n, coarse);
            match descended(
                coarser.0,
                coarser.1,
                coarser.2,
                coarser_views(views),
                trig,
                est,
                m,
                coarse,
            ) {
                Err(e) => all == Err::<Estimate, RgbdIcpError>(e),
                Ok(mid) => all == descended(
                    whole.0,
                    whole.1,
                    whole.2,
                    views,
                    trig,
                    mid,
                    n,
                    m,
                ),
            }
        }),
    decreases whole.0.levels.len() - coarse,
{
    let n = whole.0.levels.len() as nat;
    if coarse < n - 1 {
        let level = n - 1 - coarse;
        let src = whole.0.levels[level];
        let tgt = whole.1.levels[level];
        assert(coarser.0.levels[level - 1] == src);
        assert(coarser.1.levels[level - 1] == tgt);
        let list = whole.2.iters_per_level@;
        let iters = planned_iterations(list, coarse);
        assert(planned_iterations(coarser.2.iters_per_level@, coarse) == iters);
        let view = level_view(views, level as usize);
        assert(level_view(coarser_views(views), (level - 1) as usize) =~= view);
        lemma_refinement_ignores_schedule(src, tgt, whole.2, coarser.2, view, trig, est, iters);
        if let Ok(next) = refined(src, tgt, whole.2, view, trig, est, iters) {
            lemma_descent_split(whole, coarser, finest, views, trig, next, coarse + 1);
        }
    }
}

} // verus!
