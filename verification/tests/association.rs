//! Association, gating, steps and the schedule on small frames.
use rgbd_icp::binary64::{Binary32, Binary64};
use rgbd_icp::icp::{
    accumulate_level, evaluate, gate_from, gate_pair, gauss_newton_step, icp_projective_plane,
    iterations_at, match_pixel, nearest_pixel, refine_level, transform_point, Correspondence,
    Estimate, Gate, IcpPlaneCriteria, IcpPlaneResult, NormalEquations, PixelOutcome, Pose,
};
use rgbd_icp::rgbd::{MapEntry, RgbdIcpError, RgbdLevel, RgbdPyramid};
use std::f64::consts::PI;

const IDENTITY: [[f64; 3]; 3] = [[1.0, 0.0, 0.0], [0.0, 1.0, 0.0], [0.0, 0.0, 1.0]];

fn b64(x: f64) -> Binary64 {
    Binary64::from_bits(x.to_bits())
}

fn f(x: Binary64) -> f64 {
    f64::from_bits(x.bits)
}

fn b3(v: [f64; 3]) -> [Binary64; 3] {
    v.map(b64)
}

fn pose(rotation: [[f64; 3]; 3], translation: [f64; 3]) -> Pose {
    Pose { rotation: rotation.map(b3), translation: b3(translation) }
}

fn start(translation: [f64; 3]) -> Estimate {
    Estimate { pose: pose(IDENTITY, translation), iterations: 0, observability: b64(0.0) }
}

fn sin_cos(x: Binary64) -> (Binary64, Binary64) {
    (b64(f(x).sin()), b64(f(x).cos()))
}

fn entry(xyz: [f64; 3], valid: bool) -> MapEntry {
    MapEntry { xyz: xyz.map(|x| Binary32::from_bits((x as f32).to_bits())), valid }
}

/// A camera that looks along the third axis and sees a unit step at unit depth as ten pixels.
fn project(_level: usize, p: [Binary64; 3]) -> Option<[Binary64; 2]> {
    let [x, y, z] = p.map(f);
    if z > 0.0 {
        Some([b64(10.0 * x / z + 4.0), b64(10.0 * y / z + 4.0)])
    } else {
        None
    }
}

/// A nine by nine frame of a curved surface that pins every direction.
fn bowl() -> RgbdLevel {
    let mut level = RgbdLevel { vertices: vec![], normals: vec![], width: 9, height: 9 };
    for v in 0..9 {
        for u in 0..9 {
            let (a, b) = ((u as f64 - 4.0) / 10.0, (v as f64 - 4.0) / 10.0);
            let z = 1.0 + 0.3 * a + 0.2 * a * b + 0.4 * a * a - 0.5 * b * b * b;
            let n: [f64; 3] = [0.4 * a + 0.3 * b * b, 0.7 * b - 0.5 * a, -1.0];
            let len = (n[0] * n[0] + n[1] * n[1] + n[2] * n[2]).sqrt();
            level.vertices.push(entry([a * z, b * z, z], true));
            level.normals.push(entry(n.map(|x| x / len), true));
        }
    }
    level
}

/// A nine by nine frame of a wall across the optical axis.
fn wall() -> RgbdLevel {
    let mut level = RgbdLevel { vertices: vec![], normals: vec![], width: 9, height: 9 };
    for v in 0..9 {
        for u in 0..9 {
            let (a, b) = ((u as f64 - 4.0) / 10.0, (v as f64 - 4.0) / 10.0);
            level.vertices.push(entry([a, b, 1.0], true));
            level.normals.push(entry([0.0, 0.0, -1.0], true));
        }
    }
    level
}

fn pyramid(levels: Vec<RgbdLevel>) -> RgbdPyramid {
    RgbdPyramid { levels }
}

fn criteria(iters_per_level: Vec<usize>, update_tolerance: f64) -> IcpPlaneCriteria {
    IcpPlaneCriteria {
        iters_per_level,
        update_tolerance: b64(update_tolerance),
        ..IcpPlaneCriteria::default()
    }
}

fn register(
    source: &RgbdPyramid,
    target: &RgbdPyramid,
    translation: [f64; 3],
    criteria: IcpPlaneCriteria,
) -> Result<IcpPlaneResult, RgbdIcpError> {
    icp_projective_plane(
        source,
        target,
        IDENTITY.map(b3),
        b3(translation),
        criteria,
        &project,
        &sin_cos,
    )
}

#[test]
fn default_criteria_hold_the_documented_values() {
    let c = IcpPlaneCriteria::default();
    assert_eq!(c.iters_per_level, vec![10, 7, 5]);
    assert_eq!(c.update_tolerance.bits, 1e-6f64.to_bits());
    assert_eq!(c.max_dist_m.bits, 0.10f64.to_bits());
    assert_eq!(c.max_normal_angle_rad.bits, 30.0f64.to_radians().to_bits());
    assert_eq!(c.huber_delta_m.bits, 0.02f64.to_bits());
}

// ---------------------------------------------------------------------------
// Pixels
// ---------------------------------------------------------------------------

#[test]
fn nearest_pixel_rounds_halves_away_from_zero() {
    let at = |u: f64, v: f64| nearest_pixel(&[b64(u), b64(v)], 4, 3);
    assert_eq!(at(0.0, 0.0), Some(0));
    assert_eq!(at(0.49, 0.0), Some(0));
    assert_eq!(at(0.5, 0.0), Some(1));
    assert_eq!(at(1.5, 1.5), Some(2 * 4 + 2));
    assert_eq!(at(3.0, 2.0), Some(11));
    assert_eq!(at(3.49, 2.49), Some(11));
}

#[test]
fn nearest_pixel_outside_the_grid_is_none() {
    let at = |u: f64, v: f64| nearest_pixel(&[b64(u), b64(v)], 4, 3);
    assert_eq!(at(3.5, 0.0), None);
    assert_eq!(at(0.0, 2.5), None);
    assert_eq!(at(-0.5, 0.0), None);
    assert_eq!(at(0.0, -0.5), None);
    assert_eq!(at(f64::INFINITY, 0.0), None);
    assert_eq!(at(0.0, f64::NEG_INFINITY), None);
    assert_eq!(at(1e300, 1e300), None);
    // a grid without pixels is asked only about what lies before it
    assert_eq!(nearest_pixel(&[b64(-1.0), b64(0.0)], 0, 0), None);
    // a grid without rows is asked only about what lies beside it
    assert_eq!(nearest_pixel(&[b64(5.0), b64(0.0)], 3, 0), None);
}

#[test]
fn slightly_negative_coordinates_fall_on_the_first_pixel() {
    let at = |u: f64, v: f64| nearest_pixel(&[b64(u), b64(v)], 4, 3);
    assert_eq!(at(-0.4, -0.0), Some(0));
    assert_eq!(at(-0.49999999999999994, 1.0), Some(4));
}

#[test]
fn coordinates_that_are_not_numbers_fall_on_index_zero() {
    let at = |u: f64, v: f64| nearest_pixel(&[b64(u), b64(v)], 4, 3);
    assert_eq!(at(f64::NAN, 2.0), Some(8));
    assert_eq!(at(2.0, f64::NAN), Some(2));
}

#[test]
fn transform_rotates_and_then_translates() {
    let turn = [[0.0, -1.0, 0.0], [1.0, 0.0, 0.0], [0.0, 0.0, 1.0]];
    let p = transform_point(&pose(turn, [10.0, 20.0, 30.0]), &b3([1.0, 2.0, 3.0]));
    assert_eq!(p.map(f), [8.0, 21.0, 33.0]);
}

// ---------------------------------------------------------------------------
// Gates
// ---------------------------------------------------------------------------

fn gate() -> Gate {
    Gate { max_dist_sq: b64(0.25), cos_max_angle: b64(0.5), huber_delta: b64(0.125) }
}

fn pair(p: [f64; 3], n_s: [f64; 3], v_t: [f64; 3], n_t: [f64; 3]) -> PixelOutcome {
    gate_pair(&b3(p), &b3(n_s), &b3(v_t), &b3(n_t), &IDENTITY.map(b3), &gate())
}

fn correspondence(o: PixelOutcome) -> Correspondence {
    match o {
        PixelOutcome::Inlier(c) => c,
        other => panic!("{other:?}"),
    }
}

#[test]
fn kept_pair_has_residual_jacobian_and_weight() {
    let c = correspondence(pair(
        [1.0, 2.0, 3.0],
        [0.0, 0.0, 1.0],
        [1.0, 2.0, 2.9375],
        [0.0, 0.0, 1.0],
    ));
    assert_eq!(f(c.residual), 0.0625);
    assert_eq!(f(c.weight), 1.0);
    // (p x n, n)
    assert_eq!(c.jacobian.map(f), [2.0, -1.0, 0.0, 0.0, 0.0, 1.0]);
}

#[test]
fn residuals_beyond_the_huber_scale_weigh_less() {
    let weight = |depth: f64| {
        let c = correspondence(pair(
            [0.0, 0.0, depth],
            [0.0, 0.0, 1.0],
            [0.0, 0.0, 1.0],
            [0.0, 0.0, 1.0],
        ));
        f(c.weight)
    };
    assert_eq!(weight(1.125), 1.0);
    assert_eq!(weight(1.25), 0.5);
    assert_eq!(weight(0.75), 0.5);
    assert_eq!(weight(1.5), 0.25);
}

#[test]
fn distance_gate_includes_its_limit() {
    let at = |x: f64| pair([x, 0.0, 0.0], [0.0, 0.0, 1.0], [0.0; 3], [0.0, 0.0, 1.0]);
    assert!(matches!(at(0.5), PixelOutcome::Inlier(_)));
    assert!(matches!(at(0.5000001), PixelOutcome::Rejected));
    assert!(matches!(at(f64::INFINITY), PixelOutcome::Rejected));
}

#[test]
fn normal_gate_includes_its_limit() {
    let at = |cosine: f64| pair([0.0; 3], [0.0, 0.0, cosine], [0.0; 3], [0.0, 0.0, 1.0]);
    assert!(matches!(at(0.5), PixelOutcome::Inlier(_)));
    assert!(matches!(at(0.49999), PixelOutcome::Rejected));
    assert!(matches!(at(-1.0), PixelOutcome::Rejected));
}

#[test]
fn normals_are_compared_after_the_rotation() {
    let turn = [[0.0, -1.0, 0.0], [1.0, 0.0, 0.0], [0.0, 0.0, 1.0]];
    let at = |n_s: [f64; 3]| {
        gate_pair(
            &b3([0.0; 3]),
            &b3(n_s),
            &b3([0.0; 3]),
            &b3([0.0, 1.0, 0.0]),
            &turn.map(b3),
            &gate(),
        )
    };
    assert!(matches!(at([1.0, 0.0, 0.0]), PixelOutcome::Inlier(_)));
    assert!(matches!(at([0.0, 1.0, 0.0]), PixelOutcome::Rejected));
}

#[test]
fn coincident_points_match_with_full_weight() {
    let c = correspondence(pair(
        [0.1, 0.2, 0.3],
        [0.6, 0.0, 0.8],
        [0.1, 0.2, 0.3],
        [0.6, 0.0, 0.8],
    ));
    assert_eq!(f(c.residual), 0.0);
    assert_eq!(f(c.weight), 1.0);
}

#[test]
fn pixels_are_sorted_into_their_outcomes() {
    let mut src = bowl();
    let mut tgt = bowl();
    src.vertices[3].valid = false;
    src.normals[4].valid = false;
    tgt.normals[5].valid = false;
    let ask = |i: usize, uv: Option<[f64; 2]>| {
        let p = src.vertices[i].xyz.map(|x| x.widen());
        match_pixel(&src, &tgt, &IDENTITY.map(b3), &gate(), i, &p, uv.map(|c| c.map(b64)))
    };
    assert!(matches!(ask(3, Some([3.0, 0.0])), PixelOutcome::Invalid));
    assert!(matches!(ask(4, None), PixelOutcome::Invalid));
    assert!(matches!(ask(5, None), PixelOutcome::Unassociated));
    assert!(matches!(ask(5, Some([9.0, 0.0])), PixelOutcome::Unassociated));
    assert!(matches!(ask(5, Some([5.0, 0.0])), PixelOutcome::Unassociated));
    assert!(matches!(ask(6, Some([6.0, 0.0])), PixelOutcome::Inlier(_)));
    assert!(matches!(ask(0, Some([8.0, 8.0])), PixelOutcome::Rejected));
}

// ---------------------------------------------------------------------------
// One pass
// ---------------------------------------------------------------------------

fn pass(src: &RgbdLevel, tgt: &RgbdLevel, translation: [f64; 3]) -> NormalEquations {
    accumulate_level(
        src,
        tgt,
        0,
        &pose(IDENTITY, translation),
        &IcpPlaneCriteria::default(),
        &project,
        &sin_cos,
    )
}

#[test]
fn frame_matches_itself_at_the_identity() {
    let eqs = pass(&bowl(), &bowl(), [0.0; 3]);
    assert_eq!((eqs.num_inliers, eqs.num_associated, eqs.num_valid), (81, 81, 81));
    assert_eq!(eqs.b.map(f), [0.0; 6]);
    assert_eq!(f(eqs.sum_sq_residual), 0.0);
}

#[test]
fn normal_matrix_is_symmetric() {
    let eqs = pass(&bowl(), &bowl(), [0.01, -0.02, 0.03]);
    for i in 0..6 {
        for k in 0..6 {
            assert_eq!(eqs.a[i][k].bits, eqs.a[k][i].bits);
        }
    }
    assert!(f(eqs.a[0][0]) > 0.0);
}

#[test]
fn wall_leaves_in_plane_motion_unobserved() {
    let eqs = pass(&wall(), &wall(), [0.0, 0.0, 0.01]);
    for i in [2, 3, 4] {
        assert_eq!(eqs.a[i].map(f), [0.0; 6]);
        assert_eq!(f(eqs.b[i]), 0.0);
    }
    assert_eq!(f(eqs.a[5][5]), 81.0);
}

#[test]
fn counts_are_nested_and_precede_the_gates() {
    let mut src = bowl();
    let mut tgt = bowl();
    for i in 0..9 {
        src.vertices[i].valid = false;
        tgt.normals[80 - i].valid = false;
    }
    let at = |max_dist: f64| {
        let criteria =
            IcpPlaneCriteria { max_dist_m: b64(max_dist), ..IcpPlaneCriteria::default() };
        accumulate_level(
            &src,
            &tgt,
            0,
            &pose(IDENTITY, [0.0, 0.0, 0.02]),
            &criteria,
            &project,
            &sin_cos,
        )
    };
    let (wide, narrow) = (at(0.1), at(0.001));
    assert_eq!(wide.num_valid, 72);
    assert_eq!(wide.num_associated, narrow.num_associated);
    assert!(wide.num_associated < 72 && wide.num_associated > 50);
    assert_eq!(wide.num_inliers, wide.num_associated);
    assert_eq!(narrow.num_inliers, 0);
}

#[test]
fn pass_ends_with_the_shorter_source_map() {
    let mut src = bowl();
    src.normals.truncate(20);
    assert_eq!(pass(&src, &bowl(), [0.0; 3]).num_valid, 20);
    let mut src = bowl();
    src.vertices.truncate(10);
    assert_eq!(pass(&src, &bowl(), [0.0; 3]).num_valid, 10);
}

#[test]
fn points_behind_the_camera_are_not_associated() {
    let eqs = pass(&bowl(), &bowl(), [0.0, 0.0, -5.0]);
    assert_eq!((eqs.num_inliers, eqs.num_associated, eqs.num_valid), (0, 0, 81));
}

// ---------------------------------------------------------------------------
// Steps and the schedule
// ---------------------------------------------------------------------------

#[test]
fn step_needs_six_correspondences() {
    let mut src = bowl();
    for i in 5..81 {
        src.vertices[i].valid = false;
    }
    let eqs = pass(&src, &bowl(), [0.0; 3]);
    let r = gauss_newton_step(&eqs, &start([0.0; 3]), &sin_cos);
    assert_eq!(r.unwrap_err(), RgbdIcpError::TooFewCorrespondences(5));
}

#[test]
fn step_refuses_a_wall() {
    let eqs = pass(&wall(), &wall(), [0.0, 0.0, 0.01]);
    let r = gauss_newton_step(&eqs, &start([0.0; 3]), &sin_cos);
    assert_eq!(r.unwrap_err(), RgbdIcpError::SingularNormalEquations);
}

#[test]
fn step_on_matched_frames_keeps_the_pose() {
    let eqs = pass(&bowl(), &bowl(), [0.0; 3]);
    let (next, length) = gauss_newton_step(&eqs, &start([0.0; 3]), &sin_cos).unwrap();
    assert_eq!(next.pose.rotation.map(|row| row.map(f)), IDENTITY);
    assert_eq!(next.pose.translation.map(f), [0.0; 3]);
    assert_eq!(next.iterations, 1);
    assert_eq!(f(length), 0.0);
    assert!(f(next.observability) > 1e-8);
}

#[test]
fn iteration_counter_saturates() {
    let eqs = pass(&bowl(), &bowl(), [0.0; 3]);
    let last = Estimate { iterations: usize::MAX, ..start([0.0; 3]) };
    let (next, _) = gauss_newton_step(&eqs, &last, &sin_cos).unwrap();
    assert_eq!(next.iterations, usize::MAX);
}

#[test]
fn levels_beyond_the_list_reuse_its_last_entry() {
    let list = vec![10, 7, 5];
    assert_eq!([0, 1, 2, 3, 100].map(|c| iterations_at(&list, c)), [10, 7, 5, 5, 5]);
    assert_eq!(iterations_at(&vec![], 0), 0);
    assert_eq!(iterations_at(&vec![4], 2), 4);
}

#[test]
fn refinement_stops_below_the_tolerance() {
    let run = |tolerance: f64, iters: usize| {
        refine_level(
            &bowl(),
            &bowl(),
            0,
            &start([0.004, -0.003, 0.002]),
            iters,
            &criteria(vec![], tolerance),
            &project,
            &sin_cos,
        )
        .unwrap()
    };
    assert_eq!(run(1e9, 8).iterations, 1);
    assert_eq!(run(0.0, 8).iterations, 8);
    assert_eq!(run(f64::NAN, 8).iterations, 8);
    assert_eq!(run(-1.0, 3).iterations, 3);
    assert_eq!(run(1e-6, 0).iterations, 0);
    let done = run(1e-9, 20);
    assert!(done.iterations < 20);
    assert!(done.pose.translation.iter().all(|t| f(*t).abs() < 1e-3));
}

#[test]
fn evaluation_divides_by_the_counts() {
    let mut eqs = pass(&bowl(), &bowl(), [0.0; 3]);
    eqs.num_inliers = 4;
    eqs.num_associated = 5;
    eqs.num_valid = 8;
    eqs.sum_sq_residual = b64(9.0);
    let r = evaluate(&start([1.0, 2.0, 3.0]), &eqs);
    assert_eq!(f(r.rmse), 1.5);
    assert_eq!(f(r.inlier_fraction), 0.8);
    assert_eq!(f(r.overlap_fraction), 0.625);
    assert_eq!(r.num_associated, 5);
    assert_eq!(r.translation.map(f), [1.0, 2.0, 3.0]);
    eqs.num_inliers = 0;
    eqs.num_associated = 0;
    let r = evaluate(&start([0.0; 3]), &eqs);
    assert_eq!(f(r.rmse), f64::INFINITY);
    assert_eq!(f(r.inlier_fraction), 0.0);
    assert_eq!(f(r.overlap_fraction), 0.0);
    eqs.num_valid = 0;
    assert_eq!(f(evaluate(&start([0.0; 3]), &eqs).overlap_fraction), 0.0);
}

#[test]
fn quality_does_not_depend_on_overlap() {
    let mut eqs = pass(&bowl(), &bowl(), [0.0; 3]);
    let full = evaluate(&start([0.0; 3]), &eqs);
    assert_eq!((f(full.inlier_fraction), f(full.overlap_fraction)), (1.0, 1.0));
    eqs.num_valid = 810;
    let partial = evaluate(&start([0.0; 3]), &eqs);
    assert_eq!((f(partial.inlier_fraction), f(partial.overlap_fraction)), (1.0, 0.1));
}

// ---------------------------------------------------------------------------
// Registrations
// ---------------------------------------------------------------------------

#[test]
fn empty_pyramids_are_refused() {
    let some = pyramid(vec![bowl()]);
    let none = pyramid(vec![]);
    let refused = RgbdIcpError::InvalidNumLevels(0);
    let ask = |a, b| register(a, b, [0.0; 3], IcpPlaneCriteria::default());
    assert_eq!(ask(&none, &some).unwrap_err(), refused);
    assert_eq!(ask(&some, &none).unwrap_err(), refused);
    assert_eq!(ask(&none, &none).unwrap_err(), refused);
}

#[test]
fn empty_schedule_evaluates_the_initial_guess() {
    let frame = pyramid(vec![bowl(), bowl()]);
    let guess = [0.01, 0.02, 0.03];
    let r = register(&frame, &frame, guess, criteria(vec![], 1e-6)).unwrap();
    assert_eq!(r.translation.map(f), guess);
    assert_eq!(r.rotation.map(|row| row.map(f)), IDENTITY);
    assert_eq!(r.iterations, 0);
    assert_eq!(f(r.observability), 0.0);
    assert!(f(r.rmse) > 0.0 && r.num_associated > 0);
}

#[test]
fn frame_registers_with_itself() {
    let frame = pyramid(vec![bowl(), bowl(), bowl()]);
    let r = register(&frame, &frame, [0.0; 3], IcpPlaneCriteria::default()).unwrap();
    assert_eq!(r.rotation.map(|row| row.map(f)), IDENTITY);
    assert_eq!(r.translation.map(f), [0.0; 3]);
    assert_eq!(f(r.rmse), 0.0);
    assert_eq!(f(r.inlier_fraction), 1.0);
    assert_eq!(f(r.overlap_fraction), 1.0);
    // an update of length zero ends each of the three levels
    assert_eq!(r.iterations, 3);
}

#[test]
fn registration_uses_the_levels_in_common() {
    let three = pyramid(vec![bowl(), bowl(), bowl()]);
    let one = pyramid(vec![bowl()]);
    let run = |a, b| register(a, b, [0.0; 3], criteria(vec![4, 3], 0.0)).unwrap().iterations;
    assert_eq!(run(&three, &one), 4);
    assert_eq!(run(&one, &three), 4);
    assert_eq!(run(&three, &three), 10);
}

#[test]
fn bad_guess_has_too_few_correspondences() {
    let frame = pyramid(vec![bowl()]);
    let r = register(&frame, &frame, [0.0, 0.0, 3.0], IcpPlaneCriteria::default());
    assert_eq!(r.unwrap_err(), RgbdIcpError::TooFewCorrespondences(0));
}

#[test]
fn wall_is_refused() {
    let frame = pyramid(vec![wall(), wall()]);
    let r = register(&frame, &frame, [0.0; 3], IcpPlaneCriteria::default());
    assert_eq!(r.unwrap_err(), RgbdIcpError::SingularNormalEquations);
}

#[test]
fn unseen_target_without_pixels_leaves_no_match() {
    let empty = RgbdLevel { vertices: vec![], normals: vec![], width: 0, height: 0 };
    let blind = |_level: usize, _p: [Binary64; 3]| -> Option<[Binary64; 2]> { None };
    let r = icp_projective_plane(
        &pyramid(vec![bowl()]),
        &pyramid(vec![empty]),
        IDENTITY.map(b3),
        b3([0.0; 3]),
        criteria(vec![], 1e-6),
        &blind,
        &sin_cos,
    )
    .unwrap();
    assert_eq!(f(r.rmse), f64::INFINITY);
    assert_eq!(r.num_associated, 0);
    assert_eq!(f(r.inlier_fraction), 0.0);
    assert_eq!(f(r.overlap_fraction), 0.0);
}

#[test]
fn target_is_asked_about_its_own_level() {
    // each level of the target is seen by its own camera: here only the coarse one sees
    let camera = |level: usize, p: [Binary64; 3]| -> Option<[Binary64; 2]> {
        if level == 1 {
            project(level, p)
        } else {
            None
        }
    };
    let frame = pyramid(vec![bowl(), bowl()]);
    let run = |iters: Vec<usize>| {
        icp_projective_plane(
            &frame,
            &frame,
            IDENTITY.map(b3),
            b3([0.0; 3]),
            criteria(iters, 0.0),
            &camera,
            &sin_cos,
        )
    };
    let done = run(vec![2, 0]).unwrap();
    assert_eq!((done.iterations, done.num_associated), (2, 0));
    assert_eq!(run(vec![2, 1]).unwrap_err(), RgbdIcpError::TooFewCorrespondences(0));
}

// ---------------------------------------------------------------------------
// Limits at their ends
// ---------------------------------------------------------------------------

/// One pixel seen head-on, matched with one whose normal is turned by a right angle.
fn crossed_normals(max_dist: f64, max_angle: f64) -> NormalEquations {
    let src = RgbdLevel {
        vertices: vec![entry([0.0, 0.0, 1.0], true)],
        normals: vec![entry([0.0, 0.0, -1.0], true)],
        width: 1,
        height: 1,
    };
    let mut tgt = src.clone();
    tgt.normals[0] = entry([0.0, -1.0, 0.0], true);
    let centre = |_level: usize, _p: [Binary64; 3]| Some([b64(0.0), b64(0.0)]);
    let criteria = IcpPlaneCriteria {
        max_dist_m: b64(max_dist),
        max_normal_angle_rad: b64(max_angle),
        ..IcpPlaneCriteria::default()
    };
    accumulate_level(&src, &tgt, 0, &pose(IDENTITY, [0.0; 3]), &criteria, &centre, &sin_cos)
}

#[test]
fn angle_limits_count_as_angles() {
    for angle in [2.0 * PI, PI, 1.6, 100.0, f64::INFINITY] {
        let eqs = crossed_normals(0.1, angle);
        assert_eq!((eqs.num_associated, eqs.num_inliers), (1, 1), "{angle}");
    }
    for angle in [1.5, 0.0, -0.0, -0.5, -7.0, -2.0 * PI] {
        let eqs = crossed_normals(0.1, angle);
        assert_eq!((eqs.num_associated, eqs.num_inliers), (1, 0), "{angle}");
    }
}

#[test]
fn limits_below_zero_reject_every_pair() {
    let run = |max_dist: f64, max_angle: f64| {
        let criteria = IcpPlaneCriteria {
            max_dist_m: b64(max_dist),
            max_normal_angle_rad: b64(max_angle),
            ..IcpPlaneCriteria::default()
        };
        let here = pose(IDENTITY, [0.0; 3]);
        accumulate_level(&bowl(), &bowl(), 0, &here, &criteria, &project, &sin_cos).num_inliers
    };
    assert_eq!(run(0.1, 0.5), 81);
    assert_eq!(run(-0.1, 0.5), 0);
    assert_eq!(run(0.1, -0.5), 0);
    assert_eq!(run(0.0, 0.5), 81);
}

// ---------------------------------------------------------------------------
// Passes over parts and under other gates
// ---------------------------------------------------------------------------

fn pass_with(src: &RgbdLevel, criteria: &IcpPlaneCriteria) -> NormalEquations {
    let here = pose(IDENTITY, [0.004, -0.003, 0.03]);
    accumulate_level(src, &bowl(), 0, &here, criteria, &project, &sin_cos)
}

#[test]
fn squares_are_not_negative_and_ignore_the_huber_scale() {
    let with = |delta: f64| {
        let criteria = IcpPlaneCriteria { huber_delta_m: b64(delta), ..Default::default() };
        pass_with(&bowl(), &criteria)
    };
    let (narrow, wide) = (with(0.001), with(1.0));
    assert_eq!(narrow.sum_sq_residual.bits, wide.sum_sq_residual.bits);
    assert_eq!(narrow.num_inliers, wide.num_inliers);
    assert!(f(narrow.sum_sq_residual) > 0.0);
    for i in 0..6 {
        assert!(f(narrow.a[i][i]) >= 0.0);
        assert!(f(narrow.a[i][i]) < f(wide.a[i][i]));
    }
}

#[test]
fn wider_gates_keep_their_correspondences() {
    let with = |dist: f64, angle: f64| {
        let criteria = IcpPlaneCriteria {
            max_dist_m: b64(dist),
            max_normal_angle_rad: b64(angle),
            ..Default::default()
        };
        pass_with(&bowl(), &criteria)
    };
    let mut last = with(0.0, 0.0);
    for (dist, angle) in [(0.02, 0.01), (0.03, 0.05), (0.05, 0.1), (0.1, 1.0), (1.0, 4.0)] {
        let next = with(dist, angle);
        assert!(last.num_inliers <= next.num_inliers);
        assert!(f(last.sum_sq_residual) <= f(next.sum_sq_residual));
        last = next;
    }
    assert!(last.num_inliers > 50);
}

#[test]
fn parts_of_a_level_add_up() {
    let whole = bowl();
    let (mut first, mut second) = (bowl(), bowl());
    first.vertices.truncate(30);
    first.normals.truncate(30);
    second.vertices.drain(..30);
    second.normals.drain(..30);
    let criteria = IcpPlaneCriteria::default();
    let (e, e1, e2) = (
        pass_with(&whole, &criteria),
        pass_with(&first, &criteria),
        pass_with(&second, &criteria),
    );
    assert_eq!(e.num_valid, e1.num_valid + e2.num_valid);
    assert_eq!(e.num_associated, e1.num_associated + e2.num_associated);
    assert_eq!(e.num_inliers, e1.num_inliers + e2.num_inliers);
    assert!((f(e.sum_sq_residual) - f(e1.sum_sq_residual) - f(e2.sum_sq_residual)).abs() < 1e-12);
}

/// A frame of sixteen pixels whose coordinates are small multiples of a power of two, so that
/// the sums over them are exact.
fn steps() -> RgbdLevel {
    let mut level = RgbdLevel { vertices: vec![], normals: vec![], width: 9, height: 9 };
    for v in 0..9 {
        for u in 0..9 {
            let valid = u % 2 == 0 && v % 2 == 0 && u < 8 && v < 8;
            let (a, b) = ((u as f64 - 4.0) / 8.0, (v as f64 - 4.0) / 8.0);
            let normal = match (u + v) % 4 {
                0 => [0.0, 0.0, -1.0],
                _ => [1.0, 0.0, 0.0],
            };
            level.vertices.push(entry([a, b, 1.0], valid));
            level.normals.push(entry(normal, valid));
        }
    }
    level
}

/// The equations of a part of a frame against the whole of it, moved by a power of two.
fn exact_pass(src: &RgbdLevel) -> NormalEquations {
    let view = |_: usize, p: [Binary64; 3]| {
        let [x, y, _] = p.map(f);
        Some([b64(8.0 * x + 4.0), b64(8.0 * y + 4.0)])
    };
    let criteria = IcpPlaneCriteria {
        max_dist_m: b64(0.5),
        huber_delta_m: b64(0.5),
        ..IcpPlaneCriteria::default()
    };
    let moved = pose(IDENTITY, [0.03125, 0.015625, 0.03125]);
    accumulate_level(src, &steps(), 0, &moved, &criteria, &view, &sin_cos)
}

#[test]
fn exact_equations_of_parts_add() {
    let (whole, mut first, mut second) = (steps(), steps(), steps());
    first.vertices.truncate(30);
    first.normals.truncate(30);
    second.vertices.drain(..30);
    second.normals.drain(..30);
    let (e, e1, e2) = (exact_pass(&whole), exact_pass(&first), exact_pass(&second));
    assert_eq!(e.num_inliers, 16);
    assert!(e1.num_inliers > 0 && e2.num_inliers > 0);
    for i in 0..6 {
        for k in 0..6 {
            assert_eq!(f(e.a[i][k]), f(e1.a[i][k]) + f(e2.a[i][k]));
        }
        assert_eq!(f(e.b[i]), f(e1.b[i]) + f(e2.b[i]));
    }
    assert_eq!(f(e.sum_sq_residual), f(e1.sum_sq_residual) + f(e2.sum_sq_residual));
}

#[test]
fn normal_matrices_are_semidefinite() {
    let a = exact_pass(&steps()).a;
    for seed in 0..64 {
        let x = [0, 1, 2, 3, 4, 5].map(|i| ((seed * (2 * i + 3) + i) % 7) as f64 - 3.0);
        let mut sum = 0.0;
        for i in 0..6 {
            for k in 0..6 {
                sum += x[i] * f(a[i][k]) * x[k];
            }
        }
        assert!(sum >= 0.0);
    }
}

#[test]
fn equations_of_parts_nearly_add() {
    let (whole, mut first, mut second) = (bowl(), bowl(), bowl());
    first.vertices.truncate(30);
    first.normals.truncate(30);
    second.vertices.drain(..30);
    second.normals.drain(..30);
    let criteria = IcpPlaneCriteria::default();
    let pass = |src: &RgbdLevel| pass_with(src, &criteria);
    let (e, e1, e2) = (pass(&whole), pass(&first), pass(&second));
    let n = e.num_inliers as f64;
    for i in 0..6 {
        for k in 0..6 {
            // by Cauchy and Schwarz, the terms do not add up to more than this
            let size = (f(e.a[i][i]) * f(e.a[k][k])).sqrt();
            let apart = f(e.a[i][k]) - f(e1.a[i][k]) - f(e2.a[i][k]);
            assert!(apart.abs() <= 4.0 * n * (f64::EPSILON / 2.0) * (1.01 * size));
        }
        let apart = f(e.b[i]) - f(e1.b[i]) - f(e2.b[i]);
        let size = (f(e.a[i][i]) * f(e.sum_sq_residual)).sqrt();
        assert!(apart.abs() <= 4.0 * n * (f64::EPSILON / 2.0) * (1.01 * size));
    }
}

#[test]
fn rounded_normal_matrices_are_nearly_semidefinite() {
    let e = pass_with(&bowl(), &IcpPlaneCriteria::default());
    let n = e.num_inliers as f64;
    for seed in 0..64 {
        let x = [0, 1, 2, 3, 4, 5].map(|i| ((seed * (2 * i + 3) + i) % 7) as f64 - 3.0);
        let (mut form, mut size) = (0.0, 0.0);
        for i in 0..6 {
            size += x[i] * x[i] * f(e.a[i][i]);
            for k in 0..6 {
                form += x[i] * f(e.a[i][k]) * x[k];
            }
        }
        assert!(form >= -96.0 * n * (f64::EPSILON / 2.0) * size);
    }
}

#[test]
fn tilted_walls_are_refused() {
    // the plane z = 1 + x, with a normal of whole numbers
    let mut wall = RgbdLevel { vertices: vec![], normals: vec![], width: 9, height: 9 };
    for v in 0..9 {
        for u in 0..9 {
            let (a, b) = ((u as f64 - 4.0) / 8.0, (v as f64 - 4.0) / 8.0);
            wall.vertices.push(entry([a, b, 1.0 + a], true));
            wall.normals.push(entry([1.0, 0.0, -1.0], true));
        }
    }
    let view = |_: usize, p: [Binary64; 3]| {
        let [x, y, _] = p.map(f);
        Some([b64(8.0 * x + 4.0), b64(8.0 * y + 4.0)])
    };
    let here = pose(IDENTITY, [0.0; 3]);
    let e = accumulate_level(
        &wall,
        &wall,
        0,
        &here,
        &IcpPlaneCriteria::default(),
        &view,
        &sin_cos,
    );
    assert_eq!(e.num_inliers, 81);
    let found = gauss_newton_step(&e, &start([0.0; 3]), &sin_cos);
    assert!(matches!(found, Err(RgbdIcpError::SingularNormalEquations)));
}

/// The equations of a frame with itself: nine by nine pixels of a wall with the given normal, each
/// component of which is shifted by up to `shift` at each pixel.
fn wall_facing(normal: [f64; 3], shift: f64) -> NormalEquations {
    let len = normal.map(|x| x * x).iter().sum::<f64>().sqrt();
    let n = normal.map(|x| x / len);
    // two directions along the wall
    let across = if n[2].abs() < 0.9 { [n[1], -n[0], 0.0] } else { [0.0, n[2], -n[1]] };
    let len = across.map(|x| x * x).iter().sum::<f64>().sqrt();
    let s = across.map(|x| x / len);
    let t = [
        n[1] * s[2] - n[2] * s[1],
        n[2] * s[0] - n[0] * s[2],
        n[0] * s[1] - n[1] * s[0],
    ];
    let mut level = RgbdLevel { vertices: vec![], normals: vec![], width: 9, height: 9 };
    for v in 0..9 {
        for u in 0..9 {
            let (a, b) = ((u as f64 - 4.0) / 8.0, (v as f64 - 4.0) / 8.0);
            level.vertices.push(entry([0, 1, 2].map(|k| a * s[k] + b * t[k] + 1.5 * n[k]), true));
            let off = [0, 1, 2].map(|k| ((u * (k + 3) + v * (2 * k + 1)) % 5) as f64 / 2.0 - 1.0);
            level.normals.push(entry([0, 1, 2].map(|k| n[k] + shift * off[k]), true));
        }
    }
    let view = |_: usize, p: [Binary64; 3]| {
        let p = p.map(f);
        let along = |d: [f64; 3]| d[0] * p[0] + d[1] * p[1] + d[2] * p[2];
        Some([b64(8.0 * along(s) + 4.0), b64(8.0 * along(t) + 4.0)])
    };
    let here = pose(IDENTITY, [0.0; 3]);
    let criteria = IcpPlaneCriteria::default();
    let e = accumulate_level(&level, &level, 0, &here, &criteria, &view, &sin_cos);
    assert_eq!(e.num_inliers, 81);
    e
}

const NORMALS: [[f64; 3]; 8] = [
    [0.0, 0.0, -1.0],
    [0.0, 1.0, 0.0],
    [1.0, 0.0, 0.0],
    [0.3, -0.4, -1.0],
    [1.0, 1.0, 1.0],
    [-0.7, 0.1, 0.2],
    [0.001, 0.9, -0.3],
    [1.0, 0.0, -0.0001],
];

#[test]
fn walls_are_refused_whichever_way_they_face() {
    for normal in NORMALS {
        let e = wall_facing(normal, 0.0);
        let found = gauss_newton_step(&e, &start([0.0; 3]), &sin_cos);
        assert!(matches!(found, Err(RgbdIcpError::SingularNormalEquations)));
    }
}

#[test]
fn hardly_noticed_motions_are_refused() {
    for normal in NORMALS {
        let e = wall_facing(normal, 1e-5);
        let found = gauss_newton_step(&e, &start([0.0; 3]), &sin_cos);
        assert!(matches!(found, Err(RgbdIcpError::SingularNormalEquations)));
    }
}

#[test]
fn jacobian_rows_are_derivatives() {
    let numbers = |seed: usize, n: usize| ((seed * (7 * n + 5) + 3 * n) % 101) as f64 / 37.0 - 1.3;
    for seed in 0..64 {
        let at = |first: usize| [first, first + 1, first + 2].map(|n| numbers(seed, n));
        let (p, mut n, w, t) = (at(0), at(3), at(6), at(9));
        n[0] += 3.0;
        let row = correspondence(pair(p, n, p, n)).jacobian.map(f);
        let cross = |a: [f64; 3], b: [f64; 3]| {
            [a[1] * b[2] - a[2] * b[1], a[2] * b[0] - a[0] * b[2], a[0] * b[1] - a[1] * b[0]]
        };
        let turn = cross(w, p);
        let want: f64 = (0..3).map(|k| n[k] * (turn[k] + t[k])).sum();
        let got: f64 = (0..3).map(|k| row[k] * w[k] + row[k + 3] * t[k]).sum();
        assert!((got - want).abs() <= 1e-13);
        // halving the step halves how far the point has left the plane
        let moved = |s: f64, k: usize| p[k] + s * (turn[k] + t[k]);
        let off = |s: f64| (0..3).map(|k| n[k] * (moved(s, k) - p[k])).sum::<f64>();
        assert!((off(1.0) - got).abs() <= 1e-13 && (off(0.5) - 0.5 * got).abs() <= 1e-13);
    }
}

#[test]
fn normal_matrices_weigh_what_is_noticed() {
    let level = bowl();
    let e = pass(&level, &level, [0.0; 3]);
    let wide = |m: &MapEntry| m.xyz.map(|x| f32::from_bits(x.bits) as f64);
    let n = e.num_inliers as f64;
    for seed in 0..32 {
        let x = [0, 1, 2, 3, 4, 5].map(|i| ((seed * (2 * i + 3) + i) % 7) as f64 - 3.0);
        let (mut form, mut size) = (0.0, 0.0);
        for i in 0..6 {
            size += x[i] * x[i] * f(e.a[i][i]);
            for k in 0..6 {
                form += x[i] * f(e.a[i][k]) * x[k];
            }
        }
        let mut sum = 0.0;
        for (v, m) in level.vertices.iter().zip(level.normals.iter()) {
            let (v, m) = (wide(v), wide(m));
            let c = correspondence(pair(v, m, v, m));
            let noticed: f64 = (0..6).map(|k| f(c.jacobian[k]) * x[k]).sum();
            sum += f(c.weight) * noticed * noticed;
        }
        assert!((form - sum).abs() <= 96.0 * n * (f64::EPSILON / 2.0) * size);
    }
}

#[test]
fn infinite_distances_are_beyond_a_limit_below_zero() {
    let criteria = IcpPlaneCriteria { max_dist_m: b64(-0.1), ..IcpPlaneCriteria::default() };
    let gate = gate_from(&criteria, b64(0.5));
    let n = b3([0.0, 0.0, 1.0]);
    for p in [[f64::INFINITY, 0.0, 1.0], [f64::NEG_INFINITY, 0.0, 1.0], [0.0, 0.0, 1.0]] {
        let o = gate_pair(&b3(p), &n, &b3([0.0, 0.0, 1.0]), &n, &IDENTITY.map(b3), &gate);
        assert!(matches!(o, PixelOutcome::Rejected));
    }
}

// ---------------------------------------------------------------------------
// Whole runs
// ---------------------------------------------------------------------------

#[test]
fn infinite_tolerance_iterates_once_per_level() {
    let frame = pyramid(vec![bowl(), bowl(), bowl()]);
    let guess = [0.004, -0.003, 0.002];
    let run = |iters: Vec<usize>, tolerance: f64| {
        register(&frame, &frame, guess, criteria(iters, tolerance)).unwrap().iterations
    };
    assert_eq!(run(vec![4, 0, 2], f64::INFINITY), 2);
    assert_eq!(run(vec![4, 0, 2], 0.0), 6);
    assert_eq!(run(vec![4, 3], f64::INFINITY), 3);
    assert_eq!(run(vec![4, 3], -1.0), 10);
    let some = run(vec![4, 0, 2], 1e-4);
    assert!((2..=6).contains(&some));
}

#[test]
fn registration_is_made_of_its_levels() {
    let levels = || vec![bowl(), bowl(), bowl()];
    let whole = pyramid(levels());
    let coarser = pyramid(levels().split_off(1));
    let finest = pyramid(vec![bowl()]);
    let guess = [0.004, -0.003, 0.002];
    let all = register(&whole, &whole, guess, criteria(vec![2, 1, 3], 0.0)).unwrap();
    let r1 = register(&coarser, &coarser, guess, criteria(vec![2, 1], 0.0)).unwrap();
    let r2 = icp_projective_plane(
        &finest,
        &finest,
        r1.rotation,
        r1.translation,
        criteria(vec![3], 0.0),
        &project,
        &sin_cos,
    )
    .unwrap();
    assert_eq!(all.rotation.map(|r| r.map(f)), r2.rotation.map(|r| r.map(f)));
    assert_eq!(all.translation.map(f), r2.translation.map(f));
    assert_eq!(all.rmse.bits, r2.rmse.bits);
    assert_eq!(all.observability.bits, r2.observability.bits);
    assert_eq!(all.iterations, r1.iterations + r2.iterations);
}

#[test]
fn levels_without_planned_iterations_are_not_read() {
    let empty = RgbdLevel { vertices: vec![], normals: vec![], width: 0, height: 0 };
    let source = pyramid(vec![bowl(), bowl()]);
    let target = pyramid(vec![bowl(), empty]);
    let guess = [0.001, 0.0, 0.0];
    let r = register(&source, &target, guess, criteria(vec![], 1e-6)).unwrap();
    assert_eq!(r.translation.map(f), guess);
    assert_eq!(r.iterations, 0);
    let r = register(&source, &target, guess, criteria(vec![0, 2], 0.0)).unwrap();
    assert_eq!(r.iterations, 2);
}
