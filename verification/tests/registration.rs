//! Registrations of rendered depth frames.
use rgbd_icp::binary64::{Binary32, Binary64};
use rgbd_icp::icp::{icp_projective_plane, IcpPlaneCriteria, IcpPlaneResult};
use rgbd_icp::rgbd::{MapEntry, RgbdIcpError, RgbdLevel, RgbdPyramid};

const IDENTITY_ROT: [[f64; 3]; 3] = [[1.0, 0.0, 0.0], [0.0, 1.0, 0.0], [0.0, 0.0, 1.0]];

// ---------------------------------------------------------------------------
// Rendering
// ---------------------------------------------------------------------------

#[derive(Clone, Copy)]
struct DepthIntrinsics {
    fx: f64,
    fy: f64,
    cx: f64,
    cy: f64,
    width: usize,
    height: usize,
}

impl DepthIntrinsics {
    fn project(&self, p: &[f64; 3]) -> Option<[f64; 2]> {
        if p[2] > 0.0 {
            Some([self.fx * p[0] / p[2] + self.cx, self.fy * p[1] / p[2] + self.cy])
        } else {
            None
        }
    }

    /// The camera whose pixels each cover two rows and two columns of this one.
    fn halved(&self) -> DepthIntrinsics {
        DepthIntrinsics {
            fx: self.fx / 2.0,
            fy: self.fy / 2.0,
            cx: (self.cx - 0.5) / 2.0,
            cy: (self.cy - 0.5) / 2.0,
            width: self.width / 2,
            height: self.height / 2,
        }
    }
}

fn test_intrinsics() -> DepthIntrinsics {
    DepthIntrinsics {
        fx: 200.0,
        fy: 200.0,
        cx: 159.5,
        cy: 89.5,
        width: 320,
        height: 180,
    }
}

/// The points `x` with `normal . x = d`.
struct Plane {
    normal: [f64; 3],
    d: f64,
}

struct Sphere {
    center: [f64; 3],
    radius: f64,
}

struct Scene {
    planes: Vec<Plane>,
    spheres: Vec<Sphere>,
}

impl Scene {
    /// Two walls and a floor that meet in a wide corner, with a ball before them.
    fn corner_and_sphere() -> Scene {
        Scene {
            planes: vec![
                Plane { normal: [0.22, 0.0, 0.9755], d: 2.2 },
                Plane { normal: [-0.8, 0.0, 0.6], d: 1.6 },
                Plane { normal: [0.0, 1.0, 0.0], d: 0.7 },
            ],
            spheres: vec![Sphere { center: [0.3, -0.2, 1.7], radius: 0.4 }],
        }
    }
}

fn dot(a: &[f64; 3], b: &[f64; 3]) -> f64 {
    a[0] * b[0] + a[1] * b[1] + a[2] * b[2]
}

/// Depth along the optical axis in millimetres, zero where nothing is seen.
fn render_depth_mm(
    scene: &Scene,
    intr: &DepthIntrinsics,
    rot_wc: &[[f64; 3]; 3],
    t_wc: &[f64; 3],
) -> Vec<u16> {
    let mut depth = vec![0u16; intr.width * intr.height];
    for v in 0..intr.height {
        for u in 0..intr.width {
            let ray = [(u as f64 - intr.cx) / intr.fx, (v as f64 - intr.cy) / intr.fy, 1.0];
            let dir = [dot(&rot_wc[0], &ray), dot(&rot_wc[1], &ray), dot(&rot_wc[2], &ray)];
            let mut nearest = f64::INFINITY;
            for plane in &scene.planes {
                let along = dot(&plane.normal, &dir);
                let s = (plane.d - dot(&plane.normal, t_wc)) / along;
                if s > 0.0 && s < nearest {
                    nearest = s;
                }
            }
            for sphere in &scene.spheres {
                let o = [
                    t_wc[0] - sphere.center[0],
                    t_wc[1] - sphere.center[1],
                    t_wc[2] - sphere.center[2],
                ];
                let a = dot(&dir, &dir);
                let b = dot(&dir, &o);
                let c = dot(&o, &o) - sphere.radius * sphere.radius;
                let disc = b * b - a * c;
                if disc > 0.0 {
                    let s = (-b - disc.sqrt()) / a;
                    if s > 0.0 && s < nearest {
                        nearest = s;
                    }
                }
            }
            if nearest.is_finite() && nearest < 60.0 {
                depth[v * intr.width + u] = (nearest * 1000.0).round() as u16;
            }
        }
    }
    depth
}

fn axis_angle_to_rotation_matrix(axis: &[f64; 3], angle: f64) -> [[f64; 3]; 3] {
    let norm = dot(axis, axis).sqrt();
    let (x, y, z) = (axis[0] / norm, axis[1] / norm, axis[2] / norm);
    let (s, c) = angle.sin_cos();
    let k = 1.0 - c;
    [
        [c + k * x * x, k * x * y - s * z, k * x * z + s * y],
        [k * y * x + s * z, c + k * y * y, k * y * z - s * x],
        [k * z * x - s * y, k * z * y + s * x, c + k * z * z],
    ]
}

// ---------------------------------------------------------------------------
// Pyramids
// ---------------------------------------------------------------------------

fn entry(xyz: [f64; 3], valid: bool) -> MapEntry {
    let single = |x: f64| Binary32::from_bits((x as f32).to_bits());
    MapEntry { xyz: [single(xyz[0]), single(xyz[1]), single(xyz[2])], valid }
}

fn level_from_depth_mm(depth: &[u16], intr: &DepthIntrinsics) -> RgbdLevel {
    let (w, h) = (intr.width, intr.height);
    let point = |u: usize, v: usize| -> Option<[f64; 3]> {
        let d = depth[v * w + u];
        if d == 0 {
            return None;
        }
        let z = d as f64 * 1e-3;
        Some([(u as f64 - intr.cx) / intr.fx * z, (v as f64 - intr.cy) / intr.fy * z, z])
    };
    let normal = |u: usize, v: usize| -> Option<[f64; 3]> {
        if u == 0 || v == 0 || u + 1 >= w || v + 1 >= h {
            return None;
        }
        let (l, r) = (point(u - 1, v)?, point(u + 1, v)?);
        let (t, b) = (point(u, v - 1)?, point(u, v + 1)?);
        let du = [r[0] - l[0], r[1] - l[1], r[2] - l[2]];
        let dv = [b[0] - t[0], b[1] - t[1], b[2] - t[2]];
        let n = [
            dv[1] * du[2] - dv[2] * du[1],
            dv[2] * du[0] - dv[0] * du[2],
            dv[0] * du[1] - dv[1] * du[0],
        ];
        let len = dot(&n, &n).sqrt();
        if len > 0.0 {
            Some([n[0] / len, n[1] / len, n[2] / len])
        } else {
            None
        }
    };
    let mut level = RgbdLevel { vertices: vec![], normals: vec![], width: w, height: h };
    for v in 0..h {
        for u in 0..w {
            let p = point(u, v);
            let n = normal(u, v);
            level.vertices.push(entry(p.unwrap_or([0.0; 3]), p.is_some()));
            level.normals.push(entry(n.unwrap_or([0.0; 3]), n.is_some()));
        }
    }
    level
}

/// A depth frame with its cameras, finest level first.
struct Frame {
    pyramid: RgbdPyramid,
    cameras: Vec<DepthIntrinsics>,
}

/// The mean of each block of two by two depths, or the nearest of them across a jump.
fn halved_depth(depth: &[u16], fine: &DepthIntrinsics, coarse: &DepthIntrinsics) -> Vec<u16> {
    let mut small = Vec::new();
    for v in 0..coarse.height {
        for u in 0..coarse.width {
            let (mut sum, mut count) = (0u32, 0u32);
            let (mut least, mut most) = (u16::MAX, 0u16);
            for (dv, du) in [(0, 0), (0, 1), (1, 0), (1, 1)] {
                let d = depth[(2 * v + dv) * fine.width + 2 * u + du];
                if d != 0 {
                    sum += d as u32;
                    count += 1;
                    least = least.min(d);
                    most = most.max(d);
                }
            }
            small.push(if count == 0 {
                0
            } else if most - least > 100 {
                least
            } else {
                ((sum + count / 2) / count) as u16
            });
        }
    }
    small
}

fn frame_from_depth_mm(depth: &[u16], intr: &DepthIntrinsics, num_levels: usize) -> Frame {
    let mut frame = Frame { pyramid: RgbdPyramid { levels: vec![] }, cameras: vec![] };
    let mut camera = *intr;
    let mut map = depth.to_vec();
    for l in 0..num_levels {
        if l > 0 {
            let next = camera.halved();
            map = halved_depth(&map, &camera, &next);
            camera = next;
        }
        frame.pyramid.levels.push(level_from_depth_mm(&map, &camera));
        frame.cameras.push(camera);
    }
    frame
}

// ---------------------------------------------------------------------------
// Registration
// ---------------------------------------------------------------------------

fn b64(x: f64) -> Binary64 {
    Binary64::from_bits(x.to_bits())
}

fn f(x: Binary64) -> f64 {
    f64::from_bits(x.bits)
}

fn b3(v: &[f64; 3]) -> [Binary64; 3] {
    [b64(v[0]), b64(v[1]), b64(v[2])]
}

fn f3(v: &[Binary64; 3]) -> [f64; 3] {
    [f(v[0]), f(v[1]), f(v[2])]
}

fn f33(m: &[[Binary64; 3]; 3]) -> [[f64; 3]; 3] {
    [f3(&m[0]), f3(&m[1]), f3(&m[2])]
}

fn sin_cos(x: Binary64) -> (Binary64, Binary64) {
    let (s, c) = f(x).sin_cos();
    (b64(s), b64(c))
}

fn register(
    source: &Frame,
    target: &Frame,
    rot: [[f64; 3]; 3],
    trans: [f64; 3],
    criteria: IcpPlaneCriteria,
) -> Result<IcpPlaneResult, RgbdIcpError> {
    let project = |level: usize, p: [Binary64; 3]| -> Option<[Binary64; 2]> {
        target.cameras[level].project(&f3(&p)).map(|uv| [b64(uv[0]), b64(uv[1])])
    };
    icp_projective_plane(
        &source.pyramid,
        &target.pyramid,
        [b3(&rot[0]), b3(&rot[1]), b3(&rot[2])],
        b3(&trans),
        criteria,
        &project,
        &sin_cos,
    )
}

/// Angle in degrees between two rotation matrices.
fn rotation_error_deg(r_a: &[[f64; 3]; 3], r_b: &[[f64; 3]; 3]) -> f64 {
    let mut trace = 0.0;
    for i in 0..3 {
        for k in 0..3 {
            trace += r_a[k][i] * r_b[k][i];
        }
    }
    ((trace - 1.0) / 2.0).clamp(-1.0, 1.0).acos().to_degrees()
}

fn translation_error(t_a: &[f64; 3], t_b: &[f64; 3]) -> f64 {
    ((t_a[0] - t_b[0]).powi(2) + (t_a[1] - t_b[1]).powi(2) + (t_a[2] - t_b[2]).powi(2)).sqrt()
}

/// `T_target_source` from the target camera pose `T_world_cam`, where the source camera sits
/// at the world origin: `R = R_wc^T`, `t = -R_wc^T t_wc`.
fn gt_target_source(
    rot_world_cam: &[[f64; 3]; 3],
    t_world_cam: &[f64; 3],
) -> ([[f64; 3]; 3], [f64; 3]) {
    let mut rot = [[0.0; 3]; 3];
    for i in 0..3 {
        for j in 0..3 {
            rot[i][j] = rot_world_cam[j][i];
        }
    }
    let t = [
        -dot(&rot[0], t_world_cam),
        -dot(&rot[1], t_world_cam),
        -dot(&rot[2], t_world_cam),
    ];
    (rot, t)
}

// ---------------------------------------------------------------------------
// The same computation in the machine's own arithmetic
// ---------------------------------------------------------------------------

struct MachineEquations {
    a: [[f64; 6]; 6],
    b: [f64; 6],
    num_inliers: usize,
    num_associated: usize,
    num_valid: usize,
    sum_sq_residual: f64,
}

fn single(e: &MapEntry) -> [f64; 3] {
    e.xyz.map(|x| f32::from_bits(x.bits) as f64)
}

fn turned(m: &[[f64; 3]; 3], v: &[f64; 3]) -> [f64; 3] {
    [dot(&m[0], v), dot(&m[1], v), dot(&m[2], v)]
}

fn machine_pass(
    src: &RgbdLevel,
    tgt: &RgbdLevel,
    camera: &DepthIntrinsics,
    rot: &[[f64; 3]; 3],
    trans: &[f64; 3],
) -> MachineEquations {
    let mut eqs = MachineEquations {
        a: [[0.0; 6]; 6],
        b: [0.0; 6],
        num_inliers: 0,
        num_associated: 0,
        num_valid: 0,
        sum_sq_residual: 0.0,
    };
    for (v_s, n_s) in src.vertices.iter().zip(src.normals.iter()) {
        if !v_s.valid || !n_s.valid {
            continue;
        }
        eqs.num_valid += 1;
        let r = turned(rot, &single(v_s));
        let p = [r[0] + trans[0], r[1] + trans[1], r[2] + trans[2]];
        let Some(uv) = camera.project(&p) else {
            continue;
        };
        let (u, v) = (uv[0].round(), uv[1].round());
        if u < 0.0 || v < 0.0 || u > (tgt.width - 1) as f64 || v > (tgt.height - 1) as f64 {
            continue;
        }
        let at = v as usize * tgt.width + u as usize;
        if !tgt.vertices[at].valid || !tgt.normals[at].valid {
            continue;
        }
        eqs.num_associated += 1;
        let (v_t, n_t) = (single(&tgt.vertices[at]), single(&tgt.normals[at]));
        let diff = [p[0] - v_t[0], p[1] - v_t[1], p[2] - v_t[2]];
        if dot(&diff, &diff) > 0.1 * 0.1 {
            continue;
        }
        if dot(&turned(rot, &single(n_s)), &n_t) < 30.0f64.to_radians().cos() {
            continue;
        }
        let r = dot(&n_t, &diff);
        let j = [
            p[1] * n_t[2] - p[2] * n_t[1],
            p[2] * n_t[0] - p[0] * n_t[2],
            p[0] * n_t[1] - p[1] * n_t[0],
            n_t[0],
            n_t[1],
            n_t[2],
        ];
        let w = if r.abs() <= 0.02 { 1.0 } else { 0.02 / r.abs() };
        for i in 0..6 {
            eqs.b[i] += w * j[i] * r;
            for k in i..6 {
                eqs.a[i][k] += w * j[i] * j[k];
                eqs.a[k][i] = eqs.a[i][k];
            }
        }
        eqs.num_inliers += 1;
        eqs.sum_sq_residual += r * r;
    }
    eqs
}

/// The solution of a system that is known to be well conditioned, and its weakest pivot.
fn machine_solve(a: &[[f64; 6]; 6], b: &[f64; 6]) -> ([f64; 6], f64) {
    let rot = (0..3).map(|i| a[i][i]).fold(0.0, f64::max);
    let trans = (3..6).map(|i| a[i][i]).fold(0.0, f64::max);
    let mut weakest = f64::INFINITY;
    let mut l = [[0.0; 6]; 6];
    for i in 0..6 {
        for j in 0..i {
            l[i][j] = (0..j).fold(a[i][j], |s, k| s - l[i][k] * l[j][k]) / l[j][j];
        }
        let pivot = (0..i).fold(a[i][i], |s, k| s - l[i][k] * l[i][k]);
        weakest = weakest.min(pivot / if i < 3 { rot } else { trans });
        l[i][i] = pivot.sqrt();
    }
    let mut y = [0.0; 6];
    for i in 0..6 {
        y[i] = (0..i).fold(b[i], |s, k| s - l[i][k] * y[k]) / l[i][i];
    }
    let mut x = [0.0; 6];
    for i in (0..6).rev() {
        x[i] = (i + 1..6).fold(y[i], |s, k| s - l[k][i] * x[k]) / l[i][i];
    }
    (x, weakest)
}

fn machine_rotation(w: &[f64; 3]) -> [[f64; 3]; 3] {
    let theta2 = dot(w, w);
    let theta = theta2.sqrt();
    let (a, b) = if theta < 1e-9 {
        (1.0 - theta2 / 6.0, 0.5 - theta2 / 24.0)
    } else {
        (theta.sin() / theta, (1.0 - theta.cos()) / theta2)
    };
    let mut m = [[0.0; 3]; 3];
    for i in 0..3 {
        for j in 0..3 {
            m[i][j] = if i == j {
                1.0 + b * (w[i] * w[i] - theta2)
            } else {
                let side = if j == (i + 1) % 3 { -a } else { a };
                side * w[3 - i - j] + b * w[i] * w[j]
            };
        }
    }
    m
}

/// The fields of a result in one row of encodings, the counts last.
fn machine_register(source: &Frame, target: &Frame) -> Vec<u64> {
    let (mut rot, mut trans) = (IDENTITY_ROT, [0.0; 3]);
    let (mut iterations, mut observability) = (0, 0.0);
    let pass = |level: usize, rot: &[[f64; 3]; 3], trans: &[f64; 3]| {
        machine_pass(
            &source.pyramid.levels[level],
            &target.pyramid.levels[level],
            &target.cameras[level],
            rot,
            trans,
        )
    };
    for (level, iters) in [(2, 10), (1, 7), (0, 5)] {
        for _ in 0..iters {
            let eqs = pass(level, &rot, &trans);
            let (x, weakest) = machine_solve(&eqs.a, &eqs.b.map(|v| -v));
            observability = weakest;
            let delta = machine_rotation(&[x[0], x[1], x[2]]);
            let mut next = [[0.0; 3]; 3];
            for i in 0..3 {
                for j in 0..3 {
                    next[i][j] = dot(&delta[i], &[rot[0][j], rot[1][j], rot[2][j]]);
                }
            }
            rot = next;
            let moved = turned(&delta, &trans);
            trans = [moved[0] + x[3], moved[1] + x[4], moved[2] + x[5]];
            iterations += 1;
            if x.iter().map(|v| v * v).sum::<f64>().sqrt() < 1e-6 {
                break;
            }
        }
    }
    let eqs = pass(0, &rot, &trans);
    let mut row: Vec<u64> = rot.iter().flatten().chain(trans.iter()).map(|x| x.to_bits()).collect();
    row.push((eqs.sum_sq_residual / eqs.num_inliers as f64).sqrt().to_bits());
    row.push((eqs.num_inliers as f64 / eqs.num_associated as f64).to_bits());
    row.push((eqs.num_associated as f64 / eqs.num_valid as f64).to_bits());
    row.push(observability.to_bits());
    row.push(eqs.num_associated as u64);
    row.push(iterations);
    row
}

fn encodings(r: &IcpPlaneResult) -> Vec<u64> {
    let mut row: Vec<u64> =
        r.rotation.iter().flatten().chain(r.translation.iter()).map(|x| x.bits).collect();
    row.push(r.rmse.bits);
    row.push(r.inlier_fraction.bits);
    row.push(r.overlap_fraction.bits);
    row.push(r.observability.bits);
    row.push(r.num_associated as u64);
    row.push(r.iterations as u64);
    row
}

#[test]
fn registration_matches_the_machine_bit_for_bit() {
    let intr = test_intrinsics().halved();
    let scene = Scene::corner_and_sphere();
    let src = frame_from_depth_mm(
        &render_depth_mm(&scene, &intr, &IDENTITY_ROT, &[0.0; 3]),
        &intr,
        3,
    );
    for (axis, angle_deg, t_wc) in [
        ([1.0, 0.0, 0.0], 1.0f64, [0.0, 0.0, 0.0]),
        ([1.0, 1.0, 1.0], 2.0, [0.02, -0.02, 0.015]),
        ([0.0, 1.0, 0.0], 3.0, [0.05, 0.01, 0.0]),
    ] {
        let rot_wc = axis_angle_to_rotation_matrix(&axis, angle_deg.to_radians());
        let tgt = frame_from_depth_mm(
            &render_depth_mm(&scene, &intr, &rot_wc, &t_wc),
            &intr,
            3,
        );
        let result =
            register(&src, &tgt, IDENTITY_ROT, [0.0; 3], IcpPlaneCriteria::default()).unwrap();
        assert_eq!(encodings(&result), machine_register(&src, &tgt));
    }
}

#[test]
fn test_identity_self_icp() {
    let intr = test_intrinsics();
    let depth = render_depth_mm(&Scene::corner_and_sphere(), &intr, &IDENTITY_ROT, &[0.0; 3]);
    let frame = frame_from_depth_mm(&depth, &intr, 3);
    let result =
        register(&frame, &frame, IDENTITY_ROT, [0.0; 3], IcpPlaneCriteria::default()).unwrap();
    assert!(
        rotation_error_deg(&f33(&result.rotation), &IDENTITY_ROT) < 0.01,
        "self-ICP rotation drifted: {:?}",
        f33(&result.rotation)
    );
    let t_norm = translation_error(&f3(&result.translation), &[0.0; 3]);
    assert!(t_norm < 1e-4, "self-ICP translation drifted: {t_norm}");
    assert!(f(result.rmse) < 1e-6, "self-ICP rmse: {}", f(result.rmse));
    assert!(
        f(result.inlier_fraction) > 0.9,
        "self-ICP inlier fraction: {}",
        f(result.inlier_fraction)
    );
}

#[test]
fn test_ground_truth_motion_grid() {
    let intr = test_intrinsics();
    let scene = Scene::corner_and_sphere();
    let src = frame_from_depth_mm(
        &render_depth_mm(&scene, &intr, &IDENTITY_ROT, &[0.0; 3]),
        &intr,
        3,
    );
    // (axis, angle deg, translation) of the target camera pose T_world_cam
    let cases: [([f64; 3], f64, [f64; 3]); 7] = [
        ([1.0, 0.0, 0.0], 2.0, [0.0, 0.0, 0.0]),
        ([0.0, 1.0, 0.0], -2.0, [0.0, 0.0, 0.0]),
        ([0.0, 0.0, 1.0], 2.0, [0.0, 0.0, 0.0]),
        ([1.0, 0.0, 0.0], 0.0, [0.03, 0.0, 0.0]),
        ([1.0, 0.0, 0.0], 0.0, [0.0, -0.03, 0.0]),
        ([1.0, 0.0, 0.0], 0.0, [0.0, 0.0, 0.03]),
        ([1.0, 1.0, 1.0], 2.0, [0.02, -0.02, 0.015]),
    ];
    for (axis, angle_deg, t_wc) in cases {
        let rot_wc = axis_angle_to_rotation_matrix(&axis, angle_deg.to_radians());
        let tgt = frame_from_depth_mm(
            &render_depth_mm(&scene, &intr, &rot_wc, &t_wc),
            &intr,
            3,
        );
        let (rot_gt, t_gt) = gt_target_source(&rot_wc, &t_wc);
        let result =
            register(&src, &tgt, IDENTITY_ROT, [0.0; 3], IcpPlaneCriteria::default()).unwrap();
        let rot_err = rotation_error_deg(&f33(&result.rotation), &rot_gt);
        let t_err = translation_error(&f3(&result.translation), &t_gt);
        assert!(
            rot_err < 0.2,
            "case {axis:?}/{angle_deg} deg/{t_wc:?}: rotation error {rot_err} deg"
        );
        assert!(
            t_err < 5e-3,
            "case {axis:?}/{angle_deg} deg/{t_wc:?}: translation error {} mm",
            t_err * 1e3
        );
        assert!(
            f(result.inlier_fraction) > 0.5,
            "case {axis:?}/{angle_deg} deg/{t_wc:?}: inlier fraction {}",
            f(result.inlier_fraction)
        );
    }
}

/// A partly-overlapping view must keep HIGH match quality while overlap falls.
#[test]
fn inlier_fraction_measures_quality_not_overlap() {
    let intr = test_intrinsics();
    let scene = Scene::corner_and_sphere();
    let src = frame_from_depth_mm(
        &render_depth_mm(&scene, &intr, &IDENTITY_ROT, &[0.0; 3]),
        &intr,
        3,
    );
    // Yaw far enough that a large part of the source view leaves the target frustum.
    let rot_wc = axis_angle_to_rotation_matrix(&[0.0, 1.0, 0.0], 18.0_f64.to_radians());
    let t_wc = [0.35, 0.0, 0.0];
    let tgt = frame_from_depth_mm(&render_depth_mm(&scene, &intr, &rot_wc, &t_wc), &intr, 3);
    let (rot_gt, t_gt) = gt_target_source(&rot_wc, &t_wc);
    let result = register(&src, &tgt, rot_gt, [0.0; 3], IcpPlaneCriteria::default()).unwrap();
    assert!(
        rotation_error_deg(&f33(&result.rotation), &rot_gt) < 0.5,
        "rotation error {} deg",
        rotation_error_deg(&f33(&result.rotation), &rot_gt)
    );
    assert!(
        translation_error(&f3(&result.translation), &t_gt) < 0.01,
        "translation error {} m",
        translation_error(&f3(&result.translation), &t_gt)
    );
    let inlier_fraction = f(result.inlier_fraction);
    let overlap_fraction = f(result.overlap_fraction);
    assert!(
        inlier_fraction > 0.9,
        "quality collapsed under partial overlap: {} (associated {})",
        inlier_fraction,
        result.num_associated
    );
    assert!(
        overlap_fraction < 0.7,
        "overlap should register the rotated-away view: {}",
        overlap_fraction
    );
    let inliers_over_valid = inlier_fraction * overlap_fraction;
    assert!(
        inlier_fraction > inliers_over_valid * 1.5,
        "quality {} tracks the inliers/valid metric {}: the split is gone",
        inlier_fraction,
        inliers_over_valid
    );
    assert!(
        result.num_associated > 1000,
        "too little evidence to trust the pose: {}",
        result.num_associated
    );
}

#[test]
fn test_outlier_band_still_converges() {
    let intr = test_intrinsics();
    let scene = Scene::corner_and_sphere();
    let src = frame_from_depth_mm(
        &render_depth_mm(&scene, &intr, &IDENTITY_ROT, &[0.0; 3]),
        &intr,
        3,
    );
    let rot_wc = axis_angle_to_rotation_matrix(&[0.0, 1.0, 0.0], 1.5f64.to_radians());
    let t_wc = [0.02, 0.0, 0.01];
    let mut tgt_depth = render_depth_mm(&scene, &intr, &rot_wc, &t_wc);
    // a 10% horizontal band, 60 mm too far: within the 100 mm distance gate, so only the
    // Huber weight holds it back
    let band_rows = intr.height / 10;
    for v in 80..80 + band_rows {
        for u in 0..intr.width {
            let d = &mut tgt_depth[v * intr.width + u];
            if *d != 0 {
                *d += 60;
            }
        }
    }
    let tgt = frame_from_depth_mm(&tgt_depth, &intr, 3);
    let (rot_gt, t_gt) = gt_target_source(&rot_wc, &t_wc);
    let result =
        register(&src, &tgt, IDENTITY_ROT, [0.0; 3], IcpPlaneCriteria::default()).unwrap();
    let rot_err = rotation_error_deg(&f33(&result.rotation), &rot_gt);
    let t_err = translation_error(&f3(&result.translation), &t_gt);
    assert!(rot_err < 0.2, "rotation error with outliers: {rot_err} deg");
    assert!(t_err < 5e-3, "translation error with outliers: {} mm", t_err * 1e3);
}

/// Weak geometry must be visible in `observability`, because nothing else shows it.
#[test]
fn observability_exposes_weak_geometry() {
    let intr = test_intrinsics();
    // A wall with one small bump. The plane alone leaves three degrees of freedom free; the
    // bump pins them, but only just.
    let weak = Scene {
        planes: vec![Plane { normal: [0.0, 0.0, 1.0], d: 2.0 }],
        spheres: vec![Sphere { center: [0.0, 0.0, 1.9], radius: 0.06 }],
    };
    let slide = [0.02, 0.0, 0.0]; // along the surface: little residual to pay
    let mut measured: Vec<(f64, f64, f64)> = Vec::new();
    for scene in [weak, Scene::corner_and_sphere()] {
        let src = frame_from_depth_mm(
            &render_depth_mm(&scene, &intr, &IDENTITY_ROT, &[0.0; 3]),
            &intr,
            3,
        );
        let tgt = frame_from_depth_mm(
            &render_depth_mm(&scene, &intr, &IDENTITY_ROT, &slide),
            &intr,
            3,
        );
        let r = register(&src, &tgt, IDENTITY_ROT, [0.0; 3], IcpPlaneCriteria::default()).unwrap();
        measured.push((f(r.observability), f(r.inlier_fraction), f(r.rmse)));
    }
    let (weak_obs, weak_inl, weak_rmse) = measured[0];
    let (rich_obs, rich_inl, _) = measured[1];
    assert!(
        weak_obs < 1e-4 && rich_obs > 1e-3,
        "observability must separate the two geometries: weak {weak_obs:.3e}, rich {rich_obs:.3e}"
    );
    // The trap this field exists for: on the weak scene the numbers a caller would otherwise
    // trust are not merely acceptable, they are BETTER than on the well-conditioned one.
    assert!(
        weak_inl >= rich_inl && weak_rmse < 0.001,
        "expected the deceptive regime: weak inliers {weak_inl} (rich {rich_inl}), \
         weak rmse {weak_rmse}"
    );
}

#[test]
fn test_single_plane_is_degenerate() {
    let intr = test_intrinsics();
    // one fronto-parallel plane: in-plane translation and in-plane rotation are unobservable
    // for point-to-plane ICP
    let scene = Scene {
        planes: vec![Plane { normal: [0.0, 0.0, 1.0], d: 2.0 }],
        spheres: vec![],
    };
    let depth = render_depth_mm(&scene, &intr, &IDENTITY_ROT, &[0.0; 3]);
    let frame = frame_from_depth_mm(&depth, &intr, 3);
    let result = register(&frame, &frame, IDENTITY_ROT, [0.0; 3], IcpPlaneCriteria::default());
    assert!(
        matches!(result, Err(RgbdIcpError::SingularNormalEquations)),
        "single plane must be rejected as degenerate, got {result:?}"
    );
}
