//! Rotations and the guarded solve, held against the machine's own arithmetic.
use rgbd_icp::binary64::Binary64;
use rgbd_icp::linear::{
    cholesky_solve_6x6, mat3_mul, mat3_row_dot, so3_exp, so3_from_sin_cos, ONE, ONE_HALF,
    PIVOT_RTOL, SIX, SMALL_ANGLE, TWENTY_FOUR,
};

fn b64(x: f64) -> Binary64 {
    Binary64::from_bits(x.to_bits())
}

fn b3(v: [f64; 3]) -> [Binary64; 3] {
    v.map(b64)
}

fn b33(m: [[f64; 3]; 3]) -> [[Binary64; 3]; 3] {
    m.map(b3)
}

fn bits3(v: [f64; 3]) -> [u64; 3] {
    v.map(|x| x.to_bits())
}

fn bits33(m: [[f64; 3]; 3]) -> [[u64; 3]; 3] {
    m.map(bits3)
}

fn encodings33(m: [[Binary64; 3]; 3]) -> [[u64; 3]; 3] {
    m.map(|row| row.map(|x| x.bits))
}

fn sin_cos(x: Binary64) -> (Binary64, Binary64) {
    let x = f64::from_bits(x.bits);
    (b64(x.sin()), b64(x.cos()))
}

fn no_sin_cos(_: Binary64) -> (Binary64, Binary64) {
    panic!("asked for sine and cosine")
}

/// Pseudo-random numbers between minus one and one.
struct Numbers {
    state: u64,
}

impl Numbers {
    fn next(&mut self) -> f64 {
        self.state = self
            .state
            .wrapping_mul(6364136223846793005)
            .wrapping_add(1442695040888963407);
        (self.state >> 11) as f64 / (1u64 << 52) as f64 - 1.0
    }

    fn vector(&mut self) -> [f64; 3] {
        [self.next(), self.next(), self.next()]
    }
}

fn machine_rotation(w: [f64; 3]) -> [[f64; 3]; 3] {
    let theta2 = w[0] * w[0] + w[1] * w[1] + w[2] * w[2];
    let theta = theta2.sqrt();
    let (a, b) = if theta < 1e-9 {
        (1.0 - theta2 / 6.0, 0.5 - theta2 / 24.0)
    } else {
        (theta.sin() / theta, (1.0 - theta.cos()) / theta2)
    };
    let mut m = [[0.0; 3]; 3];
    for i in 0..3 {
        for j in 0..3 {
            m[i][j] = if i == j {
                1.0 + b * (w[i] * w[i] - theta2)
            } else {
                let k = 3 - i - j;
                let side = if j == (i + 1) % 3 { -a } else { a };
                side * w[k] + b * w[i] * w[j]
            };
        }
    }
    m
}

fn machine_solve(a: &[[f64; 6]; 6], b: &[f64; 6]) -> Option<([f64; 6], f64)> {
    let rot = (0..3).map(|i| a[i][i]).fold(0.0, f64::max);
    let trans = (3..6).map(|i| a[i][i]).fold(0.0, f64::max);
    if rot <= 0.0 || trans <= 0.0 {
        return None;
    }
    let mut weakest = f64::INFINITY;
    let mut l = [[0.0; 6]; 6];
    for i in 0..6 {
        for j in 0..=i {
            let sum = (0..j).fold(a[i][j], |s, k| s - l[i][k] * l[j][k]);
            if i == j {
                let scale = if i < 3 { rot } else { trans };
                weakest = weakest.min(sum / scale);
                if sum < 1e-8 * scale {
                    return None;
                }
                l[i][i] = sum.sqrt();
            } else {
                l[i][j] = sum / l[j][j];
            }
        }
    }
    let mut y = [0.0; 6];
    for i in 0..6 {
        y[i] = (0..i).fold(b[i], |s, k| s - l[i][k] * y[k]) / l[i][i];
    }
    let mut x = [0.0; 6];
    for i in (0..6).rev() {
        x[i] = (i + 1..6).fold(y[i], |s, k| s - l[k][i] * x[k]) / l[i][i];
    }
    Some((x, weakest))
}

fn solve(a: &[[f64; 6]; 6], b: &[f64; 6]) -> Option<([f64; 6], f64)> {
    cholesky_solve_6x6(&a.map(|row| row.map(b64)), &b.map(b64))
        .map(|(x, pivot)| (x.map(|v| f64::from_bits(v.bits)), f64::from_bits(pivot.bits)))
}

fn diagonal(d: [f64; 6]) -> [[f64; 6]; 6] {
    let mut a = [[0.0; 6]; 6];
    for i in 0..6 {
        a[i][i] = d[i];
    }
    a
}

#[test]
fn constants_are_the_named_numbers() {
    assert_eq!(ONE, 1.0f64.to_bits());
    assert_eq!(ONE_HALF, 0.5f64.to_bits());
    assert_eq!(SIX, 6.0f64.to_bits());
    assert_eq!(TWENTY_FOUR, 24.0f64.to_bits());
    assert_eq!(SMALL_ANGLE, 1e-9f64.to_bits());
    assert_eq!(PIVOT_RTOL, 1e-8f64.to_bits());
}

#[test]
fn row_products_are_summed_from_the_left() {
    let m = b33([[1.0, 2.0, 3.0], [4.0, 5.0, 6.0], [1e16, 1.0, -1e16]]);
    assert_eq!(mat3_row_dot(&m, 0, &b3([1.0, 1.0, 1.0])).bits, 6.0f64.to_bits());
    assert_eq!(mat3_row_dot(&m, 1, &b3([0.5, -1.0, 2.0])).bits, 9.0f64.to_bits());
    // 1e16 + 1 rounds back to 1e16 before the last term cancels it
    assert_eq!(mat3_row_dot(&m, 2, &b3([1.0, 1.0, 1.0])).bits, 0.0f64.to_bits());
}

#[test]
fn matrix_product_matches_the_machine() {
    let a = [[1.0, 2.0, 3.0], [4.0, 5.0, 6.0], [7.0, 8.0, 10.0]];
    let b = [[0.0, 1.0, 0.0], [0.0, 0.0, 1.0], [1.0, 0.0, 0.0]];
    let want = [[3.0, 1.0, 2.0], [6.0, 4.0, 5.0], [10.0, 7.0, 8.0]];
    assert_eq!(encodings33(mat3_mul(&b33(a), &b33(b))), bits33(want));
    let mut numbers = Numbers { state: 7 };
    for _ in 0..1000 {
        let a = [numbers.vector(), numbers.vector(), numbers.vector()];
        let b = [numbers.vector(), numbers.vector(), numbers.vector()];
        let mut want = [[0.0; 3]; 3];
        for i in 0..3 {
            for j in 0..3 {
                want[i][j] = a[i][0] * b[0][j] + a[i][1] * b[1][j] + a[i][2] * b[2][j];
            }
        }
        assert_eq!(encodings33(mat3_mul(&b33(a), &b33(b))), bits33(want));
    }
}

#[test]
fn rotation_by_zero_is_the_identity() {
    let m = so3_exp(&b3([0.0; 3]), &no_sin_cos);
    for i in 0..3 {
        for j in 0..3 {
            let want = if i == j { 1.0 } else { 0.0 };
            assert_eq!(f64::from_bits(m[i][j].bits), want);
        }
    }
}

#[test]
fn short_rotations_are_expanded_around_zero() {
    for w in [[1e-10, 0.0, 0.0], [3e-10, -4e-10, 5e-10], [0.0, 9.9e-10, 0.0], [5e-324, 0.0, 0.0]] {
        let got = encodings33(so3_exp(&b3(w), &no_sin_cos));
        assert_eq!(got, bits33(machine_rotation(w)));
    }
}

#[test]
fn quarter_turn_takes_x_to_y() {
    let w = [0.0, 0.0, std::f64::consts::FRAC_PI_2];
    let m = so3_exp(&b3(w), &sin_cos);
    let x = b3([1.0, 0.0, 0.0]);
    let turned = [0, 1, 2].map(|row| f64::from_bits(mat3_row_dot(&m, row, &x).bits));
    assert!((turned[0]).abs() < 1e-15);
    assert_eq!(turned[1], 1.0);
    assert_eq!(turned[2], 0.0);
}

#[test]
fn rotation_matches_the_machine() {
    let mut numbers = Numbers { state: 11 };
    for i in 0..2000 {
        let scale = [3.0, 0.1, 1e-4, 1e-8, 1e-9][i % 5];
        let w = numbers.vector().map(|x| x * scale);
        let got = encodings33(so3_exp(&b3(w), &sin_cos));
        assert_eq!(got, bits33(machine_rotation(w)), "{w:?}");
        let (s, c) = (w[0] * w[0] + w[1] * w[1] + w[2] * w[2]).sqrt().sin_cos();
        assert_eq!(encodings33(so3_from_sin_cos(&b3(w), b64(s), b64(c))), got);
    }
}

#[test]
fn solve_of_a_diagonal_system_is_exact() {
    let a = diagonal([4.0, 16.0, 1.0, 9.0, 36.0, 9.0]);
    let (x, pivot) = solve(&a, &[8.0, -16.0, 3.0, 18.0, 9.0, 0.0]).unwrap();
    assert_eq!(x, [2.0, -1.0, 3.0, 2.0, 0.25, 0.0]);
    // 1 of 16 among the rotations, 9 of 36 among the translations
    assert_eq!(pivot, 0.0625);
}

#[test]
fn solve_matches_the_machine() {
    let mut numbers = Numbers { state: 3 };
    let mut refused = 0;
    for i in 0..600 {
        // four to seven rows: below six the system is singular
        let rows = 4 + i % 4;
        let mut a = [[0.0; 6]; 6];
        for _ in 0..rows {
            let (p, q) = (numbers.vector(), numbers.vector());
            let j = [p[0], p[1], p[2], q[0], q[1], q[2]];
            for i in 0..6 {
                for k in 0..6 {
                    a[i][k] += j[i] * j[k];
                }
            }
        }
        let (p, q) = (numbers.vector(), numbers.vector());
        let b = [p[0], p[1], p[2], q[0], q[1], q[2]];
        let want = machine_solve(&a, &b);
        let got = solve(&a, &b);
        match (got, want) {
            (None, None) => refused += 1,
            (Some((x, p)), Some((y, q))) => {
                assert_eq!(x.map(|v| v.to_bits()), y.map(|v| v.to_bits()));
                assert_eq!(p.to_bits(), q.to_bits());
                assert!(p >= 1e-8);
            }
            _ => panic!("one of the two refused"),
        }
    }
    assert!(refused >= 200, "only {refused} systems were singular");
}

#[test]
fn unconstrained_coordinate_is_refused() {
    for i in 0..6 {
        let mut d = [1.0; 6];
        d[i] = 0.0;
        assert!(solve(&diagonal(d), &[1.0; 6]).is_none());
    }
}

#[test]
fn block_without_scale_is_refused() {
    assert!(solve(&diagonal([0.0, 0.0, 0.0, 1.0, 1.0, 1.0]), &[1.0; 6]).is_none());
    assert!(solve(&diagonal([1.0, 1.0, 1.0, -1.0, 0.0, -2.0]), &[1.0; 6]).is_none());
}

#[test]
fn blocks_are_guarded_separately() {
    // the rotation entries dwarf the translation ones, which are fine among themselves
    let a = diagonal([1e12, 2e12, 3e12, 1.0, 2.0, 3.0]);
    let (_, pivot) = solve(&a, &[0.0; 6]).unwrap();
    assert_eq!(pivot, 1.0 / 3.0);
    // a translation pivot that has collapsed among the translations is refused whatever the
    // rotation entries are
    for scale in [1e-12, 1.0, 1e12] {
        let a = diagonal([scale, scale, scale, 1.0, 0.9e-8, 1.0]);
        assert!(solve(&a, &[0.0; 6]).is_none());
    }
}

#[test]
fn pivots_at_the_threshold_are_accepted() {
    let a = diagonal([1.0, 1.0, 1e-8, 1.0, 1.0, 1.0]);
    let (_, pivot) = solve(&a, &[0.0; 6]).unwrap();
    assert_eq!(pivot, 1e-8);
    // a scale of three: the quotient comes out within one digit of the threshold
    let (_, pivot) = solve(&diagonal([3.0, 3.0, 1e-8 * 3.0, 1.0, 1.0, 1.0]), &[0.0; 6]).unwrap();
    assert!(pivot.to_bits() >= 1e-8f64.to_bits() - 1);
    let below = f64::from_bits(1e-8f64.to_bits() - 1);
    assert!(solve(&diagonal([1.0, 1.0, below, 1.0, 1.0, 1.0]), &[0.0; 6]).is_none());
}

#[test]
fn pivots_that_are_not_numbers_pass_the_guard() {
    let mut a = diagonal([1.0; 6]);
    a[1][1] = f64::NAN;
    let (x, pivot) = solve(&a, &[1.0; 6]).unwrap();
    let (y, weakest) = machine_solve(&a, &[1.0; 6]).unwrap();
    assert!(x[1].is_nan());
    assert_eq!(x.map(|v| v.is_nan()), y.map(|v| v.is_nan()));
    assert_eq!(pivot, weakest);
    assert_eq!(pivot, 1.0);
}

/// A well conditioned system and a right-hand side.
fn system(numbers: &mut Numbers) -> ([[f64; 6]; 6], [f64; 6]) {
    let mut a = diagonal([0.5; 6]);
    for _ in 0..8 {
        let (p, q) = (numbers.vector(), numbers.vector());
        let j = [p[0], p[1], p[2], q[0], q[1], q[2]];
        for i in 0..6 {
            for k in 0..6 {
                a[i][k] += j[i] * j[k];
            }
        }
    }
    let (p, q) = (numbers.vector(), numbers.vector());
    (a, [p[0], p[1], p[2], q[0], q[1], q[2]])
}

#[test]
fn right_hand_sides_do_not_change_the_verdict() {
    let mut numbers = Numbers { state: 21 };
    for _ in 0..200 {
        let (a, b) = system(&mut numbers);
        let (x, p) = solve(&a, &b).unwrap();
        let (y, q) = solve(&a, &b.map(|v| -v)).unwrap();
        let (z, r) = solve(&a, &[0.0; 6]).unwrap();
        assert_eq!(x.map(|v| -v), y);
        assert_eq!(z, [0.0; 6]);
        assert!(p == q && q == r);
    }
}

#[test]
fn reported_pivots_bound_the_form() {
    let mut numbers = Numbers { state: 29 };
    for round in 0..200 {
        let (mut a, b) = system(&mut numbers);
        // some of the systems see the last direction poorly
        if round % 2 == 0 {
            for k in 0..6 {
                a[4][k] = 0.5 * a[3][k];
                a[k][4] = a[4][k];
            }
            a[4][4] = 0.25 * a[3][3] + 1e-5;
        }
        let weakest = match solve(&a, &b) {
            Some((_, weakest)) => weakest,
            None => continue,
        };
        for i in 0..6 {
            let (p, q) = (numbers.vector(), numbers.vector());
            let mut x = [p[0], p[1], p[2], q[0], q[1], q[2]];
            if round % 2 == 0 && i == 4 {
                x = [0.0, 0.0, 0.0, -0.5, 1.0, 0.0];
            }
            for k in i + 1..6 {
                x[k] = 0.0;
            }
            let block = if i < 3 { 0 } else { 3 };
            let scale = (block..block + 3).map(|k| a[k][k]).fold(0.0, f64::max);
            let (mut form, mut size) = (0.0, 0.0);
            for j in 0..6 {
                size += x[j] * x[j] * a[j][j];
                for k in 0..6 {
                    form += x[j] * a[j][k] * x[k];
                }
            }
            let limit = form + 500.0 * (f64::EPSILON / 2.0) * size;
            assert!(weakest * scale * x[i] * x[i] <= limit * (1.0 + 1e-15));
        }
    }
}

#[test]
fn rescaled_blocks_have_the_same_pivots() {
    let mut numbers = Numbers { state: 22 };
    for i in 0..200 {
        let (mut a, b) = system(&mut numbers);
        if i % 4 == 0 {
            // a dependent row
            for k in 0..6 {
                a[4][k] = a[1][k];
            }
            for k in 0..6 {
                a[k][4] = a[k][1];
            }
        }
        let shift = [1024.0, 1024.0, 1024.0, 0.125, 0.125, 0.125];
        let mut c = a;
        let mut d = b;
        for i in 0..6 {
            d[i] = shift[i] * b[i];
            for k in 0..6 {
                c[i][k] = shift[i] * a[i][k] * shift[k];
            }
        }
        match (solve(&a, &b), solve(&c, &d)) {
            (None, None) => {}
            (Some((x, p)), Some((y, q))) => {
                assert_eq!(p, q);
                for i in 0..6 {
                    assert_eq!(x[i], y[i] * shift[i]);
                }
            }
            _ => panic!("one of the two refused"),
        }
    }
}

#[test]
fn solutions_satisfy_their_systems() {
    // every step is exact: the factor is [[2, 0], [1, 3]] in each block
    let mut a = diagonal([4.0, 10.0, 1.0, 4.0, 10.0, 1.0]);
    for i in [0, 3] {
        a[i][i + 1] = 2.0;
        a[i + 1][i] = 2.0;
    }
    let (x, _) = solve(&a, &[8.0, 22.0, 5.0, -4.0, 16.0, 0.0]).unwrap();
    assert_eq!(x, [1.0, 2.0, 5.0, -2.0, 2.0, 0.0]);
    let mut numbers = Numbers { state: 23 };
    for _ in 0..200 {
        let (a, b) = system(&mut numbers);
        let (x, _) = solve(&a, &b).unwrap();
        for i in 0..6 {
            let sum: f64 = (0..6).map(|j| a[i][j] * x[j]).sum();
            assert!((sum - b[i]).abs() < 1e-12);
        }
    }
}

#[test]
fn rotations_are_orthonormal() {
    let mut numbers = Numbers { state: 24 };
    for i in 0..2000 {
        let scale = [500.0, 3.0, 1e-3, 2e-9, 1e-9, 5e-10, 1e-12][i % 7];
        let w = numbers.vector().map(|x| x * scale);
        let m = so3_exp(&b3(w), &sin_cos).map(|row| row.map(|x| f64::from_bits(x.bits)));
        let back = so3_exp(&b3(w.map(|x| -x)), &sin_cos);
        for i in 0..3 {
            for j in 0..3 {
                let product: f64 = (0..3).map(|k| m[k][i] * m[k][j]).sum();
                let want = if i == j { 1.0 } else { 0.0 };
                assert!((product - want).abs() < 1e-9);
                assert!((f64::from_bits(back[i][j].bits) - m[j][i]).abs() < 2e-12);
            }
        }
        let det = m[0][0] * (m[1][1] * m[2][2] - m[1][2] * m[2][1])
            - m[0][1] * (m[1][0] * m[2][2] - m[1][2] * m[2][0])
            + m[0][2] * (m[1][0] * m[2][1] - m[1][1] * m[2][0]);
        assert!((det - 1.0).abs() < 1e-9);
    }
}

#[test]
fn identity_is_neutral_and_products_apply_the_second_first() {
    let identity = [[1.0, 0.0, 0.0], [0.0, 1.0, 0.0], [0.0, 0.0, 1.0]];
    let mut numbers = Numbers { state: 25 };
    let m = [numbers.vector(), numbers.vector(), numbers.vector()];
    assert_eq!(encodings33(mat3_mul(&b33(identity), &b33(m))), bits33(m));
    assert_eq!(encodings33(mat3_mul(&b33(m), &b33(identity))), bits33(m));
    let a = b33([[1.0, 2.0, 0.0], [0.0, 1.0, 3.0], [4.0, 0.0, 1.0]]);
    let b = b33([[0.0, 1.0, 0.5], [2.0, 0.0, 1.0], [1.0, 1.0, 0.0]]);
    let v = b3([1.0, -2.0, 4.0]);
    let ab = mat3_mul(&a, &b);
    let bv = [0, 1, 2].map(|row| mat3_row_dot(&b, row, &v));
    for row in 0..3 {
        assert_eq!(mat3_row_dot(&ab, row, &v).bits, mat3_row_dot(&a, row, &bv).bits);
    }
}

#[test]
fn rotations_about_one_axis_add_their_angles() {
    // halves of a power of two, so that the multiples of the axis are exact
    let axis = [0.375, -0.5, 0.75];
    let turn = |k: f64| so3_exp(&b3(axis.map(|x| x * k)), &sin_cos);
    let pairs = [
        (1.0, 2.0),
        (3.0, -1.0),
        (-2.0, -5.0),
        (4.0, -4.0),
        (2.0f64.powi(-32), 1.0),
        (2.0f64.powi(-31), -(2.0f64.powi(-40))),
        (256.0, -192.0),
    ];
    for (j, k) in pairs {
        let both = mat3_mul(&turn(j), &turn(k));
        let sum = turn(j + k);
        for row in 0..3 {
            for col in 0..3 {
                let (x, y) = (both[row][col].bits, sum[row][col].bits);
                assert!((f64::from_bits(x) - f64::from_bits(y)).abs() < 2e-8);
            }
        }
    }
    // a quarter turn about the third axis
    let quarter = std::f64::consts::FRAC_PI_2;
    let m = so3_exp(&b3([0.0, 0.0, quarter]), &sin_cos);
    let want = [[0.0, -1.0, 0.0], [1.0, 0.0, 0.0], [0.0, 0.0, 1.0]];
    for row in 0..3 {
        for col in 0..3 {
            assert!((f64::from_bits(m[row][col].bits) - want[row][col]).abs() < 5e-10);
        }
    }
}

#[test]
fn solutions_add_with_their_right_hand_sides() {
    // every step is exact: the factor is [[2, 0], [1, 3]] in each block
    let mut a = diagonal([4.0, 10.0, 1.0, 4.0, 10.0, 1.0]);
    for i in [0, 3] {
        a[i][i + 1] = 2.0;
        a[i + 1][i] = 2.0;
    }
    let b = [8.0, 22.0, 5.0, -4.0, 16.0, 0.0];
    let c = [0.0, 18.0, -1.0, 36.0, 18.0, 2.5];
    let mut sum = [0.0; 6];
    for i in 0..6 {
        sum[i] = b[i] + c[i];
    }
    let (x, p) = solve(&a, &b).unwrap();
    let (y, q) = solve(&a, &c).unwrap();
    let (z, r) = solve(&a, &sum).unwrap();
    assert_eq!(y, [-1.0, 2.0, -1.0, 9.0, 0.0, 2.5]);
    for i in 0..6 {
        assert_eq!(z[i], x[i] + y[i]);
    }
    assert!(p == q && q == r);
}

/// The lower triangular Cholesky factor of `a`, as the machine computes it.
fn machine_factor(a: &[[f64; 6]; 6]) -> [[f64; 6]; 6] {
    let mut l = [[0.0; 6]; 6];
    for i in 0..6 {
        for j in 0..=i {
            let mut rest = a[i][j];
            for k in 0..j {
                rest -= l[i][k] * l[j][k];
            }
            l[i][j] = if i == j { rest.sqrt() } else { rest / l[j][j] };
        }
    }
    l
}

/// A part of `|L| |L^T| |x|` in row `i`, as large as the residual of a solution can be.
fn residual_limit(a: &[[f64; 6]; 6], x: &[f64; 6], i: usize) -> f64 {
    let l = machine_factor(a);
    let mut sum = 0.0;
    for j in 0..6 {
        let gram: f64 = (0..6).map(|k| (l[i][k] * l[j][k]).abs()).sum();
        sum += gram * x[j].abs();
    }
    161.0 * (f64::EPSILON / 2.0) * sum + f64::MIN_POSITIVE
}

#[test]
fn residuals_stay_within_their_bound() {
    let mut numbers = Numbers { state: 26 };
    for round in 0..200 {
        let (mut a, b) = system(&mut numbers);
        // nearly dependent rows, but not refused
        if round % 2 == 0 {
            for i in 0..6 {
                a[i][i] *= 1.0 + 1e-3;
            }
        }
        let c = numbers.vector();
        let c = [c[0], c[1], c[2], 1.0, -2.0, c[0]];
        let mut sum = [0.0; 6];
        for i in 0..6 {
            sum[i] = b[i] + c[i];
        }
        let (x, p) = solve(&a, &b).unwrap();
        let (y, _) = solve(&a, &c).unwrap();
        let (z, _) = solve(&a, &sum).unwrap();
        assert!(p <= 1.0);
        for i in 0..6 {
            let row: f64 = (0..6).map(|j| a[i][j] * x[j]).sum();
            assert!((row - b[i]).abs() <= residual_limit(&a, &x, i) + 1e-15);
            let rest: f64 = (0..6).map(|j| a[i][j] * (z[j] - x[j] - y[j])).sum();
            let limit = residual_limit(&a, &x, i)
                + residual_limit(&a, &y, i)
                + residual_limit(&a, &z, i)
                + sum[i].abs() * f64::EPSILON;
            assert!(rest.abs() <= limit + 1e-15);
        }
    }
}

#[test]
fn rescaling_reaches_the_smallest_normal_numbers() {
    // the threshold of the first block lies between the two smallest normal powers of two
    let smallest = f64::MIN_POSITIVE * 1.5 / f64::from_bits(PIVOT_RTOL);
    let shift = 2.0f64.powi(200);
    let a = diagonal([smallest, 2.0 * smallest, 4.0 * smallest, 1.0, 2.0, 1.0]);
    let c = diagonal([
        smallest * shift,
        2.0 * smallest * shift,
        4.0 * smallest * shift,
        1.0,
        2.0,
        1.0,
    ]);
    let (_, p) = solve(&a, &[0.0; 6]).unwrap();
    let (_, q) = solve(&c, &[0.0; 6]).unwrap();
    assert_eq!(p, 0.25);
    assert_eq!(p, q);
}

#[test]
fn negated_vectors_invert_their_rotations() {
    let mut numbers = Numbers { state: 27 };
    for round in 0..1000 {
        let scale = [500.0, 3.0, 1e-3, 2e-9, 5e-10][round % 5];
        let w = numbers.vector().map(|x| x * scale);
        let p = so3_exp(&b3(w), &sin_cos);
        let n = so3_exp(&b3(w.map(|x| -x)), &sin_cos);
        for m in [mat3_mul(&p, &n), mat3_mul(&n, &p)] {
            for i in 0..3 {
                for j in 0..3 {
                    let want = if i == j { 1.0 } else { 0.0 };
                    assert!((f64::from_bits(m[i][j].bits) - want).abs() < 2e-9);
                }
            }
        }
    }
}

#[test]
fn products_of_rotations_stay_rotations() {
    let mut numbers = Numbers { state: 28 };
    let mut r = so3_exp(&b3(numbers.vector()), &sin_cos);
    for step in 1..200 {
        r = mat3_mul(&so3_exp(&b3(numbers.vector()), &sin_cos), &r);
        let m = r.map(|row| row.map(|x| f64::from_bits(x.bits)));
        for i in 0..3 {
            for j in 0..3 {
                let product: f64 = (0..3).map(|k| m[k][i] * m[k][j]).sum();
                let want = if i == j { 1.0 } else { 0.0 };
                assert!((product - want).abs() < 1e-9 + 7e-9 * step as f64);
            }
        }
    }
}

#[test]
fn products_nearly_apply_the_second_first() {
    let mut numbers = Numbers { state: 29 };
    for _ in 0..500 {
        let a = [numbers.vector(), numbers.vector(), numbers.vector()];
        let b = [numbers.vector(), numbers.vector(), numbers.vector()];
        let v = numbers.vector();
        let ab = mat3_mul(&b33(a), &b33(b));
        let bv = [0, 1, 2].map(|row| mat3_row_dot(&b33(b), row, &b3(v)));
        for i in 0..3 {
            let x = f64::from_bits(mat3_row_dot(&ab, i, &b3(v)).bits);
            let y = f64::from_bits(mat3_row_dot(&b33(a), i, &bv).bits);
            let mut size = 0.0;
            for j in 0..3 {
                for k in 0..3 {
                    size += (a[i][j] * b[j][k] * v[k]).abs();
                }
            }
            assert!((x - y).abs() <= 25.0 * (f64::EPSILON / 2.0) * size);
        }
    }
}

#[test]
fn rotations_by_multiples_of_a_vector_add() {
    let mut numbers = Numbers { state: 30 };
    for round in 0..500 {
        let w = numbers.vector();
        let scale = [3.0, 100.0, 1e-4, 1e-9][round % 4];
        let (s, t) = (numbers.next() * scale, numbers.next() * scale);
        let turn = |k: f64| so3_exp(&b3(w.map(|x| x * k)), &sin_cos);
        let both = mat3_mul(&turn(s), &turn(t));
        let sum = turn(s + t);
        for i in 0..3 {
            for j in 0..3 {
                let (x, y) = (both[i][j].bits, sum[i][j].bits);
                assert!((f64::from_bits(x) - f64::from_bits(y)).abs() < 2e-8);
            }
        }
    }
}

#[test]
fn short_vectors_do_not_ask_for_angles() {
    let mut numbers = Numbers { state: 31 };
    for _ in 0..100 {
        let w = b3(numbers.vector().map(|x| x * 1e-10));
        let m = so3_exp(&w, &no_sin_cos);
        let other = so3_from_sin_cos(&w, b64(7.0), b64(f64::NAN));
        assert_eq!(encodings33(m), encodings33(other));
    }
}
