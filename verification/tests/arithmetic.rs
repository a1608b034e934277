//! The integer arithmetic against the arithmetic of the machine's own doubles.
use rgbd_icp::binary64::{Binary32, Binary64};

/// A deterministic stream of 64-bit words.
struct Words {
    state: u64,
}

impl Words {
    fn next(&mut self) -> u64 {
        self.state = self.state.wrapping_add(0x9e37_79b9_7f4a_7c15);
        let mut z = self.state;
        z = (z ^ (z >> 30)).wrapping_mul(0xbf58_476d_1ce4_e5b9);
        z = (z ^ (z >> 27)).wrapping_mul(0x94d0_49bb_1331_11eb);
        z ^ (z >> 31)
    }
}

/// Encodings at the edges: zeros, subnormals, powers of two, the largest numbers,
/// infinities and a value that is not a number.
fn edges() -> Vec<u64> {
    let mut out: Vec<u64> = vec![
        0,
        1,
        2,
        3,
        0x000f_ffff_ffff_ffff,
        0x0010_0000_0000_0000,
        0x0010_0000_0000_0001,
        0x001f_ffff_ffff_ffff,
        0x0020_0000_0000_0000,
        0x3ca0_0000_0000_0000,
        0x3ca0_0000_0000_0001,
        0x3fe0_0000_0000_0000,
        0x3fdf_ffff_ffff_ffff,
        0x3ff0_0000_0000_0000,
        0x3ff0_0000_0000_0001,
        0x3ff8_0000_0000_0000,
        0x4000_0000_0000_0000,
        0x4004_0000_0000_0000,
        0x4340_0000_0000_0000,
        0x4340_0000_0000_0001,
        0x4330_0000_0000_0001,
        0x7fef_ffff_ffff_ffff,
        0x7fe0_0000_0000_0000,
        0x7ff0_0000_0000_0000,
        0x7ff8_0000_0000_0000,
        0x7ff0_0000_0000_0001,
    ];
    let mirrored: Vec<u64> = out.iter().map(|b| b | 0x8000_0000_0000_0000).collect();
    out.extend(mirrored);
    out
}

fn same(ours: Binary64, machine: f64) -> bool {
    if machine.is_nan() {
        ours.bits == 0x7ff8_0000_0000_0000
    } else {
        ours.bits == machine.to_bits()
    }
}

fn compare_pair(a: u64, b: u64) {
    let (x, y) = (Binary64::from_bits(a), Binary64::from_bits(b));
    let (u, v) = (f64::from_bits(a), f64::from_bits(b));
    assert!(same(x + y, u + v), "{u:e} + {v:e}");
    assert!(same(x - y, u - v), "{u:e} - {v:e}");
    assert!(same(x * y, u * v), "{u:e} * {v:e}");
    assert!(same(x / y, u / v), "{u:e} / {v:e}");
    assert_eq!(x.less_than(y), u < v, "{u:e} < {v:e}");
    assert_eq!(x.at_most(y), u <= v, "{u:e} <= {v:e}");
    if u != v && !(u.is_nan() && v.is_nan()) {
        assert_eq!(x.max(y).bits, u.max(v).to_bits(), "max of {u:e} and {v:e}");
        assert_eq!(x.min(y).bits, u.min(v).to_bits(), "min of {u:e} and {v:e}");
    }
}

fn compare_one(a: u64) {
    let x = Binary64::from_bits(a);
    let u = f64::from_bits(a);
    assert!(same(x.sqrt(), u.sqrt()), "sqrt {u:e}");
    assert!(same(x.round(), u.round()), "round {u:e}");
    assert_eq!(x.to_index(), u as usize, "index of {u:e}");
    assert_eq!(x.is_nan(), u.is_nan());
    assert_eq!(x.abs().bits, u.abs().to_bits());
    assert_eq!(x.negated().bits, (-u).to_bits());
    assert!(same(Binary64::of_count(a as usize), (a as usize) as f64), "count {a}");
    let narrow = (a >> 17) as u32;
    assert!(
        same(Binary32::from_bits(narrow).widen(), f32::from_bits(narrow) as f64),
        "widen {narrow:x}"
    );
}

#[test]
fn edge_encodings_match_the_machine() {
    let all = edges();
    for &a in &all {
        compare_one(a);
        for &b in &all {
            compare_pair(a, b);
        }
    }
}

#[test]
fn random_encodings_match_the_machine() {
    let mut words = Words { state: 1 };
    for _ in 0..1_000_000 {
        let (a, b) = (words.next(), words.next());
        compare_one(a);
        compare_pair(a, b);
    }
}

#[test]
fn close_exponents_match_the_machine() {
    let mut words = Words { state: 2 };
    for _ in 0..1_000_000 {
        let a = words.next();
        let b = words.next();
        let shift = words.next() % 140;
        let exponent = ((a >> 52) & 0x7ff).wrapping_add(shift).wrapping_sub(70) & 0x7ff;
        let near = (b & 0x800f_ffff_ffff_ffff) | (exponent << 52);
        compare_pair(a, near);
        compare_pair(near, a);
    }
}

#[test]
fn small_numbers_match_the_machine() {
    let mut words = Words { state: 3 };
    for _ in 0..300_000 {
        let a = ((words.next() % 4_000_001) as f64 - 2_000_000.0) / 64.0;
        let b = ((words.next() % 4_001) as f64 - 2_000.0) / 8.0;
        compare_one(a.to_bits());
        compare_pair(a.to_bits(), b.to_bits());
        compare_pair(a.to_bits(), a.to_bits());
        let narrow = (words.next() & 0x80ff_ffff) as u32;
        assert!(same(Binary32::from_bits(narrow).widen(), f32::from_bits(narrow) as f64));
    }
}

#[test]
fn ties_go_to_the_even_neighbour() {
    let number = |x: f64| Binary64::from_bits(x.to_bits());
    let half_unit = 2f64.powi(-53);
    let sum = number(1.0) + number(half_unit);
    assert_eq!(sum.bits, 1.0f64.to_bits());
    let sum = number(1.0) + number(3.0 * half_unit);
    assert_eq!(sum.bits, 1.0f64.to_bits() + 2);
    let above = f64::from_bits(half_unit.to_bits() + 1);
    assert_eq!((number(1.0) + number(above)).bits, 1.0f64.to_bits() + 1);
}

#[test]
fn quotients_round_to_the_nearest_number() {
    // a / b lies between the midpoints around its rounding q * 2^-53
    let mut words = Words { state: 5 };
    for _ in 0..10_000 {
        let b = (words.next() >> 12) as u128 + (1 << 52);
        let a = (words.next() >> 12) as u128 + (1 << 52);
        let (a, b) = if a < b { (a, b) } else { (b, a) };
        let x = Binary64::of_count(a as usize) / Binary64::of_count(b as usize);
        if a == b {
            assert_eq!(x.bits, 1.0f64.to_bits());
            continue;
        }
        let q = (f64::from_bits(x.bits) * 2f64.powi(53)) as u128;
        let twice = 2 * a * (1 << 53);
        assert!((2 * q - 1) * b <= twice && twice <= (2 * q + 1) * b, "{a} / {b}");
    }
}

#[test]
fn roots_round_to_the_nearest_number() {
    let mut words = Words { state: 9 };
    for _ in 0..10_000 {
        // the root of n * 2^52 has 53 bits
        let n = (words.next() >> 12) as u128 + (1 << 52);
        let x = Binary64::of_count(n as usize).sqrt();
        let root = (f64::from_bits(x.bits) * 2f64.powi(26)) as u128;
        let square = 4 * (n << 52);
        assert!((2 * root - 1) * (2 * root - 1) <= square, "{n}");
        assert!(square <= (2 * root + 1) * (2 * root + 1), "{n}");
    }
}
