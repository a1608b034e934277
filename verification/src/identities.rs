//! Identities of real numbers.
use crate::rotations::{defect, exact_diagonal, exact_side, real_norm};
use vstd::prelude::*;

verus! {

/// The determinant of a matrix of real numbers, given row by row.
#[verifier::opaque]
pub open spec fn real_determinant(
    m00: real,
    m01: real,
    m02: real,
    m10: real,
    m11: real,
    m12: real,
    m20: real,
    m21: real,
    m22: real,
) -> real {
    m00 * (m11 * m22 - m12 * m21) - m01 * (m10 * m22 - m12 * m20) + m02 * (m10 * m21 - m11 * m20)
}

proof fn lemma_row_term(t: real, c: real, f: real)
    by (nonlinear_arith)
    ensures
        ((1 as real) - t) * (c + f) == c + f - c * t - f * t,
{
}

proof fn lemma_row_side(w: real, p: real, g: real)
    by (nonlinear_arith)
    ensures
        (-w + p) * (w - g) == w * g - w * w + p * w - p * g,
{
}

proof fn lemma_row_last(v: real, q: real, h: real)
    by (nonlinear_arith)
    ensures
        (v + q) * (v + h) == v * v + v * h + q * v + q * h,
{
}

proof fn lemma_unit_products(t: real, s: real)
    by (nonlinear_arith)
    ensures
        ((1 as real) - t) * ((1 as real) - s) == (1 as real) - t - s + t * s,
{
}

proof fn lemma_conjugate(u: real, r: real)
    by (nonlinear_arith)
    ensures
        (-u + r) * (u + r) == r * r - u * u,
{
}

proof fn lemma_expand(a: real, b: real, c: real, d: real)
    by (nonlinear_arith)
    ensures
        (a + b) * (c + d) == a * c + a * d + b * c + b * d,
{
}

proof fn lemma_expand_less(a: real, b: real, t: real)
    by (nonlinear_arith)
    ensures
        (a + b) * ((1 as real) - t) == a + b - a * t - b * t,
        ((1 as real) - t) * (-a + b) == -a + b + a * t - b * t,
{
}

proof fn lemma_expand_signs(u: real, r: real, v: real, q: real)
    by (nonlinear_arith)
    ensures
        (-u + r) * (-v + q) == u * v - u * q - v * r + r * q,
{
}

proof fn lemma_first_row(
    t: real,
    c: real,
    f: real,
    p: real,
    w: real,
    g: real,
    v: real,
    q: real,
    h: real,
    k: real,
)
    requires
        p * w == q * v,
        w * g == v * h,
        p * g + q * h == f * t,
        w * w + v * v == k,
    ensures
        ((1 as real) - t) * (c + f) - (-w + p) * (w - g) + (v + q) * (v + h) == c - c * t + f + k,
{
    lemma_row_term(t, c, f);
    lemma_row_side(w, p, g);
    lemma_row_last(v, q, h);
}

proof fn lemma_first_side(
    w: real,
    p: real,
    t: real,
    u: real,
    r: real,
    v: real,
    q: real,
    k: real,
    l: real,
)
    requires
        w * t == u * q + v * r,
        p * t + r * q == k,
        u * v == l,
    ensures
        (w + p) * ((1 as real) - t) - (-u + r) * (-v + q) == w + p - k - l,
{
    lemma_expand_less(w, p, t);
    lemma_expand_signs(u, r, v, q);
}

proof fn lemma_second_side(
    w: real,
    p: real,
    t: real,
    u: real,
    r: real,
    v: real,
    q: real,
    k: real,
    l: real,
)
    requires
        w * r + p * u == v * t,
        p * r + q * t == k,
        w * u == l,
    ensures
        (w + p) * (u + r) - ((1 as real) - t) * (-v + q) == v - q + k + l,
{
    lemma_expand(w, p, u, r);
    lemma_expand_less(v, q, t);
}

proof fn lemma_diagonal_cofactor(t: real, s: real, u: real, r: real, k: real, l: real)
    requires
        t * s - r * r == k,
        u * u == l,
    ensures
        ((1 as real) - t) * ((1 as real) - s) - (-u + r) * (u + r) == (1 as real) - t - s + k + l,
{
    lemma_unit_products(t, s);
    lemma_conjugate(u, r);
}

proof fn lemma_monomial_squares(b: real, x: real, y: real, z: real)
    ensures
        ((b * x) * y) * (b * (x * x + y * y)) + ((b * y) * z) * ((b * x) * z) == ((b * b) * (x * y))
            * (x * x + y * y + z * z),
{
    let (u, v, w) = (x * x, y * y, z * z);
    lemma_plain_factor(b, x, y, u + v);
    lemma_shared_factor(b, x, y, z);
    lemma_sum_factor((b * b) * (x * y), u + v, w);
}

proof fn lemma_plain_factor(b: real, x: real, y: real, d: real)
    by (nonlinear_arith)
    ensures
        ((b * x) * y) * (b * d) == ((b * b) * (x * y)) * d,
{
}

proof fn lemma_shared_factor(b: real, x: real, y: real, z: real)
    by (nonlinear_arith)
    ensures
        ((b * y) * z) * ((b * x) * z) == ((b * b) * (x * y)) * (z * z),
{
}

proof fn lemma_monomial_sides(a: real, b: real, x: real, y: real, z: real)
    ensures
        (a * z) * (b * (x * x + y * y)) == (a * x) * ((b * x) * z) + (a * y) * ((b * y) * z),
{
    lemma_four_factors(a, b, z, x * x + y * y);
    lemma_square_factor(a, b, x, z);
    lemma_square_factor(a, b, y, z);
    lemma_sum_factor((a * b) * z, x * x, y * y);
}

proof fn lemma_four_factors(a: real, b: real, z: real, d: real)
    by (nonlinear_arith)
    ensures
        (a * z) * (b * d) == ((a * b) * z) * d,
{
}

proof fn lemma_square_factor(a: real, b: real, x: real, z: real)
    by (nonlinear_arith)
    ensures
        (a * x) * ((b * x) * z) == ((a * b) * z) * (x * x),
{
}

proof fn lemma_sum_factor(c: real, d: real, e: real)
    by (nonlinear_arith)
    ensures
        c * (d + e) == c * d + c * e,
        c * (d - e) == c * d - c * e,
{
}

proof fn lemma_paired(b: real, c: real, d: real)
    by (nonlinear_arith)
    ensures
        (b * c) * (b * d) == (b * b) * (c * d),
{
}

proof fn lemma_three_squares(x: real, y: real, z: real)
    by (nonlinear_arith)
    ensures
        (x + z) * (x + y) == x * (x + y + z) + y * z,
{
}

proof fn lemma_flat_square(b: real, y: real, z: real)
    by (nonlinear_arith)
    ensures
        ((b * y) * z) * ((b * y) * z) == (b * b) * ((y * y) * (z * z)),
{
}

proof fn lemma_triple_factor(c: real, x: real, n: real)
    by (nonlinear_arith)
    ensures
        c * (x * n) == (c * x) * n,
{
}

proof fn lemma_monomial_diagonal(b: real, x: real, y: real, z: real)
    ensures
        (b * (x * x + z * z)) * (b * (x * x + y * y)) - ((b * y) * z) * ((b * y) * z) == ((b
            * b) * (x * x)) * (x * x + y * y + z * z),
{
    let (u, v, w) = (x * x, y * y, z * z);
    lemma_paired(b, u + w, u + v);
    lemma_flat_square(b, y, z);
    lemma_three_squares(u, v, w);
    lemma_sum_factor(b * b, u * (u + v + w), v * w);
    lemma_triple_factor(b * b, u, u + v + w);
}

proof fn lemma_shift_sum(b: real, u: real, v: real, w: real)
    by (nonlinear_arith)
    ensures
        b * (u + w) + b * (u + v) == b * (u + v + w) + b * u,
{
}

proof fn lemma_cross_terms(a: real, b: real, x: real, y: real, z: real)
    by (nonlinear_arith)
    ensures
        ((b * x) * y) * (a * z) == ((b * x) * z) * (a * y),
{
}

proof fn lemma_cross_thirds(a: real, g: real, x: real, y: real, z: real)
    by (nonlinear_arith)
    ensures
        (a * z) * ((x * y) * g) == (a * y) * ((x * z) * g),
{
}

proof fn lemma_fourth_order(b: real, g: real, x: real, y: real)
    by (nonlinear_arith)
    ensures
        ((b * x) * y) * ((x * y) * g) == ((x * x) * g) * (b * (y * y)),
{
}

proof fn lemma_last_terms(m: real, t: real, e: real)
    by (nonlinear_arith)
    ensures
        ((1 as real) - m) * t == t - m * t,
        (e + t) * m == e * m + m * t,
{
}

proof fn lemma_scalar_terms(x: real, a: real, b: real, k: real)
    by (nonlinear_arith)
    ensures
        x * (a - b + k) == a * x - b * x + x * k,
{
}

proof fn lemma_defect_terms(b: real, a: real, k: real, n: real)
    by (nonlinear_arith)
    ensures
        ((2 as real) * b - a - k) * n == (2 as real) * (b * n) - a * n - k * n,
{
}

proof fn lemma_two_products(b: real, x: real, n: real)
    by (nonlinear_arith)
    ensures
        x * ((b * b) * n) == (b * x) * (b * n),
        ((b * b) * n) * n == (b * n) * (b * n),
{
}

/// The last step of the determinant.
proof fn lemma_determinant_terms(a: real, b: real, x: real, p: real)
    ensures
        ({
            let n = x + p;
            let c = (1 as real) - b * n;
            c - c * (b * p) + x * (a - b + (b * b) * n) + a * p == (1 as real) - ((2 as real) * b
                - a - (b * b) * n) * n
        }),
{
    let n = x + p;
    let (m, t, e) = (b * n, b * p, b * x);
    lemma_sum_factor(b, x, p);
    lemma_sum_factor(a, x, p);
    lemma_last_terms(m, t, e);
    lemma_scalar_terms(x, a, b, (b * b) * n);
    lemma_two_products(b, x, n);
    lemma_defect_terms(b, a, (b * b) * n, n);
}

proof fn lemma_flat_products(b: real, x: real, y: real)
    by (nonlinear_arith)
    ensures
        (b * y) * x == (b * x) * y,
{
}

proof fn lemma_sign_product(a: real, x: real)
    by (nonlinear_arith)
    ensures
        (-a) * x == -(a * x),
{
}

pub proof fn lemma_turned_product(a: real, b: real)
    by (nonlinear_arith)
    ensures
        a * b == b * a,
{
}

proof fn lemma_sign_right(b: real, d: real)
    by (nonlinear_arith)
    ensures
        b * (-d) == -(b * d),
{
}

proof fn lemma_g_times(s: real, a: real, b: real, n: real)
    ensures
        s * (a * a - b + (b * b) * n) == (a * a) * s - b * s + ((b * b) * s) * n,
{
    lemma_scalar_terms(s, a * a, b, (b * b) * n);
    lemma_rotate_factors(s, b * b, n);
}

proof fn lemma_rotate_factors(s: real, c: real, n: real)
    by (nonlinear_arith)
    ensures
        s * (c * n) == (c * s) * n,
{
}

/// The entries of the exact matrix in terms of monomials.
proof fn lemma_entry_forms(a: real, b: real, x: real, y: real, z: real)
    ensures
        ({
            let n = real_norm(x, y, z);
            let (p, q, r) = ((b * x) * y, (b * x) * z, (b * y) * z);
            &&& exact_diagonal(b, x, n) == (1 as real) - b * (y * y + z * z)
            &&& exact_diagonal(b, y, n) == (1 as real) - b * (x * x + z * z)
            &&& exact_diagonal(b, z, n) == (1 as real) - b * (x * x + y * y)
            &&& exact_side(-a, z, b, x, y) == -(a * z) + p
            &&& exact_side(a, y, b, x, z) == a * y + q
            &&& exact_side(a, z, b, y, x) == a * z + p
            &&& exact_side(-a, x, b, y, z) == -(a * x) + r
            &&& exact_side(-a, y, b, z, x) == -(a * y) + q
            &&& exact_side(a, x, b, z, y) == a * x + r
        }),
{
    let n = real_norm(x, y, z);
    assert(x * x - n == -(y * y + z * z));
    assert(y * y - n == -(x * x + z * z));
    assert(z * z - n == -(x * x + y * y));
    lemma_sign_right(b, y * y + z * z);
    lemma_sign_right(b, x * x + z * z);
    lemma_sign_right(b, x * x + y * y);
    lemma_sign_product(a, x);
    lemma_sign_product(a, y);
    lemma_sign_product(a, z);
    lemma_flat_products(b, x, y);
    lemma_flat_products(b, x, z);
    lemma_flat_products(b, y, z);
}

proof fn lemma_cofactor_diagonal(a: real, b: real, x: real, y: real, z: real)
    ensures
        ({
            let n = real_norm(x, y, z);
            let g = a * a - b + (b * b) * n;
            let r = (b * y) * z;
            ((1 as real) - b * (x * x + z * z)) * ((1 as real) - b * (x * x + y * y)) - (-(a * x)
                + r) * (a * x + r) == ((1 as real) - b * n) + (x * x) * g
        }),
{
    let n = real_norm(x, y, z);
    let r = (b * y) * z;
    let (t, s) = (b * (x * x + z * z), b * (x * x + y * y));
    let k = ((b * b) * (x * x)) * n;
    let l = (a * a) * (x * x);
    lemma_monomial_diagonal(b, x, y, z);
    lemma_paired(a, x, x);
    lemma_diagonal_cofactor(t, s, a * x, r, k, l);
    lemma_shift_sum(b, x * x, y * y, z * z);
    lemma_g_times(x * x, a, b, n);
}

proof fn lemma_cofactor_first(a: real, b: real, x: real, y: real, z: real)
    ensures
        ({
            let n = real_norm(x, y, z);
            let g = a * a - b + (b * b) * n;
            let (p, q, r) = ((b * x) * y, (b * x) * z, (b * y) * z);
            (a * z + p) * ((1 as real) - b * (x * x + y * y)) - (-(a * x) + r) * (-(a * y) + q) == a
                * z - (x * y) * g
        }),
{
    let n = real_norm(x, y, z);
    let (p, q, r) = ((b * x) * y, (b * x) * z, (b * y) * z);
    let t = b * (x * x + y * y);
    let k = ((b * b) * (x * y)) * n;
    let l = (a * a) * (x * y);
    lemma_monomial_sides(a, b, x, y, z);
    lemma_monomial_squares(b, x, y, z);
    lemma_paired(a, x, y);
    lemma_first_side(a * z, p, t, a * x, r, a * y, q, k, l);
    lemma_g_times(x * y, a, b, n);
    lemma_triple_factor(b, x, y);
}

proof fn lemma_cofactor_second(a: real, b: real, x: real, y: real, z: real)
    ensures
        ({
            let n = real_norm(x, y, z);
            let g = a * a - b + (b * b) * n;
            let (p, q, r) = ((b * x) * y, (b * x) * z, (b * y) * z);
            (a * z + p) * (a * x + r) - ((1 as real) - b * (x * x + z * z)) * (-(a * y) + q) == a
                * y + (x * z) * g
        }),
{
    let n = real_norm(x, y, z);
    let (p, q, r) = ((b * x) * y, (b * x) * z, (b * y) * z);
    let t = b * (x * x + z * z);
    let k = ((b * b) * (x * z)) * n;
    let l = (a * a) * (x * z);
    // a z r + p a x = a y t
    lemma_monomial_sides(a, b, x, z, y);
    lemma_flat_products(b, y, z);
    lemma_turned_product(a * x, p);
    assert((a * z) * r + p * (a * x) == (a * y) * t);
    // p r + q t = k
    lemma_monomial_squares(b, x, z, y);
    lemma_turned_product(r, p);
    assert(x * x + z * z + y * y == n);
    assert(p * r + q * t == k);
    lemma_paired(a, z, x);
    lemma_turned_product(z, x);
    lemma_second_side(a * z, p, t, a * x, r, a * y, q, k, l);
    lemma_g_times(x * z, a, b, n);
    lemma_triple_factor(b, x, z);
}

/// The determinant of the exact matrix is one up to the defect.
pub proof fn lemma_exact_determinant(a: real, b: real, x: real, y: real, z: real)
    ensures
        ({
            let n = real_norm(x, y, z);
            real_determinant(
                exact_diagonal(b, x, n),
                exact_side(-a, z, b, x, y),
                exact_side(a, y, b, x, z),
                exact_side(a, z, b, y, x),
                exact_diagonal(b, y, n),
                exact_side(-a, x, b, y, z),
                exact_side(-a, y, b, z, x),
                exact_side(a, x, b, z, y),
                exact_diagonal(b, z, n),
            ) == (1 as real) - defect(a, b, n) * n
        }),
{
    reveal(real_determinant);
    let n = real_norm(x, y, z);
    let g = a * a - b + (b * b) * n;
    let (p, q) = ((b * x) * y, (b * x) * z);
    let (v, w) = (a * y, a * z);
    let t = b * (y * y + z * z);
    let c = (1 as real) - b * n;
    let f = (x * x) * g;
    let (gy, gz) = ((x * y) * g, (x * z) * g);
    let k = (a * a) * (y * y + z * z);
    lemma_entry_forms(a, b, x, y, z);
    lemma_cofactor_diagonal(a, b, x, y, z);
    lemma_cofactor_first(a, b, x, y, z);
    lemma_cofactor_second(a, b, x, y, z);
    assert(p * w == q * v) by {
        lemma_cross_terms(a, b, x, y, z);
    }
    assert(w * gy == v * gz) by {
        lemma_cross_thirds(a, g, x, y, z);
    }
    assert(p * gy + q * gz == f * t) by {
        lemma_fourth_order(b, g, x, y);
        lemma_fourth_order(b, g, x, z);
        lemma_sum_factor(b, y * y, z * z);
        lemma_sum_factor(f, b * (y * y), b * (z * z));
    }
    assert(w * w + v * v == k) by {
        lemma_paired(a, z, z);
        lemma_paired(a, y, y);
        lemma_sum_factor(a * a, y * y, z * z);
    }
    lemma_first_row(t, c, f, p, w, gy, v, q, gz, k);
    lemma_determinant_terms(a * a, b, x * x, y * y + z * z);
}

// ---------------------------------------------------------------------------
// Rotations about one axis
// ---------------------------------------------------------------------------

/// An entry on the diagonal of the rotation about an axis: `u` is the axis' own entry.
pub open spec fn turn_diagonal(c: real, u: real) -> real {
    c + ((1 as real) - c) * (u * u)
}

/// An entry off the diagonal of the rotation about an axis: `u` is the axis' third entry, and `m`
/// the product of the other two.
pub open spec fn turn_side(s: real, u: real, c: real, m: real) -> real {
    s * u + ((1 as real) - c) * m
}

/// The rotation about the axis `(x, y, z)` by the angle with sine `s` and cosine `c`.
pub open spec fn turn_entry(
    s: real,
    c: real,
    x: real,
    y: real,
    z: real,
    i: int,
    j: int,
) -> real {
    if i == 0 && j == 0 {
        turn_diagonal(c, x)
    } else if i == 1 && j == 1 {
        turn_diagonal(c, y)
    } else if i == 2 && j == 2 {
        turn_diagonal(c, z)
    } else if i == 0 && j == 1 {
        turn_side(-s, z, c, x * y)
    } else if i == 1 && j == 0 {
        turn_side(s, z, c, x * y)
    } else if i == 0 && j == 2 {
        turn_side(s, y, c, x * z)
    } else if i == 2 && j == 0 {
        turn_side(-s, y, c, x * z)
    } else if i == 1 && j == 2 {
        turn_side(-s, x, c, y * z)
    } else {
        turn_side(s, x, c, y * z)
    }
}

proof fn lemma_pairs(a: real, u: real, b: real, v: real)
    by (nonlinear_arith)
    ensures
        (a * u) * (b * v) == (a * b) * (u * v),
{
}

proof fn lemma_pairs_first_less(a: real, u: real, b: real, v: real)
    by (nonlinear_arith)
    ensures
        ((-a) * u) * (b * v) == -((a * b) * (u * v)),
{
}

proof fn lemma_pairs_last_less(a: real, u: real, b: real, v: real)
    by (nonlinear_arith)
    ensures
        (a * u) * ((-b) * v) == -((a * b) * (u * v)),
{
}

proof fn lemma_scaled(a: real, b: real, v: real)
    by (nonlinear_arith)
    ensures
        a * (b * v) == (a * b) * v,
        (b * v) * a == (b * a) * v,
        a * ((-b) * v) == -((a * b) * v),
        ((-b) * v) * a == -((b * a) * v),
{
}

proof fn lemma_three_factors(k: real, p: real, q: real, r: real)
    by (nonlinear_arith)
    ensures
        k * p + k * q + k * r == k * (p + q + r),
{
}

proof fn lemma_four_coefficients(a: real, b: real, c: real, d: real, p: real)
    by (nonlinear_arith)
    ensures
        a * p + b * p + c * p + d * p == (a + b + c + d) * p,
{
}

proof fn lemma_two_coefficients(a: real, b: real, z: real)
    by (nonlinear_arith)
    ensures
        -(a * z) - (b * z) == (-(b + a)) * z,
{
}

proof fn lemma_complements(c: real, d: real)
    by (nonlinear_arith)
    ensures
        c * ((1 as real) - d) + ((1 as real) - c) * d + ((1 as real) - c) * ((1 as real) - d) == (
        1 as real) - c * d,
{
}

/// An entry above the diagonal of the product of two rotations about one axis.
proof fn lemma_upper_product(
    c1: real,
    s1: real,
    c2: real,
    s2: real,
    x: real,
    y: real,
    z: real,
    xx: real,
    yy: real,
    p: real,
    q: real,
    r: real,
)
    requires
        xx * z == q * x,
        z * yy == y * r,
        y * x == p,
        xx * p + p * yy + q * r == p,
    ensures
        ({
            let (k1, k2) = ((1 as real) - c1, (1 as real) - c2);
            (c1 + k1 * xx) * ((-s2) * z + k2 * p) + ((-s1) * z + k1 * p) * (c2 + k2 * yy) + (s1 * y
                + k1 * q) * (s2 * x + k2 * r) == (-(s1 * c2 + c1 * s2)) * z + ((1 as real) - (c1
                * c2 - s1 * s2)) * p
        }),
{
    let (k1, k2) = ((1 as real) - c1, (1 as real) - c2);
    let (e1, e2) = (-s1, -s2);
    lemma_expand(c1, k1 * xx, e2 * z, k2 * p);
    lemma_expand(e1 * z, k1 * p, c2, k2 * yy);
    lemma_expand(s1 * y, k1 * q, s2 * x, k2 * r);
    lemma_scaled(c1, s2, z);
    lemma_scaled(c1, k2, p);
    lemma_pairs_last_less(k1, xx, s2, z);
    lemma_pairs(k1, xx, k2, p);
    lemma_scaled(c2, s1, z);
    lemma_pairs_first_less(s1, z, k2, yy);
    lemma_scaled(c2, k1, p);
    lemma_pairs(k1, p, k2, yy);
    lemma_pairs(s1, y, s2, x);
    lemma_pairs(s1, y, k2, r);
    lemma_pairs(k1, q, s2, x);
    lemma_pairs(k1, q, k2, r);
    lemma_three_factors(k1 * k2, xx * p, p * yy, q * r);
    lemma_two_coefficients(c1 * s2, s1 * c2, z);
    lemma_four_coefficients(c1 * k2, k1 * c2, k1 * k2, s1 * s2, p);
    lemma_complements(c1, c2);
}

/// An entry on the diagonal of the product of two rotations about one axis.
proof fn lemma_diagonal_product(
    c1: real,
    s1: real,
    c2: real,
    s2: real,
    y: real,
    z: real,
    xx: real,
    p: real,
    q: real,
)
    requires
        z * p == y * q,
        p * z == q * y,
        xx * xx + p * p + q * q == xx,
        z * z + y * y == (1 as real) - xx,
    ensures
        ({
            let (k1, k2) = ((1 as real) - c1, (1 as real) - c2);
            let c = c1 * c2 - s1 * s2;
            (c1 + k1 * xx) * (c2 + k2 * xx) + ((-s1) * z + k1 * p) * (s2 * z + k2 * p) + (s1 * y
                + k1 * q) * ((-s2) * y + k2 * q) == c + ((1 as real) - c) * xx
        }),
{
    let (k1, k2) = ((1 as real) - c1, (1 as real) - c2);
    let (e1, e2) = (-s1, -s2);
    lemma_expand(c1, k1 * xx, c2, k2 * xx);
    lemma_expand(e1 * z, k1 * p, s2 * z, k2 * p);
    lemma_expand(s1 * y, k1 * q, e2 * y, k2 * q);
    lemma_scaled(c1, k2, xx);
    lemma_scaled(c2, k1, xx);
    lemma_pairs(k1, xx, k2, xx);
    lemma_pairs_first_less(s1, z, s2, z);
    lemma_pairs_first_less(s1, z, k2, p);
    lemma_pairs(k1, p, s2, z);
    lemma_pairs(k1, p, k2, p);
    lemma_pairs_last_less(s1, y, s2, y);
    lemma_pairs(s1, y, k2, q);
    lemma_pairs_last_less(k1, q, s2, y);
    lemma_pairs(k1, q, k2, q);
    lemma_three_factors(k1 * k2, xx * xx, p * p, q * q);
    lemma_complement_factor(s1 * s2, z * z, y * y, xx);
    lemma_four_coefficients(c1 * k2, k1 * c2, k1 * k2, s1 * s2, xx);
    lemma_complements(c1, c2);
}

proof fn lemma_complement_factor(s: real, u: real, v: real, w: real)
    by (nonlinear_arith)
    requires
        u + v == (1 as real) - w,
    ensures
        -(s * u) - (s * v) == -s + s * w,
{
}

proof fn lemma_turned_triples(x: real, y: real, z: real)
    by (nonlinear_arith)
    ensures
        (x * x) * z == (x * z) * x,
        z * (y * y) == y * (y * z),
        z * (x * y) == y * (x * z),
        (x * y) * z == (x * z) * y,
{
}

proof fn lemma_turned_fourths(x: real, y: real, z: real)
    by (nonlinear_arith)
    ensures
        (x * z) * (y * z) == (x * y) * (z * z),
        (x * y) * (x * y) == (x * x) * (y * y),
{
}

proof fn lemma_whole(k: real, n: real)
    by (nonlinear_arith)
    requires
        n == 1 as real,
    ensures
        k * n == k,
{
}

/// An entry above the diagonal, for the axis `(x, y, z)`.
proof fn lemma_upper_entry(
    c1: real,
    s1: real,
    c2: real,
    s2: real,
    x: real,
    y: real,
    z: real,
    p: real,
    q: real,
    r: real,
)
    requires
        x * x + y * y + z * z == 1 as real,
        p == x * y,
        q == x * z,
        r == y * z,
    ensures
        turn_diagonal(c1, x) * turn_side(-s2, z, c2, p) + turn_side(-s1, z, c1, p) * turn_diagonal(
            c2,
            y,
        ) + turn_side(s1, y, c1, q) * turn_side(s2, x, c2, r) == turn_side(
            -(s1 * c2 + c1 * s2),
            z,
            c1 * c2 - s1 * s2,
            p,
        ),
{
    lemma_turned_triples(x, y, z);
    lemma_turned_product(y, x);
    lemma_turned_fourths(x, y, z);
    lemma_turned_product(x * x, p);
    lemma_three_factors(p, x * x, y * y, z * z);
    lemma_whole(p, x * x + y * y + z * z);
    lemma_upper_product(c1, s1, c2, s2, x, y, z, x * x, y * y, p, q, r);
}

proof fn lemma_signs_cancel(c1: real, s1: real, c2: real, s2: real)
    by (nonlinear_arith)
    ensures
        -((-s2) * c1 + c2 * (-s1)) == s1 * c2 + c1 * s2,
        c2 * c1 - (-s2) * (-s1) == c1 * c2 - s1 * s2,
{
}

/// An entry below the diagonal, for the axis `(x, y, z)`.
proof fn lemma_lower_entry(
    c1: real,
    s1: real,
    c2: real,
    s2: real,
    x: real,
    y: real,
    z: real,
    p: real,
    q: real,
    r: real,
)
    requires
        x * x + y * y + z * z == 1 as real,
        p == x * y,
        q == x * z,
        r == y * z,
    ensures
        turn_side(s1, z, c1, p) * turn_diagonal(c2, x) + turn_diagonal(c1, y) * turn_side(
            s2,
            z,
            c2,
            p,
        ) + turn_side(-s1, x, c1, r) * turn_side(-s2, y, c2, q) == turn_side(
            s1 * c2 + c1 * s2,
            z,
            c1 * c2 - s1 * s2,
            p,
        ),
{
    lemma_upper_entry(c2, -s2, c1, -s1, x, y, z, p, q, r);
    lemma_signs_cancel(c1, s1, c2, s2);
    assert(-(-s1) == s1 && -(-s2) == s2);
    lemma_turned_product(turn_diagonal(c2, x), turn_side(s1, z, c1, p));
    lemma_turned_product(turn_side(s2, z, c2, p), turn_diagonal(c1, y));
    lemma_turned_product(turn_side(-s2, y, c2, q), turn_side(-s1, x, c1, r));
}

/// An entry on the diagonal, for the axis `(x, y, z)`.
proof fn lemma_diagonal_entry(
    c1: real,
    s1: real,
    c2: real,
    s2: real,
    x: real,
    y: real,
    z: real,
    p: real,
    q: real,
)
    requires
        x * x + y * y + z * z == 1 as real,
        p == x * y,
        q == x * z,
    ensures
        turn_diagonal(c1, x) * turn_diagonal(c2, x) + turn_side(-s1, z, c1, p) * turn_side(
            s2,
            z,
            c2,
            p,
        ) + turn_side(s1, y, c1, q) * turn_side(-s2, y, c2, q) == turn_diagonal(
            c1 * c2 - s1 * s2,
            x,
        ),
{
    lemma_turned_triples(x, y, z);
    lemma_turned_fourths(x, y, z);
    lemma_turned_fourths(x, z, y);
    lemma_three_factors(x * x, x * x, y * y, z * z);
    lemma_whole(x * x, x * x + y * y + z * z);
    lemma_diagonal_product(c1, s1, c2, s2, y, z, x * x, p, q);
}

/// Rotations about one axis add their angles: the product of two is the rotation by the angle
/// whose sine and cosine the addition theorems give.
pub proof fn law_turns_add(
    s1: real,
    c1: real,
    s2: real,
    c2: real,
    x: real,
    y: real,
    z: real,
    i: int,
    j: int,
)
    requires
        x * x + y * y + z * z == 1 as real,
        0 <= i < 3,
        0 <= j < 3,
    ensures
        turn_entry(s1, c1, x, y, z, i, 0) * turn_entry(s2, c2, x, y, z, 0, j) + turn_entry(
            s1,
            c1,
            x,
            y,
            z,
            i,
            1,
        ) * turn_entry(s2, c2, x, y, z, 1, j) + turn_entry(s1, c1, x, y, z, i, 2) * turn_entry(
            s2,
            c2,
            x,
            y,
            z,
            2,
            j,
        ) == turn_entry(s1 * c2 + c1 * s2, c1 * c2 - s1 * s2, x, y, z, i, j),
{
    let (p, q, r) = (x * y, x * z, y * z);
    lemma_turned_product(x, y);
    lemma_turned_product(x, z);
    lemma_turned_product(y, z);
    if i == 0 && j == 0 {
        lemma_diagonal_entry(c1, s1, c2, s2, x, y, z, p, q);
    } else if i == 1 && j == 1 {
        lemma_diagonal_entry(c1, s1, c2, s2, y, z, x, r, p);
    } else if i == 2 && j == 2 {
        lemma_diagonal_entry(c1, s1, c2, s2, z, x, y, q, r);
    } else if i == 0 && j == 1 {
        lemma_upper_entry(c1, s1, c2, s2, x, y, z, p, q, r);
    } else if i == 1 && j == 2 {
        lemma_upper_entry(c1, s1, c2, s2, y, z, x, r, p, q);
    } else if i == 2 && j == 0 {
        lemma_upper_entry(c1, s1, c2, s2, z, x, y, q, r, p);
    } else if i == 1 && j == 0 {
        lemma_lower_entry(c1, s1, c2, s2, x, y, z, p, q, r);
    } else if i == 2 && j == 1 {
        lemma_lower_entry(c1, s1, c2, s2, y, z, x, r, p, q);
    } else {
        lemma_lower_entry(c1, s1, c2, s2, z, x, y, q, r, p);
    }
}

pub proof fn lemma_square_difference(h: real, p: real)
    by (nonlinear_arith)
    ensures
        (h - p) * (h + p) == h * h - p * p,
{
}

pub proof fn lemma_half(p: real)
    by (nonlinear_arith)
    ensures
        ((1 as real) / (2 as real)) * p + ((1 as real) / (2 as real)) * p == p,
{
}

pub proof fn lemma_signs(a: real, r: real)
    by (nonlinear_arith)
    ensures
        a * (-r) == -(a * r),
        (-a) * r == -(a * r),
        (-r) * (-r) == r * r,
{
}

pub proof fn lemma_scaled_norm(r: real, x: real, y: real, z: real)
    by (nonlinear_arith)
    ensures
        (r * x) * (r * x) == (r * r) * (x * x),
        (r * y) * (r * y) == (r * r) * (y * y),
        (r * z) * (r * z) == (r * r) * (z * z),
        (r * r) * (x * x) + (r * r) * (y * y) + (r * r) * (z * z) == (r * r) * (x * x + y * y + z
            * z),
{
}

pub proof fn lemma_unit_length(r: real)
    by (nonlinear_arith)
    requires
        r * r <= 1 as real,
    ensures
        -(1 as real) <= r,
        r <= 1 as real,
{
}

pub proof fn lemma_side_factors(a: real, r: real, u: real, b: real, v: real, w: real)
    by (nonlinear_arith)
    ensures
        a * (r * u) == (a * r) * u,
        (b * (r * v)) * (r * w) == (b * (r * r)) * (v * w),
{
}

pub proof fn lemma_diagonal_factors(r: real, u: real, b: real)
    by (nonlinear_arith)
    ensures
        b * ((r * u) * (r * u) - r * r) == (b * (r * r)) * (u * u - (1 as real)),
{
}

pub proof fn lemma_less_one(k: real, m: real)
    by (nonlinear_arith)
    ensures
        k * (m - (1 as real)) == k * m - k,
{
}

// ---------------------------------------------------------------------------
// Parts and products
// ---------------------------------------------------------------------------

pub proof fn lemma_part(x: real, h: real)
    by (nonlinear_arith)
    requires
        h == (1 as real) / (0x0020_0000_0000_0000 as real),
    ensures
        (0x0020_0000_0000_0000 as real) * (x * h) == x,
{
}

pub proof fn lemma_quotient_scaled(q: real, a: real, d: real)
    by (nonlinear_arith)
    requires
        d != 0 as real,
        q == a / d,
    ensures
        q * d == a,
{
}

pub proof fn lemma_mean_of_squares(a: real, b: real)
    by (nonlinear_arith)
    ensures
        (2 as real) * (a * b) <= a * a + b * b,
{
}

pub proof fn lemma_outer_term(x: real, w: real, v: real, d: real)
    by (nonlinear_arith)
    ensures
        x * ((w * v) * d) == (w * d) * (v * x),
{
}

pub proof fn lemma_square_of_three(a: real, b: real, c: real)
    by (nonlinear_arith)
    ensures
        (a + b + c) * (a + b + c) == a * a + b * b + c * c + (2 as real) * (a * b) + (2 as real) * (
        a * c) + (2 as real) * (b * c),
{
}

pub proof fn lemma_larger_square(m: real, h: real)
    by (nonlinear_arith)
    requires
        m > h,
        h > 0 as real,
    ensures
        m * m > h * h,
{
}

/// A component of a turn and a shift, times that of a normal.
pub proof fn lemma_turned_component(n: real, a: real, b: real, c: real, d: real, e: real)
    by (nonlinear_arith)
    ensures
        n * (a * b - c * d + e) == (b * n) * a - (d * n) * c + n * e,
{
}

/// A factor taken into a bound.
pub proof fn lemma_scaled_error(c: real, n: real, h: real, a: real, d: real)
    by (nonlinear_arith)
    ensures
        c * (n * (h * a + d)) == (n * h) * (c * a) + (n * d) * c,
{
}

pub proof fn lemma_square_of_two(a: real, b: real)
    by (nonlinear_arith)
    ensures
        (a + b) * (a + b) == a * a + b * b + (2 as real) * (a * b),
{
}

} // verus!
