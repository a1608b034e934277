//! The determinant of the rotations of space.
use crate::binary64::Binary64;
use crate::errors::{abs, slack, value};
use crate::identities::{lemma_exact_determinant, lemma_turned_product, real_determinant};
use crate::linear::rotation_by;
use crate::rotations::{
    column_product, defect, exact_diagonal, exact_norm, exact_side, is_moderate, is_near_entry,
    is_near_matrix, is_sound_pair, law_rotation_is_orthonormal, lemma_abs_product,
    lemma_product_near, lemma_rotation_near, lemma_square_nonnegative,
};
use vstd::prelude::*;

verus! {

/// The determinant of a matrix, over the real numbers.
pub open spec fn determinant(m: [[Binary64; 3]; 3]) -> real {
    real_determinant(
        value(m[0][0]),
        value(m[0][1]),
        value(m[0][2]),
        value(m[1][0]),
        value(m[1][1]),
        value(m[1][2]),
        value(m[2][0]),
        value(m[2][1]),
        value(m[2][2]),
    )
}

/// Whether a number is near an exact one, and neither is large.
#[verifier::opaque]
spec fn is_tight(r: real, u: real) -> bool {
    abs(r - u) <= (64 as real) * slack() && abs(r) <= 3 as real && abs(u) <= 3 as real
}

/// Two steps of a bounded length.
proof fn lemma_two_steps(p: real, q: real, r: real, d: real, e: real)
    requires
        abs(p - q) <= d,
        abs(q - r) <= e,
    ensures
        abs(p - r) <= d + e,
{
}

proof fn lemma_size_product(u: real, v: real)
    requires
        abs(u) <= 3 as real,
        abs(v) <= 3 as real,
    ensures
        abs(u * v) <= 9 as real,
{
    lemma_product_near(u, 0 as real, v, 3 as real, 3 as real);
    lemma_no_product(v);
}

proof fn lemma_no_product(v: real)
    by (nonlinear_arith)
    ensures
        (0 as real) * v == 0 as real,
{
}

/// The product of two tight numbers.
proof fn lemma_tight_product(r: real, u: real, s: real, v: real)
    requires
        is_tight(r, u),
        is_tight(s, v),
    ensures
        abs(r * s - u * v) <= (384 as real) * slack(),
        abs(u * v) <= 9 as real,
{
    reveal(is_tight);
    let d = (64 as real) * slack();
    lemma_product_near(r, u, s, d, 3 as real);
    lemma_product_near(s, v, u, d, 3 as real);
    lemma_turned_product(s, u);
    lemma_turned_product(v, u);
    lemma_two_steps(r * s, u * s, u * v, d * (3 as real), d * (3 as real));
    lemma_size_product(u, v);
}

/// The difference of two products of tight numbers.
proof fn lemma_tight_minor(p: real, q: real, s: real, t: real)
    requires
        abs(p - q) <= (384 as real) * slack(),
        abs(s - t) <= (384 as real) * slack(),
        abs(q) <= 9 as real,
        abs(t) <= 9 as real,
    ensures
        abs((p - s) - (q - t)) <= (768 as real) * slack(),
        abs(q - t) <= 18 as real,
{
}

/// The product of a tight number with a minor.
proof fn lemma_tight_scaling(r: real, u: real, m: real, n: real)
    requires
        is_tight(r, u),
        abs(m - n) <= (768 as real) * slack(),
        abs(n) <= 18 as real,
    ensures
        abs(r * m - u * n) <= (4000 as real) * slack(),
{
    reveal(is_tight);
    let d = (768 as real) * slack();
    let e = (64 as real) * slack();
    lemma_product_near(m, n, r, d, 3 as real);
    lemma_product_near(r, u, n, e, 18 as real);
    lemma_turned_product(m, r);
    lemma_turned_product(n, r);
    lemma_two_steps(r * m, r * n, u * n, d * (3 as real), e * (18 as real));
}

/// One term of the expansion along the first row.
proof fn lemma_tight_term(
    r: real,
    u: real,
    r1: real,
    u1: real,
    r2: real,
    u2: real,
    r3: real,
    u3: real,
    r4: real,
    u4: real,
)
    requires
        is_tight(r, u),
        is_tight(r1, u1),
        is_tight(r2, u2),
        is_tight(r3, u3),
        is_tight(r4, u4),
    ensures
        abs(r * (r1 * r2 - r3 * r4) - u * (u1 * u2 - u3 * u4)) <= (4000 as real) * slack(),
{
    lemma_tight_product(r1, u1, r2, u2);
    lemma_tight_product(r3, u3, r4, u4);
    lemma_tight_minor(r1 * r2, u1 * u2, r3 * r4, u3 * u4);
    lemma_tight_scaling(r, u, r1 * r2 - r3 * r4, u1 * u2 - u3 * u4);
}

/// Three terms of a bounded error.
proof fn lemma_three_terms(p: real, q: real, s: real, p1: real, q1: real, s1: real, d: real)
    requires
        abs(p - p1) <= d,
        abs(q - q1) <= d,
        abs(s - s1) <= d,
    ensures
        abs((p - q + s) - (p1 - q1 + s1)) <= (3 as real) * d,
{
}

/// The determinants of matrices with tight entries.
proof fn lemma_tight_determinants(
    r00: real,
    r01: real,
    r02: real,
    r10: real,
    r11: real,
    r12: real,
    r20: real,
    r21: real,
    r22: real,
    u00: real,
    u01: real,
    u02: real,
    u10: real,
    u11: real,
    u12: real,
    u20: real,
    u21: real,
    u22: real,
)
    requires
        is_tight(r00, u00),
        is_tight(r01, u01),
        is_tight(r02, u02),
        is_tight(r10, u10),
        is_tight(r11, u11),
        is_tight(r12, u12),
        is_tight(r20, u20),
        is_tight(r21, u21),
        is_tight(r22, u22),
    ensures
        abs(
            real_determinant(r00, r01, r02, r10, r11, r12, r20, r21, r22) - real_determinant(
                u00,
                u01,
                u02,
                u10,
                u11,
                u12,
                u20,
                u21,
                u22,
            ),
        ) <= (3 as real) * ((4000 as real) * slack()),
{
    reveal(real_determinant);
    lemma_tight_term(r00, u00, r11, u11, r22, u22, r12, u12, r21, u21);
    lemma_tight_term(r01, u01, r10, u10, r22, u22, r12, u12, r20, u20);
    lemma_tight_term(r02, u02, r10, u10, r21, u21, r11, u11, r20, u20);
    lemma_three_terms(
        r00 * (r11 * r22 - r12 * r21),
        r01 * (r10 * r22 - r12 * r20),
        r02 * (r10 * r21 - r11 * r20),
        u00 * (u11 * u22 - u12 * u21),
        u01 * (u10 * u22 - u12 * u20),
        u02 * (u10 * u21 - u11 * u20),
        (4000 as real) * slack(),
    );
}

/// A number whose square does not exceed two does not exceed two.
proof fn lemma_modest_root(r: real)
    by (nonlinear_arith)
    requires
        r * r <= 2 as real,
    ensures
        -(2 as real) <= r,
        r <= 2 as real,
{
}

/// Whether the entries of a column do not exceed two.
pub open spec fn is_modest_column(m: [[Binary64; 3]; 3], j: int) -> bool {
    &&& abs(value(m[0][j])) <= 2 as real
    &&& abs(value(m[1][j])) <= 2 as real
    &&& abs(value(m[2][j])) <= 2 as real
}

/// The entries of a column whose squares do not add up to more than two are not large.
pub proof fn lemma_modest_column(m: [[Binary64; 3]; 3], j: int)
    requires
        column_product(m, j, j) <= 2 as real,
    ensures
        is_modest_column(m, j),
{
    lemma_square_nonnegative(value(m[0][j]));
    lemma_square_nonnegative(value(m[1][j]));
    lemma_square_nonnegative(value(m[2][j]));
    lemma_modest_root(value(m[0][j]));
    lemma_modest_root(value(m[1][j]));
    lemma_modest_root(value(m[2][j]));
}

/// A near entry that is not large is tight.
proof fn lemma_tight_entry(r: Binary64, u: real)
    requires
        is_near_entry(r, u),
        abs(value(r)) <= 2 as real,
    ensures
        is_tight(value(r), u),
{
    reveal(is_tight);
}

/// Where the determinant of the exact matrix is one but for `e`.
proof fn lemma_near_one(d: real, x: real, e: real)
    requires
        abs(d - x) <= (3 as real) * ((4000 as real) * slack()),
        x == (1 as real) - e,
        abs(e) <= (2 as real) / (10000000000int as real),
    ensures
        abs(d - (1 as real)) <= (1 as real) / (1000000000int as real),
{
}

proof fn lemma_defect_size(e: real, n: real, c: real)
    requires
        abs(e) * n <= c,
        n >= 0 as real,
    ensures
        abs(e * n) <= c,
{
    lemma_abs_product(e, n);
}

proof fn lemma_determinant_near(m: [[Binary64; 3]; 3], a: real, b: real, w: [Binary64; 3])
    requires
        is_near_matrix(m, a, b, w),
        abs(defect(a, b, exact_norm(w))) * exact_norm(w) <= (2 as real) / (10000000000int as real),
        exact_norm(w) >= 0 as real,
        is_modest_column(m, 0),
        is_modest_column(m, 1),
        is_modest_column(m, 2),
    ensures
        abs(determinant(m) - (1 as real)) <= (1 as real) / (1000000000int as real),
{
    let (x, y, z) = (value(w[0]), value(w[1]), value(w[2]));
    let n = exact_norm(w);
    lemma_tight_entry(m[0][0], exact_diagonal(b, x, n));
    lemma_tight_entry(m[0][1], exact_side(-a, z, b, x, y));
    lemma_tight_entry(m[0][2], exact_side(a, y, b, x, z));
    lemma_tight_entry(m[1][0], exact_side(a, z, b, y, x));
    lemma_tight_entry(m[1][1], exact_diagonal(b, y, n));
    lemma_tight_entry(m[1][2], exact_side(-a, x, b, y, z));
    lemma_tight_entry(m[2][0], exact_side(-a, y, b, z, x));
    lemma_tight_entry(m[2][1], exact_side(a, x, b, z, y));
    lemma_tight_entry(m[2][2], exact_diagonal(b, z, n));
    lemma_tight_determinants(
        value(m[0][0]),
        value(m[0][1]),
        value(m[0][2]),
        value(m[1][0]),
        value(m[1][1]),
        value(m[1][2]),
        value(m[2][0]),
        value(m[2][1]),
        value(m[2][2]),
        exact_diagonal(b, x, n),
        exact_side(-a, z, b, x, y),
        exact_side(a, y, b, x, z),
        exact_side(a, z, b, y, x),
        exact_diagonal(b, y, n),
        exact_side(-a, x, b, y, z),
        exact_side(-a, y, b, z, x),
        exact_side(a, x, b, z, y),
        exact_diagonal(b, z, n),
    );
    lemma_exact_determinant(a, b, x, y, z);
    lemma_defect_size(defect(a, b, n), n, (2 as real) / (10000000000int as real));
    lemma_near_one(
        determinant(m),
        real_determinant(
            exact_diagonal(b, x, n),
            exact_side(-a, z, b, x, y),
            exact_side(a, y, b, x, z),
            exact_side(a, z, b, y, x),
            exact_diagonal(b, y, n),
            exact_side(-a, x, b, y, z),
            exact_side(-a, y, b, z, x),
            exact_side(a, x, b, z, y),
            exact_diagonal(b, z, n),
        ),
        defect(a, b, n) * n,
    );
}

/// The rotation by a vector keeps the orientation: its determinant is one up to `1e-9`, where
/// sine and cosine are as they should be up to `1e-10`.
pub proof fn law_rotation_keeps_orientation(w: [Binary64; 3], sine: Binary64, cosine: Binary64)
    requires
        is_moderate(w),
        is_sound_pair(sine, cosine),
    ensures
        abs(determinant(rotation_by(w, sine, cosine)) - (1 as real)) <= (1 as real) / (
        1000000000int as real),
{
    let m = rotation_by(w, sine, cosine);
    let f = lemma_rotation_near(w, sine, cosine);
    law_rotation_is_orthonormal(w, sine, cosine, 0, 0);
    law_rotation_is_orthonormal(w, sine, cosine, 1, 1);
    law_rotation_is_orthonormal(w, sine, cosine, 2, 2);
    lemma_modest_column(m, 0);
    lemma_modest_column(m, 1);
    lemma_modest_column(m, 2);
    lemma_determinant_near(m, f.0, f.1, w);
}

} // verus!
