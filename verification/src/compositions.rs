//! Products of rotations.
use crate::binary64::{fl_add, fl_lt, fl_mul, fl_sqrt, Binary64};
use crate::determinants::lemma_modest_column;
use crate::errors::{
    abs, lemma_add_near, lemma_mul_near, lemma_neg_value, lemma_real_associative,
    lemma_real_distributes, lemma_real_mul_ordered, lemma_real_one, slack, value,
};
use crate::exactness::is_finite;
use crate::icp::{
    common_levels, descended, initial_estimate, level_view, negated6, pass, planned_iterations,
    refined, registered, stepped, Estimate, IcpPlaneCriteria, NormalEquations,
};
use crate::identities::{lemma_mean_of_squares, lemma_square_of_three};
use crate::laws::{run_gate, total_planned};
use crate::linear::{guarded_solution, product, product_entry, rotation_by, squared_norm};
use crate::rgbd::{RgbdLevel, RgbdPyramid};
use crate::rotations::{
    column_product, is_moderate, is_negated, is_sound_pair, law_negated_vector_transposes,
    law_rotation_is_orthonormal, lemma_abs_product, lemma_product_bounded, lemma_product_near,
    lemma_products_near, lemma_square_nonnegative,
};
use crate::totals::{
    lemma_total_near, lemma_total_regrouped, lemma_total_same, lemma_total_scaled, total,
};
use vstd::prelude::*;

verus! {

/// An entry of the identity.
pub open spec fn unit_entry(i: int, j: int) -> real {
    if i == j {
        1 as real
    } else {
        0 as real
    }
}

/// Whether the entries of a matrix are finite and the products of its columns are those of the
/// identity up to `d`.
pub open spec fn is_rotation_within(m: [[Binary64; 3]; 3], d: real) -> bool {
    forall|i: int, j: int|
        0 <= i < 3 && 0 <= j < 3 ==> is_finite(#[trigger] m[i][j]) && abs(
            column_product(m, i, j) - unit_entry(i, j),
        ) <= d
}

/// The bound of a rotation by a vector: `1e-9`.
pub open spec fn rotation_bound() -> real {
    (1 as real) / (1000000000int as real)
}

/// The rotation by a vector is a rotation within its bound.
proof fn lemma_rotation_within(w: [Binary64; 3], sine: Binary64, cosine: Binary64)
    requires
        is_moderate(w),
        is_sound_pair(sine, cosine),
    ensures
        is_rotation_within(rotation_by(w, sine, cosine), rotation_bound()),
{
    let m = rotation_by(w, sine, cosine);
    assert forall|i: int, j: int| 0 <= i < 3 && 0 <= j < 3 implies is_finite(#[trigger] m[i][j])
        && abs(column_product(m, i, j) - unit_entry(i, j)) <= rotation_bound() by {
        law_rotation_is_orthonormal(w, sine, cosine, i, j);
    }
}

/// The entries of a rotation within one do not exceed two.
proof fn lemma_entries_modest(m: [[Binary64; 3]; 3], d: real, i: int, j: int)
    requires
        is_rotation_within(m, d),
        d <= 1 as real,
        0 <= i < 3,
        0 <= j < 3,
    ensures
        is_finite(m[i][j]),
        abs(value(m[i][j])) <= 2 as real,
{
    assert(is_finite(m[i][j]));
    assert(is_finite(m[j][j]));
    lemma_modest_column(m, j);
}

// ---------------------------------------------------------------------------
// The negated vector
// ---------------------------------------------------------------------------

/// A product in which the first factor is near `t`.
proof fn lemma_near_product(p: Binary64, t: real, q: Binary64)
    requires
        is_finite(p),
        is_finite(q),
        abs(value(p) - t) <= (2 as real) / (1000000000000int as real),
        abs(value(p)) <= 2 as real,
        abs(value(q)) <= 2 as real,
    ensures
        is_finite(fl_mul(p, q)),
        abs(value(fl_mul(p, q))) <= 5 as real,
        abs(value(fl_mul(p, q)) - t * value(q)) <= (5 as real) / (1000000000000int as real),
{
    let d = (2 as real) / (1000000000000int as real);
    let one = 1 as real;
    lemma_product_bounded(value(p), value(q), 2 as real, 2 as real);
    lemma_product_near(value(p), t, value(q), d, 2 as real);
    lemma_mul_near(p, q, one);
}

/// The sum of three numbers, from the left.
proof fn lemma_near_sum(p: Binary64, q: Binary64, r: Binary64)
    requires
        is_finite(p),
        is_finite(q),
        is_finite(r),
        abs(value(p)) <= 5 as real,
        abs(value(q)) <= 5 as real,
        abs(value(r)) <= 5 as real,
    ensures
        is_finite(fl_add(fl_add(p, q), r)),
        abs(value(fl_add(fl_add(p, q), r)) - (value(p) + value(q) + value(r))) <= (2 as real)
            * slack(),
{
    let one = 1 as real;
    lemma_add_near(p, q, one);
    lemma_add_near(fl_add(p, q), r, one);
}

/// The linear part: `p` are products near `c`, and `s` is their rounded sum.
proof fn lemma_inverse_sum(
    s: real,
    p0: real,
    p1: real,
    p2: real,
    c0: real,
    c1: real,
    c2: real,
    u: real,
)
    requires
        abs(s - (p0 + p1 + p2)) <= (2 as real) * slack(),
        abs(p0 - c0) <= (5 as real) / (1000000000000int as real),
        abs(p1 - c1) <= (5 as real) / (1000000000000int as real),
        abs(p2 - c2) <= (5 as real) / (1000000000000int as real),
        abs(c0 + c1 + c2 - u) <= rotation_bound(),
    ensures
        abs(s - u) <= (2 as real) * rotation_bound(),
{
}

/// An entry of the product of a matrix, whose row is near a column of `m`, with `m`.
proof fn lemma_inverse_entry(n: [[Binary64; 3]; 3], m: [[Binary64; 3]; 3], i: int, j: int)
    requires
        0 <= i < 3,
        0 <= j < 3,
        is_rotation_within(m, rotation_bound()),
        is_rotation_within(n, rotation_bound()),
        forall|k: int|
            0 <= k < 3 ==> abs(value(#[trigger] n[i][k]) - value(m[k][i])) <= (2 as real) / (
            1000000000000int as real),
    ensures
        is_finite(product(n, m)[i][j]),
        abs(value(product(n, m)[i][j]) - unit_entry(i, j)) <= (2 as real) * rotation_bound(),
{
    let d = rotation_bound();
    lemma_entries_modest(n, d, i, 0);
    lemma_entries_modest(n, d, i, 1);
    lemma_entries_modest(n, d, i, 2);
    lemma_entries_modest(m, d, 0, j);
    lemma_entries_modest(m, d, 1, j);
    lemma_entries_modest(m, d, 2, j);
    lemma_near_product(n[i][0], value(m[0][i]), m[0][j]);
    lemma_near_product(n[i][1], value(m[1][i]), m[1][j]);
    lemma_near_product(n[i][2], value(m[2][i]), m[2][j]);
    lemma_near_sum(
        fl_mul(n[i][0], m[0][j]),
        fl_mul(n[i][1], m[1][j]),
        fl_mul(n[i][2], m[2][j]),
    );
    assert(product(n, m)[i][j] == product_entry(n, m, i, j));
    assert(is_finite(m[i][j]));
    lemma_inverse_sum(
        value(product(n, m)[i][j]),
        value(fl_mul(n[i][0], m[0][j])),
        value(fl_mul(n[i][1], m[1][j])),
        value(fl_mul(n[i][2], m[2][j])),
        value(m[0][i]) * value(m[0][j]),
        value(m[1][i]) * value(m[1][j]),
        value(m[2][i]) * value(m[2][j]),
        unit_entry(i, j),
    );
}

/// Negating the vector inverts the rotation: the product of the two, in either order, is the
/// identity up to `2e-9`.
pub proof fn law_negated_vector_inverts(
    w: [Binary64; 3],
    v: [Binary64; 3],
    sine: Binary64,
    cosine: Binary64,
    i: int,
    j: int,
)
    requires
        is_moderate(w),
        is_negated(w, v),
        is_sound_pair(sine, cosine),
        0 <= i < 3,
        0 <= j < 3,
    ensures
        ({
            let (p, n) = (rotation_by(w, sine, cosine), rotation_by(v, sine, cosine));
            &&& is_finite(product(p, n)[i][j]) && is_finite(product(n, p)[i][j])
            &&& abs(value(product(p, n)[i][j]) - unit_entry(i, j)) <= (2 as real) * rotation_bound()
            &&& abs(value(product(n, p)[i][j]) - unit_entry(i, j)) <= (2 as real) * rotation_bound()
        }),
{
    let (p, n) = (rotation_by(w, sine, cosine), rotation_by(v, sine, cosine));
    lemma_neg_value(w[0]);
    lemma_neg_value(w[1]);
    lemma_neg_value(w[2]);
    lemma_rotation_within(w, sine, cosine);
    lemma_rotation_within(v, sine, cosine);
    assert forall|k: int| 0 <= k < 3 implies abs(value(#[trigger] n[i][k]) - value(p[k][i])) <= (
    2 as real) / (1000000000000int as real) by {
        law_negated_vector_transposes(w, v, sine, cosine, i, k);
    }
    lemma_inverse_entry(n, p, i, j);
    assert forall|k: int| 0 <= k < 3 implies abs(value(#[trigger] p[i][k]) - value(n[k][i])) <= (
    2 as real) / (1000000000000int as real) by {
        law_negated_vector_transposes(w, v, sine, cosine, k, i);
    }
    lemma_inverse_entry(p, n, i, j);
}

// ---------------------------------------------------------------------------
// Steps
// ---------------------------------------------------------------------------

/// Row `k` of `q` times column `i` of `r`, over the real numbers.
spec fn exact_entry(q: [[Binary64; 3]; 3], r: [[Binary64; 3]; 3], k: int, i: int) -> real {
    total(|l: int| value(r[l][i]) * value(q[k][l]), 3)
}

/// A product of two entries.
proof fn lemma_modest_product(p: Binary64, q: Binary64)
    requires
        is_finite(p),
        is_finite(q),
        abs(value(p)) <= 2 as real,
        abs(value(q)) <= 2 as real,
    ensures
        is_finite(fl_mul(p, q)),
        abs(value(fl_mul(p, q))) <= 5 as real,
        abs(value(p) * value(q)) <= 4 as real,
        abs(value(fl_mul(p, q)) - value(p) * value(q)) <= slack(),
{
    let one = 1 as real;
    lemma_product_bounded(value(p), value(q), 2 as real, 2 as real);
    lemma_mul_near(p, q, one);
    lemma_real_one(slack());
}

/// An entry of a product is near the exact one.
proof fn lemma_step_entry(
    q: [[Binary64; 3]; 3],
    r: [[Binary64; 3]; 3],
    d: real,
    k: int,
    i: int,
)
    requires
        is_rotation_within(q, rotation_bound()),
        is_rotation_within(r, d),
        d <= 1 as real,
        0 <= k < 3,
        0 <= i < 3,
    ensures
        is_finite(product(q, r)[k][i]),
        abs(value(product(q, r)[k][i]) - exact_entry(q, r, k, i)) <= (5 as real) * slack(),
        abs(exact_entry(q, r, k, i)) <= 12 as real,
{
    let e = rotation_bound();
    lemma_entries_modest(q, e, k, 0);
    lemma_entries_modest(q, e, k, 1);
    lemma_entries_modest(q, e, k, 2);
    lemma_entries_modest(r, d, 0, i);
    lemma_entries_modest(r, d, 1, i);
    lemma_entries_modest(r, d, 2, i);
    lemma_modest_product(q[k][0], r[0][i]);
    lemma_modest_product(q[k][1], r[1][i]);
    lemma_modest_product(q[k][2], r[2][i]);
    lemma_near_sum(
        fl_mul(q[k][0], r[0][i]),
        fl_mul(q[k][1], r[1][i]),
        fl_mul(q[k][2], r[2][i]),
    );
    assert(product(q, r)[k][i] == product_entry(q, r, k, i));
    let f = |l: int| value(r[l][i]) * value(q[k][l]);
    lemma_real_associative(value(r[0][i]), value(q[k][0]), e);
    lemma_real_associative(value(r[1][i]), value(q[k][1]), e);
    lemma_real_associative(value(r[2][i]), value(q[k][2]), e);
    assert(total(f, 3) == f(0) + f(1) + f(2)) by {
        reveal_with_fuel(total, 4);
    }
}

/// The products of the columns of an exact product, in terms of those of `q`: `u` and `v` are
/// columns of the other factor.
proof fn lemma_columns_of_product(
    q: [[Binary64; 3]; 3],
    u: spec_fn(int) -> real,
    v: spec_fn(int) -> real,
)
    ensures
        total(
            |k: int|
                total(|l: int| u(l) * value(q[k][l]), 3) * total(|m: int| v(m) * value(q[k][m]), 3),
            3,
        ) == total(|l: int| u(l) * total(|m: int| v(m) * column_product(q, m, l), 3), 3),
{
    let entries = |k: int, l: int| value(q[k][l]);
    let x = |k: int| total(|l: int| u(l) * value(q[k][l]), 3);
    let y = |k: int| total(|m: int| v(m) * value(q[k][m]), 3);
    let left = |k: int| x(k) * y(k);
    lemma_total_regrouped(u, entries, y, 3);
    let grouped = |k: int| total(|l: int| u(l) * entries(k, l), 3) * y(k);
    assert forall|k: int| 0 <= k < 3 implies #[trigger] left(k) == grouped(k) by {
        lemma_total_same(
            |l: int| u(l) * value(q[k][l]),
            |l: int| u(l) * entries(k, l),
            3,
        );
    }
    lemma_total_same(left, grouped, 3);
    let inner = |l: int| u(l) * total(|k: int| entries(k, l) * y(k), 3);
    let right = |l: int| u(l) * total(|m: int| v(m) * column_product(q, m, l), 3);
    assert forall|l: int| 0 <= l < 3 implies #[trigger] inner(l) == right(l) by {
        lemma_inner_columns(q, v, l);
        let f = |k: int| entries(k, l) * y(k);
        let g = |k: int| y(k) * value(q[k][l]);
        assert forall|k: int| 0 <= k < 3 implies #[trigger] f(k) == g(k) by {
            lemma_real_associative(y(k), value(q[k][l]), 0 as real);
        }
        lemma_total_same(f, g, 3);
        lemma_total_same(
            g,
            |k: int| total(|m: int| v(m) * value(q[k][m]), 3) * value(q[k][l]),
            3,
        );
    }
    lemma_total_same(inner, right, 3);
    lemma_total_same(
        left,
        |k: int|
            total(|l: int| u(l) * value(q[k][l]), 3) * total(|m: int| v(m) * value(q[k][m]), 3),
        3,
    );
}

proof fn lemma_inner_columns(q: [[Binary64; 3]; 3], v: spec_fn(int) -> real, l: int)
    requires
        0 <= l < 3,
    ensures
        total(|k: int| total(|m: int| v(m) * value(q[k][m]), 3) * value(q[k][l]), 3) == total(
            |m: int| v(m) * column_product(q, m, l),
            3,
        ),
{
    let entries = |k: int, m: int| value(q[k][m]);
    let x = |k: int| value(q[k][l]);
    lemma_total_regrouped(v, entries, x, 3);
    let f = |k: int| total(|m: int| v(m) * value(q[k][m]), 3) * value(q[k][l]);
    let g = |k: int| total(|m: int| v(m) * entries(k, m), 3) * x(k);
    assert forall|k: int| 0 <= k < 3 implies #[trigger] f(k) == g(k) by {
        lemma_total_same(
            |m: int| v(m) * value(q[k][m]),
            |m: int| v(m) * entries(k, m),
            3,
        );
    }
    lemma_total_same(f, g, 3);
    let a = |m: int| v(m) * total(|k: int| entries(k, m) * x(k), 3);
    let b = |m: int| v(m) * column_product(q, m, l);
    assert forall|m: int| 0 <= m < 3 implies #[trigger] a(m) == b(m) by {
        let c = |k: int| entries(k, m) * x(k);
        assert(total(c, 3) == c(0) + c(1) + c(2)) by {
            reveal_with_fuel(total, 4);
        }
    }
    lemma_total_same(a, b, 3);
}

/// A sum with the entries of the identity picks one term.
proof fn lemma_unit_row(v: spec_fn(int) -> real, l: int)
    requires
        0 <= l < 3,
    ensures
        total(|m: int| v(m) * unit_entry(m, l), 3) == v(l),
{
    let f = |m: int| v(m) * unit_entry(m, l);
    assert forall|m: int| 0 <= m < 3 implies #[trigger] f(m) == if m == l {
        v(m)
    } else {
        0 as real
    } by {
        lemma_real_one(v(m));
        lemma_real_distributes(0 as real, 0 as real, v(m));
        lemma_real_associative(0 as real, v(m), v(m));
    }
    assert(total(f, 3) == f(0) + f(1) + f(2)) by {
        reveal_with_fuel(total, 4);
    }
}

/// Where `q` is a rotation within `e`, the columns of an exact product are off by `e` times the
/// sums of the absolute values of the columns of the other factor.
proof fn lemma_columns_near(
    q: [[Binary64; 3]; 3],
    e: real,
    u: spec_fn(int) -> real,
    v: spec_fn(int) -> real,
)
    requires
        is_rotation_within(q, e),
    ensures
        abs(
            total(|l: int| u(l) * total(|m: int| v(m) * column_product(q, m, l), 3), 3) - total(
                |l: int| u(l) * v(l),
                3,
            ),
        ) <= (e * total(|m: int| abs(v(m)), 3)) * total(|l: int| abs(u(l)), 3),
{
    let su = |l: int| abs(u(l));
    let sv = |m: int| abs(v(m));
    let c = e * total(sv, 3);
    let f = |l: int| u(l) * total(|m: int| v(m) * column_product(q, m, l), 3);
    let g = |l: int| u(l) * v(l);
    let b = |l: int| c * su(l);
    assert forall|l: int| 0 <= l < 3 implies abs(#[trigger] f(l) - g(l)) <= b(l) by {
        let s = |m: int| v(m) * column_product(q, m, l);
        let t = |m: int| v(m) * unit_entry(m, l);
        let r = |m: int| e * sv(m);
        assert forall|m: int| 0 <= m < 3 implies abs(#[trigger] s(m) - t(m)) <= r(m) by {
            assert(is_finite(q[m][l]));
            let (x, y) = (column_product(q, m, l), unit_entry(m, l));
            lemma_real_distributes(x, y, v(m));
            lemma_real_associative(x, v(m), x);
            lemma_real_associative(y, v(m), x);
            lemma_abs_product(x - y, v(m));
            lemma_real_mul_ordered(abs(x - y), e, sv(m));
        }
        lemma_total_near(s, t, r, 3);
        lemma_total_scaled(sv, e, 3);
        lemma_total_same(r, |m: int| e * sv(m), 3);
        lemma_unit_row(v, l);
        lemma_total_same(t, |m: int| v(m) * unit_entry(m, l), 3);
        let (x, y) = (total(s, 3), v(l));
        lemma_real_distributes(x, y, u(l));
        lemma_real_associative(x, u(l), x);
        lemma_real_associative(y, u(l), x);
        lemma_abs_product(x - y, u(l));
        lemma_real_mul_ordered(abs(x - y), c, su(l));
    }
    lemma_total_near(f, g, b, 3);
    lemma_total_scaled(su, c, 3);
    lemma_total_same(b, |l: int| c * su(l), 3);
}

/// The product of the sums of the absolute values of two columns of a rotation within one.
proof fn lemma_sums_modest(u: spec_fn(int) -> real, v: spec_fn(int) -> real)
    requires
        u(0) * u(0) + u(1) * u(1) + u(2) * u(2) <= 2 as real,
        v(0) * v(0) + v(1) * v(1) + v(2) * v(2) <= 2 as real,
    ensures
        total(|m: int| abs(v(m)), 3) * total(|l: int| abs(u(l)), 3) <= 6 as real,
        total(|m: int| abs(v(m)), 3) * total(|l: int| abs(u(l)), 3) >= 0 as real,
{
    let (su, sv) = (|l: int| abs(u(l)), |m: int| abs(v(m)));
    assert(total(su, 3) == su(0) + su(1) + su(2)) by {
        reveal_with_fuel(total, 4);
    }
    assert(total(sv, 3) == sv(0) + sv(1) + sv(2)) by {
        reveal_with_fuel(total, 4);
    }
    lemma_column_sum(u(0), u(1), u(2));
    lemma_column_sum(v(0), v(1), v(2));
    lemma_mean_of_squares(total(sv, 3), total(su, 3));
    lemma_abs_product(total(sv, 3), total(su, 3));
}

/// The square of the sum of three absolute values.
proof fn lemma_column_sum(a: real, b: real, c: real)
    requires
        a * a + b * b + c * c <= 2 as real,
    ensures
        (abs(a) + abs(b) + abs(c)) * (abs(a) + abs(b) + abs(c)) <= 6 as real,
{
    let (x, y, z) = (abs(a), abs(b), abs(c));
    lemma_square_of_three(x, y, z);
    lemma_mean_of_squares(x, y);
    lemma_mean_of_squares(x, z);
    lemma_mean_of_squares(y, z);
    lemma_abs_product(a, a);
    lemma_abs_product(b, b);
    lemma_abs_product(c, c);
    lemma_square_nonnegative(a);
    lemma_square_nonnegative(b);
    lemma_square_nonnegative(c);
}

/// The linear part: `p` are the products of the entries, `x` the exact ones, `s` is what the
/// exact ones sum to, and `g` the product of the columns before the step.
proof fn lemma_step_bound(
    p0: real,
    p1: real,
    p2: real,
    x0: real,
    x1: real,
    x2: real,
    g: real,
    u: real,
    d: real,
)
    requires
        abs(p0 - x0) <= (130 as real) * slack(),
        abs(p1 - x1) <= (130 as real) * slack(),
        abs(p2 - x2) <= (130 as real) * slack(),
        abs(x0 + x1 + x2 - g) <= (6 as real) * rotation_bound(),
        abs(g - u) <= d,
    ensures
        abs(p0 + p1 + p2 - u) <= d + (7 as real) * rotation_bound(),
{
}

/// A product with a rotation within its bound is a rotation within seven times the bound more.
proof fn lemma_product_within(q: [[Binary64; 3]; 3], r: [[Binary64; 3]; 3], d: real, i: int, j: int)
    requires
        is_rotation_within(q, rotation_bound()),
        is_rotation_within(r, d),
        d <= 1 as real,
        0 <= i < 3,
        0 <= j < 3,
    ensures
        is_finite(product(q, r)[i][j]),
        abs(column_product(product(q, r), i, j) - unit_entry(i, j)) <= d + (7 as real)
            * rotation_bound(),
{
    let n = product(q, r);
    let u = |l: int| value(r[l][i]);
    let v = |l: int| value(r[l][j]);
    lemma_step_entry(q, r, d, i, j);
    lemma_entry_pair(q, r, d, 0, i, j);
    lemma_entry_pair(q, r, d, 1, i, j);
    lemma_entry_pair(q, r, d, 2, i, j);
    assert(is_finite(r[i][j]) && is_finite(r[i][i]) && is_finite(r[j][j]));
    assert(abs(column_product(r, i, i) - unit_entry(i, i)) <= d);
    assert(abs(column_product(r, j, j) - unit_entry(j, j)) <= d);
    lemma_columns_of_product(q, u, v);
    lemma_columns_near(q, rotation_bound(), u, v);
    lemma_sums_modest(u, v);
    let (su, sv) = (total(|l: int| abs(u(l)), 3), total(|m: int| abs(v(m)), 3));
    lemma_real_associative(rotation_bound(), sv, su);
    lemma_real_mul_ordered(sv * su, 6 as real, rotation_bound());
    lemma_real_associative(sv * su, rotation_bound(), su);
    let uv = |l: int| u(l) * v(l);
    assert(total(uv, 3) == uv(0) + uv(1) + uv(2)) by {
        reveal_with_fuel(total, 4);
    }
    lemma_total_same(uv, |l: int| u(l) * v(l), 3);
    let xy = |k: int|
        total(|l: int| u(l) * value(q[k][l]), 3) * total(|m: int| v(m) * value(q[k][m]), 3);
    assert(total(xy, 3) == xy(0) + xy(1) + xy(2)) by {
        reveal_with_fuel(total, 4);
    }
    lemma_same_entries(q, r, u, v, i, j, 0);
    lemma_same_entries(q, r, u, v, i, j, 1);
    lemma_same_entries(q, r, u, v, i, j, 2);
    lemma_step_bound(
        value(n[0][i]) * value(n[0][j]),
        value(n[1][i]) * value(n[1][j]),
        value(n[2][i]) * value(n[2][j]),
        xy(0),
        xy(1),
        xy(2),
        column_product(r, i, j),
        unit_entry(i, j),
        d,
    );
}

proof fn lemma_same_entries(
    q: [[Binary64; 3]; 3],
    r: [[Binary64; 3]; 3],
    u: spec_fn(int) -> real,
    v: spec_fn(int) -> real,
    i: int,
    j: int,
    k: int,
)
    requires
        forall|l: int| 0 <= l < 3 ==> #[trigger] u(l) == value(r[l][i]),
        forall|l: int| 0 <= l < 3 ==> #[trigger] v(l) == value(r[l][j]),
    ensures
        total(|l: int| u(l) * value(q[k][l]), 3) == exact_entry(q, r, k, i),
        total(|m: int| v(m) * value(q[k][m]), 3) == exact_entry(q, r, k, j),
{
    let f = |l: int| u(l) * value(q[k][l]);
    let g = |l: int| value(r[l][i]) * value(q[k][l]);
    assert forall|l: int| 0 <= l < 3 implies #[trigger] f(l) == g(l) by {
        assert(u(l) == value(r[l][i]));
    }
    lemma_total_same(f, g, 3);
    let a = |m: int| v(m) * value(q[k][m]);
    let b = |l: int| value(r[l][j]) * value(q[k][l]);
    assert forall|l: int| 0 <= l < 3 implies #[trigger] a(l) == b(l) by {
        assert(v(l) == value(r[l][j]));
    }
    lemma_total_same(a, b, 3);
}

/// The product of two entries of a row of a product.
proof fn lemma_entry_pair(
    q: [[Binary64; 3]; 3],
    r: [[Binary64; 3]; 3],
    d: real,
    k: int,
    i: int,
    j: int,
)
    requires
        is_rotation_within(q, rotation_bound()),
        is_rotation_within(r, d),
        d <= 1 as real,
        0 <= k < 3,
        0 <= i < 3,
        0 <= j < 3,
    ensures
        abs(
            value(product(q, r)[k][i]) * value(product(q, r)[k][j]) - exact_entry(q, r, k, i)
                * exact_entry(q, r, k, j),
        ) <= (130 as real) * slack(),
{
    lemma_step_entry(q, r, d, k, i);
    lemma_step_entry(q, r, d, k, j);
    lemma_products_near(
        value(product(q, r)[k][i]),
        exact_entry(q, r, k, i),
        value(product(q, r)[k][j]),
        exact_entry(q, r, k, j),
        (5 as real) * slack(),
        13 as real,
    );
}

/// Whether the rotation of the step that the equations ask for is by a moderate vector, with a
/// sound sine and cosine of its length.
pub open spec fn turns_soundly(
    eqs: NormalEquations,
    trig: spec_fn(Binary64) -> (Binary64, Binary64),
) -> bool {
    guarded_solution(eqs.a, negated6(eqs.b)) matches Some((x, weakest)) ==> {
        let w = [x[0], x[1], x[2]];
        let (sine, cosine) = trig(fl_sqrt(squared_norm(w)));
        is_moderate(w) && is_sound_pair(sine, cosine)
    }
}

/// A step keeps the estimate a rotation: where the products of the columns of the rotation are
/// those of the identity up to `d`, after the step they are up to `d` and seven times the bound of
/// a rotation by a vector.
pub proof fn law_step_keeps_rotation(
    eqs: NormalEquations,
    est: Estimate,
    trig: spec_fn(Binary64) -> (Binary64, Binary64),
    d: real,
)
    requires
        is_rotation_within(est.pose.rotation, d),
        d <= 1 as real,
        turns_soundly(eqs, trig),
    ensures
        stepped(eqs, est, trig) matches Ok((next, length)) ==> is_rotation_within(
            next.pose.rotation,
            d + (7 as real) * rotation_bound(),
        ),
{
    if let Ok((next, length)) = stepped(eqs, est, trig) {
        let (x, weakest) = guarded_solution(eqs.a, negated6(eqs.b)).unwrap();
        let w = [x[0], x[1], x[2]];
        let (sine, cosine) = trig(fl_sqrt(squared_norm(w)));
        let q = rotation_by(w, sine, cosine);
        lemma_rotation_within(w, sine, cosine);
        let n = product(q, est.pose.rotation);
        assert(next.pose.rotation == n);
        let e = d + (7 as real) * rotation_bound();
        assert forall|i: int, j: int| 0 <= i < 3 && 0 <= j < 3 implies is_finite(
            #[trigger] n[i][j],
        ) && abs(column_product(n, i, j) - unit_entry(i, j)) <= e by {
            lemma_product_within(q, est.pose.rotation, d, i, j);
        }
    }
}

/// Whether the steps that a refinement takes turn soundly.
pub open spec fn refines_soundly(
    src: RgbdLevel,
    tgt: RgbdLevel,
    criteria: IcpPlaneCriteria,
    view: spec_fn([Binary64; 3]) -> Option<[Binary64; 2]>,
    trig: spec_fn(Binary64) -> (Binary64, Binary64),
    est: Estimate,
    iters: nat,
) -> bool
    decreases iters,
{
    iters > 0 ==> {
        let eqs = pass(src, tgt, est.pose, run_gate(criteria, trig), view);
        &&& turns_soundly(eqs, trig)
        &&& stepped(eqs, est, trig) matches Ok((next, length)) ==> fl_lt(
            length,
            criteria.update_tolerance,
        ) || refines_soundly(src, tgt, criteria, view, trig, next, (iters - 1) as nat)
    }
}

/// How far a rotation may have strayed after `n` steps from one within `d`.
pub open spec fn strayed(d: real, n: nat) -> real {
    d + ((7 * n) as real) * rotation_bound()
}

proof fn lemma_strayed_once(d: real, n: nat)
    ensures
        strayed(d, n + 1) == strayed(d + (7 as real) * rotation_bound(), n),
        strayed(d, n) >= d,
        strayed(d, n) <= strayed(d, n + 1),
{
    let m = (7 * n) as real;
    lemma_real_distributes(m, 7 as real, rotation_bound());
    assert((7 * (n + 1)) as real == m + (7 as real));
    lemma_real_mul_ordered(0 as real, m, rotation_bound());
    lemma_real_distributes(0 as real, 0 as real, rotation_bound());
}

/// A refinement keeps the estimate a rotation: each step adds seven times the bound of a rotation
/// by a vector at most.
pub proof fn law_refinement_keeps_rotation(
    src: RgbdLevel,
    tgt: RgbdLevel,
    criteria: IcpPlaneCriteria,
    view: spec_fn([Binary64; 3]) -> Option<[Binary64; 2]>,
    trig: spec_fn(Binary64) -> (Binary64, Binary64),
    est: Estimate,
    iters: nat,
    d: real,
)
    requires
        is_rotation_within(est.pose.rotation, d),
        strayed(d, iters) <= 1 as real,
        refines_soundly(src, tgt, criteria, view, trig, est, iters),
    ensures
        refined(src, tgt, criteria, view, trig, est, iters) matches Ok(to) ==> is_rotation_within(
            to.pose.rotation,
            strayed(d, iters),
        ),
    decreases iters,
{
    lemma_strayed_once(d, iters);
    if iters > 0 {
        let m = (iters - 1) as nat;
        let e = d + (7 as real) * rotation_bound();
        let eqs = pass(src, tgt, est.pose, run_gate(criteria, trig), view);
        lemma_strayed_once(d, m);
        lemma_strayed_once(e, m);
        law_step_keeps_rotation(eqs, est, trig, d);
        if let Ok((next, length)) = stepped(eqs, est, trig) {
            if fl_lt(length, criteria.update_tolerance) {
                lemma_looser(next.pose.rotation, e, strayed(d, iters));
            } else {
                law_refinement_keeps_rotation(src, tgt, criteria, view, trig, next, m, e);
            }
        }
    } else {
        lemma_looser(est.pose.rotation, d, strayed(d, iters));
    }
}

proof fn lemma_looser(m: [[Binary64; 3]; 3], d: real, e: real)
    requires
        is_rotation_within(m, d),
        d <= e,
    ensures
        is_rotation_within(m, e),
{
    assert forall|i: int, j: int| 0 <= i < 3 && 0 <= j < 3 implies is_finite(#[trigger] m[i][j])
        && abs(column_product(m, i, j) - unit_entry(i, j)) <= e by {}
}

/// Whether the steps that a registration takes on the levels from `coarse` on, counted from the
/// coarsest, turn soundly.
pub open spec fn descends_soundly(
    source: RgbdPyramid,
    target: RgbdPyramid,
    criteria: IcpPlaneCriteria,
    views: spec_fn(usize, [Binary64; 3]) -> Option<[Binary64; 2]>,
    trig: spec_fn(Binary64) -> (Binary64, Binary64),
    est: Estimate,
    num_levels: nat,
    coarse: nat,
) -> bool
    decreases num_levels - coarse,
{
    coarse < num_levels ==> {
        let level = num_levels - 1 - coarse;
        let (src, tgt) = (source.levels[level], target.levels[level]);
        let view = level_view(views, level as usize);
        let iters = planned_iterations(criteria.iters_per_level@, coarse);
        &&& refines_soundly(src, tgt, criteria, view, trig, est, iters)
        &&& refined(src, tgt, criteria, view, trig, est, iters) matches Ok(next)
            ==> descends_soundly(
            source,
            target,
            criteria,
            views,
            trig,
            next,
            num_levels,
            coarse + 1,
        )
    }
}

/// A registration returns a rotation: where the initial guess is one within `d` and the steps
/// turn soundly, the estimate is one within `d` and seven times the bound of a rotation by a vector
/// for each planned iteration.
pub proof fn law_registration_returns_rotation(
    source: RgbdPyramid,
    target: RgbdPyramid,
    rotation: [[Binary64; 3]; 3],
    translation: [Binary64; 3],
    criteria: IcpPlaneCriteria,
    views: spec_fn(usize, [Binary64; 3]) -> Option<[Binary64; 2]>,
    trig: spec_fn(Binary64) -> (Binary64, Binary64),
    d: real,
)
    requires
        is_rotation_within(rotation, d),
        strayed(
            d,
            total_planned(criteria.iters_per_level@, common_levels(source, target), 0),
        ) <= 1 as real,
        descends_soundly(
            source,
            target,
            criteria,
            views,
            trig,
            initial_estimate(rotation, translation),
            common_levels(source, target),
            0,
        ),
    ensures
        registered(
            source,
            target,
            initial_estimate(rotation, translation),
            criteria,
            views,
            trig,
        ) matches Ok(r) ==> is_rotation_within(
            r.rotation,
            strayed(d, total_planned(criteria.iters_per_level@, common_levels(source, target), 0)),
        ),
{
    let n = common_levels(source, target);
    let start = initial_estimate(rotation, translation);
    lemma_descent_keeps_rotation(source, target, criteria, views, trig, start, n, 0, d);
}

proof fn lemma_strayed_twice(d: real, m: nat, n: nat)
    ensures
        strayed(strayed(d, m), n) == strayed(d, m + n),
        strayed(d, m) <= strayed(d, m + n),
{
    let (a, b) = ((7 * m) as real, (7 * n) as real);
    lemma_real_distributes(a, b, rotation_bound());
    assert((7 * (m + n)) as real == a + b);
    lemma_real_mul_ordered(0 as real, b, rotation_bound());
    lemma_real_distributes(0 as real, 0 as real, rotation_bound());
}

proof fn lemma_descent_keeps_rotation(
    source: RgbdPyramid,
    target: RgbdPyramid,
    criteria: IcpPlaneCriteria,
    views: spec_fn(usize, [Binary64; 3]) -> Option<[Binary64; 2]>,
    trig: spec_fn(Binary64) -> (Binary64, Binary64),
    est: Estimate,
    n: nat,
    coarse: nat,
    d: real,
)
    requires
        is_rotation_within(est.pose.rotation, d),
        strayed(d, total_planned(criteria.iters_per_level@, n, coarse)) <= 1 as real,
        descends_soundly(source, target, criteria, views, trig, est, n, coarse),
    ensures
        descended(source, target, criteria, views, trig, est, n, coarse) matches Ok(to)
            ==> is_rotation_within(
            to.pose.rotation,
            strayed(d, total_planned(criteria.iters_per_level@, n, coarse)),
        ),
    decreases n - coarse,
{
    let planned = total_planned(criteria.iters_per_level@, n, coarse);
    if coarse < n {
        let level = n - 1 - coarse;
        let (src, tgt) = (source.levels[level], target.levels[level]);
        let view = level_view(views, level as usize);
        let iters = planned_iterations(criteria.iters_per_level@, coarse);
        let rest = total_planned(criteria.iters_per_level@, n, coarse + 1);
        assert(planned == iters + rest);
        lemma_strayed_twice(d, iters, rest);
        law_refinement_keeps_rotation(src, tgt, criteria, view, trig, est, iters, d);
        if let Ok(next) = refined(src, tgt, criteria, view, trig, est, iters) {
            lemma_descent_keeps_rotation(
                source,
                target,
                criteria,
                views,
                trig,
                next,
                n,
                coarse + 1,
                strayed(d, iters),
            );
        }
    } else {
        lemma_strayed_once(d, planned);
        lemma_looser(est.pose.rotation, d, strayed(d, planned));
    }
}

} // verus!
