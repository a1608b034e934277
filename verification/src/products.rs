//! How far products of matrices and vectors stray from the exact ones.
use crate::binary64::{fl_add, fl_mul, Binary64};
use crate::chains::{
    lemma_finite_factors, lemma_finite_operands, lemma_tiny_positive, lemma_unit_of, unit_of,
};
use crate::errors::{
    abs, half_unit, lemma_add_value, lemma_mul_value, lemma_real_associative,
    lemma_real_distributes, lemma_real_mul_ordered, lemma_real_one, tiny, value,
};
use crate::exactness::is_finite;
use crate::icp::rotated;
use crate::linear::{product, product_entry, row_dot};
use crate::residuals::{lemma_bounds_summed, lemma_column_bounded};
use crate::rotations::lemma_abs_product;
use crate::totals::{
    lemma_total_near, lemma_total_not_negative, lemma_total_ordered, lemma_total_regrouped,
    lemma_total_same, total,
};
use vstd::prelude::*;

verus! {

/// The linear part of a sum of two near numbers: `e` and `f` are how far `q` and `r` stray, `u`
/// stands for the unit of the exact sum, and `v` for that of the sum that is rounded to `s`.
proof fn lemma_sum_bound(
    p: real,
    o: real,
    q: real,
    r: real,
    s: real,
    e: real,
    f: real,
    u: real,
    v: real,
    d: real,
)
    requires
        abs(q - p) <= e,
        abs(r - o) <= f,
        abs(s - (q + r)) <= v + d,
        (0x0020_0000_0000_0000 as real) * v == abs(q + r),
        abs(p + o) <= (0x0020_0000_0000_0000 as real) * u,
        d >= 0 as real,
    ensures
        abs(s - (p + o)) <= (e + f) + (e + f) / (1000 as real) + u + d,
{
}

/// The linear part of a sum of three products, from the left.
proof fn lemma_three_bound(
    p0: real,
    p1: real,
    p2: real,
    q0: real,
    q1: real,
    q2: real,
    s: real,
    r: real,
    d: real,
)
    requires
        abs(q0 - p0) <= unit_of(p0) + d,
        abs(q1 - p1) <= unit_of(p1) + d,
        abs(q2 - p2) <= unit_of(p2) + d,
        abs(s - (q0 + q1)) <= unit_of(q0 + q1) + d,
        abs(r - (s + q2)) <= unit_of(s + q2) + d,
        d >= 0 as real,
    ensures
        abs(r - (p0 + p1 + p2)) <= (4 as real) * (unit_of(p0) + unit_of(p1) + unit_of(p2)) + (
        8 as real) * d,
{
    lemma_unit_of(p0);
    lemma_unit_of(p1);
    lemma_unit_of(p2);
    lemma_unit_of(q0 + q1);
    lemma_unit_of(s + q2);
    let (u0, u1, u2) = (unit_of(p0), unit_of(p1), unit_of(p2));
    lemma_sum_bound(
        p0,
        p1,
        q0,
        q1,
        s,
        u0 + d,
        u1 + d,
        u0 + u1,
        unit_of(q0 + q1),
        d,
    );
    let e = (u0 + u1 + (2 as real) * d) + (u0 + u1 + (2 as real) * d) / (1000 as real) + (u0 + u1)
        + d;
    lemma_sum_bound(
        p0 + p1,
        p2,
        s,
        q2,
        r,
        e,
        u2 + d,
        u0 + u1 + u2,
        unit_of(s + q2),
        d,
    );
}

/// A sum of three products, from the left.
proof fn lemma_three_products(
    x0: Binary64,
    y0: Binary64,
    x1: Binary64,
    y1: Binary64,
    x2: Binary64,
    y2: Binary64,
)
    requires
        is_finite(fl_add(fl_add(fl_mul(x0, y0), fl_mul(x1, y1)), fl_mul(x2, y2))),
    ensures
        ({
            let (p0, p1, p2) = (
                value(x0) * value(y0),
                value(x1) * value(y1),
                value(x2) * value(y2),
            );
            abs(
                value(fl_add(fl_add(fl_mul(x0, y0), fl_mul(x1, y1)), fl_mul(x2, y2))) - (p0 + p1
                    + p2),
            ) <= (4 as real) * (unit_of(p0) + unit_of(p1) + unit_of(p2)) + (8 as real) * tiny()
        }),
{
    let (q0, q1, q2) = (fl_mul(x0, y0), fl_mul(x1, y1), fl_mul(x2, y2));
    let s = fl_add(q0, q1);
    lemma_finite_operands(s, q2);
    lemma_finite_operands(q0, q1);
    lemma_finite_factors(x0, y0);
    lemma_finite_factors(x1, y1);
    lemma_finite_factors(x2, y2);
    lemma_mul_value(x0, y0);
    lemma_mul_value(x1, y1);
    lemma_mul_value(x2, y2);
    lemma_add_value(q0, q1);
    lemma_add_value(s, q2);
    lemma_tiny_positive();
    lemma_three_bound(
        value(x0) * value(y0),
        value(x1) * value(y1),
        value(x2) * value(y2),
        value(q0),
        value(q1),
        value(q2),
        value(s),
        value(fl_add(s, q2)),
        tiny(),
    );
}

/// The error of a sum of three products whose absolute values add up to `g`.
pub open spec fn dot_error(g: real) -> real {
    ((4 as real) * half_unit()) * g + (8 as real) * tiny()
}

/// A product of two vectors of three entries.
pub proof fn lemma_dot_near(
    x: spec_fn(int) -> Binary64,
    y: spec_fn(int) -> Binary64,
    r: Binary64,
)
    requires
        r == fl_add(fl_add(fl_mul(x(0), y(0)), fl_mul(x(1), y(1))), fl_mul(x(2), y(2))),
        is_finite(r),
    ensures
        abs(value(r) - total(|k: int| value(x(k)) * value(y(k)), 3)) <= dot_error(
            total(|k: int| abs(value(x(k))) * abs(value(y(k))), 3),
        ),
{
    lemma_three_products(x(0), y(0), x(1), y(1), x(2), y(2));
    let p = |k: int| value(x(k)) * value(y(k));
    let q = |k: int| abs(value(x(k))) * abs(value(y(k)));
    lemma_abs_product(value(x(0)), value(y(0)));
    lemma_abs_product(value(x(1)), value(y(1)));
    lemma_abs_product(value(x(2)), value(y(2)));
    assert(total(p, 3) == p(0) + p(1) + p(2)) by {
        reveal_with_fuel(total, 4);
    }
    assert(total(q, 3) == q(0) + q(1) + q(2)) by {
        reveal_with_fuel(total, 4);
    }
    let h = half_unit();
    lemma_real_distributes(q(0) + q(1), q(2), h);
    lemma_real_distributes(q(0), q(1), h);
    lemma_real_associative(4 as real, h, total(q, 3));
    lemma_real_associative(h, total(q, 3), h);
}

/// The linear part of a product of products: `e` is exact, `g` the sum of the absolute values,
/// `n` that of the weights, and `s` that of the products.
proof fn lemma_composed_bound(r: real, pv: real, e: real, g: real, s: real, n: real, dn: real)
    requires
        abs(r - pv) <= dot_error(s),
        abs(pv - e) <= ((4 as real) * half_unit()) * g + dn,
        s <= (2 as real) * g + dn,
        dn == ((8 as real) * tiny()) * n,
        g >= 0 as real,
        n >= 0 as real,
        s >= 0 as real,
    ensures
        abs(r - e) <= composed_error(g, n),
{
    let h = half_unit();
    lemma_tiny_positive();
    lemma_unit_of(g);
    lemma_unit_of(s);
    lemma_unit_of(dn);
    lemma_real_associative(g, h, g);
    lemma_real_associative(s, h, s);
    lemma_real_associative(4 as real, h, g);
    lemma_real_associative(4 as real, h, s);
    lemma_real_associative(8 as real, tiny(), n);
    lemma_real_distributes(1 as real, n, tiny());
    lemma_real_associative((1 as real) + n, tiny(), n);
    lemma_real_associative(n, tiny(), n);
    lemma_real_one(tiny());
    lemma_abs_product(tiny(), n);
}

/// The error of a product of products, where `g` is the sum of the absolute values of all terms,
/// and `n` that of the outer factors.
pub open spec fn composed_error(g: real, n: real) -> real {
    (12 as real) * (half_unit() * g) + (16 as real) * (tiny() * ((1 as real) + n))
}

/// A product whose first factors `p` are near the exact `c`, which `g` bounds.
proof fn lemma_composed(
    p: spec_fn(int) -> real,
    c: spec_fn(int) -> real,
    g: spec_fn(int) -> real,
    v: spec_fn(int) -> real,
    r: real,
)
    requires
        forall|k: int|
            0 <= k < 3 ==> abs(#[trigger] p(k) - c(k)) <= dot_error(g(k)) && abs(c(k)) <= g(k),
        abs(r - total(|k: int| p(k) * v(k), 3)) <= dot_error(
            total(|k: int| abs(p(k)) * abs(v(k)), 3),
        ),
    ensures
        abs(r - total(|k: int| c(k) * v(k), 3)) <= composed_error(
            total(|k: int| g(k) * abs(v(k)), 3),
            total(|k: int| abs(v(k)), 3),
        ),
{
    let h4 = (4 as real) * half_unit();
    let d = (8 as real) * tiny();
    let two = 2 as real;
    let w = |k: int| abs(v(k));
    let f = |k: int| p(k) * v(k);
    let e = |k: int| c(k) * v(k);
    let q = |k: int| abs(p(k)) * abs(v(k));
    let gw = |k: int| g(k) * w(k);
    let b1 = |k: int| (h4 * g(k) + d) * w(k);
    let b2 = |k: int| (two * g(k) + d) * w(k);
    lemma_tiny_positive();
    assert forall|k: int| 0 <= k < 3 implies abs(#[trigger] f(k) - e(k)) <= b1(k) by {
        assert(abs(p(k) - c(k)) <= dot_error(g(k)));
        lemma_real_distributes(p(k), c(k), v(k));
        lemma_abs_product(p(k) - c(k), v(k));
        lemma_real_mul_ordered(abs(p(k) - c(k)), h4 * g(k) + d, w(k));
    }
    lemma_total_near(f, e, b1, 3);
    lemma_bounds_summed(g, w, h4, d, 3);
    assert forall|k: int| 0 <= k < 3 implies #[trigger] q(k) <= b2(k) by {
        assert(abs(p(k) - c(k)) <= dot_error(g(k)));
        lemma_unit_of(g(k));
        lemma_real_associative(4 as real, half_unit(), g(k));
        lemma_real_associative(g(k), half_unit(), g(k));
        lemma_real_mul_ordered(abs(p(k)), two * g(k) + d, w(k));
    }
    lemma_total_ordered(q, b2, 3);
    lemma_bounds_summed(g, w, two, d, 3);
    assert forall|k: int| 0 <= k < 3 implies #[trigger] gw(k) >= 0 as real by {
        assert(abs(p(k) - c(k)) <= dot_error(g(k)));
        lemma_abs_product(g(k), v(k));
    }
    lemma_total_not_negative(gw, 3);
    lemma_total_same(gw, |j: int| g(j) * w(j), 3);
    assert forall|k: int| 0 <= k < 3 implies #[trigger] q(k) >= 0 as real by {
        lemma_abs_product(p(k), v(k));
    }
    lemma_total_not_negative(q, 3);
    lemma_total_not_negative(w, 3);
    lemma_composed_bound(
        r,
        total(f, 3),
        total(e, 3),
        total(gw, 3),
        total(q, 3),
        total(w, 3),
        d * total(w, 3),
    );
    lemma_total_same(gw, |k: int| g(k) * abs(v(k)), 3);
}

/// The bound on what the two ways of applying two matrices differ by, in row `i`: a part of
/// `|a| |b| |v|`, and what is lost below the normal numbers.
pub open spec fn application_bound(
    a: [[Binary64; 3]; 3],
    b: [[Binary64; 3]; 3],
    v: [Binary64; 3],
    i: int,
) -> real {
    let g = total(
        |k: int|
            total(|j: int| abs(value(a[i][j])) * abs(value(b[j][k])), 3) * abs(value(v[k])),
        3,
    );
    composed_error(g, total(|k: int| abs(value(v[k])), 3)) + composed_error(
        g,
        total(|j: int| abs(value(a[i][j])), 3),
    )
}

/// Multiplying by the product, against the exact result.
proof fn lemma_product_first(
    a: [[Binary64; 3]; 3],
    b: [[Binary64; 3]; 3],
    v: [Binary64; 3],
    i: int,
)
    requires
        0 <= i < 3,
        forall|k: int| 0 <= k < 3 ==> is_finite(#[trigger] product(a, b)[i][k]),
        is_finite(row_dot(product(a, b), i, v)),
    ensures
        abs(
            value(row_dot(product(a, b), i, v)) - total(
                |k: int|
                    total(|j: int| value(a[i][j]) * value(b[j][k]), 3) * value(v[k]),
                3,
            ),
        ) <= composed_error(
            total(
                |k: int|
                    total(|j: int| abs(value(a[i][j])) * abs(value(b[j][k])), 3) * abs(value(v[k])),
                3,
            ),
            total(|k: int| abs(value(v[k])), 3),
        ),
{
    let m = product(a, b);
    let p = |k: int| value(m[i][k]);
    let c = |k: int| total(|j: int| value(a[i][j]) * value(b[j][k]), 3);
    let g = |k: int| total(|j: int| abs(value(a[i][j])) * abs(value(b[j][k])), 3);
    let w = |k: int| value(v[k]);
    assert forall|k: int| 0 <= k < 3 implies abs(#[trigger] p(k) - c(k)) <= dot_error(g(k)) && abs(
        c(k),
    ) <= g(k) by {
        assert(is_finite(m[i][k]));
        assert(m[i][k] == product_entry(a, b, i, k));
        let (x, y) = (|j: int| a[i][j], |j: int| b[j][k]);
        lemma_dot_near(x, y, m[i][k]);
        let (f, h) = (|j: int| value(a[i][j]), |j: int| value(b[j][k]));
        lemma_column_bounded(f, h, 3);
        let (s, t) = (
            |j: int| value(a[i][j]) * value(b[j][k]),
            |j: int| abs(value(a[i][j])) * abs(value(b[j][k])),
        );
        lemma_total_same(s, |j: int| value(x(j)) * value(y(j)), 3);
        lemma_total_same(t, |j: int| abs(value(x(j))) * abs(value(y(j))), 3);
        lemma_total_same(s, |j: int| f(j) * h(j), 3);
        lemma_total_same(t, |j: int| abs(f(j)) * abs(h(j)), 3);
    }
    let (x, y) = (|k: int| m[i][k], |k: int| v[k]);
    lemma_dot_near(x, y, row_dot(m, i, v));
    lemma_total_same(|k: int| value(x(k)) * value(y(k)), |k: int| p(k) * w(k), 3);
    lemma_total_same(
        |k: int| abs(value(x(k))) * abs(value(y(k))),
        |k: int| abs(p(k)) * abs(w(k)),
        3,
    );
    lemma_composed(p, c, g, w, value(row_dot(m, i, v)));
    lemma_total_same(|k: int| c(k) * w(k), |k: int| c(k) * value(v[k]), 3);
    lemma_total_same(|k: int| g(k) * abs(w(k)), |k: int| g(k) * abs(value(v[k])), 3);
    lemma_total_same(|k: int| abs(w(k)), |k: int| abs(value(v[k])), 3);
    let (c1, g1) = (
        |k: int| total(|j: int| value(a[i][j]) * value(b[j][k]), 3) * value(v[k]),
        |k: int|
            total(|j: int| abs(value(a[i][j])) * abs(value(b[j][k])), 3) * abs(value(v[k])),
    );
    lemma_total_same(|k: int| c(k) * value(v[k]), c1, 3);
    lemma_total_same(|k: int| g(k) * abs(value(v[k])), g1, 3);
}

/// Multiplying by one matrix after the other, against the exact result.
proof fn lemma_product_second(
    a: [[Binary64; 3]; 3],
    b: [[Binary64; 3]; 3],
    v: [Binary64; 3],
    i: int,
)
    requires
        0 <= i < 3,
        forall|j: int| 0 <= j < 3 ==> is_finite(#[trigger] rotated(b, v)[j]),
        is_finite(row_dot(a, i, rotated(b, v))),
    ensures
        abs(
            value(row_dot(a, i, rotated(b, v))) - total(
                |j: int|
                    value(a[i][j]) * total(|k: int| value(b[j][k]) * value(v[k]), 3),
                3,
            ),
        ) <= composed_error(
            total(
                |j: int|
                    abs(value(a[i][j])) * total(|k: int| abs(value(b[j][k])) * abs(value(v[k])), 3),
                3,
            ),
            total(|j: int| abs(value(a[i][j])), 3),
        ),
{
    let u = rotated(b, v);
    let p = |j: int| value(u[j]);
    let c = |j: int| total(|k: int| value(b[j][k]) * value(v[k]), 3);
    let g = |j: int| total(|k: int| abs(value(b[j][k])) * abs(value(v[k])), 3);
    let w = |j: int| value(a[i][j]);
    assert forall|j: int| 0 <= j < 3 implies abs(#[trigger] p(j) - c(j)) <= dot_error(g(j)) && abs(
        c(j),
    ) <= g(j) by {
        assert(is_finite(u[j]));
        assert(u[j] == row_dot(b, j, v));
        let (x, y) = (|k: int| b[j][k], |k: int| v[k]);
        lemma_dot_near(x, y, u[j]);
        let (f, h) = (|k: int| value(b[j][k]), |k: int| value(v[k]));
        lemma_column_bounded(f, h, 3);
        let (s, t) = (
            |k: int| value(b[j][k]) * value(v[k]),
            |k: int| abs(value(b[j][k])) * abs(value(v[k])),
        );
        lemma_total_same(s, |k: int| value(x(k)) * value(y(k)), 3);
        lemma_total_same(t, |k: int| abs(value(x(k))) * abs(value(y(k))), 3);
        lemma_total_same(s, |k: int| f(k) * h(k), 3);
        lemma_total_same(t, |k: int| abs(f(k)) * abs(h(k)), 3);
    }
    let (x, y) = (|j: int| a[i][j], |j: int| u[j]);
    lemma_dot_near(x, y, row_dot(a, i, u));
    let (xy, pw) = (|j: int| value(x(j)) * value(y(j)), |j: int| p(j) * w(j));
    let (axy, apw) = (
        |j: int| abs(value(x(j))) * abs(value(y(j))),
        |j: int| abs(p(j)) * abs(w(j)),
    );
    assert forall|j: int| 0 <= j < 3 implies #[trigger] xy(j) == pw(j) by {
        lemma_real_associative(p(j), w(j), p(j));
    }
    assert forall|j: int| 0 <= j < 3 implies #[trigger] axy(j) == apw(j) by {
        lemma_real_associative(abs(p(j)), abs(w(j)), p(j));
    }
    lemma_total_same(xy, pw, 3);
    lemma_total_same(axy, apw, 3);
    lemma_composed(p, c, g, w, value(row_dot(a, i, u)));
    let (cw, c1) = (
        |j: int| c(j) * w(j),
        |j: int| value(a[i][j]) * total(|k: int| value(b[j][k]) * value(v[k]), 3),
    );
    let (gw, g1) = (
        |j: int| g(j) * abs(w(j)),
        |j: int|
            abs(value(a[i][j])) * total(|k: int| abs(value(b[j][k])) * abs(value(v[k])), 3),
    );
    assert forall|j: int| 0 <= j < 3 implies #[trigger] cw(j) == c1(j) by {
        lemma_real_associative(c(j), w(j), c(j));
    }
    assert forall|j: int| 0 <= j < 3 implies #[trigger] gw(j) == g1(j) by {
        lemma_real_associative(g(j), abs(w(j)), g(j));
    }
    lemma_total_same(cw, c1, 3);
    lemma_total_same(gw, g1, 3);
    lemma_total_same(|j: int| abs(w(j)), |j: int| abs(value(a[i][j])), 3);
}

/// A product of matrices nearly applies the second one first: where the numbers that are computed
/// are finite, multiplying a vector by the product is multiplying it by `b` and then by `a`, up to
/// the application bound.
pub proof fn law_product_nearly_applies_second_first(
    a: [[Binary64; 3]; 3],
    b: [[Binary64; 3]; 3],
    v: [Binary64; 3],
    i: int,
)
    requires
        0 <= i < 3,
        forall|k: int| 0 <= k < 3 ==> is_finite(#[trigger] product(a, b)[i][k]),
        forall|j: int| 0 <= j < 3 ==> is_finite(#[trigger] rotated(b, v)[j]),
        is_finite(row_dot(product(a, b), i, v)),
        is_finite(row_dot(a, i, rotated(b, v))),
    ensures
        abs(value(row_dot(product(a, b), i, v)) - value(row_dot(a, i, rotated(b, v))))
            <= application_bound(a, b, v, i),
{
    lemma_product_first(a, b, v, i);
    lemma_product_second(a, b, v, i);
    let c1 = |k: int| total(|j: int| value(a[i][j]) * value(b[j][k]), 3) * value(v[k]);
    let c2 = |j: int| value(a[i][j]) * total(|k: int| value(b[j][k]) * value(v[k]), 3);
    let g1 = |k: int|
        total(|j: int| abs(value(a[i][j])) * abs(value(b[j][k])), 3) * abs(value(v[k]));
    let g2 = |j: int|
        abs(value(a[i][j])) * total(|k: int| abs(value(b[j][k])) * abs(value(v[k])), 3);
    let (ua, wb, xv) = (
        |j: int| value(a[i][j]),
        |j: int, k: int| value(b[j][k]),
        |k: int| value(v[k]),
    );
    assert forall|k: int| 0 <= k < 3 implies #[trigger] c1(k) == total(
        |j: int| ua(j) * wb(j, k),
        3,
    ) * xv(k) by {
        lemma_total_same(
            |j: int| value(a[i][j]) * value(b[j][k]),
            |j: int| ua(j) * wb(j, k),
            3,
        );
    }
    assert forall|j: int| 0 <= j < 3 implies #[trigger] c2(j) == ua(j) * total(
        |k: int| wb(j, k) * xv(k),
        3,
    ) by {
        lemma_total_same(
            |k: int| value(b[j][k]) * value(v[k]),
            |k: int| wb(j, k) * xv(k),
            3,
        );
    }
    lemma_exchanged(ua, wb, xv, c1, c2);
    let (sa, sb, sv) = (
        |j: int| abs(value(a[i][j])),
        |j: int, k: int| abs(value(b[j][k])),
        |k: int| abs(value(v[k])),
    );
    assert forall|k: int| 0 <= k < 3 implies #[trigger] g1(k) == total(
        |j: int| sa(j) * sb(j, k),
        3,
    ) * sv(k) by {
        lemma_total_same(
            |j: int| abs(value(a[i][j])) * abs(value(b[j][k])),
            |j: int| sa(j) * sb(j, k),
            3,
        );
    }
    assert forall|j: int| 0 <= j < 3 implies #[trigger] g2(j) == sa(j) * total(
        |k: int| sb(j, k) * sv(k),
        3,
    ) by {
        lemma_total_same(
            |k: int| abs(value(b[j][k])) * abs(value(v[k])),
            |k: int| sb(j, k) * sv(k),
            3,
        );
    }
    lemma_exchanged(sa, sb, sv, g1, g2);
}

/// The order of two summations, for sums `f` and `g` over either index.
proof fn lemma_exchanged(
    u: spec_fn(int) -> real,
    w: spec_fn(int, int) -> real,
    x: spec_fn(int) -> real,
    f: spec_fn(int) -> real,
    g: spec_fn(int) -> real,
)
    requires
        forall|k: int|
            0 <= k < 3 ==> #[trigger] f(k) == total(|j: int| u(j) * w(j, k), 3) * x(k),
        forall|j: int|
            0 <= j < 3 ==> #[trigger] g(j) == u(j) * total(|k: int| w(j, k) * x(k), 3),
    ensures
        total(f, 3) == total(g, 3),
{
    let turned = |k: int, j: int| w(j, k);
    lemma_total_regrouped(u, turned, x, 3);
    let left = |k: int| total(|j: int| u(j) * turned(k, j), 3) * x(k);
    let right = |j: int| u(j) * total(|k: int| turned(k, j) * x(k), 3);
    assert forall|k: int| 0 <= k < 3 implies #[trigger] f(k) == left(k) by {
        lemma_total_same(|j: int| u(j) * w(j, k), |j: int| u(j) * turned(k, j), 3);
    }
    assert forall|j: int| 0 <= j < 3 implies #[trigger] g(j) == right(j) by {
        lemma_total_same(|k: int| w(j, k) * x(k), |k: int| turned(k, j) * x(k), 3);
    }
    lemma_total_same(f, left, 3);
    lemma_total_same(g, right, 3);
}

} // verus!
