//! Quadratic forms of real matrices.
use crate::errors::{abs, lemma_real_associative, lemma_real_distributes, lemma_real_mul_ordered};
use crate::identities::{lemma_mean_of_squares, lemma_outer_term};
use crate::rotations::lemma_abs_product;
use crate::totals::{
    lemma_total_added, lemma_total_near, lemma_total_ordered, lemma_total_regrouped,
    lemma_total_same, lemma_total_scaled, total,
};
use vstd::prelude::*;

verus! {

/// `y^T s y` for a matrix of `n` rows and columns.
pub open spec fn form(s: spec_fn(int, int) -> real, y: spec_fn(int) -> real, n: nat) -> real {
    total(|i: int| y(i) * total(|k: int| s(i, k) * y(k), n), n)
}

pub proof fn lemma_form_same(
    s: spec_fn(int, int) -> real,
    t: spec_fn(int, int) -> real,
    y: spec_fn(int) -> real,
    n: nat,
)
    requires
        forall|i: int, k: int| 0 <= i < n && 0 <= k < n ==> #[trigger] s(i, k) == t(i, k),
    ensures
        form(s, y, n) == form(t, y, n),
{
    let f = |i: int| y(i) * total(|k: int| s(i, k) * y(k), n);
    let g = |i: int| y(i) * total(|k: int| t(i, k) * y(k), n);
    assert forall|i: int| 0 <= i < n implies #[trigger] f(i) == g(i) by {
        let p = |k: int| s(i, k) * y(k);
        let q = |k: int| t(i, k) * y(k);
        assert forall|k: int| 0 <= k < n implies #[trigger] p(k) == q(k) by {
            assert(s(i, k) == t(i, k));
        }
        lemma_total_same(p, q, n);
    }
    lemma_total_same(f, g, n);
}

/// The form of a sum of matrices.
pub proof fn lemma_form_added(
    s: spec_fn(int, int) -> real,
    t: spec_fn(int, int) -> real,
    y: spec_fn(int) -> real,
    n: nat,
)
    ensures
        form(|i: int, k: int| s(i, k) + t(i, k), y, n) == form(s, y, n) + form(t, y, n),
{
    let u = |i: int, k: int| s(i, k) + t(i, k);
    let f = |i: int| y(i) * total(|k: int| s(i, k) * y(k), n);
    let g = |i: int| y(i) * total(|k: int| t(i, k) * y(k), n);
    let h = |i: int| y(i) * total(|k: int| u(i, k) * y(k), n);
    assert forall|i: int| 0 <= i < n implies #[trigger] h(i) == f(i) + g(i) by {
        let p = |k: int| s(i, k) * y(k);
        let q = |k: int| t(i, k) * y(k);
        let r = |k: int| u(i, k) * y(k);
        assert forall|k: int| 0 <= k < n implies #[trigger] r(k) == p(k) + q(k) by {
            lemma_real_distributes(s(i, k), t(i, k), y(k));
        }
        lemma_total_same(r, |k: int| p(k) + q(k), n);
        lemma_total_added(p, q, n);
        let (a, b) = (total(p, n), total(q, n));
        lemma_real_distributes(a, b, y(i));
        lemma_real_associative(a, y(i), a);
        lemma_real_associative(b, y(i), b);
        lemma_real_associative(a + b, y(i), a);
    }
    lemma_total_same(h, |i: int| f(i) + g(i), n);
    lemma_total_added(f, g, n);
}

/// The form of `w v v^T` is `w (v y)^2`.
pub proof fn lemma_form_outer(w: real, v: spec_fn(int) -> real, y: spec_fn(int) -> real, n: nat)
    ensures
        ({
            let d = total(|k: int| v(k) * y(k), n);
            form(|i: int, k: int| (w * v(i)) * v(k), y, n) == (w * d) * d
        }),
{
    let s = |i: int, k: int| (w * v(i)) * v(k);
    let p = |k: int| v(k) * y(k);
    let d = total(p, n);
    let f = |i: int| y(i) * total(|k: int| s(i, k) * y(k), n);
    let g = |i: int| (w * d) * p(i);
    assert forall|i: int| 0 <= i < n implies #[trigger] f(i) == g(i) by {
        let c = w * v(i);
        let q = |k: int| s(i, k) * y(k);
        assert forall|k: int| 0 <= k < n implies #[trigger] q(k) == c * p(k) by {
            lemma_real_associative(c, v(k), y(k));
        }
        lemma_total_scaled(p, c, n);
        lemma_total_same(q, |k: int| c * p(k), n);
        lemma_outer_term(y(i), w, v(i), d);
    }
    lemma_total_scaled(p, w * d, n);
    lemma_total_same(f, g, n);
    lemma_total_same(g, |i: int| (w * d) * p(i), n);
}

/// Matrices that are near each other have forms that are as near as the form of the bounds.
pub proof fn lemma_form_near(
    s: spec_fn(int, int) -> real,
    t: spec_fn(int, int) -> real,
    e: spec_fn(int, int) -> real,
    y: spec_fn(int) -> real,
    n: nat,
)
    requires
        forall|i: int, k: int|
            0 <= i < n && 0 <= k < n ==> abs(#[trigger] s(i, k) - t(i, k)) <= e(i, k),
    ensures
        abs(form(s, y, n) - form(t, y, n)) <= form(e, |i: int| abs(y(i)), n),
{
    let z = |i: int| abs(y(i));
    let f = |i: int| y(i) * total(|k: int| s(i, k) * y(k), n);
    let g = |i: int| y(i) * total(|k: int| t(i, k) * y(k), n);
    let h = |i: int| z(i) * total(|k: int| e(i, k) * z(k), n);
    assert forall|i: int| 0 <= i < n implies abs(#[trigger] f(i) - g(i)) <= h(i) by {
        let p = |k: int| s(i, k) * y(k);
        let q = |k: int| t(i, k) * y(k);
        let r = |k: int| e(i, k) * z(k);
        assert forall|k: int| 0 <= k < n implies abs(#[trigger] p(k) - q(k)) <= r(k) by {
            assert(abs(s(i, k) - t(i, k)) <= e(i, k));
            lemma_real_distributes(s(i, k), t(i, k), y(k));
            lemma_abs_product(s(i, k) - t(i, k), y(k));
            lemma_real_mul_ordered(abs(s(i, k) - t(i, k)), e(i, k), z(k));
        }
        lemma_total_near(p, q, r, n);
        let (a, b, c) = (total(p, n), total(q, n), total(r, n));
        lemma_real_distributes(a, b, y(i));
        lemma_real_associative(a, y(i), a);
        lemma_real_associative(b, y(i), b);
        lemma_abs_product(a - b, y(i));
        lemma_real_mul_ordered(abs(a - b), c, z(i));
        lemma_real_associative(c, z(i), c);
    }
    lemma_total_near(f, g, h, n);
}

/// The form of a scaled matrix.
pub proof fn lemma_form_scaled(
    s: spec_fn(int, int) -> real,
    c: real,
    y: spec_fn(int) -> real,
    n: nat,
)
    ensures
        form(|i: int, k: int| c * s(i, k), y, n) == c * form(s, y, n),
{
    let u = |i: int, k: int| c * s(i, k);
    let f = |i: int| y(i) * total(|k: int| s(i, k) * y(k), n);
    let g = |i: int| y(i) * total(|k: int| u(i, k) * y(k), n);
    assert forall|i: int| 0 <= i < n implies #[trigger] g(i) == c * f(i) by {
        let p = |k: int| s(i, k) * y(k);
        let q = |k: int| u(i, k) * y(k);
        assert forall|k: int| 0 <= k < n implies #[trigger] q(k) == c * p(k) by {
            lemma_real_associative(c, s(i, k), y(k));
        }
        lemma_total_scaled(p, c, n);
        lemma_total_same(q, |k: int| c * p(k), n);
        lemma_real_associative(c, total(p, n), y(i));
        lemma_real_associative(y(i), c * total(p, n), c);
        lemma_real_associative(y(i), total(p, n), c);
        lemma_real_associative(c, y(i), total(p, n));
    }
    lemma_total_scaled(f, c, n);
    lemma_total_same(g, |i: int| c * f(i), n);
}

/// The square of a sum of six numbers is at most six times the sum of their squares.
pub proof fn lemma_square_of_sum(v: spec_fn(int) -> real)
    ensures
        total(v, 6) * total(v, 6) <= (6 as real) * total(|i: int| v(i) * v(i), 6),
{
    let d = total(v, 6);
    let sq = |i: int| v(i) * v(i);
    let q = total(sq, 6);
    let f = |i: int| d * v(i);
    let g = |i: int| (3 as real) * sq(i) + q / (2 as real);
    assert forall|i: int| 0 <= i < 6 implies #[trigger] f(i) <= g(i) by {
        let c = v(i);
        let p = |k: int| c * v(k);
        let r = |k: int| (sq(i) + sq(k)) / (2 as real);
        assert forall|k: int| 0 <= k < 6 implies #[trigger] p(k) <= r(k) by {
            lemma_mean_of_squares(c, v(k));
        }
        lemma_total_ordered(p, r, 6);
        lemma_total_scaled(v, c, 6);
        lemma_total_same(p, |k: int| c * v(k), 6);
        lemma_real_associative(d, c, d);
        assert(total(r, 6) == g(i)) by {
            reveal_with_fuel(total, 7);
        }
    }
    lemma_total_scaled(v, d, 6);
    lemma_total_same(f, |i: int| d * v(i), 6);
    lemma_total_ordered(f, g, 6);
    assert(total(g, 6) == (6 as real) * q) by {
        reveal_with_fuel(total, 7);
    }
}

/// The form of `u u^T` is the sum of the squares of `u^T y`.
pub proof fn lemma_form_of_product(
    u: spec_fn(int, int) -> real,
    y: spec_fn(int) -> real,
    n: nat,
)
    ensures
        ({
            let z = |k: int| total(|j: int| u(j, k) * y(j), n);
            form(|i: int, j: int| total(|k: int| u(i, k) * u(j, k), n), y, n) == total(
                |k: int| z(k) * z(k),
                n,
            )
        }),
{
    let s = |i: int, j: int| total(|k: int| u(i, k) * u(j, k), n);
    let z = |k: int| total(|j: int| u(j, k) * y(j), n);
    let f = |i: int| y(i) * total(|j: int| s(i, j) * y(j), n);
    let g = |i: int| total(|k: int| z(k) * u(i, k), n) * y(i);
    assert forall|i: int| 0 <= i < n implies #[trigger] f(i) == g(i) by {
        let row = |k: int| u(i, k);
        lemma_total_regrouped(row, u, y, n);
        let p = |j: int| s(i, j) * y(j);
        let q = |j: int| total(|k: int| row(k) * u(j, k), n) * y(j);
        assert forall|j: int| 0 <= j < n implies #[trigger] p(j) == q(j) by {
            lemma_total_same(|k: int| u(i, k) * u(j, k), |k: int| row(k) * u(j, k), n);
        }
        lemma_total_same(p, q, n);
        let a = |k: int| row(k) * total(|j: int| u(j, k) * y(j), n);
        let b = |k: int| z(k) * u(i, k);
        assert forall|k: int| 0 <= k < n implies #[trigger] a(k) == b(k) by {
            lemma_real_associative(row(k), z(k), z(k));
        }
        lemma_total_same(a, b, n);
        lemma_real_associative(y(i), total(b, n), y(i));
    }
    lemma_total_same(f, g, n);
    lemma_total_regrouped(z, u, y, n);
    lemma_total_same(
        |k: int| z(k) * total(|j: int| u(j, k) * y(j), n),
        |k: int| z(k) * z(k),
        n,
    );
}

} // verus!
