//! How far a computed solution is from solving its system.
use crate::binary64::{fl_add, fl_div, fl_sqrt, magnitude, negative, Binary64};
use crate::chains::{
    lemma_chain, lemma_chain_step, lemma_quotient_step, lemma_root_step, lemma_tiny_positive,
    lemma_unit_of, unit_of, units_before,
};
use crate::errors::{
    abs, half_unit, lemma_add_value, lemma_real_associative, lemma_real_distributes,
    lemma_real_mul_ordered, lemma_real_one, lemma_zero_value, tiny, value,
};
use crate::exactness::{is_finite, is_zero};
use crate::linear::{
    backward, backward_rest, factor, forward, forward_rest, guarded_solution, residual, solution,
};
use crate::rotations::lemma_abs_product;
use crate::rounding::INFINITE;
use crate::systems::{lemma_total_zero_products, low};
use crate::totals::{
    lemma_total_added, lemma_total_cut, lemma_total_holds, lemma_total_near,
    lemma_total_not_negative, lemma_total_ordered, lemma_total_regrouped, lemma_total_same,
    lemma_total_scaled, lemma_total_zero, total,
};
use vstd::prelude::*;

verus! {

/// Whether every number that the factorisation of `a` computes is finite.
pub open spec fn factors_finitely(a: [[Binary64; 6]; 6]) -> bool {
    &&& forall|i: int, j: int, k: int|
        0 <= k <= j <= i < 6 ==> is_finite(#[trigger] residual(a, i, j, k))
    &&& forall|i: int, j: int| 0 <= j <= i < 6 ==> is_finite(#[trigger] factor(a, i, j))
}

/// Whether every number that the solve of `a x = b` computes is finite.
pub open spec fn solves_finitely(a: [[Binary64; 6]; 6], b: [Binary64; 6]) -> bool {
    &&& factors_finitely(a)
    &&& forall|i: int, k: int| 0 <= k <= i < 6 ==> is_finite(#[trigger] forward_rest(a, b, i, k))
    &&& forall|i: int| 0 <= i < 6 ==> is_finite(#[trigger] forward(a, b, i))
    &&& forall|i: int, k: int| 0 <= i < k <= 6 ==> is_finite(#[trigger] backward_rest(a, b, i, k))
    &&& forall|i: int| 0 <= i < 6 ==> is_finite(#[trigger] backward(a, b, i))
}

/// Entry `(i, j)` of `|L| |L^T|`, for the triangular factor `L` of `a`.
pub open spec fn gram(a: [[Binary64; 6]; 6], i: int, j: int) -> real {
    total(|k: int| abs(low(a, i, k)) * abs(low(a, j, k)), 6)
}

/// One more than the sum of the diagonal of `|L|`.
pub open spec fn spread(a: [[Binary64; 6]; 6]) -> real {
    (1 as real) + total(|k: int| abs(low(a, k, k)), 6)
}

/// The error of a row of a product with the triangular factor, where `g` is the sum of the
/// absolute values of its terms: a part of `g`, and what is lost below the normal numbers.
pub open spec fn row_error(a: [[Binary64; 6]; 6], g: real) -> real {
    (40 as real) * (half_unit() * g) + (40 as real) * (tiny() * spread(a))
}

/// The end of a chain: `r` is what is left, and `p` the last product, which `r` is rounded to.
proof fn lemma_chain_closed(y: real, r: real, s: real, p: real, w: real, c: real, t: real, d: real)
    requires
        abs(y - r - s) <= c * (unit_of(r) + w + t),
        c <= 24 as real,
        abs(p - r) <= (4 as real) * unit_of(p) + (2 as real) * d,
        w >= 0 as real,
        t >= 0 as real,
        d >= 0 as real,
    ensures
        abs(y - (s + p)) <= (40 as real) * (w + unit_of(p)) + (40 as real) * (t + d),
{
    lemma_unit_of(r);
    lemma_unit_of(p);
    lemma_real_mul_ordered(c, 24 as real, unit_of(r) + w + t);
}

/// The absolute part of the error of a division by a diagonal entry.
pub proof fn lemma_diagonal_part(a: [[Binary64; 6]; 6], j: int)
    requires
        0 <= j < 6,
    ensures
        tiny() + tiny() * abs(low(a, j, j)) <= tiny() * spread(a),
        tiny() * abs(low(a, j, j)) >= 0 as real,
        tiny() >= 0 as real,
        spread(a) >= 1 as real,
{
    let f = |k: int| abs(low(a, k, k));
    lemma_total_holds(f, 6, j);
    lemma_total_not_negative(f, 6);
    lemma_tiny_positive();
    let d = f(j);
    let one = 1 as real;
    lemma_real_mul_ordered(one + d, spread(a), tiny());
    lemma_real_distributes(one, d, tiny());
    lemma_real_associative(one, tiny(), d);
    lemma_real_associative(d, tiny(), d);
    lemma_real_associative(spread(a), tiny(), d);
    lemma_real_one(tiny());
    lemma_real_mul_ordered(0 as real, d, tiny());
    lemma_real_distributes(0 as real, 0 as real, tiny());
}

/// A division by a diagonal entry with a finite result.
proof fn lemma_finite_divisor(r: Binary64, d: Binary64)
    requires
        is_finite(r),
        is_finite(fl_div(r, d)),
    ensures
        !is_zero(d),
{
    reveal(fl_div);
}

/// The diagonal of the factor has no zero.
proof fn lemma_diagonal_not_zero(a: [[Binary64; 6]; 6], b: [Binary64; 6], j: int)
    requires
        0 <= j < 6,
        solves_finitely(a, b),
    ensures
        !is_zero(factor(a, j, j)),
        is_finite(factor(a, j, j)),
{
    assert(is_finite(forward(a, b, j)));
    assert(is_finite(forward_rest(a, b, j, j)));
    lemma_finite_divisor(forward_rest(a, b, j, j), factor(a, j, j));
}

/// A finite square root is that of a positive number or of a zero.
proof fn lemma_rooted(r: Binary64)
    requires
        is_finite(r),
        is_finite(fl_sqrt(r)),
    ensures
        is_zero(r) || (!negative(r) && 0 < magnitude(r) < INFINITE),
        is_zero(r) ==> is_zero(fl_sqrt(r)),
{
    reveal(fl_sqrt);
}

/// A squared pivot is the square of the diagonal entry up to rounding.
pub proof fn lemma_pivot_closed(a: [[Binary64; 6]; 6], j: int)
    requires
        0 <= j < 6,
        factors_finitely(a),
    ensures
        abs(low(a, j, j) * low(a, j, j) - value(residual(a, j, j, j))) <= (4 as real) * unit_of(
            low(a, j, j) * low(a, j, j),
        ),
{
    let r = residual(a, j, j, j);
    assert(is_finite(r));
    assert(is_finite(factor(a, j, j)));
    lemma_unit_of(low(a, j, j) * low(a, j, j));
    lemma_rooted(r);
    if is_zero(r) {
        lemma_zero_value(r);
        lemma_zero_value(factor(a, j, j));
        lemma_real_distributes(0 as real, 0 as real, low(a, j, j));
    } else {
        lemma_root_step(r);
    }
}

/// The last product of an entry of the factor.
proof fn lemma_entry_closed(a: [[Binary64; 6]; 6], i: int, j: int)
    requires
        0 <= j <= i < 6,
        factors_finitely(a),
    ensures
        ({
            let p = low(a, i, j) * low(a, j, j);
            abs(p - value(residual(a, i, j, j))) <= (4 as real) * unit_of(p) + (2 as real) * (tiny()
                * abs(low(a, j, j)))
        }),
{
    lemma_diagonal_part(a, j);
    let r = residual(a, i, j, j);
    assert(is_finite(r));
    assert(is_finite(factor(a, i, j)));
    assert(is_finite(factor(a, j, j)));
    lemma_unit_of(low(a, i, j) * low(a, j, j));
    if i == j {
        lemma_pivot_closed(a, j);
    } else {
        lemma_finite_divisor(r, factor(a, j, j));
        lemma_quotient_step(r, factor(a, j, j));
    }
}

/// The units of terms are the unit of the sum `q` of their absolute values.
proof fn lemma_units_summed(p: spec_fn(int) -> real, q: spec_fn(int) -> real, n: nat)
    requires
        forall|k: int| 0 <= k < n ==> abs(#[trigger] p(k)) == q(k),
    ensures
        units_before(p, n) == half_unit() * total(q, n),
{
    let u = |k: int| unit_of(p(k));
    assert forall|k: int| 0 <= k < n implies #[trigger] u(k) == half_unit() * q(k) by {
        assert(abs(p(k)) == q(k));
        lemma_real_associative(q(k), half_unit(), q(k));
    }
    lemma_total_scaled(q, half_unit(), n);
    lemma_total_same(u, |k: int| half_unit() * q(k), n);
}

/// An entry of `a` below the diagonal or on it is that of `L L^T` up to the row error.
pub proof fn lemma_lower_near(a: [[Binary64; 6]; 6], i: int, j: int)
    requires
        0 <= j <= i < 6,
        factors_finitely(a),
    ensures
        abs(value(a[i][j]) - total(|k: int| low(a, i, k) * low(a, j, k), 6)) <= row_error(
            a,
            gram(a, i, j),
        ),
{
    let r = |k: int| value(residual(a, i, j, k));
    let p = |k: int| low(a, i, k) * low(a, j, k);
    let u = |k: int| unit_of(p(k));
    lemma_tiny_positive();
    assert forall|k: int| 0 <= k < j implies abs(#[trigger] r(k) - r(k + 1) - p(k)) <= (2 as real)
        * (unit_of(r(k + 1)) + unit_of(p(k))) + (3 as real) * tiny() by {
        assert(is_finite(residual(a, i, j, k + 1)));
        assert(is_finite(factor(a, i, k)));
        assert(is_finite(factor(a, j, k)));
        lemma_chain_step(residual(a, i, j, k), factor(a, i, k), factor(a, j, k));
    }
    lemma_chain(r, p, 0, j as nat, tiny());
    lemma_entry_closed(a, i, j);
    lemma_diagonal_part(a, j);
    let d = tiny() * abs(low(a, j, j));
    let w = units_before(p, j as nat);
    assert(total(p, 0) == 0 as real && units_before(p, 0) == 0 as real);
    lemma_chain_closed(
        value(a[i][j]),
        r(j),
        total(p, j as nat),
        p(j),
        w,
        (4 * j) as real,
        tiny(),
        d,
    );
    // the terms beyond the diagonal vanish
    let n = (j + 1) as nat;
    lemma_total_zero_products(a, i, j);
    lemma_total_cut(p, n, 6);
    assert forall|k: int| n <= k < 6 implies #[trigger] u(k) == 0 as real by {
        assert(low(a, i, k) * low(a, j, k) == 0 as real);
        lemma_unit_of(p(k));
    }
    lemma_total_cut(u, n, 6);
    assert(total(p, n) == total(p, j as nat) + p(j));
    assert(total(u, n) == total(u, j as nat) + u(j));
    let q = |k: int| abs(low(a, i, k)) * abs(low(a, j, k));
    assert forall|k: int| 0 <= k < 6 implies abs(#[trigger] p(k)) == q(k) by {
        lemma_abs_product(low(a, i, k), low(a, j, k));
    }
    lemma_units_summed(p, q, 6);
}

/// An entry of `a` is that of `L L^T` up to the row error.
pub proof fn lemma_matrix_near(a: [[Binary64; 6]; 6], i: int, j: int)
    requires
        0 <= i < 6,
        0 <= j < 6,
        forall|p: int, q: int| 0 <= q <= p < 6 ==> #[trigger] a[p][q] == a[q][p],
        factors_finitely(a),
    ensures
        abs(value(a[i][j]) - total(|k: int| low(a, i, k) * low(a, j, k), 6)) <= row_error(
            a,
            gram(a, i, j),
        ),
{
    if j <= i {
        lemma_lower_near(a, i, j);
    } else {
        lemma_lower_near(a, j, i);
        assert(a[j][i] == a[i][j]);
        let f = |k: int| low(a, i, k) * low(a, j, k);
        let g = |k: int| low(a, j, k) * low(a, i, k);
        let fa = |k: int| abs(low(a, i, k)) * abs(low(a, j, k));
        let ga = |k: int| abs(low(a, j, k)) * abs(low(a, i, k));
        assert forall|k: int| 0 <= k < 6 implies #[trigger] f(k) == g(k) by {
            lemma_real_associative(low(a, i, k), low(a, j, k), 0 as real);
        }
        assert forall|k: int| 0 <= k < 6 implies #[trigger] fa(k) == ga(k) by {
            lemma_real_associative(abs(low(a, i, k)), abs(low(a, j, k)), 0 as real);
        }
        lemma_total_same(f, g, 6);
        lemma_total_same(fa, ga, 6);
    }
}

/// An entry of `b` is that of `L y` up to the row error.
proof fn lemma_forward_near(a: [[Binary64; 6]; 6], b: [Binary64; 6], i: int)
    requires
        0 <= i < 6,
        solves_finitely(a, b),
    ensures
        abs(value(b[i]) - total(|k: int| low(a, i, k) * value(forward(a, b, k)), 6)) <= row_error(
            a,
            total(|k: int| abs(low(a, i, k)) * abs(value(forward(a, b, k))), 6),
        ),
{
    let r = |k: int| value(forward_rest(a, b, i, k));
    let p = |k: int| low(a, i, k) * value(forward(a, b, k));
    let u = |k: int| unit_of(p(k));
    lemma_tiny_positive();
    assert forall|k: int| 0 <= k < i implies abs(#[trigger] r(k) - r(k + 1) - p(k)) <= (2 as real)
        * (unit_of(r(k + 1)) + unit_of(p(k))) + (3 as real) * tiny() by {
        assert(is_finite(forward_rest(a, b, i, k + 1)));
        assert(is_finite(factor(a, i, k)));
        assert(is_finite(forward(a, b, k)));
        lemma_chain_step(forward_rest(a, b, i, k), factor(a, i, k), forward(a, b, k));
    }
    lemma_chain(r, p, 0, i as nat, tiny());
    lemma_diagonal_not_zero(a, b, i);
    lemma_diagonal_part(a, i);
    assert(is_finite(forward(a, b, i)));
    assert(is_finite(forward_rest(a, b, i, i)));
    lemma_quotient_step(forward_rest(a, b, i, i), factor(a, i, i));
    lemma_real_associative(low(a, i, i), value(forward(a, b, i)), 0 as real);
    lemma_unit_of(p(i));
    assert(total(p, 0) == 0 as real && units_before(p, 0) == 0 as real);
    lemma_chain_closed(
        value(b[i]),
        r(i),
        total(p, i as nat),
        p(i),
        units_before(p, i as nat),
        (4 * i) as real,
        tiny(),
        tiny() * abs(low(a, i, i)),
    );
    let n = (i + 1) as nat;
    assert forall|k: int| n <= k < 6 implies #[trigger] p(k) == 0 as real by {
        lemma_real_distributes(0 as real, 0 as real, value(forward(a, b, k)));
    }
    lemma_total_cut(p, n, 6);
    assert forall|k: int| n <= k < 6 implies #[trigger] u(k) == 0 as real by {
        assert(p(k) == 0 as real);
        lemma_unit_of(p(k));
    }
    lemma_total_cut(u, n, 6);
    assert(total(p, n) == total(p, i as nat) + p(i));
    assert(total(u, n) == total(u, i as nat) + u(i));
    let q = |k: int| abs(low(a, i, k)) * abs(value(forward(a, b, k)));
    assert forall|k: int| 0 <= k < 6 implies abs(#[trigger] p(k)) == q(k) by {
        lemma_abs_product(low(a, i, k), value(forward(a, b, k)));
    }
    lemma_units_summed(p, q, 6);
}

/// An entry of `y` is that of `L^T x` up to the row error.
proof fn lemma_backward_near(a: [[Binary64; 6]; 6], b: [Binary64; 6], i: int)
    requires
        0 <= i < 6,
        solves_finitely(a, b),
    ensures
        abs(
            value(forward(a, b, i)) - total(
                |j: int| low(a, j, i) * value(backward(a, b, j)),
                6,
            ),
        ) <= row_error(
            a,
            total(|j: int| abs(low(a, j, i)) * abs(value(backward(a, b, j))), 6),
        ),
{
    let r = |k: int| value(backward_rest(a, b, i, k));
    let p = |k: int| low(a, k, i) * value(backward(a, b, k));
    let u = |k: int| unit_of(p(k));
    let n = (i + 1) as nat;
    lemma_tiny_positive();
    assert forall|k: int| n <= k < 6 implies abs(#[trigger] r(k) - r(k + 1) - p(k)) <= (2 as real)
        * (unit_of(r(k + 1)) + unit_of(p(k))) + (3 as real) * tiny() by {
        assert(is_finite(backward_rest(a, b, i, k + 1)));
        assert(is_finite(factor(a, k, i)));
        assert(is_finite(backward(a, b, k)));
        lemma_chain_step(backward_rest(a, b, i, k), factor(a, k, i), backward(a, b, k));
    }
    lemma_chain(r, p, n, 6, tiny());
    lemma_diagonal_not_zero(a, b, i);
    lemma_diagonal_part(a, i);
    assert(is_finite(backward(a, b, i)));
    assert(is_finite(backward_rest(a, b, i, 6)));
    lemma_quotient_step(backward_rest(a, b, i, 6), factor(a, i, i));
    lemma_real_associative(low(a, i, i), value(backward(a, b, i)), 0 as real);
    lemma_unit_of(p(i));
    lemma_chain_closed(
        value(forward(a, b, i)),
        r(6),
        total(p, 6) - total(p, n),
        p(i),
        units_before(p, 6) - units_before(p, n),
        (4 * (6 - n)) as real,
        tiny(),
        tiny() * abs(low(a, i, i)),
    );
    assert forall|k: int| 0 <= k < i implies #[trigger] p(k) == 0 as real by {
        lemma_real_distributes(0 as real, 0 as real, value(backward(a, b, k)));
    }
    lemma_total_zero(p, i as nat);
    assert forall|k: int| 0 <= k < i implies #[trigger] u(k) == 0 as real by {
        assert(p(k) == 0 as real);
        lemma_unit_of(p(k));
    }
    lemma_total_zero(u, i as nat);
    assert(total(p, n) == total(p, i as nat) + p(i));
    assert(total(u, n) == total(u, i as nat) + u(i));
    let q = |k: int| abs(low(a, k, i)) * abs(value(backward(a, b, k)));
    assert forall|k: int| 0 <= k < 6 implies abs(#[trigger] p(k)) == q(k) by {
        lemma_abs_product(low(a, k, i), value(backward(a, b, k)));
    }
    lemma_units_summed(p, q, 6);
}

/// The bound on what row `i` of `a x` differs from `b` for a computed solution `x`: a part of
/// `|L| |L^T| |x|`, and what is lost below the normal numbers.
pub open spec fn residual_bound(a: [[Binary64; 6]; 6], x: [Binary64; 6], i: int) -> real {
    (160 as real) * (half_unit() * total(|j: int| gram(a, i, j) * abs(value(x[j])), 6)) + ((
    40 as real) * (tiny() * spread(a))) * ((1 as real) + total(|j: int| abs(value(x[j])), 6) + (
    2 as real) * total(|k: int| abs(low(a, i, k)), 6))
}

/// Sums of bounds: `c` times a part of `g`, and `d`, each times a weight.
pub proof fn lemma_bounds_summed(
    g: spec_fn(int) -> real,
    w: spec_fn(int) -> real,
    c: real,
    d: real,
    n: nat,
)
    ensures
        total(|j: int| (c * g(j) + d) * w(j), n) == c * total(|j: int| g(j) * w(j), n) + d * total(
            w,
            n,
        ),
{
    let p = |j: int| g(j) * w(j);
    let e = |j: int| (c * g(j) + d) * w(j);
    let cp = |j: int| c * p(j);
    let dw = |j: int| d * w(j);
    lemma_total_scaled(p, c, n);
    lemma_total_scaled(w, d, n);
    lemma_total_added(cp, dw, n);
    assert forall|j: int| 0 <= j < n implies #[trigger] e(j) == cp(j) + dw(j) by {
        lemma_real_distributes(c * g(j), d, w(j));
        lemma_real_associative(c, g(j), w(j));
    }
    lemma_total_same(e, |j: int| cp(j) + dw(j), n);
    lemma_total_same(cp, |j: int| c * p(j), n);
    lemma_total_same(dw, |j: int| d * w(j), n);
}

/// `a x` against `L L^T x`.
proof fn lemma_matrix_part(a: [[Binary64; 6]; 6], b: [Binary64; 6], x: spec_fn(int) -> real, i: int)
    requires
        0 <= i < 6,
        forall|p: int, q: int| 0 <= q <= p < 6 ==> #[trigger] a[p][q] == a[q][p],
        solves_finitely(a, b),
    ensures
        abs(
            total(|j: int| value(a[i][j]) * x(j), 6) - total(
                |j: int| total(|k: int| low(a, i, k) * low(a, j, k), 6) * x(j),
                6,
            ),
        ) <= ((40 as real) * half_unit()) * total(|j: int| gram(a, i, j) * abs(x(j)), 6) + ((
        40 as real) * (tiny() * spread(a))) * total(|j: int| abs(x(j)), 6),
{
    let c = (40 as real) * half_unit();
    let d = (40 as real) * (tiny() * spread(a));
    let f = |j: int| value(a[i][j]) * x(j);
    let m = |j: int| total(|k: int| low(a, i, k) * low(a, j, k), 6);
    let g = |j: int| m(j) * x(j);
    let w = |j: int| abs(x(j));
    let q = |j: int| gram(a, i, j);
    let e = |j: int| (c * q(j) + d) * w(j);
    assert forall|j: int| 0 <= j < 6 implies abs(#[trigger] f(j) - g(j)) <= e(j) by {
        lemma_matrix_near(a, i, j);
        lemma_real_associative(40 as real, half_unit(), q(j));
        lemma_real_distributes(value(a[i][j]), m(j), x(j));
        lemma_abs_product(value(a[i][j]) - m(j), x(j));
        lemma_real_mul_ordered(abs(value(a[i][j]) - m(j)), c * q(j) + d, w(j));
    }
    lemma_total_near(f, g, e, 6);
    lemma_bounds_summed(q, w, c, d, 6);
    lemma_total_same(|j: int| q(j) * w(j), |j: int| gram(a, i, j) * abs(x(j)), 6);
    lemma_total_same(g, |j: int| total(|k: int| low(a, i, k) * low(a, j, k), 6) * x(j), 6);
}

/// `L z` against `L y`, where `z` is `L^T x`.
proof fn lemma_factor_part(
    a: [[Binary64; 6]; 6],
    b: [Binary64; 6],
    z: spec_fn(int) -> real,
    v: spec_fn(int) -> real,
    i: int,
)
    requires
        0 <= i < 6,
        forall|k: int|
            0 <= k < 6 ==> abs(value(forward(a, b, k)) - #[trigger] z(k)) <= row_error(a, v(k)),
    ensures
        abs(
            total(|k: int| low(a, i, k) * z(k), 6) - total(
                |k: int| low(a, i, k) * value(forward(a, b, k)),
                6,
            ),
        ) <= ((40 as real) * half_unit()) * total(|k: int| v(k) * abs(low(a, i, k)), 6) + ((
        40 as real) * (tiny() * spread(a))) * total(|k: int| abs(low(a, i, k)), 6),
{
    let c = (40 as real) * half_unit();
    let d = (40 as real) * (tiny() * spread(a));
    let f = |k: int| low(a, i, k) * z(k);
    let g = |k: int| low(a, i, k) * value(forward(a, b, k));
    let w = |k: int| abs(low(a, i, k));
    let e = |k: int| (c * v(k) + d) * w(k);
    assert forall|k: int| 0 <= k < 6 implies abs(#[trigger] f(k) - g(k)) <= e(k) by {
        let (l, y) = (low(a, i, k), value(forward(a, b, k)));
        assert(abs(y - z(k)) <= row_error(a, v(k)));
        lemma_real_associative(40 as real, half_unit(), v(k));
        lemma_real_distributes(z(k), y, l);
        lemma_real_associative(z(k), l, l);
        lemma_real_associative(y, l, l);
        lemma_abs_product(z(k) - y, l);
        lemma_real_mul_ordered(abs(z(k) - y), c * v(k) + d, w(k));
    }
    lemma_total_near(f, g, e, 6);
    lemma_bounds_summed(v, w, c, d, 6);
    lemma_total_same(|k: int| v(k) * w(k), |k: int| v(k) * abs(low(a, i, k)), 6);
}

/// The sum of `|L| |y|`, where `y` is near numbers that `v` bounds.
proof fn lemma_sizes_part(
    a: [[Binary64; 6]; 6],
    b: [Binary64; 6],
    z: spec_fn(int) -> real,
    v: spec_fn(int) -> real,
    i: int,
)
    requires
        0 <= i < 6,
        forall|k: int|
            0 <= k < 6 ==> abs(value(forward(a, b, k)) - #[trigger] z(k)) <= row_error(a, v(k))
                && abs(z(k)) <= v(k),
    ensures
        total(|k: int| abs(low(a, i, k)) * abs(value(forward(a, b, k))), 6) <= (2 as real) * total(
            |k: int| v(k) * abs(low(a, i, k)),
            6,
        ) + ((40 as real) * (tiny() * spread(a))) * total(|k: int| abs(low(a, i, k)), 6),
{
    let two = 2 as real;
    let d = (40 as real) * (tiny() * spread(a));
    let w = |k: int| abs(low(a, i, k));
    let f = |k: int| abs(low(a, i, k)) * abs(value(forward(a, b, k)));
    let e = |k: int| (two * v(k) + d) * w(k);
    assert forall|k: int| 0 <= k < 6 implies #[trigger] f(k) <= e(k) by {
        let y = value(forward(a, b, k));
        assert(abs(y - z(k)) <= row_error(a, v(k)));
        assert(abs(z(k)) <= v(k));
        lemma_unit_of(v(k));
        lemma_real_associative(v(k), half_unit(), v(k));
        assert(abs(y) <= two * v(k) + d);
        lemma_real_mul_ordered(abs(y), two * v(k) + d, w(k));
        lemma_real_associative(abs(y), w(k), w(k));
    }
    lemma_total_ordered(f, e, 6);
    lemma_bounds_summed(v, w, two, d, 6);
    lemma_total_same(|k: int| v(k) * w(k), |k: int| v(k) * abs(low(a, i, k)), 6);
}

/// The parts together: `g` is row `i` of `|L| |L^T| |x|`, `s` the sum of `|L| |y|`, `n` that of
/// `|x|`, and `r` that of row `i` of `|L|`.
proof fn lemma_parts_together(
    ax: real,
    llx: real,
    ly: real,
    b: real,
    g: real,
    s: real,
    n: real,
    r: real,
    d: real,
)
    requires
        abs(ax - llx) <= ((40 as real) * half_unit()) * g + d * n,
        abs(llx - ly) <= ((40 as real) * half_unit()) * g + d * r,
        abs(b - ly) <= (40 as real) * (half_unit() * s) + d,
        s <= (2 as real) * g + d * r,
        g >= 0 as real,
        d * r >= 0 as real,
        s >= 0 as real,
    ensures
        abs(ax - b) <= (160 as real) * (half_unit() * g) + d * ((1 as real) + n + (2 as real) * r),
{
    let h = half_unit();
    lemma_unit_of(g);
    lemma_unit_of(s);
    lemma_real_associative(g, h, g);
    lemma_real_associative(s, h, s);
    lemma_real_associative(40 as real, h, g);
    lemma_real_distributes((1 as real) + n, (2 as real) * r, d);
    lemma_real_distributes(1 as real, n, d);
    lemma_real_one(d);
    lemma_real_associative(2 as real, r, d);
    lemma_real_associative(n, d, d);
    lemma_real_associative(r, d, d);
    lemma_real_associative((1 as real) + n + (2 as real) * r, d, d);
}

/// An accepted solution nearly satisfies its system: where every number that the solve computes
/// is finite, row `i` of `a x` differs from `b` by the residual bound at most.
pub proof fn law_solution_nearly_satisfies_system(
    a: [[Binary64; 6]; 6],
    b: [Binary64; 6],
    i: int,
)
    requires
        0 <= i < 6,
        forall|p: int, q: int| 0 <= q <= p < 6 ==> #[trigger] a[p][q] == a[q][p],
        solves_finitely(a, b),
    ensures
        guarded_solution(a, b) matches Some((x, weakest)) ==> abs(
            total(|j: int| value(a[i][j]) * value(x[j]), 6) - value(b[i]),
        ) <= residual_bound(a, x, i),
{
    if let Some((found, weakest)) = guarded_solution(a, b) {
        lemma_solution_near(a, b, i);
    }
}

/// A sum of products is bounded by that of the absolute values.
pub proof fn lemma_column_bounded(l: spec_fn(int) -> real, x: spec_fn(int) -> real, n: nat)
    ensures
        abs(total(|j: int| l(j) * x(j), n)) <= total(|j: int| abs(l(j)) * abs(x(j)), n),
{
    let f = |j: int| l(j) * x(j);
    let q = |j: int| abs(l(j)) * abs(x(j));
    let none = |j: int| 0 as real;
    assert forall|j: int| 0 <= j < n implies abs(#[trigger] f(j) - none(j)) <= q(j) by {
        lemma_abs_product(l(j), x(j));
    }
    lemma_total_near(f, none, q, n);
    lemma_total_zero(none, n);
}

/// The sums that bound the error of row `i` are not below zero.
proof fn lemma_row_signs(a: [[Binary64; 6]; 6], b: [Binary64; 6], x: spec_fn(int) -> real, i: int)
    requires
        0 <= i < 6,
    ensures
        total(|j: int| gram(a, i, j) * abs(x(j)), 6) >= 0 as real,
        total(|k: int| abs(low(a, i, k)) * abs(value(forward(a, b, k))), 6) >= 0 as real,
        ((40 as real) * (tiny() * spread(a))) * total(|k: int| abs(low(a, i, k)), 6) >= 0 as real,
{
    let g = |j: int| gram(a, i, j) * abs(x(j));
    assert forall|j: int| 0 <= j < 6 implies #[trigger] g(j) >= 0 as real by {
        let q = |k: int| abs(low(a, i, k)) * abs(low(a, j, k));
        assert forall|k: int| 0 <= k < 6 implies #[trigger] q(k) >= 0 as real by {
            lemma_abs_product(low(a, i, k), low(a, j, k));
        }
        lemma_total_not_negative(q, 6);
        lemma_abs_product(gram(a, i, j), x(j));
    }
    lemma_total_not_negative(g, 6);
    let s = |k: int| abs(low(a, i, k)) * abs(value(forward(a, b, k)));
    assert forall|k: int| 0 <= k < 6 implies #[trigger] s(k) >= 0 as real by {
        lemma_abs_product(low(a, i, k), value(forward(a, b, k)));
    }
    lemma_total_not_negative(s, 6);
    let r = |k: int| abs(low(a, i, k));
    lemma_total_not_negative(r, 6);
    lemma_diagonal_part(a, i);
    lemma_abs_product(tiny(), spread(a));
    lemma_abs_product((40 as real) * (tiny() * spread(a)), total(r, 6));
}

proof fn lemma_solution_near(a: [[Binary64; 6]; 6], b: [Binary64; 6], i: int)
    requires
        0 <= i < 6,
        forall|p: int, q: int| 0 <= q <= p < 6 ==> #[trigger] a[p][q] == a[q][p],
        solves_finitely(a, b),
    ensures
        abs(
            total(|j: int| value(a[i][j]) * value(solution(a, b)[j]), 6) - value(b[i]),
        ) <= residual_bound(a, solution(a, b), i),
{
    let xs = solution(a, b);
    let x = |j: int| value(backward(a, b, j));
    let size = |j: int| abs(x(j));
    let row = |k: int| low(a, i, k);
    let rows = |k: int| abs(low(a, i, k));
    let lows = |j: int, k: int| low(a, j, k);
    let sizes = |j: int, k: int| abs(low(a, j, k));
    let z = |k: int| total(|j: int| low(a, j, k) * x(j), 6);
    let v = |k: int| total(|j: int| abs(low(a, j, k)) * size(j), 6);
    let d = (40 as real) * (tiny() * spread(a));
    assert forall|k: int| 0 <= k < 6 implies abs(value(forward(a, b, k)) - #[trigger] z(k))
        <= row_error(a, v(k)) && abs(z(k)) <= v(k) by {
        lemma_backward_near(a, b, k);
        let f = |j: int| low(a, j, k) * x(j);
        let q = |j: int| abs(low(a, j, k)) * size(j);
        lemma_total_same(f, |j: int| low(a, j, k) * value(backward(a, b, j)), 6);
        lemma_total_same(q, |j: int| abs(low(a, j, k)) * abs(value(backward(a, b, j))), 6);
        let column = |j: int| low(a, j, k);
        lemma_column_bounded(column, x, 6);
        lemma_total_same(f, |j: int| column(j) * x(j), 6);
        lemma_total_same(q, |j: int| abs(column(j)) * abs(x(j)), 6);
    }
    // a x against L L^T x
    lemma_matrix_part(a, b, x, i);
    let llx = total(|j: int| total(|k: int| low(a, i, k) * low(a, j, k), 6) * x(j), 6);
    // L L^T x is L (L^T x)
    lemma_total_regrouped(row, lows, x, 6);
    let llx_terms = |j: int| total(|k: int| low(a, i, k) * low(a, j, k), 6) * x(j);
    let regrouped = |j: int| total(|k: int| row(k) * lows(j, k), 6) * x(j);
    assert forall|j: int| 0 <= j < 6 implies #[trigger] llx_terms(j) == regrouped(j) by {
        lemma_total_same(
            |k: int| low(a, i, k) * low(a, j, k),
            |k: int| row(k) * lows(j, k),
            6,
        );
    }
    lemma_total_same(llx_terms, regrouped, 6);
    let applied = |k: int| row(k) * total(|j: int| lows(j, k) * x(j), 6);
    let lz = |k: int| low(a, i, k) * z(k);
    assert forall|k: int| 0 <= k < 6 implies #[trigger] applied(k) == lz(k) by {
        lemma_total_same(|j: int| lows(j, k) * x(j), |j: int| low(a, j, k) * x(j), 6);
    }
    lemma_total_same(applied, lz, 6);
    // the same of the absolute values
    lemma_total_regrouped(rows, sizes, size, 6);
    let g = total(|j: int| gram(a, i, j) * abs(x(j)), 6);
    let g_terms = |j: int| gram(a, i, j) * abs(x(j));
    let g_regrouped = |j: int| total(|k: int| rows(k) * sizes(j, k), 6) * size(j);
    assert forall|j: int| 0 <= j < 6 implies #[trigger] g_terms(j) == g_regrouped(j) by {
        lemma_total_same(
            |k: int| abs(low(a, i, k)) * abs(low(a, j, k)),
            |k: int| rows(k) * sizes(j, k),
            6,
        );
    }
    lemma_total_same(g_terms, g_regrouped, 6);
    let back = |k: int| v(k) * abs(low(a, i, k));
    let forth = |k: int| rows(k) * total(|j: int| sizes(j, k) * size(j), 6);
    assert forall|k: int| 0 <= k < 6 implies #[trigger] back(k) == forth(k) by {
        lemma_total_same(
            |j: int| sizes(j, k) * size(j),
            |j: int| abs(low(a, j, k)) * size(j),
            6,
        );
        lemma_real_associative(v(k), rows(k), v(k));
    }
    lemma_total_same(back, forth, 6);
    lemma_factor_part(a, b, z, v, i);
    lemma_sizes_part(a, b, z, v, i);
    lemma_forward_near(a, b, i);
    lemma_row_signs(a, b, x, i);
    let s = total(|k: int| abs(low(a, i, k)) * abs(value(forward(a, b, k))), 6);
    let n = total(|j: int| abs(x(j)), 6);
    let r = total(|k: int| abs(low(a, i, k)), 6);
    lemma_parts_together(
        total(|j: int| value(a[i][j]) * x(j), 6),
        llx,
        total(|k: int| low(a, i, k) * value(forward(a, b, k)), 6),
        value(b[i]),
        g,
        s,
        n,
        r,
        d,
    );
    assert(forall|j: int| 0 <= j < 6 ==> value(#[trigger] xs[j]) == x(j));
    lemma_total_same(
        |j: int| value(a[i][j]) * x(j),
        |j: int| value(a[i][j]) * value(xs[j]),
        6,
    );
    lemma_total_same(
        |j: int| gram(a, i, j) * abs(x(j)),
        |j: int| gram(a, i, j) * abs(value(xs[j])),
        6,
    );
    lemma_total_same(|j: int| abs(x(j)), |j: int| abs(value(xs[j])), 6);
}

/// A row of the matrix times a difference of three vectors.
proof fn lemma_row_of_difference(
    a: spec_fn(int) -> real,
    x: spec_fn(int) -> real,
    y: spec_fn(int) -> real,
    z: spec_fn(int) -> real,
    n: nat,
)
    ensures
        total(|j: int| a(j) * (z(j) - x(j) - y(j)), n) == total(|j: int| a(j) * z(j), n) - total(
            |j: int| a(j) * x(j),
            n,
        ) - total(|j: int| a(j) * y(j), n),
    decreases n,
{
    if n > 0 {
        lemma_row_of_difference(a, x, y, z, (n - 1) as nat);
        let j = n - 1;
        let c = a(j);
        lemma_real_distributes(z(j) - x(j), y(j), c);
        lemma_real_distributes(z(j), x(j), c);
        lemma_real_associative(z(j) - x(j) - y(j), c, c);
        lemma_real_associative(z(j), c, c);
        lemma_real_associative(x(j), c, c);
        lemma_real_associative(y(j), c, c);
    }
}

/// Solutions nearly add: where every number that the solves compute is finite, `a` times the
/// solution for the sum of two right-hand sides is `a` times the sum of their solutions, up to the
/// residual bounds of the three and the rounding of the sum.
pub proof fn law_solutions_nearly_add(
    a: [[Binary64; 6]; 6],
    b1: [Binary64; 6],
    b2: [Binary64; 6],
    b3: [Binary64; 6],
    i: int,
)
    requires
        0 <= i < 6,
        forall|p: int, q: int| 0 <= q <= p < 6 ==> #[trigger] a[p][q] == a[q][p],
        solves_finitely(a, b1),
        solves_finitely(a, b2),
        solves_finitely(a, b3),
        forall|k: int| 0 <= k < 6 ==> #[trigger] b3[k] == fl_add(b1[k], b2[k]),
    ensures
        guarded_solution(a, b3) matches Some((x3, p3)) ==> {
            &&& guarded_solution(a, b1) matches Some((x1, p1))
            &&& guarded_solution(a, b2) matches Some((x2, p2))
            &&& abs(
                total(
                    |j: int| value(a[i][j]) * (value(x3[j]) - value(x1[j]) - value(x2[j])),
                    6,
                ),
            ) <= residual_bound(a, x1, i) + residual_bound(a, x2, i) + residual_bound(a, x3, i)
                + unit_of(value(b1[i]) + value(b2[i])) + tiny()
        },
{
    lemma_solution_near(a, b1, i);
    lemma_solution_near(a, b2, i);
    lemma_solution_near(a, b3, i);
    let (x1, x2, x3) = (solution(a, b1), solution(a, b2), solution(a, b3));
    assert(b3[i] == fl_add(b1[i], b2[i]));
    assert(is_finite(forward_rest(a, b1, i, 0)));
    assert(is_finite(forward_rest(a, b2, i, 0)));
    assert(is_finite(forward_rest(a, b3, i, 0)));
    lemma_add_value(b1[i], b2[i]);
    let row = |j: int| value(a[i][j]);
    let (f1, f2, f3) = (|j: int| value(x1[j]), |j: int| value(x2[j]), |j: int| value(x3[j]));
    lemma_row_of_difference(row, f1, f2, f3, 6);
    lemma_total_same(
        |j: int| row(j) * (f3(j) - f1(j) - f2(j)),
        |j: int| value(a[i][j]) * (value(x3[j]) - value(x1[j]) - value(x2[j])),
        6,
    );
    lemma_total_same(|j: int| row(j) * f1(j), |j: int| value(a[i][j]) * value(x1[j]), 6);
    lemma_total_same(|j: int| row(j) * f2(j), |j: int| value(a[i][j]) * value(x2[j]), 6);
    lemma_total_same(|j: int| row(j) * f3(j), |j: int| value(a[i][j]) * value(x3[j]), 6);
}

} // verus!
