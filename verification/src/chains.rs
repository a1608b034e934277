//! How the errors of a chain of operations add up.
use crate::binary64::{
    fl_add, fl_div, fl_mul, fl_neg, fl_sqrt, fl_sub, magnitude, negative, Binary64,
};
use crate::errors::{
    abs, half_unit, lemma_add_value, lemma_div_value, lemma_mul_value, lemma_neg_value,
    lemma_power_lifted, lemma_real_associative, lemma_real_distributes, lemma_real_mul_ordered,
    lemma_sqrt_value, tiny, value,
};
use crate::exactness::{is_finite, is_zero};
use crate::identities::{lemma_part, lemma_quotient_scaled};
use crate::rotations::lemma_abs_product;
use crate::rounding::INFINITE;
use crate::totals::total;
use vstd::prelude::*;

verus! {

/// The relative part of the error of a rounding to a number of the size of `x`.
pub open spec fn unit_of(x: real) -> real {
    abs(x) * half_unit()
}

pub proof fn lemma_unit_of(x: real)
    ensures
        (0x0020_0000_0000_0000 as real) * unit_of(x) == abs(x),
        unit_of(x) >= 0 as real,
{
    lemma_part(abs(x), half_unit());
}

pub proof fn lemma_tiny_positive()
    ensures
        tiny() > 0 as real,
{
    lemma_power_lifted(-1074, 0);
}

// ---------------------------------------------------------------------------
// Single steps
// ---------------------------------------------------------------------------

/// A subtracted product: `q` is the rounded product `p`, and `n` the rounded difference `r - q`.
proof fn lemma_step_bound(r: real, p: real, q: real, n: real, t: real)
    requires
        abs(q - p) <= unit_of(p) + t,
        abs(n - (r - q)) <= unit_of(r - q) + t,
        t >= 0 as real,
    ensures
        abs(r - n - p) <= (2 as real) * (unit_of(n) + unit_of(p)) + (3 as real) * t,
{
    lemma_unit_of(p);
    lemma_unit_of(n);
    lemma_unit_of(r - q);
}

/// The operands of a finite sum are finite.
pub proof fn lemma_finite_operands(a: Binary64, b: Binary64)
    requires
        is_finite(fl_add(a, b)),
    ensures
        is_finite(a),
        is_finite(b),
{
    reveal(fl_add);
}

/// The factors of a finite product are finite.
pub proof fn lemma_finite_factors(a: Binary64, b: Binary64)
    requires
        is_finite(fl_mul(a, b)),
    ensures
        is_finite(a),
        is_finite(b),
{
    reveal(fl_mul);
}

pub proof fn lemma_finite_difference(a: Binary64, b: Binary64)
    requires
        is_finite(fl_sub(a, b)),
    ensures
        is_finite(a),
        is_finite(b),
{
    lemma_finite_operands(a, fl_neg(b));
    reveal(fl_neg);
}

/// A step of a chain: a product is subtracted.
pub proof fn lemma_chain_step(x: Binary64, f: Binary64, g: Binary64)
    requires
        is_finite(f),
        is_finite(g),
        is_finite(fl_sub(x, fl_mul(f, g))),
    ensures
        ({
            let n = value(fl_sub(x, fl_mul(f, g)));
            let p = value(f) * value(g);
            abs(value(x) - n - p) <= (2 as real) * (unit_of(n) + unit_of(p)) + (3 as real) * tiny()
        }),
{
    let q = fl_mul(f, g);
    lemma_finite_difference(x, q);
    lemma_mul_value(f, g);
    lemma_neg_value(q);
    lemma_add_value(x, fl_neg(q));
    lemma_tiny_positive();
    lemma_step_bound(
        value(x),
        value(f) * value(g),
        value(q),
        value(fl_sub(x, q)),
        tiny(),
    );
}

/// A quotient `l` of `r` by `d`, where `t` is the absolute part of the error times `d`.
proof fn lemma_quotient_bound(l: real, r: real, d: real, t: real)
    requires
        abs(l * d - r) <= unit_of(r) + t,
        t >= 0 as real,
    ensures
        abs(l * d - r) <= (2 as real) * unit_of(l * d) + (2 as real) * t,
{
    lemma_unit_of(r);
    lemma_unit_of(l * d);
}

/// A quotient times its denominator.
pub proof fn lemma_quotient_step(r: Binary64, d: Binary64)
    requires
        is_finite(r),
        is_finite(d),
        !is_zero(d),
        is_finite(fl_div(r, d)),
    ensures
        ({
            let p = value(fl_div(r, d)) * value(d);
            abs(p - value(r)) <= (2 as real) * unit_of(p) + (2 as real) * (tiny() * abs(value(d)))
        }),
{
    lemma_div_value(r, d);
    lemma_tiny_positive();
    let (l, x, y) = (value(fl_div(r, d)), value(r), value(d));
    let q = x / y;
    let e = abs(y);
    let m = abs(l - q);
    lemma_quotient_scaled(q, x, y);
    lemma_real_distributes(l, q, y);
    lemma_abs_product(l - q, y);
    assert(abs(l * y - x) == m * e);
    lemma_real_mul_ordered(m, abs(q) * half_unit() + tiny(), e);
    lemma_real_distributes(abs(q) * half_unit(), tiny(), e);
    lemma_real_associative(abs(q), half_unit(), e);
    lemma_abs_product(q, y);
    assert((abs(q) * half_unit()) * e == unit_of(x));
    lemma_real_mul_ordered(0 as real, tiny(), e);
    lemma_real_distributes(0 as real, 0 as real, e);
    lemma_quotient_bound(l, x, y, tiny() * e);
}

/// The square of a square root.
pub proof fn lemma_root_step(r: Binary64)
    requires
        !negative(r),
        0 < magnitude(r) < INFINITE,
    ensures
        is_finite(fl_sqrt(r)),
        ({
            let p = value(fl_sqrt(r)) * value(fl_sqrt(r));
            abs(p - value(r)) <= (4 as real) * unit_of(p)
        }),
{
    lemma_sqrt_value(r);
    let l = value(fl_sqrt(r));
    let p = l * l;
    lemma_abs_product(l, l);
    lemma_real_associative(p, 4 as real, half_unit());
    lemma_real_associative(4 as real, p, half_unit());
}

// ---------------------------------------------------------------------------
// Chains
// ---------------------------------------------------------------------------

/// The sum of the units of the terms before `n`.
pub open spec fn units_before(p: spec_fn(int) -> real, n: nat) -> real {
    total(|k: int| unit_of(p(k)), n)
}

/// The linear part of the induction: `e` is what the later steps have strayed, `s` what they sum
/// to, `w` the sum of their units.
proof fn lemma_chain_grows(
    r: real,
    next: real,
    last: real,
    p: real,
    s: real,
    w: real,
    e: real,
    t: real,
)
    requires
        abs(r - next - p) <= (2 as real) * (unit_of(next) + unit_of(p)) + (3 as real) * t,
        abs(next - last - s) <= e,
        abs(s) <= (0x0020_0000_0000_0000 as real) * w,
        e <= (64 as real) * (unit_of(last) + w + t),
        t >= 0 as real,
        w >= 0 as real,
    ensures
        abs(r - last - (s + p)) <= e + (4 as real) * (unit_of(last) + (w + unit_of(p)) + t),
{
    lemma_unit_of(next);
    lemma_unit_of(last);
    lemma_unit_of(p);
}

/// A chain of subtracted products: what is left at the end and the products add up to the start,
/// up to the units of all of them.
pub proof fn lemma_chain(
    r: spec_fn(int) -> real,
    p: spec_fn(int) -> real,
    m: nat,
    n: nat,
    t: real,
)
    requires
        m <= n,
        n <= 8,
        t >= 0 as real,
        forall|k: int|
            m <= k < n ==> abs(#[trigger] r(k) - r(k + 1) - p(k)) <= (2 as real) * (unit_of(
                r(k + 1),
            ) + unit_of(p(k))) + (3 as real) * t,
    ensures
        abs(r(m as int) - r(n as int) - (total(p, n) - total(p, m))) <= ((4 * (n - m)) as real) * (
        unit_of(r(n as int)) + (units_before(p, n) - units_before(p, m)) + t),
        abs(total(p, n) - total(p, m)) <= (0x0020_0000_0000_0000 as real) * (units_before(p, n)
            - units_before(p, m)),
        units_before(p, n) - units_before(p, m) >= 0 as real,
    decreases n - m,
{
    let last = r(n as int);
    let f = |k: int| unit_of(p(k));
    lemma_unit_of(last);
    if m < n {
        let i = m as int;
        lemma_chain(r, p, m + 1, n, t);
        lemma_unit_of(p(i));
        let s = total(p, n) - total(p, m + 1);
        let w = units_before(p, n) - units_before(p, m + 1);
        assert(total(p, m + 1) == total(p, m) + p(i));
        assert(total(f, m + 1) == total(f, m) + f(i));
        let x = unit_of(last) + w + t;
        let y = unit_of(last) + (w + unit_of(p(i))) + t;
        let c = (4 * (n - m - 1)) as real;
        let e = c * x;
        lemma_real_mul_ordered(c, 64 as real, x);
        assert(abs(r(i) - r(i + 1) - p(i)) <= (2 as real) * (unit_of(r(i + 1)) + unit_of(p(i))) + (
        3 as real) * t);
        lemma_chain_grows(r(i), r(i + 1), last, p(i), s, w, e, t);
        lemma_real_mul_ordered(x, y, c);
        lemma_real_associative(x, c, c);
        lemma_real_associative(y, c, c);
        lemma_real_distributes(c, 4 as real, y);
        assert((4 * (n - m)) as real == c + (4 as real));
    } else {
        lemma_real_distributes(0 as real, 0 as real, unit_of(last) + t);
    }
}

} // verus!
