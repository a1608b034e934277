//! Finite sums of real numbers.
use crate::errors::{abs, lemma_real_associative, lemma_real_distributes};
use vstd::prelude::*;

verus! {

/// The sum of `f(0)` to `f(n - 1)`.
pub open spec fn total(f: spec_fn(int) -> real, n: nat) -> real
    decreases n,
{
    if n == 0 {
        0 as real
    } else {
        total(f, (n - 1) as nat) + f(n - 1)
    }
}

pub proof fn lemma_total_same(f: spec_fn(int) -> real, g: spec_fn(int) -> real, n: nat)
    requires
        forall|k: int| 0 <= k < n ==> #[trigger] f(k) == g(k),
    ensures
        total(f, n) == total(g, n),
    decreases n,
{
    if n > 0 {
        lemma_total_same(f, g, (n - 1) as nat);
        assert(f(n - 1) == g(n - 1));
    }
}

pub proof fn lemma_total_scaled(f: spec_fn(int) -> real, c: real, n: nat)
    ensures
        total(|k: int| c * f(k), n) == c * total(f, n),
    decreases n,
{
    if n > 0 {
        lemma_total_scaled(f, c, (n - 1) as nat);
        let t = total(f, (n - 1) as nat);
        lemma_real_distributes(t, f(n - 1), c);
        lemma_real_associative(t, c, c);
        lemma_real_associative(f(n - 1), c, c);
        lemma_real_associative(t + f(n - 1), c, c);
    } else {
        lemma_real_distributes(0 as real, 0 as real, c);
        lemma_real_associative(0 as real, c, c);
    }
}

pub proof fn lemma_total_added(f: spec_fn(int) -> real, g: spec_fn(int) -> real, n: nat)
    ensures
        total(|k: int| f(k) + g(k), n) == total(f, n) + total(g, n),
    decreases n,
{
    if n > 0 {
        lemma_total_added(f, g, (n - 1) as nat);
    }
}

/// The order of two summations does not matter.
pub proof fn lemma_total_swapped(g: spec_fn(int, int) -> real, m: nat, n: nat)
    ensures
        total(|j: int| total(|k: int| g(j, k), n), m) == total(
            |k: int| total(|j: int| g(j, k), m),
            n,
        ),
    decreases m,
{
    let rows = |j: int| total(|k: int| g(j, k), n);
    if m > 0 {
        let p = (m - 1) as nat;
        lemma_total_swapped(g, p, n);
        let before = |k: int| total(|j: int| g(j, k), p);
        let last = |k: int| g(p as int, k);
        lemma_total_added(before, last, n);
        lemma_total_same(
            |k: int| total(|j: int| g(j, k), m),
            |k: int| before(k) + last(k),
            n,
        );
        assert(rows(p as int) == total(last, n)) by {
            lemma_total_same(|k: int| g(p as int, k), last, n);
        }
    } else {
        lemma_total_zero(|k: int| total(|j: int| g(j, k), 0), n);
    }
}

pub proof fn lemma_total_zero(f: spec_fn(int) -> real, n: nat)
    requires
        forall|k: int| 0 <= k < n ==> #[trigger] f(k) == 0 as real,
    ensures
        total(f, n) == 0 as real,
    decreases n,
{
    if n > 0 {
        lemma_total_zero(f, (n - 1) as nat);
        assert(f(n - 1) == 0 as real);
    }
}

/// A sum whose terms vanish from `m` on is the sum of the first `m`.
pub proof fn lemma_total_cut(f: spec_fn(int) -> real, m: nat, n: nat)
    requires
        m <= n,
        forall|k: int| m <= k < n ==> #[trigger] f(k) == 0 as real,
    ensures
        total(f, n) == total(f, m),
    decreases n,
{
    if n > m {
        lemma_total_cut(f, m, (n - 1) as nat);
        assert(f(n - 1) == 0 as real);
    }
}

/// A sum over `m..n` of terms that are sums.
pub proof fn lemma_total_range(
    f: spec_fn(int) -> real,
    g: spec_fn(int) -> real,
    h: spec_fn(int) -> real,
    m: nat,
    n: nat,
)
    requires
        m <= n,
        forall|k: int| m <= k < n ==> #[trigger] h(k) == f(k) + g(k),
    ensures
        total(h, n) - total(h, m) == total(f, n) - total(f, m) + total(g, n) - total(g, m),
    decreases n,
{
    if n > m {
        lemma_total_range(f, g, h, m, (n - 1) as nat);
        assert(h(n - 1) == f(n - 1) + g(n - 1));
    }
}

/// A sum is not larger than that of larger terms.
pub proof fn lemma_total_ordered(f: spec_fn(int) -> real, g: spec_fn(int) -> real, n: nat)
    requires
        forall|k: int| 0 <= k < n ==> #[trigger] f(k) <= g(k),
    ensures
        total(f, n) <= total(g, n),
    decreases n,
{
    if n > 0 {
        lemma_total_ordered(f, g, (n - 1) as nat);
        assert(f(n - 1) <= g(n - 1));
    }
}

/// A sum of numbers that are not below zero is not below zero.
pub proof fn lemma_total_not_negative(f: spec_fn(int) -> real, n: nat)
    requires
        forall|k: int| 0 <= k < n ==> #[trigger] f(k) >= 0 as real,
    ensures
        total(f, n) >= 0 as real,
    decreases n,
{
    if n > 0 {
        lemma_total_not_negative(f, (n - 1) as nat);
        assert(f(n - 1) >= 0 as real);
    }
}

/// One of the terms of a sum of numbers that are not below zero.
pub proof fn lemma_total_holds(f: spec_fn(int) -> real, n: nat, i: int)
    requires
        0 <= i < n,
        forall|k: int| 0 <= k < n ==> #[trigger] f(k) >= 0 as real,
    ensures
        f(i) <= total(f, n),
    decreases n,
{
    lemma_total_not_negative(f, (n - 1) as nat);
    assert(f(n - 1) >= 0 as real);
    if i < n - 1 {
        lemma_total_holds(f, (n - 1) as nat, i);
    }
}

/// Sums of terms that are near each other are as near as the bounds add up.
pub proof fn lemma_total_near(
    f: spec_fn(int) -> real,
    g: spec_fn(int) -> real,
    e: spec_fn(int) -> real,
    n: nat,
)
    requires
        forall|k: int| 0 <= k < n ==> abs(#[trigger] f(k) - g(k)) <= e(k),
    ensures
        abs(total(f, n) - total(g, n)) <= total(e, n),
    decreases n,
{
    if n > 0 {
        lemma_total_near(f, g, e, (n - 1) as nat);
        assert(abs(f(n - 1) - g(n - 1)) <= e(n - 1));
    }
}

/// A product of matrices applied to `x` is the first applied to what the second makes of `x`.
pub proof fn lemma_total_regrouped(
    u: spec_fn(int) -> real,
    v: spec_fn(int, int) -> real,
    x: spec_fn(int) -> real,
    n: nat,
)
    ensures
        total(|j: int| total(|k: int| u(k) * v(j, k), n) * x(j), n) == total(
            |k: int| u(k) * total(|j: int| v(j, k) * x(j), n),
            n,
        ),
{
    let terms = |j: int, k: int| (u(k) * v(j, k)) * x(j);
    let left = |j: int| total(|k: int| u(k) * v(j, k), n) * x(j);
    let right = |k: int| u(k) * total(|j: int| v(j, k) * x(j), n);
    let across = |j: int| total(|k: int| terms(j, k), n);
    let down = |k: int| total(|j: int| terms(j, k), n);
    assert forall|j: int| 0 <= j < n implies #[trigger] left(j) == across(j) by {
        let f = |k: int| u(k) * v(j, k);
        lemma_total_scaled(f, x(j), n);
        lemma_real_associative(total(f, n), x(j), x(j));
        assert forall|k: int| 0 <= k < n implies #[trigger] terms(j, k) == x(j) * f(k) by {
            lemma_real_associative(f(k), x(j), x(j));
        }
        lemma_total_same(|k: int| terms(j, k), |k: int| x(j) * f(k), n);
    }
    assert forall|k: int| 0 <= k < n implies #[trigger] right(k) == down(k) by {
        let g = |j: int| v(j, k) * x(j);
        lemma_total_scaled(g, u(k), n);
        assert forall|j: int| 0 <= j < n implies #[trigger] terms(j, k) == u(k) * g(j) by {
            lemma_real_associative(u(k), v(j, k), x(j));
        }
        lemma_total_same(|j: int| terms(j, k), |j: int| u(k) * g(j), n);
    }
    lemma_total_same(left, across, n);
    lemma_total_same(right, down, n);
    lemma_total_swapped(terms, n, n);
}

} // verus!
