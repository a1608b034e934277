//! What holds of solves and matrix products where no step rounds, over the real numbers.
use crate::binary64::{fl_add, fl_mul, Binary64};
use crate::errors::{lemma_real_associative, lemma_real_distributes, value};
use crate::exactness::{
    is_finite, is_zero, lemma_add_zero, lemma_mul_one, lemma_mul_zero, same_value,
};
use crate::icp::rotated;
use crate::laws::{is_finite3, is_identity};
use crate::linear::{
    backward, backward_rest, factor, fl, forward, forward_rest, guarded_solution, product,
    product_entry, residual, row_dot, solution, ONE,
};
use crate::ordering::lemma_mul_commutes;
use crate::totals::{
    lemma_total_cut, lemma_total_range, lemma_total_same, lemma_total_scaled, lemma_total_swapped,
    lemma_total_zero, total,
};
use vstd::prelude::*;

verus! {

// ---------------------------------------------------------------------------
// Solves
// ---------------------------------------------------------------------------

/// Whether the factorisation of `a` rounds in no step.
pub open spec fn factors_exactly(a: [[Binary64; 6]; 6]) -> bool {
    &&& forall|i: int, j: int, k: int|
        0 <= k < j <= i < 6 ==> #[trigger] value(residual(a, i, j, k + 1)) == value(
            residual(a, i, j, k),
        ) - value(factor(a, i, k)) * value(factor(a, j, k))
    &&& forall|i: int, j: int|
        0 <= j <= i < 6 ==> #[trigger] value(factor(a, i, j)) * value(factor(a, j, j)) == value(
            residual(a, i, j, j),
        )
}

/// Whether the substitutions for `a x = b` round in no step.
pub open spec fn substitutes_exactly(a: [[Binary64; 6]; 6], b: [Binary64; 6]) -> bool {
    &&& forall|i: int, k: int|
        0 <= k < i < 6 ==> #[trigger] value(forward_rest(a, b, i, k + 1)) == value(
            forward_rest(a, b, i, k),
        ) - value(factor(a, i, k)) * value(forward(a, b, k))
    &&& forall|i: int|
        0 <= i < 6 ==> #[trigger] value(forward(a, b, i)) * value(factor(a, i, i)) == value(
            forward_rest(a, b, i, i),
        )
    &&& forall|i: int, k: int|
        0 <= i < k < 6 ==> #[trigger] value(backward_rest(a, b, i, k + 1)) == value(
            backward_rest(a, b, i, k),
        ) - value(factor(a, k, i)) * value(backward(a, b, k))
    &&& forall|i: int|
        0 <= i < 6 ==> #[trigger] value(backward(a, b, i)) * value(factor(a, i, i)) == value(
            backward_rest(a, b, i, 6),
        )
}

/// Entry `(i, k)` of the triangular factor, as a real number.
pub open spec fn low(a: [[Binary64; 6]; 6], i: int, k: int) -> real {
    if k <= i {
        value(factor(a, i, k))
    } else {
        0 as real
    }
}

/// An accepted solution satisfies its system: where no step rounds, `a x = b` holds over the real
/// numbers.
pub proof fn law_solution_satisfies_system(a: [[Binary64; 6]; 6], b: [Binary64; 6], i: int)
    requires
        0 <= i < 6,
        forall|p: int, q: int| 0 <= q <= p < 6 ==> #[trigger] a[p][q] == a[q][p],
        factors_exactly(a),
        substitutes_exactly(a, b),
    ensures
        guarded_solution(a, b) matches Some((x, weakest)) ==> total(
            |j: int| value(a[i][j]) * value(x[j]),
            6,
        ) == value(b[i]),
{
    let x = solution(a, b);
    let xs = |j: int| value(x[j]);
    let ys = |k: int| value(forward(a, b, k));
    let terms = |j: int, k: int| (low(a, i, k) * low(a, j, k)) * xs(j);
    let left = |j: int| value(a[i][j]) * value(x[j]);
    let across = |j: int| total(|k: int| terms(j, k), 6);
    let down = |k: int| total(|j: int| terms(j, k), 6);
    let right = |k: int| low(a, i, k) * ys(k);
    // a x
    assert forall|j: int| 0 <= j < 6 implies #[trigger] left(j) == across(j) by {
        lemma_matrix_is_product(a, i, j);
        let f = |k: int| low(a, i, k) * low(a, j, k);
        lemma_total_scaled(f, xs(j), 6);
        assert forall|k: int| 0 <= k < 6 implies #[trigger] terms(j, k) == xs(j) * f(k) by {
            lemma_real_associative(f(k), xs(j), xs(j));
        }
        lemma_total_same(|k: int| terms(j, k), |k: int| xs(j) * f(k), 6);
        lemma_real_associative(value(a[i][j]), xs(j), xs(j));
    }
    lemma_total_same(left, across, 6);
    lemma_total_swapped(terms, 6, 6);
    // L (L^T x) = L y
    assert forall|k: int| 0 <= k < 6 implies #[trigger] down(k) == right(k) by {
        lemma_backward_is_solution(a, b, k);
        let g = |j: int| low(a, j, k) * xs(j);
        lemma_total_scaled(g, low(a, i, k), 6);
        assert forall|j: int| 0 <= j < 6 implies #[trigger] terms(j, k) == low(a, i, k) * g(j) by {
            lemma_real_associative(low(a, i, k), low(a, j, k), xs(j));
        }
        lemma_total_same(|j: int| terms(j, k), |j: int| low(a, i, k) * g(j), 6);
        lemma_total_same(g, |j: int| low(a, j, k) * value(solution(a, b)[j]), 6);
    }
    lemma_total_same(down, right, 6);
    lemma_forward_is_solution(a, b, i);
    lemma_total_same(right, |k: int| low(a, i, k) * value(forward(a, b, k)), 6);
    assert(total(left, 6) == value(b[i]));
    if let Some((found, weakest)) = guarded_solution(a, b) {
        lemma_total_same(left, |j: int| value(a[i][j]) * value(found[j]), 6);
    }
}

/// `a = L L^T`.
pub proof fn lemma_matrix_is_product(a: [[Binary64; 6]; 6], i: int, j: int)
    requires
        0 <= i < 6,
        0 <= j < 6,
        forall|p: int, q: int| 0 <= q <= p < 6 ==> #[trigger] a[p][q] == a[q][p],
        factors_exactly(a),
    ensures
        value(a[i][j]) == total(|k: int| low(a, i, k) * low(a, j, k), 6),
{
    let f = |k: int| low(a, i, k) * low(a, j, k);
    if j <= i {
        lemma_residual_sum(a, i, j, j);
        lemma_total_zero_products(a, i, j);
        lemma_total_cut(f, (j + 1) as nat, 6);
        assert(value(factor(a, i, j)) * value(factor(a, j, j)) == value(residual(a, i, j, j)));
    } else {
        let g = |k: int| low(a, j, k) * low(a, i, k);
        lemma_residual_sum(a, j, i, i);
        lemma_total_zero_products(a, j, i);
        lemma_total_cut(g, (i + 1) as nat, 6);
        assert(value(factor(a, j, i)) * value(factor(a, i, i)) == value(residual(a, j, i, i)));
        assert forall|k: int| 0 <= k < 6 implies #[trigger] f(k) == g(k) by {
            lemma_real_associative(low(a, i, k), low(a, j, k), low(a, j, k));
        }
        lemma_total_same(f, g, 6);
        assert(a[j][i] == a[i][j]);
    }
}

pub proof fn lemma_total_zero_products(a: [[Binary64; 6]; 6], i: int, j: int)
    requires
        0 <= j <= i < 6,
    ensures
        forall|k: int| j < k < 6 ==> #[trigger] low(a, i, k) * low(a, j, k) == 0 as real,
{
    assert forall|k: int| j < k < 6 implies #[trigger] low(a, i, k) * low(a, j, k)
        == 0 as real by {
        lemma_real_distributes(0 as real, 0 as real, low(a, i, k));
        lemma_real_associative(0 as real, low(a, i, k), 0 as real);
    }
}

proof fn lemma_residual_sum(a: [[Binary64; 6]; 6], i: int, j: int, n: int)
    requires
        0 <= n <= j <= i < 6,
        factors_exactly(a),
    ensures
        value(a[i][j]) == value(residual(a, i, j, n)) + total(
            |k: int| low(a, i, k) * low(a, j, k),
            n as nat,
        ),
    decreases n,
{
    if n > 0 {
        lemma_residual_sum(a, i, j, n - 1);
        assert(value(residual(a, i, j, (n - 1) + 1)) == value(residual(a, i, j, n - 1)) - value(
            factor(a, i, n - 1),
        ) * value(factor(a, j, n - 1)));
    }
}

/// `L y = b`.
proof fn lemma_forward_is_solution(a: [[Binary64; 6]; 6], b: [Binary64; 6], i: int)
    requires
        0 <= i < 6,
        substitutes_exactly(a, b),
    ensures
        total(|k: int| low(a, i, k) * value(forward(a, b, k)), 6) == value(b[i]),
{
    let f = |k: int| low(a, i, k) * value(forward(a, b, k));
    lemma_forward_sum(a, b, i, i);
    assert(value(forward(a, b, i)) * value(factor(a, i, i)) == value(forward_rest(a, b, i, i)));
    lemma_real_associative(value(forward(a, b, i)), value(factor(a, i, i)), 0 as real);
    assert forall|k: int| i + 1 <= k < 6 implies #[trigger] f(k) == 0 as real by {
        lemma_real_distributes(0 as real, 0 as real, value(forward(a, b, k)));
    }
    lemma_total_cut(f, (i + 1) as nat, 6);
}

proof fn lemma_forward_sum(a: [[Binary64; 6]; 6], b: [Binary64; 6], i: int, n: int)
    requires
        0 <= n <= i < 6,
        substitutes_exactly(a, b),
    ensures
        value(b[i]) == value(forward_rest(a, b, i, n)) + total(
            |k: int| low(a, i, k) * value(forward(a, b, k)),
            n as nat,
        ),
    decreases n,
{
    if n > 0 {
        lemma_forward_sum(a, b, i, n - 1);
        assert(value(forward_rest(a, b, i, (n - 1) + 1)) == value(forward_rest(a, b, i, n - 1))
            - value(factor(a, i, n - 1)) * value(forward(a, b, n - 1)));
    }
}

/// `L^T x = y`.
proof fn lemma_backward_is_solution(a: [[Binary64; 6]; 6], b: [Binary64; 6], i: int)
    requires
        0 <= i < 6,
        substitutes_exactly(a, b),
    ensures
        total(|j: int| low(a, j, i) * value(solution(a, b)[j]), 6) == value(forward(a, b, i)),
{
    let f = |j: int| low(a, j, i) * value(solution(a, b)[j]);
    assert forall|j: int| 0 <= j < i implies #[trigger] f(j) == 0 as real by {
        lemma_real_distributes(0 as real, 0 as real, value(solution(a, b)[j]));
    }
    lemma_total_zero(f, i as nat);
    assert(solution(a, b)[i] == backward(a, b, i));
    lemma_backward_sum(a, b, i, 6);
    assert(value(backward(a, b, i)) * value(factor(a, i, i)) == value(
        backward_rest(a, b, i, 6),
    ));
    lemma_real_associative(value(backward(a, b, i)), value(factor(a, i, i)), 0 as real);
}

proof fn lemma_backward_sum(a: [[Binary64; 6]; 6], b: [Binary64; 6], i: int, n: int)
    requires
        0 <= i < n <= 6,
        substitutes_exactly(a, b),
    ensures
        ({
            let f = |j: int| low(a, j, i) * value(solution(a, b)[j]);
            value(forward(a, b, i)) == value(backward_rest(a, b, i, n)) + total(f, n as nat)
                - total(f, (i + 1) as nat)
        }),
    decreases n,
{
    let f = |j: int| low(a, j, i) * value(solution(a, b)[j]);
    if n > i + 1 {
        lemma_backward_sum(a, b, i, n - 1);
        let k = n - 1;
        assert(value(backward_rest(a, b, i, k + 1)) == value(backward_rest(a, b, i, k)) - value(
            factor(a, k, i),
        ) * value(backward(a, b, k)));
        assert(solution(a, b)[k] == backward(a, b, k));
        assert(total(f, n as nat) == total(f, k as nat) + f(k));
    }
}

/// Solutions add: where no step rounds and no pivot vanishes, the solution for the sum of two
/// right-hand sides is the sum of their solutions.
pub proof fn law_solutions_add(
    a: [[Binary64; 6]; 6],
    b1: [Binary64; 6],
    b2: [Binary64; 6],
    b3: [Binary64; 6],
    i: int,
)
    requires
        0 <= i < 6,
        forall|k: int| 0 <= k < 6 ==> value(#[trigger] factor(a, k, k)) != 0 as real,
        substitutes_exactly(a, b1),
        substitutes_exactly(a, b2),
        substitutes_exactly(a, b3),
        forall|k: int| 0 <= k < 6 ==> value(#[trigger] b3[k]) == value(b1[k]) + value(b2[k]),
    ensures
        guarded_solution(a, b3) matches Some((x3, p3)) ==> {
            &&& guarded_solution(a, b1) matches Some((x1, p1))
            &&& guarded_solution(a, b2) matches Some((x2, p2))
            &&& value(x3[i]) == value(x1[i]) + value(x2[i])
        },
{
    lemma_backward_adds(a, b1, b2, b3, i);
    assert(solution(a, b1)[i] == backward(a, b1, i));
    assert(solution(a, b2)[i] == backward(a, b2, i));
    assert(solution(a, b3)[i] == backward(a, b3, i));
}

proof fn lemma_quotients_add(x: real, y: real, z: real, d: real)
    requires
        d != 0 as real,
        z * d == x * d + y * d,
    ensures
        z == x + y,
{
    lemma_real_distributes(z, x + y, d);
    lemma_real_distributes(x, y, d);
    lemma_real_nonzero(z - (x + y), d);
}

pub proof fn lemma_real_nonzero(x: real, d: real)
    by (nonlinear_arith)
    requires
        d != 0 as real,
        x * d == 0 as real,
    ensures
        x == 0 as real,
{
}

proof fn lemma_forward_adds(
    a: [[Binary64; 6]; 6],
    b1: [Binary64; 6],
    b2: [Binary64; 6],
    b3: [Binary64; 6],
    i: int,
)
    requires
        0 <= i < 6,
        forall|k: int| 0 <= k < 6 ==> value(#[trigger] factor(a, k, k)) != 0 as real,
        substitutes_exactly(a, b1),
        substitutes_exactly(a, b2),
        substitutes_exactly(a, b3),
        forall|k: int| 0 <= k < 6 ==> value(#[trigger] b3[k]) == value(b1[k]) + value(b2[k]),
    ensures
        value(forward(a, b3, i)) == value(forward(a, b1, i)) + value(forward(a, b2, i)),
    decreases i,
{
    let f = |k: int| low(a, i, k) * value(forward(a, b1, k));
    let g = |k: int| low(a, i, k) * value(forward(a, b2, k));
    let h = |k: int| low(a, i, k) * value(forward(a, b3, k));
    assert forall|k: int| 0 <= k < i implies #[trigger] h(k) == f(k) + g(k) by {
        lemma_forward_adds(a, b1, b2, b3, k);
        let l = low(a, i, k);
        let (x, y) = (value(forward(a, b1, k)), value(forward(a, b2, k)));
        lemma_real_distributes(x, y, l);
        lemma_real_associative(x, l, l);
        lemma_real_associative(y, l, l);
        lemma_real_associative(x + y, l, l);
    }
    lemma_total_range(f, g, h, 0, i as nat);
    lemma_forward_sum(a, b1, i, i);
    lemma_forward_sum(a, b2, i, i);
    lemma_forward_sum(a, b3, i, i);
    let d = value(factor(a, i, i));
    assert(value(forward(a, b1, i)) * d == value(forward_rest(a, b1, i, i)));
    assert(value(forward(a, b2, i)) * d == value(forward_rest(a, b2, i, i)));
    assert(value(forward(a, b3, i)) * d == value(forward_rest(a, b3, i, i)));
    assert(value(b3[i]) == value(b1[i]) + value(b2[i]));
    lemma_quotients_add(
        value(forward(a, b1, i)),
        value(forward(a, b2, i)),
        value(forward(a, b3, i)),
        d,
    );
}

proof fn lemma_backward_adds(
    a: [[Binary64; 6]; 6],
    b1: [Binary64; 6],
    b2: [Binary64; 6],
    b3: [Binary64; 6],
    i: int,
)
    requires
        0 <= i < 6,
        forall|k: int| 0 <= k < 6 ==> value(#[trigger] factor(a, k, k)) != 0 as real,
        substitutes_exactly(a, b1),
        substitutes_exactly(a, b2),
        substitutes_exactly(a, b3),
        forall|k: int| 0 <= k < 6 ==> value(#[trigger] b3[k]) == value(b1[k]) + value(b2[k]),
    ensures
        value(backward(a, b3, i)) == value(backward(a, b1, i)) + value(backward(a, b2, i)),
    decreases 6 - i,
{
    let f = |j: int| low(a, j, i) * value(solution(a, b1)[j]);
    let g = |j: int| low(a, j, i) * value(solution(a, b2)[j]);
    let h = |j: int| low(a, j, i) * value(solution(a, b3)[j]);
    assert forall|j: int| i + 1 <= j < 6 implies #[trigger] h(j) == f(j) + g(j) by {
        lemma_backward_adds(a, b1, b2, b3, j);
        assert(solution(a, b1)[j] == backward(a, b1, j));
        assert(solution(a, b2)[j] == backward(a, b2, j));
        assert(solution(a, b3)[j] == backward(a, b3, j));
        let l = low(a, j, i);
        let (x, y) = (value(backward(a, b1, j)), value(backward(a, b2, j)));
        lemma_real_distributes(x, y, l);
        lemma_real_associative(x, l, l);
        lemma_real_associative(y, l, l);
        lemma_real_associative(x + y, l, l);
    }
    lemma_total_range(f, g, h, (i + 1) as nat, 6);
    lemma_forward_adds(a, b1, b2, b3, i);
    lemma_backward_sum(a, b1, i, 6);
    lemma_backward_sum(a, b2, i, 6);
    lemma_backward_sum(a, b3, i, 6);
    let d = value(factor(a, i, i));
    assert(value(backward(a, b1, i)) * d == value(backward_rest(a, b1, i, 6)));
    assert(value(backward(a, b2, i)) * d == value(backward_rest(a, b2, i, 6)));
    assert(value(backward(a, b3, i)) * d == value(backward_rest(a, b3, i, 6)));
    lemma_quotients_add(
        value(backward(a, b1, i)),
        value(backward(a, b2, i)),
        value(backward(a, b3, i)),
        d,
    );
}

// ---------------------------------------------------------------------------
// Matrix products
// ---------------------------------------------------------------------------

/// Whether two matrices hold the same numbers.
pub open spec fn same_matrix(a: [[Binary64; 3]; 3], b: [[Binary64; 3]; 3]) -> bool {
    forall|i: int, j: int|
        0 <= i < 3 && 0 <= j < 3 ==> same_value(#[trigger] a[i][j], b[i][j])
}

/// The identity is neutral: a finite matrix multiplied by it from either side stays the same.
pub proof fn law_identity_is_neutral(e: [[Binary64; 3]; 3], m: [[Binary64; 3]; 3])
    requires
        is_identity(e),
        is_finite3(m[0]),
        is_finite3(m[1]),
        is_finite3(m[2]),
    ensures
        same_matrix(product(e, m), m),
        same_matrix(product(m, e), m),
{
    assert forall|i: int, j: int| 0 <= i < 3 && 0 <= j < 3 implies same_value(
        #[trigger] product(e, m)[i][j],
        m[i][j],
    ) by {
        assert(product(e, m)[i][j] == product_entry(e, m, i, j));
        lemma_identity_sum(e[i], i, m[0][j], m[1][j], m[2][j]);
    }
    assert forall|i: int, j: int| 0 <= i < 3 && 0 <= j < 3 implies same_value(
        #[trigger] product(m, e)[i][j],
        m[i][j],
    ) by {
        assert(product(m, e)[i][j] == product_entry(m, e, i, j));
        lemma_mul_commutes(m[i][0], e[0][j]);
        lemma_mul_commutes(m[i][1], e[1][j]);
        lemma_mul_commutes(m[i][2], e[2][j]);
        assert(if j == 0 {
            e[0][j] == fl(ONE)
        } else {
            is_zero(e[0][j])
        });
        assert(if j == 1 {
            e[1][j] == fl(ONE)
        } else {
            is_zero(e[1][j])
        });
        assert(if j == 2 {
            e[2][j] == fl(ONE)
        } else {
            is_zero(e[2][j])
        });
        lemma_selecting_sum(e[0][j], e[1][j], e[2][j], j, m[i][0], m[i][1], m[i][2]);
    }
}

proof fn lemma_identity_sum(
    row: [Binary64; 3],
    i: int,
    u: Binary64,
    v: Binary64,
    w: Binary64,
)
    requires
        0 <= i < 3,
        forall|k: int|
            0 <= k < 3 ==> if k == i {
                #[trigger] row[k] == fl(ONE)
            } else {
                is_zero(row[k])
            },
        is_finite(u),
        is_finite(v),
        is_finite(w),
    ensures
        same_value(
            fl_add(fl_add(fl_mul(row[0], u), fl_mul(row[1], v)), fl_mul(row[2], w)),
            if i == 0 {
                u
            } else if i == 1 {
                v
            } else {
                w
            },
        ),
{
    assert(if i == 0 {
        row[0] == fl(ONE)
    } else {
        is_zero(row[0])
    });
    assert(if i == 1 {
        row[1] == fl(ONE)
    } else {
        is_zero(row[1])
    });
    assert(if i == 2 {
        row[2] == fl(ONE)
    } else {
        is_zero(row[2])
    });
    lemma_selecting_sum(row[0], row[1], row[2], i, u, v, w);
}

/// A sum in which one factor is one and the others are zero is the number beside the one.
proof fn lemma_selecting_sum(
    a: Binary64,
    b: Binary64,
    c: Binary64,
    i: int,
    u: Binary64,
    v: Binary64,
    w: Binary64,
)
    requires
        0 <= i < 3,
        if i == 0 { a == fl(ONE) } else { is_zero(a) },
        if i == 1 { b == fl(ONE) } else { is_zero(b) },
        if i == 2 { c == fl(ONE) } else { is_zero(c) },
        is_finite(u),
        is_finite(v),
        is_finite(w),
    ensures
        same_value(
            fl_add(fl_add(fl_mul(a, u), fl_mul(b, v)), fl_mul(c, w)),
            if i == 0 {
                u
            } else if i == 1 {
                v
            } else {
                w
            },
        ),
{
    lemma_mul_one(u);
    lemma_mul_one(v);
    lemma_mul_one(w);
    let (p, q, r) = (fl_mul(a, u), fl_mul(b, v), fl_mul(c, w));
    if i == 0 {
        lemma_mul_zero(v, b);
        lemma_mul_zero(w, c);
        lemma_add_zero(u, q);
        lemma_add_zero(fl_add(u, q), r);
    } else if i == 1 {
        lemma_mul_zero(u, a);
        lemma_mul_zero(w, c);
        lemma_add_zero(v, p);
        lemma_add_zero(fl_add(p, v), r);
    } else {
        lemma_mul_zero(u, a);
        lemma_mul_zero(v, b);
        lemma_add_zero(p, q);
        lemma_add_zero(w, fl_add(p, q));
    }
}

/// Whether the product of row `i` of `m` with `v` rounds in no step.
pub open spec fn multiplies_exactly(m: [[Binary64; 3]; 3], i: int, v: [Binary64; 3]) -> bool {
    value(row_dot(m, i, v)) == value(m[i][0]) * value(v[0]) + value(m[i][1]) * value(v[1]) + value(
        m[i][2],
    ) * value(v[2])
}

/// Column `j` of a matrix.
pub open spec fn column(m: [[Binary64; 3]; 3], j: int) -> [Binary64; 3] {
    [m[0][j], m[1][j], m[2][j]]
}

/// A product of matrices applies the second one first: where no step rounds, multiplying a vector
/// by the product is multiplying it by `b` and then by `a`.
pub proof fn law_product_applies_second_first(
    a: [[Binary64; 3]; 3],
    b: [[Binary64; 3]; 3],
    v: [Binary64; 3],
    i: int,
)
    requires
        0 <= i < 3,
        forall|p: int, q: int|
            0 <= p < 3 && 0 <= q < 3 ==> #[trigger] multiplies_exactly(a, p, column(b, q)),
        forall|p: int| 0 <= p < 3 ==> #[trigger] multiplies_exactly(product(a, b), p, v),
        forall|p: int| 0 <= p < 3 ==> #[trigger] multiplies_exactly(b, p, v),
        forall|p: int| 0 <= p < 3 ==> #[trigger] multiplies_exactly(a, p, rotated(b, v)),
    ensures
        value(row_dot(product(a, b), i, v)) == value(row_dot(a, i, rotated(b, v))),
{
    let c = product(a, b);
    assert(multiplies_exactly(c, i, v));
    assert(multiplies_exactly(a, i, rotated(b, v)));
    assert(multiplies_exactly(b, 0, v));
    assert(multiplies_exactly(b, 1, v));
    assert(multiplies_exactly(b, 2, v));
    assert(multiplies_exactly(a, i, column(b, 0)));
    assert(multiplies_exactly(a, i, column(b, 1)));
    assert(multiplies_exactly(a, i, column(b, 2)));
    assert(c[i][0] == product_entry(a, b, i, 0));
    assert(c[i][1] == product_entry(a, b, i, 1));
    assert(c[i][2] == product_entry(a, b, i, 2));
    let (x, y, z) = (value(v[0]), value(v[1]), value(v[2]));
    let (p, q, r) = (value(a[i][0]), value(a[i][1]), value(a[i][2]));
    lemma_triple(p, q, r, value(b[0][0]), value(b[1][0]), value(b[2][0]), x);
    lemma_triple(p, q, r, value(b[0][1]), value(b[1][1]), value(b[2][1]), y);
    lemma_triple(p, q, r, value(b[0][2]), value(b[1][2]), value(b[2][2]), z);
    lemma_spread(p, value(b[0][0]) * x, value(b[0][1]) * y, value(b[0][2]) * z);
    lemma_spread(q, value(b[1][0]) * x, value(b[1][1]) * y, value(b[1][2]) * z);
    lemma_spread(r, value(b[2][0]) * x, value(b[2][1]) * y, value(b[2][2]) * z);
}

proof fn lemma_triple(p: real, q: real, r: real, d: real, e: real, f: real, x: real)
    ensures
        (p * d + q * e + r * f) * x == p * (d * x) + q * (e * x) + r * (f * x),
{
    lemma_real_distributes(p * d + q * e, r * f, x);
    lemma_real_distributes(p * d, q * e, x);
    lemma_real_associative(p, d, x);
    lemma_real_associative(q, e, x);
    lemma_real_associative(r, f, x);
}

proof fn lemma_spread(p: real, d: real, e: real, f: real)
    ensures
        p * (d + e + f) == p * d + p * e + p * f,
{
    lemma_real_distributes(d + e, f, p);
    lemma_real_distributes(d, e, p);
    lemma_real_associative(d + e + f, p, p);
    lemma_real_associative(p, d, p);
    lemma_real_associative(p, e, p);
    lemma_real_associative(p, f, p);
}

} // verus!
