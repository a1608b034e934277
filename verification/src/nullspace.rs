//! Motions that no correspondence notices.
use crate::binary64::{fl_lt, fl_mul, fl_sqrt, magnitude, negative, Binary64};
use crate::errors::{
    lemma_real_associative, lemma_real_distributes, lemma_sqrt_value, lemma_value_positive,
    lemma_zero_value, value,
};
use crate::exactness::{is_finite, is_zero};
use crate::icp::{equations_of, normal_entry, normal_row, Correspondence};
use crate::linear::{
    factor, fl, is_collapsed, is_degenerate, pivot, pivot_scale, residual, PIVOT_RTOL,
};
use crate::rotations::lemma_square_nonnegative;
use crate::rounding::INFINITE;
use crate::sums::{lemma_row_step, sums_exactly};
use crate::systems::{factors_exactly, lemma_matrix_is_product, lemma_real_nonzero, low};
use crate::totals::{
    lemma_total_holds, lemma_total_regrouped, lemma_total_same, lemma_total_zero, total,
};
use vstd::prelude::*;

verus! {

/// What a correspondence notices of the motion `x`: the change of its residual, to first order.
pub open spec fn noticed(c: Correspondence, x: spec_fn(int) -> real) -> real {
    total(|k: int| value(c.jacobian[k]) * x(k), 6)
}

/// Whether the motion `x` leaves the residual of a correspondence as it is.
pub open spec fn is_unnoticed(c: Correspondence, x: spec_fn(int) -> real) -> bool {
    noticed(c, x) == 0 as real
}

/// Row `p` of `a x`.
spec fn image(a: [[Binary64; 6]; 6], x: spec_fn(int) -> real, p: int) -> real {
    total(|q: int| value(a[p][q]) * x(q), 6)
}

/// Row `k` of `L^T x`, for the triangular factor `L` of `a`.
pub open spec fn pulled(a: [[Binary64; 6]; 6], x: spec_fn(int) -> real, k: int) -> real {
    total(|j: int| low(a, j, k) * x(j), 6)
}

/// Whether row `p` of the factorisation of `a` rounds in no step and is finite: its residuals, its
/// entries before the diagonal and, where its pivot has not collapsed, the one on the diagonal.
pub open spec fn has_exact_row(a: [[Binary64; 6]; 6], p: int) -> bool {
    &&& forall|j: int, k: int|
        0 <= k < j <= p ==> #[trigger] value(residual(a, p, j, k + 1)) == value(
            residual(a, p, j, k),
        ) - value(factor(a, p, k)) * value(factor(a, j, k))
    &&& forall|j: int|
        0 <= j < p ==> is_finite(#[trigger] factor(a, p, j)) && value(factor(a, p, j)) * value(
            factor(a, j, j),
        ) == value(residual(a, p, j, j))
    &&& !is_collapsed(a, p) ==> is_finite(factor(a, p, p)) && value(factor(a, p, p)) * value(
        factor(a, p, p),
    ) == value(residual(a, p, p, p))
}

/// Whether the rows of the factorisation round in no step and are finite, up to the first pivot
/// that has collapsed.
pub open spec fn factors_exactly_to_collapse(a: [[Binary64; 6]; 6]) -> bool {
    forall|p: int|
        0 <= p < 6 && (forall|q: int| 0 <= q < p ==> !#[trigger] is_collapsed(a, q))
            ==> #[trigger] has_exact_row(a, p)
}

/// A motion that no correspondence notices is refused, as those along a wall are, whichever way
/// it faces: where no sum rounds, no step of the factorisation rounds or overflows up to the first
/// pivot that has collapsed, and the thresholds are above zero, the equations are degenerate.
pub proof fn law_unnoticed_motion_refused(
    rows: Seq<Correspondence>,
    num_associated: usize,
    num_valid: usize,
    x: spec_fn(int) -> real,
    i: int,
)
    requires
        0 <= i < 6,
        x(i) != 0 as real,
        forall|r: int| 0 <= r < rows.len() ==> is_unnoticed(#[trigger] rows[r], x),
        sums_exactly(rows),
        ({
            let a = equations_of(rows, num_associated, num_valid).a;
            &&& factors_exactly_to_collapse(a)
            &&& forall|p: int|
                0 <= p < 6 ==> fl_lt(fl(0), fl_mul(fl(PIVOT_RTOL), #[trigger] pivot_scale(a, p)))
        }),
    ensures
        is_degenerate(equations_of(rows, num_associated, num_valid).a),
{
    let a = equations_of(rows, num_associated, num_valid).a;
    if !is_degenerate(a) {
        assert forall|p: int, q: int| 0 <= p < 6 && 0 <= q < 6 implies #[trigger] a[p][q]
            == normal_entry(rows, p, q) by {
            assert(a[p] == normal_row(rows, p));
        }
        assert forall|p: int, q: int| 0 <= q <= p < 6 implies #[trigger] a[p][q] == a[q][p] by {
            assert(a[q][p] == normal_entry(rows, q, p));
        }
        lemma_exact_rows(a);
        lemma_image_vanishes(a, rows, x);
        lemma_factor_image_vanishes(a, x);
        assert forall|p: int| 0 <= p < 6 implies value(#[trigger] factor(a, p, p)) != 0 as real by {
            lemma_accepted_factor(a, p);
        }
        lemma_motion_vanishes(a, x, i);
    }
}

/// Without a collapsed pivot the whole factorisation is exact and finite.
proof fn lemma_exact_rows(a: [[Binary64; 6]; 6])
    requires
        factors_exactly_to_collapse(a),
        !is_degenerate(a),
    ensures
        factors_exactly(a),
        forall|p: int| 0 <= p < 6 ==> is_finite(#[trigger] factor(a, p, p)),
{
    assert forall|p: int| 0 <= p < 6 implies !#[trigger] is_collapsed(a, p) by {}
    assert forall|p: int| 0 <= p < 6 implies #[trigger] has_exact_row(a, p) by {}
    assert forall|i: int, j: int, k: int| 0 <= k < j <= i < 6 implies #[trigger] value(
        residual(a, i, j, k + 1),
    ) == value(residual(a, i, j, k)) - value(factor(a, i, k)) * value(factor(a, j, k)) by {
        assert(has_exact_row(a, i));
    }
    assert forall|i: int, j: int| 0 <= j <= i < 6 implies #[trigger] value(factor(a, i, j)) * value(
        factor(a, j, j),
    ) == value(residual(a, i, j, j)) by {
        assert(has_exact_row(a, i));
        assert(!is_collapsed(a, i));
        assert(j < i ==> is_finite(factor(a, i, j)));
    }
    assert forall|p: int| 0 <= p < 6 implies is_finite(#[trigger] factor(a, p, p)) by {
        assert(has_exact_row(a, p));
        assert(!is_collapsed(a, p));
    }
}

/// A diagonal entry of the factor of an accepted matrix is not zero.
proof fn lemma_accepted_factor(a: [[Binary64; 6]; 6], p: int)
    requires
        0 <= p < 6,
        !is_degenerate(a),
        is_finite(factor(a, p, p)),
        fl_lt(fl(0), fl_mul(fl(PIVOT_RTOL), pivot_scale(a, p))),
    ensures
        value(factor(a, p, p)) != 0 as real,
{
    assert(!is_collapsed(a, p));
    let square = pivot(a, p);
    let root = factor(a, p, p);
    assert(root == fl_sqrt(square));
    assert(!is_zero(square)) by {
        reveal(fl_lt);
    }
    assert(!is_zero(root)) by {
        lemma_root_not_zero(square);
    }
    lemma_value_positive(magnitude(root));
}

/// A square root is zero for zeros alone.
proof fn lemma_root_not_zero(x: Binary64)
    requires
        !is_zero(x),
        is_finite(fl_sqrt(x)),
    ensures
        !is_zero(fl_sqrt(x)),
{
    if !negative(x) && magnitude(x) < INFINITE {
        lemma_sqrt_value(x);
        if is_zero(fl_sqrt(x)) {
            lemma_zero_value(fl_sqrt(x));
        }
    } else {
        reveal(fl_sqrt);
    }
}

/// `a x` is zero.
proof fn lemma_image_vanishes(
    a: [[Binary64; 6]; 6],
    rows: Seq<Correspondence>,
    x: spec_fn(int) -> real,
)
    requires
        forall|r: int| 0 <= r < rows.len() ==> is_unnoticed(#[trigger] rows[r], x),
        sums_exactly(rows),
        forall|p: int, q: int|
            0 <= p < 6 && 0 <= q < 6 ==> #[trigger] a[p][q] == normal_entry(rows, p, q),
    ensures
        forall|p: int|
            0 <= p < 6 ==> #[trigger] image(a, x, p) == 0 as real,
{
    assert forall|p: int| 0 <= p < 6 implies #[trigger] image(a, x, p)
        == 0 as real by {
        lemma_row_vanishes(rows, x, p);
        let f = |q: int| value(a[p][q]) * x(q);
        let g = |q: int| value(normal_entry(rows, p, q)) * x(q);
        assert forall|q: int| 0 <= q < 6 implies #[trigger] f(q) == g(q) by {
            assert(a[p][q] == normal_entry(rows, p, q));
        }
        lemma_total_same(f, g, 6);
    }
}

proof fn lemma_row_vanishes(rows: Seq<Correspondence>, x: spec_fn(int) -> real, p: int)
    requires
        0 <= p < 6,
        forall|r: int| 0 <= r < rows.len() ==> is_unnoticed(#[trigger] rows[r], x),
        sums_exactly(rows),
    ensures
        total(|q: int| value(normal_entry(rows, p, q)) * x(q), 6) == 0 as real,
    decreases rows.len(),
{
    if rows.len() == 0 {
        let g = |q: int| value(normal_entry(rows, p, q)) * x(q);
        lemma_zero_value(fl(0));
        assert forall|q: int| 0 <= q < 6 implies #[trigger] g(q) == 0 as real by {
            lemma_real_distributes(0 as real, 0 as real, x(q));
        }
        lemma_total_zero(g, 6);
    } else {
        let before = rows.drop_last();
        let c = rows.last();
        assert forall|r: int| 0 <= r < before.len() implies is_unnoticed(
            #[trigger] before[r],
            x,
        ) by {
            assert(before[r] == rows[r]);
        }
        assert(is_unnoticed(rows[rows.len() - 1], x));
        lemma_row_vanishes(before, x, p);
        lemma_row_step(rows, x, p);
        let w = value(c.weight) * value(c.jacobian[p]);
        lemma_real_distributes(0 as real, 0 as real, w);
        lemma_real_associative(0 as real, w, w);
    }
}

/// `L^T x` is zero.
proof fn lemma_factor_image_vanishes(a: [[Binary64; 6]; 6], x: spec_fn(int) -> real)
    requires
        forall|p: int, q: int| 0 <= q <= p < 6 ==> #[trigger] a[p][q] == a[q][p],
        factors_exactly(a),
        forall|p: int|
            0 <= p < 6 ==> #[trigger] image(a, x, p) == 0 as real,
    ensures
        forall|k: int| 0 <= k < 6 ==> #[trigger] pulled(a, x, k) == 0 as real,
{
    let z = |k: int| total(|j: int| low(a, j, k) * x(j), 6);
    let lows = |j: int, k: int| low(a, j, k);
    // L z is zero
    let lz = |i: int| total(|k: int| low(a, i, k) * z(k), 6);
    assert forall|i: int| 0 <= i < 6 implies #[trigger] lz(i) == 0 as real by {
        assert(image(a, x, i) == 0 as real);
        lemma_rows_applied(a, x, i);
        let t = |k: int| low(a, i, k) * total(|j: int| low(a, j, k) * x(j), 6);
        lemma_total_same(t, |k: int| low(a, i, k) * z(k), 6);
    }
    // the sum of the squares of z is x L z
    let sq = |k: int| z(k) * z(k);
    lemma_total_regrouped(z, lows, x, 6);
    let f = |j: int| total(|k: int| z(k) * lows(j, k), 6) * x(j);
    let g = |k: int| z(k) * total(|j: int| lows(j, k) * x(j), 6);
    assert forall|j: int| 0 <= j < 6 implies #[trigger] f(j) == 0 as real by {
        let p = |k: int| z(k) * lows(j, k);
        let q = |k: int| low(a, j, k) * z(k);
        assert forall|k: int| 0 <= k < 6 implies #[trigger] p(k) == q(k) by {
            lemma_real_associative(z(k), low(a, j, k), z(k));
        }
        lemma_total_same(p, q, 6);
        assert(lz(j) == 0 as real);
        lemma_real_distributes(0 as real, 0 as real, x(j));
    }
    lemma_total_zero(f, 6);
    assert forall|k: int| 0 <= k < 6 implies #[trigger] g(k) == sq(k) by {
        lemma_total_same(|j: int| lows(j, k) * x(j), |j: int| low(a, j, k) * x(j), 6);
    }
    lemma_total_same(g, sq, 6);
    assert forall|k: int| 0 <= k < 6 implies #[trigger] pulled(a, x, k)
        == 0 as real by {
        assert forall|m: int| 0 <= m < 6 implies #[trigger] sq(m) >= 0 as real by {
            lemma_square_nonnegative(z(m));
        }
        lemma_total_holds(sq, 6, k);
        if z(k) != 0 as real {
            lemma_square_nonnegative(z(k));
            lemma_real_nonzero(z(k), z(k));
        }
    }
}

/// Row `i` of `L (L^T x)` is row `i` of `a x`.
proof fn lemma_rows_applied(a: [[Binary64; 6]; 6], x: spec_fn(int) -> real, i: int)
    requires
        0 <= i < 6,
        forall|p: int, q: int| 0 <= q <= p < 6 ==> #[trigger] a[p][q] == a[q][p],
        factors_exactly(a),
        image(a, x, i) == 0 as real,
    ensures
        total(|k: int| low(a, i, k) * total(|j: int| low(a, j, k) * x(j), 6), 6) == 0 as real,
{
    let row = |k: int| low(a, i, k);
    let lows = |j: int, k: int| low(a, j, k);
    lemma_total_regrouped(row, lows, x, 6);
    let ax = |q: int| value(a[i][q]) * x(q);
    let f = |j: int| total(|k: int| row(k) * lows(j, k), 6) * x(j);
    assert forall|j: int| 0 <= j < 6 implies #[trigger] ax(j) == f(j) by {
        lemma_matrix_is_product(a, i, j);
        lemma_total_same(
            |k: int| low(a, i, k) * low(a, j, k),
            |k: int| row(k) * lows(j, k),
            6,
        );
    }
    lemma_total_same(ax, f, 6);
    let g = |k: int| row(k) * total(|j: int| lows(j, k) * x(j), 6);
    let h = |k: int| low(a, i, k) * total(|j: int| low(a, j, k) * x(j), 6);
    assert forall|k: int| 0 <= k < 6 implies #[trigger] g(k) == h(k) by {
        lemma_total_same(|j: int| lows(j, k) * x(j), |j: int| low(a, j, k) * x(j), 6);
    }
    lemma_total_same(g, h, 6);
}

/// `x` is zero from the last entry down.
proof fn lemma_motion_vanishes(a: [[Binary64; 6]; 6], x: spec_fn(int) -> real, i: int)
    requires
        0 <= i < 6,
        forall|k: int| 0 <= k < 6 ==> #[trigger] pulled(a, x, k) == 0 as real,
        forall|p: int| 0 <= p < 6 ==> value(#[trigger] factor(a, p, p)) != 0 as real,
    ensures
        x(i) == 0 as real,
    decreases 6 - i,
{
    let f = |j: int| low(a, j, i) * x(j);
    assert forall|j: int| 0 <= j < 6 && j != i implies #[trigger] f(j) == 0 as real by {
        if j < i {
            lemma_real_distributes(0 as real, 0 as real, x(j));
        } else {
            lemma_motion_vanishes(a, x, j);
            lemma_real_distributes(0 as real, 0 as real, low(a, j, i));
            lemma_real_associative(0 as real, low(a, j, i), x(j));
        }
    }
    assert(total(f, 6) == f(i)) by {
        lemma_one_term(f, 6, i);
    }
    assert(pulled(a, x, i) == 0 as real);
    lemma_real_associative(low(a, i, i), x(i), x(i));
    lemma_real_nonzero(x(i), value(factor(a, i, i)));
}

/// A sum of which all terms but one vanish.
pub proof fn lemma_one_term(f: spec_fn(int) -> real, n: nat, i: int)
    requires
        forall|j: int| 0 <= j < n && j != i ==> #[trigger] f(j) == 0 as real,
    ensures
        total(f, n) == if 0 <= i < n {
            f(i)
        } else {
            0 as real
        },
    decreases n,
{
    if n > 0 {
        lemma_one_term(f, (n - 1) as nat, i);
        if n - 1 != i {
            assert(f(n - 1) == 0 as real);
        }
    }
}

} // verus!
