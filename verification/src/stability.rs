//! That the solve of an accepted system of ordinary size stays finite.
use crate::binary64::{fl_div, fl_mul, fl_neg, fl_sqrt, fl_sub, magnitude, negative, Binary64};
use crate::chains::{lemma_root_step, lemma_unit_of, unit_of};
use crate::errors::{
    abs, lemma_add_finite, lemma_add_relative, lemma_div_value, lemma_mul_finite, lemma_mul_value,
    lemma_neg_value, lemma_power_adds, lemma_power_lifted, lemma_quotient_finite,
    lemma_real_associative, lemma_real_cancel, lemma_real_distributes, lemma_real_mul_ordered,
    lemma_real_one, lemma_real_quotient, lemma_sqrt_value, lemma_tiny_small, lemma_zero_value,
    power, tiny, value,
};
use crate::exactness::{is_finite, is_zero};
use crate::identities::lemma_quotient_scaled;
use crate::linear::{
    backward, backward_rest, factor, fl, forward, forward_rest, guarded_solution, is_collapsed,
    is_degenerate, pivot, pivot_scale, residual, solution,
};
use crate::ordering::lemma_square_sign;
use crate::pivots::{lemma_scale_finite, lemma_sound_pivot};
use crate::residuals::{
    factors_finitely, gram, law_solution_nearly_satisfies_system, lemma_matrix_near, residual_bound,
    row_error, solves_finitely,
};
use crate::rotations::{lemma_abs_product, lemma_magnitudes_ordered, lemma_square_nonnegative};
use crate::rounding::lemma_pow2_ordered;
use crate::systems::low;
use crate::totals::total;
use crate::walls::lemma_threshold_value;
use vstd::arithmetic::power2::{lemma2_to64, lemma2_to64_rest, pow2};
use vstd::prelude::*;

verus! {

// ---------------------------------------------------------------------------
// Growth
// ---------------------------------------------------------------------------

/// Whether a number is finite and at most `2^e`.
pub open spec fn is_within(x: Binary64, e: int) -> bool {
    is_finite(x) && abs(value(x)) <= power(e)
}

pub proof fn lemma_power_ordered(m: int, n: int)
    requires
        m <= n,
    ensures
        power(m) > 0 as real,
        power(m) <= power(n),
{
    let g = (n - m) as nat;
    lemma_power_lifted(m, g);
    lemma_pow2_ordered(0, g);
    lemma2_to64();
    lemma_real_mul_ordered(1 as real, pow2(g) as real, power(m));
    lemma_real_one(power(m));
    lemma_real_associative(1 as real, power(m), power(m));
    lemma_real_associative(pow2(g) as real, power(m), power(m));
    lemma_power_lifted(n, 0);
}

proof fn lemma_power_doubles(m: int)
    ensures
        power(m + 1) == (2 as real) * power(m),
        power(0) == 1 as real,
        power(m) > 0 as real,
{
    lemma_power_lifted(m, 1);
    lemma2_to64();
    lemma_real_associative(2 as real, power(m), power(m));
}

proof fn lemma_widened_within(x: Binary64, m: int, n: int)
    requires
        is_within(x, m),
        m <= n,
    ensures
        is_within(x, n),
{
    lemma_power_ordered(m, n);
}

/// A rounded number is at most twice as large.
proof fn lemma_rounding_doubles(x: real, exact: real, m: int)
    requires
        abs(x - exact) <= unit_of(exact) + tiny(),
        abs(exact) <= power(m),
        m >= 0,
    ensures
        abs(x) <= power(m + 1),
{
    lemma_unit_of(exact);
    lemma_tiny_small();
    lemma_power_doubles(m);
    lemma_power_ordered(0, m);
}

proof fn lemma_product_growth(a: Binary64, b: Binary64, m: int, n: int)
    requires
        is_within(a, m),
        is_within(b, n),
        0 <= m + n <= 1000,
    ensures
        is_within(fl_mul(a, b), m + n + 1),
{
    let (x, y) = (value(a), value(b));
    lemma_abs_product(x, y);
    lemma_power_ordered(m, m);
    lemma_power_ordered(n, n);
    lemma_real_mul_ordered(abs(x), power(m), abs(y));
    lemma_real_mul_ordered(abs(y), power(n), power(m));
    lemma_real_associative(abs(y), power(m), power(n));
    lemma_power_adds(m, n);
    lemma_power_ordered(m + n, 1023);
    lemma_mul_finite(a, b);
    lemma_mul_value(a, b);
    lemma_rounding_doubles(value(fl_mul(a, b)), x * y, m + n);
}

proof fn lemma_difference_growth(a: Binary64, b: Binary64, m: int)
    requires
        is_within(a, m),
        is_within(b, m),
        0 <= m <= 1000,
    ensures
        is_within(fl_sub(a, b), m + 2),
        abs(value(fl_sub(a, b)) - (value(a) - value(b))) <= unit_of(value(a) - value(b)),
{
    lemma_neg_value(b);
    lemma_power_doubles(m);
    lemma_power_ordered(m + 1, 1023);
    lemma_add_finite(a, fl_neg(b));
    lemma_add_relative(a, fl_neg(b));
    lemma_tiny_small();
    lemma_rounding_doubles(value(fl_sub(a, b)), value(a) - value(b), m + 1);
}

proof fn lemma_quotient_growth(r: Binary64, d: Binary64, m: int, n: int)
    requires
        is_within(r, m),
        is_finite(d),
        value(d) >= power(-n),
        0 <= m,
        0 <= n,
        m + n <= 1000,
    ensures
        is_within(fl_div(r, d), m + n + 1),
{
    let (x, y) = (value(r), value(d));
    let q = x / y;
    lemma_power_ordered(-n, -n);
    if is_zero(d) {
        lemma_zero_value(d);
    }
    assert(!negative(d)) by {
        if negative(d) {
            lemma_zero_value(fl(0));
            lemma_magnitudes_ordered(0, magnitude(d));
        }
    }
    lemma_quotient_scaled(q, x, y);
    lemma_abs_product(q, y);
    lemma_real_mul_ordered(power(-n), y, abs(q));
    lemma_real_associative(power(-n), abs(q), q);
    lemma_real_associative(y, abs(q), q);
    lemma_power_adds(m + n, -n);
    lemma_real_cancel(abs(q), power(m + n), power(-n));
    lemma_power_ordered(m + n, 1023);
    lemma_quotient_finite(r, d);
    lemma_div_value(r, d);
    lemma_rounding_doubles(value(fl_div(r, d)), q, m + n);
}

// ---------------------------------------------------------------------------
// Rows of the factor
// ---------------------------------------------------------------------------

/// Whether the entries of a matrix are at most `2^60`.
pub open spec fn has_ordinary_entries(a: [[Binary64; 6]; 6]) -> bool {
    forall|i: int, j: int| 0 <= i < 6 && 0 <= j < 6 ==> is_within(#[trigger] a[i][j], 60)
}

/// Whether row `i` of the factor is bounded, and its diagonal entry clear of zero.
spec fn is_sound_row(a: [[Binary64; 6]; 6], i: int) -> bool {
    &&& forall|j: int, k: int| 0 <= k <= j <= i ==> is_finite(#[trigger] residual(a, i, j, k))
    &&& forall|j: int| 0 <= j <= i ==> is_within(#[trigger] factor(a, i, j), 32)
    &&& value(factor(a, i, i)) >= power(-32)
}

spec fn has_sound_rows(a: [[Binary64; 6]; 6], n: int) -> bool {
    forall|i: int| 0 <= i < n ==> #[trigger] is_sound_row(a, i)
}

/// An entry of a row below sound ones is finite.
proof fn lemma_factor_growth(a: [[Binary64; 6]; 6], i: int, j: int)
    requires
        0 <= j < i < 6,
        has_ordinary_entries(a),
        has_sound_rows(a, i),
    ensures
        is_within(factor(a, i, j), 93 + 68 * j),
    decreases j, 1int, 0int,
{
    lemma_residual_growth(a, i, j, j);
    assert(is_sound_row(a, j));
    assert(is_within(factor(a, j, j), 32));
    lemma_quotient_growth(residual(a, i, j, j), factor(a, j, j), 60 + 68 * j, 32);
}

proof fn lemma_residual_growth(a: [[Binary64; 6]; 6], i: int, j: int, k: int)
    requires
        0 <= k <= j < i < 6,
        has_ordinary_entries(a),
        has_sound_rows(a, i),
    ensures
        is_within(residual(a, i, j, k), 60 + 68 * k),
    decreases j, 0int, k,
{
    if k == 0 {
        assert(is_within(a[i][j], 60));
    } else {
        let m = k - 1;
        lemma_residual_growth(a, i, j, m);
        lemma_factor_growth(a, i, m);
        assert(is_sound_row(a, j));
        assert(is_within(factor(a, j, m), 32));
        let (f, g) = (factor(a, i, m), factor(a, j, m));
        lemma_product_growth(f, g, 93 + 68 * m, 32);
        lemma_widened_within(residual(a, i, j, m), 60 + 68 * m, 126 + 68 * m);
        lemma_difference_growth(residual(a, i, j, m), fl_mul(f, g), 126 + 68 * m);
    }
}

/// The residuals on the diagonal are finite, and each is the one before less a square.
proof fn lemma_diagonal_growth(a: [[Binary64; 6]; 6], i: int, k: int)
    requires
        0 <= k <= i < 6,
        has_ordinary_entries(a),
        has_sound_rows(a, i),
    ensures
        is_within(residual(a, i, i, k), 60 + 136 * k),
        k > 0 ==> {
            let l = factor(a, i, k - 1);
            let (r, n, s) = (
                value(residual(a, i, i, k - 1)),
                value(residual(a, i, i, k)),
                value(fl_mul(l, l)),
            );
            &&& is_finite(l)
            &&& abs(n - (r - s)) <= unit_of(r - s)
            &&& abs(s - value(l) * value(l)) <= unit_of(value(l) * value(l)) + tiny()
            &&& s >= 0 as real
        },
    decreases k,
{
    if k == 0 {
        assert(is_within(a[i][i], 60));
    } else {
        let m = k - 1;
        let l = factor(a, i, m);
        lemma_diagonal_growth(a, i, m);
        lemma_factor_growth(a, i, m);
        lemma_product_growth(l, l, 93 + 68 * m, 93 + 68 * m);
        lemma_mul_value(l, l);
        lemma_square_sign(l);
        lemma_zero_value(fl(0));
        lemma_magnitudes_ordered(0, magnitude(fl_mul(l, l)));
        lemma_widened_within(residual(a, i, i, m), 60 + 136 * m, 187 + 136 * m);
        lemma_difference_growth(residual(a, i, i, m), fl_mul(l, l), 187 + 136 * m);
        lemma_widened_within(residual(a, i, i, k), 189 + 136 * m, 196 + 136 * m);
    }
}

/// Where the pivot is positive, so are the residuals before it.
proof fn lemma_residuals_positive(a: [[Binary64; 6]; 6], i: int, k: int)
    requires
        0 <= k <= i < 6,
        has_ordinary_entries(a),
        has_sound_rows(a, i),
        value(pivot(a, i)) > 0 as real,
    ensures
        value(residual(a, i, i, k)) > 0 as real,
    decreases i - k,
{
    if k < i {
        lemma_residuals_positive(a, i, k + 1);
        lemma_diagonal_growth(a, i, k + 1);
        let l = factor(a, i, k);
        lemma_unit_of(value(residual(a, i, i, k)) - value(fl_mul(l, l)));
    }
}

/// The residuals on the diagonal do not grow.
proof fn lemma_residuals_bounded(a: [[Binary64; 6]; 6], i: int, k: int)
    requires
        0 <= k <= i < 6,
        has_ordinary_entries(a),
        has_sound_rows(a, i),
        value(pivot(a, i)) > 0 as real,
    ensures
        (100 as real) * value(residual(a, i, i, k)) <= ((100 + k) as real) * power(60),
        k > 0 ==> is_within(factor(a, i, k - 1), 32),
    decreases k,
{
    lemma_residuals_positive(a, i, k);
    lemma_power_ordered(60, 60);
    if k == 0 {
        assert(is_within(a[i][i], 60));
        assert((100 + k) as real == 100 as real);
    } else {
        let m = k - 1;
        lemma_residuals_bounded(a, i, m);
        lemma_residuals_positive(a, i, m);
        lemma_diagonal_growth(a, i, k);
        let l = factor(a, i, m);
        let (r, n, s) = (
            value(residual(a, i, i, m)),
            value(residual(a, i, i, k)),
            value(fl_mul(l, l)),
        );
        let p = power(60);
        let c = ((100 + m) as real) * p;
        lemma_real_distributes((100 + m) as real, 1 as real, p);
        lemma_real_one(p);
        assert((100 + k) as real == ((100 + m) as real) + (1 as real));
        lemma_real_mul_ordered((100 + m) as real, 106 as real, p);
        lemma_unit_of(r - s);
        lemma_unit_of(r);
        assert(s < r);
        assert((100 as real) * n <= c + p);
        // the entry
        let v = value(l);
        let q = v * v;
        lemma_square_nonnegative(v);
        lemma_unit_of(q);
        lemma_tiny_small();
        assert(q <= (4 as real) * p);
        lemma_power_doubles(60);
        lemma_power_doubles(61);
        lemma_power_ordered(32, 32);
        if abs(v) > power(32) {
            lemma_abs_product(v, v);
            lemma_real_mul_ordered(power(32), abs(v), power(32));
            lemma_real_mul_ordered(power(32), abs(v), abs(v));
            lemma_real_associative(power(32), abs(v), v);
            lemma_power_adds(32, 32);
            lemma_power_ordered(63, 64);
            lemma_power_doubles(62);
        }
    }
}

/// The root of a pivot that is neither large nor small.
proof fn lemma_root_clear(r: Binary64)
    requires
        is_finite(r),
        power(-59) <= value(r),
        value(r) <= power(61),
    ensures
        is_within(fl_sqrt(r), 32),
        value(fl_sqrt(r)) >= power(-32),
{
    lemma_power_ordered(-59, -59);
    if is_zero(r) {
        lemma_zero_value(r);
    }
    assert(!negative(r)) by {
        if negative(r) {
            lemma_zero_value(fl(0));
            lemma_magnitudes_ordered(0, magnitude(r));
        }
    }
    lemma_root_step(r);
    lemma_sqrt_value(r);
    let l = value(fl_sqrt(r));
    let q = l * l;
    lemma_unit_of(q);
    lemma_square_nonnegative(l);
    lemma_power_doubles(61);
    lemma_power_doubles(-60);
    assert(q <= power(62));
    assert(q >= power(-60));
    lemma_power_ordered(32, 32);
    lemma_power_ordered(-32, -32);
    if l > power(32) {
        lemma_real_mul_ordered(power(32), l, power(32));
        lemma_real_mul_ordered(power(32), l, l);
        lemma_real_associative(power(32), l, l);
        lemma_power_adds(32, 32);
        lemma_power_ordered(63, 64);
        lemma_power_doubles(62);
    }
    if l < power(-32) {
        lemma_real_mul_ordered(l, power(-32), l);
        lemma_real_mul_ordered(l, power(-32), power(-32));
        lemma_real_associative(l, power(-32), l);
        lemma_power_adds(-32, -32);
        lemma_power_ordered(-64, -61);
        lemma_power_doubles(-61);
    }
}

/// The rows of a factor whose pivots have not collapsed are sound.
proof fn lemma_rows_sound(a: [[Binary64; 6]; 6], n: int)
    requires
        0 <= n <= 6,
        has_ordinary_entries(a),
        forall|i: int| 0 <= i < 6 ==> value(#[trigger] pivot_scale(a, i)) >= power(-30),
        forall|i: int| 0 <= i < 6 ==> !#[trigger] is_collapsed(a, i),
    ensures
        has_sound_rows(a, n),
    decreases n,
{
    if n > 0 {
        let i = n - 1;
        lemma_rows_sound(a, i);
        assert forall|k: int| 0 <= k < 6 implies is_finite(#[trigger] a[k][k]) by {
            assert(is_within(a[k][k], 60));
        }
        lemma_diagonal_growth(a, i, i);
        assert(!is_collapsed(a, i));
        lemma_sound_pivot(a, i);
        lemma_scale_finite(a, i);
        lemma_threshold_value(pivot_scale(a, i));
        lemma_threshold_clear(value(pivot_scale(a, i)));
        lemma_power_ordered(-59, -59);
        lemma_residuals_bounded(a, i, i);
        lemma_power_doubles(60);
        lemma_real_mul_ordered((100 + i) as real, 200 as real, power(60));
        lemma_root_clear(pivot(a, i));
        assert forall|j: int| 0 <= j <= i implies is_within(#[trigger] factor(a, i, j), 32) by {
            if j < i {
                lemma_residuals_bounded(a, i, j + 1);
            }
        }
        assert forall|j: int, k: int| 0 <= k <= j <= i implies is_finite(
            #[trigger] residual(a, i, j, k),
        ) by {
            if j < i {
                lemma_residual_growth(a, i, j, k);
            } else {
                lemma_diagonal_growth(a, i, k);
            }
        }
        assert(is_sound_row(a, i));
    }
}

/// The threshold of a scale of at least `2^-30`.
proof fn lemma_threshold_clear(s: real)
    requires
        s >= power(-30),
    ensures
        (98 as real) * (s / (10000000000int as real)) - tiny() >= power(-59),
{
    let q = 10000000000int as real;
    lemma_tiny_small();
    let p = power(-59);
    lemma_power_lifted(-59, 29);
    lemma2_to64();
    assert(pow2(29) == 536870912);
    lemma_real_associative(p, 536870912 as real, p);
    assert(s >= (536870912 as real) * p);
    lemma_real_quotient(s, q);
    let x = s / q;
    assert(x * q == s);
    lemma_power_lifted(-59, 59);
    lemma2_to64_rest();
    assert(pow2(59) == 576460752303423488);
    lemma_power_doubles(0);
    lemma_real_associative(p, 576460752303423488int as real, p);
    lemma_power_ordered(-59, -59);
    lemma_scaled_clear(x, s, p, tiny());
}

proof fn lemma_scaled_clear(x: real, s: real, p: real, t: real)
    requires
        x * (10000000000int as real) == s,
        s >= (536870912 as real) * p,
        p * (576460752303423488int as real) == 1 as real,
        t <= (1 as real) / (10000000000000000000000000000000000000000int as real),
    ensures
        (98 as real) * x - t >= p,
{
}

/// The factorisation of an accepted matrix of ordinary size is finite: where its entries are at
/// most `2^60` and the scales of both blocks at least `2^-30`.
pub proof fn law_accepted_matrix_factors_finitely(a: [[Binary64; 6]; 6])
    requires
        has_ordinary_entries(a),
        forall|i: int| 0 <= i < 6 ==> value(#[trigger] pivot_scale(a, i)) >= power(-30),
        !is_degenerate(a),
    ensures
        factors_finitely(a),
{
    assert forall|i: int| 0 <= i < 6 implies !#[trigger] is_collapsed(a, i) by {}
    lemma_rows_sound(a, 6);
    assert forall|i: int, j: int, k: int| 0 <= k <= j <= i < 6 implies is_finite(
        #[trigger] residual(a, i, j, k),
    ) by {
        assert(is_sound_row(a, i));
    }
    assert forall|i: int, j: int| 0 <= j <= i < 6 implies is_finite(#[trigger] factor(a, i, j)) by {
        assert(is_sound_row(a, i));
        assert(is_within(factor(a, i, j), 32));
    }
}

// ---------------------------------------------------------------------------
// Substitutions
// ---------------------------------------------------------------------------

proof fn lemma_forward_growth(a: [[Binary64; 6]; 6], b: [Binary64; 6], i: int)
    requires
        0 <= i < 6,
        has_sound_rows(a, 6),
        forall|k: int| 0 <= k < 6 ==> is_within(#[trigger] b[k], 60),
    ensures
        is_within(forward(a, b, i), 93 + 68 * i),
    decreases i, 1int, 0int,
{
    lemma_forward_rest_growth(a, b, i, i);
    assert(is_sound_row(a, i));
    assert(is_within(factor(a, i, i), 32));
    lemma_quotient_growth(forward_rest(a, b, i, i), factor(a, i, i), 60 + 68 * i, 32);
}

proof fn lemma_forward_rest_growth(a: [[Binary64; 6]; 6], b: [Binary64; 6], i: int, k: int)
    requires
        0 <= k <= i < 6,
        has_sound_rows(a, 6),
        forall|k: int| 0 <= k < 6 ==> is_within(#[trigger] b[k], 60),
    ensures
        is_within(forward_rest(a, b, i, k), 60 + 68 * k),
    decreases i, 0int, k,
{
    if k == 0 {
        assert(is_within(b[i], 60));
    } else {
        let m = k - 1;
        lemma_forward_rest_growth(a, b, i, m);
        lemma_forward_growth(a, b, m);
        assert(is_sound_row(a, i));
        assert(is_within(factor(a, i, m), 32));
        let (f, g) = (factor(a, i, m), forward(a, b, m));
        lemma_product_growth(f, g, 32, 93 + 68 * m);
        lemma_widened_within(forward_rest(a, b, i, m), 60 + 68 * m, 126 + 68 * m);
        lemma_difference_growth(forward_rest(a, b, i, m), fl_mul(f, g), 126 + 68 * m);
    }
}

proof fn lemma_backward_growth(a: [[Binary64; 6]; 6], b: [Binary64; 6], i: int)
    requires
        0 <= i < 6,
        has_sound_rows(a, 6),
        forall|k: int| 0 <= k < 6 ==> is_within(#[trigger] b[k], 60),
    ensures
        is_within(backward(a, b, i), 880 - 80 * i),
    decreases 6 - i, 1int, 0int,
{
    lemma_backward_rest_growth(a, b, i, 6);
    assert(is_sound_row(a, i));
    assert(is_within(factor(a, i, i), 32));
    let e = 835 - 80 * i + 2 * (6 - i);
    lemma_quotient_growth(backward_rest(a, b, i, 6), factor(a, i, i), e, 32);
    lemma_widened_within(backward(a, b, i), e + 33, 880 - 80 * i);
}

proof fn lemma_backward_rest_growth(a: [[Binary64; 6]; 6], b: [Binary64; 6], i: int, k: int)
    requires
        0 <= i < k <= 6,
        has_sound_rows(a, 6),
        forall|k: int| 0 <= k < 6 ==> is_within(#[trigger] b[k], 60),
    ensures
        is_within(backward_rest(a, b, i, k), 835 - 80 * i + 2 * (k - i)),
    decreases 6 - i, 0int, k,
{
    if k == i + 1 {
        lemma_forward_growth(a, b, i);
        lemma_widened_within(forward(a, b, i), 93 + 68 * i, 837 - 80 * i);
    } else {
        let m = k - 1;
        let e = 835 - 80 * i + 2 * (m - i);
        lemma_backward_rest_growth(a, b, i, m);
        lemma_backward_growth(a, b, m);
        assert(is_sound_row(a, m));
        assert(is_within(factor(a, m, i), 32));
        let (f, g) = (factor(a, m, i), backward(a, b, m));
        lemma_product_growth(f, g, 32, 880 - 80 * m);
        lemma_widened_within(fl_mul(f, g), 913 - 80 * m, e);
        lemma_difference_growth(backward_rest(a, b, i, m), fl_mul(f, g), e);
    }
}

/// The solve of an accepted system of ordinary size is finite: where the entries of the matrix and
/// the right-hand side are at most `2^60` and the scales of both blocks at least `2^-30`.
pub proof fn law_accepted_system_is_solved_finitely(a: [[Binary64; 6]; 6], b: [Binary64; 6])
    requires
        has_ordinary_entries(a),
        forall|k: int| 0 <= k < 6 ==> is_within(#[trigger] b[k], 60),
        forall|i: int| 0 <= i < 6 ==> value(#[trigger] pivot_scale(a, i)) >= power(-30),
        !is_degenerate(a),
    ensures
        solves_finitely(a, b),
{
    law_accepted_matrix_factors_finitely(a);
    assert forall|i: int| 0 <= i < 6 implies !#[trigger] is_collapsed(a, i) by {}
    lemma_rows_sound(a, 6);
    assert forall|i: int, k: int| 0 <= k <= i < 6 implies is_finite(
        #[trigger] forward_rest(a, b, i, k),
    ) by {
        lemma_forward_rest_growth(a, b, i, k);
    }
    assert forall|i: int| 0 <= i < 6 implies is_finite(#[trigger] forward(a, b, i)) by {
        lemma_forward_growth(a, b, i);
    }
    assert forall|i: int, k: int| 0 <= i < k <= 6 implies is_finite(
        #[trigger] backward_rest(a, b, i, k),
    ) by {
        lemma_backward_rest_growth(a, b, i, k);
    }
    assert forall|i: int| 0 <= i < 6 implies is_finite(#[trigger] backward(a, b, i)) by {
        lemma_backward_growth(a, b, i);
    }
}

/// The factor of an accepted matrix of ordinary size multiplies back to the matrix, up to the error
/// of a row.
pub proof fn law_factor_multiplies_back(a: [[Binary64; 6]; 6], i: int, j: int)
    requires
        0 <= i < 6,
        0 <= j < 6,
        forall|p: int, q: int| 0 <= q <= p < 6 ==> #[trigger] a[p][q] == a[q][p],
        has_ordinary_entries(a),
        forall|p: int| 0 <= p < 6 ==> value(#[trigger] pivot_scale(a, p)) >= power(-30),
        !is_degenerate(a),
    ensures
        abs(value(a[i][j]) - total(|k: int| low(a, i, k) * low(a, j, k), 6)) <= row_error(
            a,
            gram(a, i, j),
        ),
{
    law_accepted_matrix_factors_finitely(a);
    lemma_matrix_near(a, i, j);
}

/// The solution of an accepted system of ordinary size solves it, up to the residual bound.
pub proof fn law_ordinary_system_is_solved(a: [[Binary64; 6]; 6], b: [Binary64; 6], i: int)
    requires
        0 <= i < 6,
        forall|p: int, q: int| 0 <= q <= p < 6 ==> #[trigger] a[p][q] == a[q][p],
        has_ordinary_entries(a),
        forall|k: int| 0 <= k < 6 ==> is_within(#[trigger] b[k], 60),
        forall|p: int| 0 <= p < 6 ==> value(#[trigger] pivot_scale(a, p)) >= power(-30),
    ensures
        guarded_solution(a, b) matches Some((x, weakest)) ==> is_finite(x[i]) && abs(
            total(|j: int| value(a[i][j]) * value(x[j]), 6) - value(b[i]),
        ) <= residual_bound(a, x, i),
{
    if !is_degenerate(a) {
        law_accepted_system_is_solved_finitely(a, b);
        law_solution_nearly_satisfies_system(a, b, i);
        assert(solution(a, b)[i] == backward(a, b, i));
    }
}

} // verus!
