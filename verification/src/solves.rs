//! What holds of the guarded solve for related systems.
use crate::binary64::{
    exponent, finite_sum, fl_add, fl_div, fl_le, fl_lt, fl_max, fl_mul, fl_neg, fl_sqrt, fl_sub,
    in_units, is_nan, lemma_fields, magnitude, negative, signed, significand, Binary64,
};
use crate::exactness::{is_finite, is_zero, lemma_representable, lemma_rounded_monotone, same_value};
use crate::laws::{factors_before, lemma_zero_backward, lemma_zero_forward};
use crate::linear::{
    backward, backward_rest, block_scale, factor, fl, forward, forward_rest, guarded_solution,
    is_collapsed, is_degenerate, pivot, pivot_scale, residual, solution, weakest_pivot, PIVOT_RTOL,
};
use crate::rounding::{
    bit_len, lemma_bit_len_bounds, lemma_pow2_ordered, lemma_rounded_shifted, rounded,
    unit_exponent, units, INFINITE,
};
use vstd::arithmetic::power2::{
    lemma2_to64, lemma2_to64_rest, lemma_pow2_adds, lemma_pow2_pos, pow2,
};
use vstd::prelude::*;

verus! {

// ---------------------------------------------------------------------------
// Right-hand sides
// ---------------------------------------------------------------------------

/// Whether a system is refused, and which pivot is reported, does not depend on its right-hand
/// side.
pub proof fn law_verdict_ignores_right_hand_side(
    a: [[Binary64; 6]; 6],
    b: [Binary64; 6],
    c: [Binary64; 6],
)
    ensures
        match (guarded_solution(a, b), guarded_solution(a, c)) {
            (None, None) => true,
            (Some((x, p)), Some((y, q))) => p == q,
            _ => false,
        },
{
}

/// A right-hand side of zeros has a solution of zeros, where the factor is finite and has no zero
/// on its diagonal.
pub proof fn law_zero_right_hand_side(a: [[Binary64; 6]; 6], b: [Binary64; 6], i: int)
    requires
        0 <= i < 6,
        factors_before(a, 6),
        forall|k: int| 0 <= k < 6 ==> is_zero(#[trigger] b[k]),
    ensures
        guarded_solution(a, b) matches Some((x, p)) ==> is_zero(x[i]),
{
    lemma_zero_forward(a, b, 6);
    lemma_zero_backward(a, b, 0);
    assert(solution(a, b)[i] == backward(a, b, i));
}

/// Whether `b` is the opposite of `a`: the number of the other sign, where the zeros count as
/// one, or both are not numbers.
pub open spec fn is_opposite(a: Binary64, b: Binary64) -> bool {
    (is_nan(a) && is_nan(b)) || same_value(b, fl_neg(a))
}

/// A negated right-hand side has the negated solution.
pub proof fn law_negated_right_hand_side(
    a: [[Binary64; 6]; 6],
    b: [Binary64; 6],
    c: [Binary64; 6],
    i: int,
)
    requires
        0 <= i < 6,
        forall|k: int| 0 <= k < 6 ==> is_opposite(#[trigger] b[k], c[k]),
    ensures
        guarded_solution(a, b) matches Some((x, p)) ==> (guarded_solution(a, c) matches Some((y, q))
            && is_opposite(x[i], y[i])),
{
    lemma_opposite_backward(a, b, c, i);
    assert(solution(a, b)[i] == backward(a, b, i));
    assert(solution(a, c)[i] == backward(a, c, i));
}

proof fn lemma_opposite_mul(f: Binary64, a: Binary64, b: Binary64)
    requires
        is_opposite(a, b),
    ensures
        is_opposite(fl_mul(f, a), fl_mul(f, b)),
{
    reveal(fl_mul);
    reveal(fl_neg);
}

proof fn lemma_opposite_div(a: Binary64, b: Binary64, d: Binary64)
    requires
        is_opposite(a, b),
    ensures
        is_opposite(fl_div(a, d), fl_div(b, d)),
{
    reveal(fl_div);
    reveal(fl_neg);
}

proof fn lemma_opposite_sub(a: Binary64, b: Binary64, p: Binary64, q: Binary64)
    requires
        is_opposite(a, b),
        is_opposite(p, q),
    ensures
        is_opposite(fl_sub(a, p), fl_sub(b, q)),
{
    reveal(fl_add);
    reveal(fl_neg);
    let (x, y) = (magnitude(a), magnitude(p));
    assert(magnitude(b) == x || is_nan(a));
    assert(magnitude(q) == y || is_nan(p));
    if x < INFINITE && y < INFINITE {
        let e = if exponent(x) < exponent(y) {
            exponent(x)
        } else {
            exponent(y)
        };
        assert(x == 0 ==> in_units(x, e) == 0) by (nonlinear_arith)
            requires
                in_units(x, e) == significand(x) * pow2((exponent(x) - e) as nat),
                x == 0 ==> significand(x) == 0,
        ;
        assert(y == 0 ==> in_units(y, e) == 0) by (nonlinear_arith)
            requires
                in_units(y, e) == significand(y) * pow2((exponent(y) - e) as nat),
                y == 0 ==> significand(y) == 0,
        ;
    }
}

proof fn lemma_opposite_forward_rest(
    a: [[Binary64; 6]; 6],
    b: [Binary64; 6],
    c: [Binary64; 6],
    i: int,
    k: int,
)
    requires
        0 <= k <= i < 6,
        forall|t: int| 0 <= t < 6 ==> is_opposite(#[trigger] b[t], c[t]),
    ensures
        is_opposite(forward_rest(a, b, i, k), forward_rest(a, c, i, k)),
    decreases i, 0int, k,
{
    if k > 0 {
        lemma_opposite_forward_rest(a, b, c, i, k - 1);
        lemma_opposite_forward(a, b, c, k - 1);
        let f = factor(a, i, k - 1);
        lemma_opposite_mul(f, forward(a, b, k - 1), forward(a, c, k - 1));
        lemma_opposite_sub(
            forward_rest(a, b, i, k - 1),
            forward_rest(a, c, i, k - 1),
            fl_mul(f, forward(a, b, k - 1)),
            fl_mul(f, forward(a, c, k - 1)),
        );
    } else {
        assert(is_opposite(b[i], c[i]));
    }
}

proof fn lemma_opposite_forward(
    a: [[Binary64; 6]; 6],
    b: [Binary64; 6],
    c: [Binary64; 6],
    i: int,
)
    requires
        0 <= i < 6,
        forall|t: int| 0 <= t < 6 ==> is_opposite(#[trigger] b[t], c[t]),
    ensures
        is_opposite(forward(a, b, i), forward(a, c, i)),
    decreases i, 1int, 0int,
{
    lemma_opposite_forward_rest(a, b, c, i, i);
    lemma_opposite_div(forward_rest(a, b, i, i), forward_rest(a, c, i, i), factor(a, i, i));
}

proof fn lemma_opposite_backward_rest(
    a: [[Binary64; 6]; 6],
    b: [Binary64; 6],
    c: [Binary64; 6],
    i: int,
    k: int,
)
    requires
        0 <= i < k <= 6,
        forall|t: int| 0 <= t < 6 ==> is_opposite(#[trigger] b[t], c[t]),
    ensures
        is_opposite(backward_rest(a, b, i, k), backward_rest(a, c, i, k)),
    decreases 6 - i, 0int, k,
{
    if k > i + 1 {
        lemma_opposite_backward_rest(a, b, c, i, k - 1);
        lemma_opposite_backward(a, b, c, k - 1);
        let f = factor(a, k - 1, i);
        lemma_opposite_mul(f, backward(a, b, k - 1), backward(a, c, k - 1));
        lemma_opposite_sub(
            backward_rest(a, b, i, k - 1),
            backward_rest(a, c, i, k - 1),
            fl_mul(f, backward(a, b, k - 1)),
            fl_mul(f, backward(a, c, k - 1)),
        );
    } else {
        lemma_opposite_forward(a, b, c, i);
    }
}

proof fn lemma_opposite_backward(
    a: [[Binary64; 6]; 6],
    b: [Binary64; 6],
    c: [Binary64; 6],
    i: int,
)
    requires
        0 <= i < 6,
        forall|t: int| 0 <= t < 6 ==> is_opposite(#[trigger] b[t], c[t]),
    ensures
        is_opposite(backward(a, b, i), backward(a, c, i)),
    decreases 6 - i, 1int, 0int,
{
    lemma_opposite_backward_rest(a, b, c, i, 6);
    lemma_opposite_div(
        backward_rest(a, b, i, 6),
        backward_rest(a, c, i, 6),
        factor(a, i, i),
    );
}

// ---------------------------------------------------------------------------
// Rescaled blocks
// ---------------------------------------------------------------------------

/// Whether a number is zero or normal: not infinite, and not below the smallest normal number.
pub open spec fn is_plain(x: Binary64) -> bool {
    is_zero(x) || 0x0010_0000_0000_0000 <= magnitude(x) < INFINITE
}

/// Whether `n / d * 2^j` is not below the smallest normal number, before it is rounded.
pub open spec fn reaches_normal(n: nat, d: nat, j: int) -> bool {
    j + bit_len(n / d) > -1022
}

/// Whether `y` is `x` times `2^k`.
pub open spec fn is_scaled(x: Binary64, y: Binary64, k: int) -> bool {
    &&& is_plain(x)
    &&& is_plain(y)
    &&& negative(x) == negative(y)
    &&& is_zero(x) <==> is_zero(y)
    &&& !is_zero(x) ==> magnitude(y) == magnitude(x) + k * 0x0010_0000_0000_0000
}

/// Whether the product of `a` and `b` neither overflows nor underflows.
pub open spec fn has_plain_product(a: Binary64, b: Binary64) -> bool {
    let (x, y) = (magnitude(a), magnitude(b));
    &&& is_plain(fl_mul(a, b))
    &&& is_zero(a) || is_zero(b) || (!is_zero(fl_mul(a, b)) && reaches_normal(
        significand(x) * significand(y),
        1,
        exponent(x) + exponent(y),
    ))
}

/// Whether the quotient of `a` by `d` neither overflows nor underflows.
pub open spec fn has_plain_quotient(a: Binary64, d: Binary64) -> bool {
    let (x, y) = (magnitude(a), magnitude(d));
    &&& is_plain(d) && !is_zero(d)
    &&& is_plain(fl_div(a, d))
    &&& is_zero(a) || (!is_zero(fl_div(a, d)) && reaches_normal(
        significand(x) * pow2(128),
        significand(y),
        exponent(x) - exponent(y) - 128,
    ))
}

proof fn lemma_scaled_fields(x: Binary64, y: Binary64, k: int)
    requires
        is_scaled(x, y, k),
        !is_zero(x),
    ensures
        significand(magnitude(y)) == significand(magnitude(x)),
        exponent(magnitude(y)) == exponent(magnitude(x)) + k,
        significand(magnitude(x)) > 0,
{
    let m = magnitude(x) as int;
    let q = m / 0x0010_0000_0000_0000;
    assert((m + k * 0x0010_0000_0000_0000) / 0x0010_0000_0000_0000 == q + k);
    assert((m + k * 0x0010_0000_0000_0000) % 0x0010_0000_0000_0000 == m % 0x0010_0000_0000_0000);
}

/// A power of two passes through rounding where nothing overflows or underflows.
proof fn lemma_rounded_scaled(n: nat, d: nat, j: int, k: int)
    requires
        n >= d > 0,
        reaches_normal(n, d, j),
        reaches_normal(n, d, j + k),
        rounded(n, d, j) < INFINITE,
        rounded(n, d, j + k) < INFINITE,
    ensures
        rounded(n, d, j + k) == rounded(n, d, j) + k * 0x0010_0000_0000_0000,
{
    let e = unit_exponent(n, d, j);
    assert(unit_exponent(n, d, j + k) == e + k);
    assert(units(n, d, j + k, e + k) == units(n, d, j, e));
}

proof fn lemma_scaled_mul(
    a: Binary64,
    c: Binary64,
    k: int,
    b: Binary64,
    d: Binary64,
    l: int,
)
    requires
        is_scaled(a, c, k),
        is_scaled(b, d, l),
        has_plain_product(a, b),
        has_plain_product(c, d),
    ensures
        is_scaled(fl_mul(a, b), fl_mul(c, d), k + l),
{
    reveal(fl_mul);
    if !is_zero(a) && !is_zero(b) {
        lemma_scaled_fields(a, c, k);
        lemma_scaled_fields(b, d, l);
        let (x, y) = (magnitude(a), magnitude(b));
        let n = significand(x) * significand(y);
        assert(n >= 1) by (nonlinear_arith)
            requires
                n == significand(x) * significand(y),
                significand(x) >= 1,
                significand(y) >= 1,
        ;
        lemma_rounded_scaled(n, 1, exponent(x) + exponent(y), k + l);
    }
}

proof fn lemma_scaled_div(
    a: Binary64,
    c: Binary64,
    k: int,
    b: Binary64,
    d: Binary64,
    l: int,
)
    requires
        is_scaled(a, c, k),
        is_scaled(b, d, l),
        has_plain_quotient(a, b),
        has_plain_quotient(c, d),
    ensures
        is_scaled(fl_div(a, b), fl_div(c, d), k - l),
{
    reveal(fl_div);
    lemma_scaled_fields(b, d, l);
    if !is_zero(a) {
        lemma_scaled_fields(a, c, k);
        let (x, y) = (magnitude(a), magnitude(b));
        lemma_wide_numerator(x, y);
        lemma_rounded_scaled(
            significand(x) * pow2(128),
            significand(y),
            exponent(x) - exponent(y) - 128,
            k - l,
        );
    }
}

proof fn lemma_wide_numerator(x: nat, y: nat)
    requires
        0 < x < INFINITE,
        0 < y < INFINITE,
    ensures
        significand(x) * pow2(128) >= significand(y) > 0,
{
    lemma_fields(x);
    lemma_fields(y);
    lemma2_to64_rest();
    lemma_pow2_ordered(53, 128);
    let (s, d, w) = (significand(x), significand(y), pow2(128));
    assert(s * w >= d) by (nonlinear_arith)
        requires
            s >= 1,
            w >= 0x0020_0000_0000_0000,
            d < 0x0020_0000_0000_0000,
    ;
}

/// The quotient of two numbers that are scaled alike does not change.
proof fn lemma_scaled_alike_div(a: Binary64, c: Binary64, b: Binary64, d: Binary64, k: int)
    requires
        is_scaled(a, c, k),
        is_scaled(b, d, k),
    ensures
        fl_div(a, b) == fl_div(c, d),
{
    reveal(fl_div);
    if !is_zero(a) {
        lemma_scaled_fields(a, c, k);
    }
    if !is_zero(b) {
        lemma_scaled_fields(b, d, k);
    }
}

proof fn lemma_scaled_sub(
    a: Binary64,
    c: Binary64,
    b: Binary64,
    d: Binary64,
    k: int,
)
    requires
        is_scaled(a, c, k),
        is_scaled(b, d, k),
        is_plain(fl_sub(a, b)),
        is_plain(fl_sub(c, d)),
    ensures
        is_scaled(fl_sub(a, b), fl_sub(c, d), k),
{
    reveal(fl_neg);
    let (nb, nd) = (fl_neg(b), fl_neg(d));
    if is_zero(a) || is_zero(b) {
        lemma_zero_sum(a, nb);
        lemma_zero_sum(c, nd);
    } else {
        lemma_scaled_fields(a, c, k);
        lemma_scaled_fields(b, d, k);
        let (x, y, m, o) = (magnitude(a), magnitude(b), magnitude(c), magnitude(d));
        assert(fl_sub(a, b) == finite_sum(negative(a), x, negative(nb), y)) by {
            reveal(fl_add);
        }
        assert(fl_sub(c, d) == finite_sum(negative(a), m, negative(nb), o)) by {
            reveal(fl_add);
        }
        lemma_scaled_sum(negative(a), x, m, negative(nb), y, o, k);
    }
}

/// The sum of two magnitude fields that are scaled alike is scaled.
#[verifier::spinoff_prover]
proof fn lemma_scaled_sum(a: bool, x: nat, m: nat, b: bool, y: nat, o: nat, k: int)
    requires
        significand(m) == significand(x),
        significand(o) == significand(y),
        exponent(m) == exponent(x) + k,
        exponent(o) == exponent(y) + k,
        is_plain(finite_sum(a, x, b, y)),
        is_plain(finite_sum(a, m, b, o)),
    ensures
        is_scaled(finite_sum(a, x, b, y), finite_sum(a, m, b, o), k),
{
    let e = if exponent(x) < exponent(y) {
        exponent(x)
    } else {
        exponent(y)
    };
    let (u, v) = (in_units(x, e), in_units(y, e));
    assert(in_units(m, e + k) == u);
    assert(in_units(o, e + k) == v);
    let p = if a {
        -u
    } else {
        u as int
    };
    let q = if b {
        -v
    } else {
        v as int
    };
    let sum = p + q;
    if sum != 0 {
        let n = if sum < 0 {
            (-sum) as nat
        } else {
            sum as nat
        };
        let (r, w) = (rounded(n, 1, e), rounded(n, 1, e + k));
        assert(finite_sum(a, x, b, y) == signed(sum < 0, r));
        assert(finite_sum(a, m, b, o) == signed(sum < 0, w));
        assert(e >= -1074 && e + k >= -1074);
        lemma_sum_not_zero(n, e);
        lemma_sum_not_zero(n, e + k);
        lemma_small_sum(n, e);
        lemma_small_sum(n, e + k);
        lemma_rounded_scaled(n, 1, e, k);
    } else {
        assert(finite_sum(a, x, b, y) == signed(a && b, 0));
        assert(finite_sum(a, m, b, o) == signed(a && b, 0));
    }
}

/// A sum of whole units that is below the smallest normal number stays below it.
proof fn lemma_small_sum(n: nat, e: int)
    requires
        n >= 1,
        e >= -1074,
        rounded(n, 1, e) >= 0x0010_0000_0000_0000,
    ensures
        reaches_normal(n, 1, e),
{
    if !reaches_normal(n, 1, e) {
        let g = (e + 1074) as nat;
        let len = bit_len(n);
        lemma_bit_len_bounds(n);
        lemma_pow2_pos(g);
        lemma_pow2_adds(len, g);
        lemma_pow2_ordered(len + g, 52);
        lemma2_to64_rest();
        let m = n * pow2(g);
        assert(1 <= m < 0x0010_0000_0000_0000) by (nonlinear_arith)
            requires
                m == n * pow2(g),
                1 <= n < pow2(len),
                pow2(g) >= 1,
                pow2(len) * pow2(g) <= 0x0010_0000_0000_0000,
        ;
        lemma_rounded_shifted(n, 1, e, g);
        lemma_representable(m);
    }
}

/// A sum of whole units of at least the smallest number does not round to zero.
proof fn lemma_sum_not_zero(n: nat, e: int)
    requires
        n >= 1,
        e >= -1074,
    ensures
        rounded(n, 1, e) > 0,
{
    lemma2_to64();
    lemma_representable(1);
    let g = (e + 1074) as nat;
    lemma_pow2_pos(g);
    lemma_rounded_shifted(n, 1, e, g);
    assert(n * pow2(g) >= 1) by (nonlinear_arith)
        requires
            n >= 1,
            pow2(g) >= 1,
    ;
    lemma_rounded_monotone(1, n * pow2(g), 1, -1074);
}

/// A sum with a zero, in which the other operand keeps its sign unless it is a zero too.
proof fn lemma_zero_sum(a: Binary64, b: Binary64)
    requires
        is_finite(a),
        is_finite(b),
        is_zero(a) || is_zero(b),
    ensures
        fl_add(a, b) == if is_zero(a) && is_zero(b) {
            signed(negative(a) && negative(b), 0)
        } else if is_zero(a) {
            b
        } else {
            a
        },
{
    crate::exactness::lemma_add_zero(
        if is_zero(b) {
            a
        } else {
            b
        },
        if is_zero(b) {
            b
        } else {
            a
        },
    );
    if is_zero(a) && is_zero(b) {
        reveal(fl_add);
        assert(0 * pow2(0) == 0);
    }
}

proof fn lemma_scaled_sqrt(a: Binary64, c: Binary64, k: int)
    requires
        is_scaled(a, c, 2 * k),
        !is_zero(a),
        !negative(a),
        is_plain(fl_sqrt(a)),
        is_plain(fl_sqrt(c)),
    ensures
        is_scaled(fl_sqrt(a), fl_sqrt(c), k),
        !is_zero(fl_sqrt(a)),
{
    reveal(fl_sqrt);
    lemma_scaled_fields(a, c, 2 * k);
    let x = magnitude(a);
    let y = magnitude(c);
    lemma_fields(x);
    lemma_fields(y);
    let s = significand(x);
    lemma_bit_len_bounds(s);
    let u = crate::binary64::root_exponent(s, exponent(x));
    assert(crate::binary64::root_exponent(s, exponent(y)) == u + k);
    assert(u >= -1000 && u + k >= -1000);
}

proof fn lemma_scaled_order(a: Binary64, c: Binary64, b: Binary64, d: Binary64, k: int)
    requires
        is_scaled(a, c, k),
        is_scaled(b, d, k),
    ensures
        fl_lt(a, b) == fl_lt(c, d),
        is_scaled(fl_max(a, b), fl_max(c, d), k),
{
    reveal(fl_lt);
}

/// The power of two that row `i` is multiplied by: `2^s` for the rotation, `2^t` for the
/// translation.
pub open spec fn row_shift(s: int, t: int, i: int) -> int {
    if i < 3 {
        s
    } else {
        t
    }
}

/// Whether `c` is `S a S` on and below the diagonal, where `S` multiplies the rotation rows by
/// `2^s` and the translation rows by `2^t`.
pub open spec fn is_rescaled(a: [[Binary64; 6]; 6], c: [[Binary64; 6]; 6], s: int, t: int) -> bool {
    forall|i: int, j: int|
        0 <= j <= i < 6 ==> is_scaled(
            #[trigger] a[i][j],
            c[i][j],
            row_shift(s, t, i) + row_shift(s, t, j),
        )
}

/// Whether no step of the factorisation of row `i` overflows or underflows.
pub open spec fn has_plain_row(a: [[Binary64; 6]; 6], i: int) -> bool {
    &&& forall|j: int, k: int|
        0 <= k < j <= i ==> has_plain_product(
            #[trigger] factor(a, i, k),
            #[trigger] factor(a, j, k),
        )
    &&& forall|j: int, k: int| 0 <= k <= j <= i ==> is_plain(#[trigger] residual(a, i, j, k))
    &&& forall|j: int|
        0 <= j < i ==> has_plain_quotient(residual(a, i, j, j), #[trigger] factor(a, j, j))
    &&& has_plain_product(fl(PIVOT_RTOL), pivot_scale(a, i))
    &&& !is_collapsed(a, i) ==> is_plain(factor(a, i, i))
}

/// Whether no step of the factorisation overflows or underflows, up to the first collapsed pivot.
pub open spec fn factors_plainly(a: [[Binary64; 6]; 6]) -> bool {
    forall|i: int|
        0 <= i < 6 && (forall|p: int| 0 <= p < i ==> !#[trigger] is_collapsed(a, p))
            ==> #[trigger] has_plain_row(a, i)
}

/// Whether no step of the substitutions overflows or underflows.
pub open spec fn substitutes_plainly(a: [[Binary64; 6]; 6], b: [Binary64; 6]) -> bool {
    &&& forall|i: int, k: int|
        0 <= k < i < 6 ==> has_plain_product(
            #[trigger] factor(a, i, k),
            #[trigger] forward(a, b, k),
        )
    &&& forall|i: int, k: int| 0 <= k <= i < 6 ==> is_plain(#[trigger] forward_rest(a, b, i, k))
    &&& forall|i: int|
        0 <= i < 6 ==> has_plain_quotient(
            #[trigger] forward_rest(a, b, i, i),
            factor(a, i, i),
        )
    &&& forall|i: int, k: int|
        0 <= i < k < 6 ==> has_plain_product(
            #[trigger] factor(a, k, i),
            #[trigger] backward(a, b, k),
        )
    &&& forall|i: int, k: int| 0 <= i < k <= 6 ==> is_plain(#[trigger] backward_rest(a, b, i, k))
    &&& forall|i: int|
        0 <= i < 6 ==> has_plain_quotient(
            #[trigger] backward_rest(a, b, i, 6),
            factor(a, i, i),
        )
}

/// Rescaling the rotation rows against the translation rows by powers of two, as a change of the
/// unit of depth does, changes neither the verdict nor the reported pivot, where no step
/// overflows or underflows.
pub proof fn law_rescaling_keeps_verdict(
    a: [[Binary64; 6]; 6],
    c: [[Binary64; 6]; 6],
    b: [Binary64; 6],
    d: [Binary64; 6],
    s: int,
    t: int,
)
    requires
        is_rescaled(a, c, s, t),
        factors_plainly(a),
        factors_plainly(c),
    ensures
        match (guarded_solution(a, b), guarded_solution(c, d)) {
            (None, None) => true,
            (Some((x, p)), Some((y, q))) => p == q,
            _ => false,
        },
{
    lemma_scaled_blocks(a, c, s, t);
    reveal(fl_le);
    if !fl_le(block_scale(a, 0), fl(0)) && !fl_le(block_scale(a, 3), fl(0)) {
        lemma_scaled_rows(a, c, s, t, 6);
        if exists|p: int| 0 <= p < 6 && #[trigger] is_collapsed(a, p) {
            lemma_first_collapse(a, c, s, t, 6);
        }
        if exists|p: int| 0 <= p < 6 && #[trigger] is_collapsed(c, p) {
            let p = choose|p: int| 0 <= p < 6 && #[trigger] is_collapsed(c, p);
            if !is_degenerate(a) {
                assert(is_collapsed(a, p));
            }
        }
        if !is_degenerate(a) {
            lemma_scaled_weakest(a, c, s, t, 6);
        }
    }
}

/// Where a system is accepted, the solution of the rescaled one is the rescaled solution.
pub proof fn law_rescaling_rescales_solution(
    a: [[Binary64; 6]; 6],
    c: [[Binary64; 6]; 6],
    b: [Binary64; 6],
    d: [Binary64; 6],
    s: int,
    t: int,
    i: int,
)
    requires
        0 <= i < 6,
        is_rescaled(a, c, s, t),
        factors_plainly(a),
        factors_plainly(c),
        forall|k: int| 0 <= k < 6 ==> is_scaled(#[trigger] b[k], d[k], row_shift(s, t, k)),
        substitutes_plainly(a, b),
        substitutes_plainly(c, d),
    ensures
        guarded_solution(a, b) matches Some((x, p)) ==> (guarded_solution(c, d) matches Some((y, q))
            && is_scaled(x[i], y[i], -row_shift(s, t, i))),
{
    law_rescaling_keeps_verdict(a, c, b, d, s, t);
    if !is_degenerate(a) {
        lemma_scaled_blocks(a, c, s, t);
        lemma_scaled_rows(a, c, s, t, 6);
        lemma_scaled_backward(a, c, b, d, s, t, i);
        assert(solution(a, b)[i] == backward(a, b, i));
        assert(solution(c, d)[i] == backward(c, d, i));
    }
}

proof fn lemma_scaled_blocks(a: [[Binary64; 6]; 6], c: [[Binary64; 6]; 6], s: int, t: int)
    requires
        is_rescaled(a, c, s, t),
    ensures
        is_scaled(block_scale(a, 0), block_scale(c, 0), 2 * s),
        is_scaled(block_scale(a, 3), block_scale(c, 3), 2 * t),
        !negative(block_scale(a, 0)),
        !negative(block_scale(a, 3)),
        fl_le(block_scale(a, 0), fl(0)) <==> fl_le(block_scale(c, 0), fl(0)),
        fl_le(block_scale(a, 3), fl(0)) <==> fl_le(block_scale(c, 3), fl(0)),
{
    reveal(fl_le);
    assert(is_scaled(fl(0), fl(0), 2 * s) && is_scaled(fl(0), fl(0), 2 * t));
    assert(is_scaled(a[0][0], c[0][0], 2 * s));
    assert(is_scaled(a[1][1], c[1][1], 2 * s));
    assert(is_scaled(a[2][2], c[2][2], 2 * s));
    assert(is_scaled(a[3][3], c[3][3], 2 * t));
    assert(is_scaled(a[4][4], c[4][4], 2 * t));
    assert(is_scaled(a[5][5], c[5][5], 2 * t));
    lemma_scaled_max(a, c, 0, 2 * s);
    lemma_scaled_max(a, c, 3, 2 * t);
}

proof fn lemma_scaled_max(a: [[Binary64; 6]; 6], c: [[Binary64; 6]; 6], first: int, k: int)
    requires
        first == 0 || first == 3,
        is_scaled(a[first][first], c[first][first], k),
        is_scaled(a[first + 1][first + 1], c[first + 1][first + 1], k),
        is_scaled(a[first + 2][first + 2], c[first + 2][first + 2], k),
    ensures
        is_scaled(block_scale(a, first), block_scale(c, first), k),
        !negative(block_scale(a, first)),
{
    let (x0, y0) = (fl_max(fl(0), a[first][first]), fl_max(fl(0), c[first][first]));
    let (x1, y1) = (fl_max(x0, a[first + 1][first + 1]), fl_max(y0, c[first + 1][first + 1]));
    lemma_scaled_order(fl(0), fl(0), a[first][first], c[first][first], k);
    lemma_scaled_order(x0, y0, a[first + 1][first + 1], c[first + 1][first + 1], k);
    lemma_scaled_order(x1, y1, a[first + 2][first + 2], c[first + 2][first + 2], k);
    reveal(fl_lt);
}

/// Whether the factors of a row are scaled.
spec fn is_scaled_row(
    a: [[Binary64; 6]; 6],
    c: [[Binary64; 6]; 6],
    s: int,
    t: int,
    p: int,
) -> bool {
    forall|q: int|
        0 <= q <= p ==> is_scaled(#[trigger] factor(a, p, q), factor(c, p, q), row_shift(s, t, p))
}

proof fn lemma_scaled_rows(a: [[Binary64; 6]; 6], c: [[Binary64; 6]; 6], s: int, t: int, n: int)
    requires
        0 <= n <= 6,
        is_rescaled(a, c, s, t),
        factors_plainly(a),
        factors_plainly(c),
        !fl_le(block_scale(a, 0), fl(0)),
        !fl_le(block_scale(a, 3), fl(0)),
    ensures
        (forall|p: int| 0 <= p < n ==> !#[trigger] is_collapsed(a, p)) ==> {
            &&& forall|p: int| 0 <= p < n ==> #[trigger] is_scaled_row(a, c, s, t, p)
            &&& forall|p: int| 0 <= p < n ==> !#[trigger] is_collapsed(c, p)
            &&& forall|p: int|
                0 <= p < n ==> is_scaled(
                    #[trigger] pivot(a, p),
                    pivot(c, p),
                    2 * row_shift(s, t, p),
                )
        },
    decreases n,
{
    if n > 0 {
        lemma_scaled_rows(a, c, s, t, n - 1);
        if forall|p: int| 0 <= p < n ==> !#[trigger] is_collapsed(a, p) {
            let i = n - 1;
            assert(!is_collapsed(a, i));
            assert(has_plain_row(a, i));
            assert(has_plain_row(c, i));
            lemma_scaled_row(a, c, s, t, i, i);
            lemma_scaled_residual(a, c, s, t, i, i, i);
            lemma_scaled_verdict(a, c, s, t, i);
            lemma_scaled_pivot(a, c, s, t, i);
            assert(is_scaled_row(a, c, s, t, i));
        }
    }
}

/// The factors of row `i` before column `n` are scaled.
proof fn lemma_scaled_row(
    a: [[Binary64; 6]; 6],
    c: [[Binary64; 6]; 6],
    s: int,
    t: int,
    i: int,
    n: int,
)
    requires
        0 <= n <= i < 6,
        is_rescaled(a, c, s, t),
        has_plain_row(a, i),
        has_plain_row(c, i),
        forall|p: int| 0 <= p < i ==> #[trigger] is_scaled_row(a, c, s, t, p),
    ensures
        forall|q: int|
            0 <= q < n ==> is_scaled(
                #[trigger] factor(a, i, q),
                factor(c, i, q),
                row_shift(s, t, i),
            ),
    decreases n,
{
    if n > 0 {
        let j = n - 1;
        lemma_scaled_row(a, c, s, t, i, j);
        lemma_scaled_residual(a, c, s, t, i, j, j);
        assert(is_scaled_row(a, c, s, t, j));
        assert(is_scaled(factor(a, j, j), factor(c, j, j), row_shift(s, t, j)));
        assert(has_plain_quotient(residual(a, i, j, j), factor(a, j, j)));
        assert(has_plain_quotient(residual(c, i, j, j), factor(c, j, j)));
        lemma_scaled_div(
            residual(a, i, j, j),
            residual(c, i, j, j),
            row_shift(s, t, i) + row_shift(s, t, j),
            factor(a, j, j),
            factor(c, j, j),
            row_shift(s, t, j),
        );
    }
}

proof fn lemma_scaled_residual(
    a: [[Binary64; 6]; 6],
    c: [[Binary64; 6]; 6],
    s: int,
    t: int,
    i: int,
    j: int,
    k: int,
)
    requires
        0 <= k <= j <= i < 6,
        is_rescaled(a, c, s, t),
        has_plain_row(a, i),
        has_plain_row(c, i),
        forall|p: int| 0 <= p < i ==> #[trigger] is_scaled_row(a, c, s, t, p),
        forall|q: int|
            0 <= q < j ==> is_scaled(
                #[trigger] factor(a, i, q),
                factor(c, i, q),
                row_shift(s, t, i),
            ),
    ensures
        is_scaled(
            residual(a, i, j, k),
            residual(c, i, j, k),
            row_shift(s, t, i) + row_shift(s, t, j),
        ),
    decreases k,
{
    if k > 0 {
        lemma_scaled_residual(a, c, s, t, i, j, k - 1);
        let (f, g) = (factor(a, i, k - 1), factor(a, j, k - 1));
        let (u, v) = (factor(c, i, k - 1), factor(c, j, k - 1));
        assert(is_scaled(f, u, row_shift(s, t, i)));
        if j < i {
            assert(is_scaled_row(a, c, s, t, j));
        }
        assert(is_scaled(g, v, row_shift(s, t, j)));
        assert(has_plain_product(f, g));
        assert(has_plain_product(u, v));
        lemma_scaled_mul(f, u, row_shift(s, t, i), g, v, row_shift(s, t, j));
        assert(is_plain(residual(a, i, j, k)));
        assert(is_plain(residual(c, i, j, k)));
        lemma_scaled_sub(
            residual(a, i, j, k - 1),
            residual(c, i, j, k - 1),
            fl_mul(f, g),
            fl_mul(u, v),
            row_shift(s, t, i) + row_shift(s, t, j),
        );
    } else {
        assert(is_scaled(a[i][j], c[i][j], row_shift(s, t, i) + row_shift(s, t, j)));
    }
}

/// A scaled pivot collapses where the other does.
proof fn lemma_scaled_verdict(a: [[Binary64; 6]; 6], c: [[Binary64; 6]; 6], s: int, t: int, i: int)
    requires
        0 <= i < 6,
        is_rescaled(a, c, s, t),
        has_plain_row(a, i),
        has_plain_row(c, i),
        is_scaled(pivot(a, i), pivot(c, i), 2 * row_shift(s, t, i)),
    ensures
        is_collapsed(a, i) == is_collapsed(c, i),
{
    lemma_scaled_blocks(a, c, s, t);
    let k = 2 * row_shift(s, t, i);
    let rtol = fl(PIVOT_RTOL);
    assert(is_scaled(rtol, rtol, 0));
    lemma_scaled_mul(rtol, rtol, 0, pivot_scale(a, i), pivot_scale(c, i), k);
    lemma_scaled_order(
        pivot(a, i),
        pivot(c, i),
        fl_mul(rtol, pivot_scale(a, i)),
        fl_mul(rtol, pivot_scale(c, i)),
        k,
    );
}

/// The diagonal entry of a row whose pivot has not collapsed is scaled.
proof fn lemma_scaled_pivot(a: [[Binary64; 6]; 6], c: [[Binary64; 6]; 6], s: int, t: int, i: int)
    requires
        0 <= i < 6,
        is_rescaled(a, c, s, t),
        has_plain_row(a, i),
        has_plain_row(c, i),
        !fl_le(pivot_scale(a, i), fl(0)),
        !is_collapsed(a, i),
        !is_collapsed(c, i),
        is_scaled(pivot(a, i), pivot(c, i), 2 * row_shift(s, t, i)),
    ensures
        is_scaled(factor(a, i, i), factor(c, i, i), row_shift(s, t, i)),
{
    lemma_scaled_blocks(a, c, s, t);
    let floor = fl_mul(fl(PIVOT_RTOL), pivot_scale(a, i));
    assert(!negative(floor) && !is_zero(floor)) by {
        reveal(fl_mul);
        reveal(fl_le);
    }
    assert(!negative(pivot(a, i)) && !is_zero(pivot(a, i))) by {
        reveal(fl_lt);
    }
    lemma_scaled_sqrt(pivot(a, i), pivot(c, i), row_shift(s, t, i));
}

/// The first collapsed pivot of a system has a collapsed counterpart.
proof fn lemma_first_collapse(a: [[Binary64; 6]; 6], c: [[Binary64; 6]; 6], s: int, t: int, n: int)
    requires
        0 <= n <= 6,
        is_rescaled(a, c, s, t),
        factors_plainly(a),
        factors_plainly(c),
        !fl_le(block_scale(a, 0), fl(0)),
        !fl_le(block_scale(a, 3), fl(0)),
        exists|p: int| 0 <= p < n && #[trigger] is_collapsed(a, p),
    ensures
        exists|p: int| 0 <= p < n && #[trigger] is_collapsed(c, p),
    decreases n,
{
    if exists|p: int| 0 <= p < n - 1 && #[trigger] is_collapsed(a, p) {
        lemma_first_collapse(a, c, s, t, n - 1);
    } else {
        let i = n - 1;
        let p = choose|p: int| 0 <= p < n && #[trigger] is_collapsed(a, p);
        assert(p == i);
        lemma_scaled_rows(a, c, s, t, i);
        assert(has_plain_row(a, i));
        assert(has_plain_row(c, i));
        lemma_scaled_row(a, c, s, t, i, i);
        lemma_scaled_residual(a, c, s, t, i, i, i);
        lemma_scaled_verdict(a, c, s, t, i);
        assert(is_collapsed(c, i));
    }
}

proof fn lemma_scaled_weakest(a: [[Binary64; 6]; 6], c: [[Binary64; 6]; 6], s: int, t: int, n: int)
    requires
        0 <= n <= 6,
        is_rescaled(a, c, s, t),
        forall|p: int|
            0 <= p < n ==> is_scaled(#[trigger] pivot(a, p), pivot(c, p), 2 * row_shift(s, t, p)),
    ensures
        weakest_pivot(a, n) == weakest_pivot(c, n),
    decreases n,
{
    if n > 0 {
        lemma_scaled_weakest(a, c, s, t, n - 1);
        lemma_scaled_blocks(a, c, s, t);
        let i = n - 1;
        lemma_scaled_alike_div(
            pivot(a, i),
            pivot(c, i),
            pivot_scale(a, i),
            pivot_scale(c, i),
            2 * row_shift(s, t, i),
        );
    }
}

proof fn lemma_scaled_forward_rest(
    a: [[Binary64; 6]; 6],
    c: [[Binary64; 6]; 6],
    b: [Binary64; 6],
    d: [Binary64; 6],
    s: int,
    t: int,
    i: int,
    k: int,
)
    requires
        0 <= k <= i < 6,
        forall|p: int| 0 <= p < 6 ==> #[trigger] is_scaled_row(a, c, s, t, p),
        forall|p: int| 0 <= p < 6 ==> is_scaled(#[trigger] b[p], d[p], row_shift(s, t, p)),
        substitutes_plainly(a, b),
        substitutes_plainly(c, d),
    ensures
        is_scaled(forward_rest(a, b, i, k), forward_rest(c, d, i, k), row_shift(s, t, i)),
    decreases i, 0int, k,
{
    if k > 0 {
        lemma_scaled_forward_rest(a, c, b, d, s, t, i, k - 1);
        lemma_scaled_forward(a, c, b, d, s, t, k - 1);
        assert(is_scaled_row(a, c, s, t, i));
        let (f, y) = (factor(a, i, k - 1), forward(a, b, k - 1));
        let (u, z) = (factor(c, i, k - 1), forward(c, d, k - 1));
        assert(has_plain_product(f, y));
        assert(has_plain_product(u, z));
        lemma_scaled_mul(f, u, row_shift(s, t, i), y, z, 0);
        assert(is_plain(forward_rest(a, b, i, k)));
        assert(is_plain(forward_rest(c, d, i, k)));
        lemma_scaled_sub(
            forward_rest(a, b, i, k - 1),
            forward_rest(c, d, i, k - 1),
            fl_mul(f, y),
            fl_mul(u, z),
            row_shift(s, t, i),
        );
    } else {
        assert(is_scaled(b[i], d[i], row_shift(s, t, i)));
    }
}

proof fn lemma_scaled_forward(
    a: [[Binary64; 6]; 6],
    c: [[Binary64; 6]; 6],
    b: [Binary64; 6],
    d: [Binary64; 6],
    s: int,
    t: int,
    i: int,
)
    requires
        0 <= i < 6,
        forall|p: int| 0 <= p < 6 ==> #[trigger] is_scaled_row(a, c, s, t, p),
        forall|p: int| 0 <= p < 6 ==> is_scaled(#[trigger] b[p], d[p], row_shift(s, t, p)),
        substitutes_plainly(a, b),
        substitutes_plainly(c, d),
    ensures
        is_scaled(forward(a, b, i), forward(c, d, i), 0),
    decreases i, 1int, 0int,
{
    lemma_scaled_forward_rest(a, c, b, d, s, t, i, i);
    assert(is_scaled_row(a, c, s, t, i));
    assert(is_scaled(factor(a, i, i), factor(c, i, i), row_shift(s, t, i)));
    lemma_scaled_div(
        forward_rest(a, b, i, i),
        forward_rest(c, d, i, i),
        row_shift(s, t, i),
        factor(a, i, i),
        factor(c, i, i),
        row_shift(s, t, i),
    );
}

proof fn lemma_scaled_backward_rest(
    a: [[Binary64; 6]; 6],
    c: [[Binary64; 6]; 6],
    b: [Binary64; 6],
    d: [Binary64; 6],
    s: int,
    t: int,
    i: int,
    k: int,
)
    requires
        0 <= i < k <= 6,
        forall|p: int| 0 <= p < 6 ==> #[trigger] is_scaled_row(a, c, s, t, p),
        forall|p: int| 0 <= p < 6 ==> is_scaled(#[trigger] b[p], d[p], row_shift(s, t, p)),
        substitutes_plainly(a, b),
        substitutes_plainly(c, d),
    ensures
        is_scaled(backward_rest(a, b, i, k), backward_rest(c, d, i, k), 0),
    decreases 6 - i, 0int, k,
{
    if k > i + 1 {
        lemma_scaled_backward_rest(a, c, b, d, s, t, i, k - 1);
        lemma_scaled_backward(a, c, b, d, s, t, k - 1);
        assert(is_scaled_row(a, c, s, t, k - 1));
        let (f, y) = (factor(a, k - 1, i), backward(a, b, k - 1));
        let (u, z) = (factor(c, k - 1, i), backward(c, d, k - 1));
        assert(has_plain_product(f, y));
        assert(has_plain_product(u, z));
        lemma_scaled_mul(f, u, row_shift(s, t, k - 1), y, z, -row_shift(s, t, k - 1));
        assert(is_plain(backward_rest(a, b, i, k)));
        assert(is_plain(backward_rest(c, d, i, k)));
        lemma_scaled_sub(
            backward_rest(a, b, i, k - 1),
            backward_rest(c, d, i, k - 1),
            fl_mul(f, y),
            fl_mul(u, z),
            0,
        );
    } else {
        lemma_scaled_forward(a, c, b, d, s, t, i);
    }
}

proof fn lemma_scaled_backward(
    a: [[Binary64; 6]; 6],
    c: [[Binary64; 6]; 6],
    b: [Binary64; 6],
    d: [Binary64; 6],
    s: int,
    t: int,
    i: int,
)
    requires
        0 <= i < 6,
        forall|p: int| 0 <= p < 6 ==> #[trigger] is_scaled_row(a, c, s, t, p),
        forall|p: int| 0 <= p < 6 ==> is_scaled(#[trigger] b[p], d[p], row_shift(s, t, p)),
        substitutes_plainly(a, b),
        substitutes_plainly(c, d),
    ensures
        is_scaled(backward(a, b, i), backward(c, d, i), -row_shift(s, t, i)),
    decreases 6 - i, 1int, 0int,
{
    lemma_scaled_backward_rest(a, c, b, d, s, t, i, 6);
    assert(is_scaled_row(a, c, s, t, i));
    assert(is_scaled(factor(a, i, i), factor(c, i, i), row_shift(s, t, i)));
    lemma_scaled_div(
        backward_rest(a, b, i, 6),
        backward_rest(c, d, i, 6),
        0,
        factor(a, i, i),
        factor(c, i, i),
        row_shift(s, t, i),
    );
}

} // verus!
