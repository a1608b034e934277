//! Small dense linear algebra: rotations of space and the guarded Cholesky solve of
//! the normal equations.
use crate::binary64::{
    fl_add, fl_div, fl_le, fl_lt, fl_max, fl_min, fl_mul, fl_neg, fl_sqrt, fl_sub, Binary64,
};
use crate::rounding::INFINITE;
use vstd::prelude::*;

verus! {

/// The encoding of `1.0`.
pub const ONE: u64 = 0x3ff0_0000_0000_0000;

/// The encoding of `0.5`.
pub const ONE_HALF: u64 = 0x3fe0_0000_0000_0000;

/// The encoding of `6.0`.
pub const SIX: u64 = 0x4018_0000_0000_0000;

/// The encoding of `24.0`.
pub const TWENTY_FOUR: u64 = 0x4038_0000_0000_0000;

/// The encoding of `1e-9`, the angle below which a rotation is expanded around zero.
pub const SMALL_ANGLE: u64 = 0x3e11_2e0b_e826_d695;

/// The encoding of `1e-8`: the relative Cholesky pivot threshold of the degeneracy
/// guard.
///
/// A squared pivot below this times the largest diagonal entry of its *block* means
/// that some twist direction is (numerically) unobserved. The rotation rows and the
/// translation rows are held to thresholds of their own: rotational entries scale
/// with the square of the depth while translational ones come from unit normals, so a
/// common threshold would let a collapsed translation pivot pass at large depth.
pub const PIVOT_RTOL: u64 = 0x3e45_798e_e230_8c3a;

/// The number with the given encoding.
pub open spec fn fl(bits: u64) -> Binary64 {
    Binary64 { bits }
}

// ---------------------------------------------------------------------------
// Rotations
// ---------------------------------------------------------------------------

/// The product of row `row` of `m` with `v`, summed from the left.
pub open spec fn row_dot(m: [[Binary64; 3]; 3], row: int, v: [Binary64; 3]) -> Binary64 {
    fl_add(
        fl_add(fl_mul(m[row][0], v[0]), fl_mul(m[row][1], v[1])),
        fl_mul(m[row][2], v[2]),
    )
}

/// Entry `(i, j)` of the product of `a` and `b`, summed from the left.
pub open spec fn product_entry(
    a: [[Binary64; 3]; 3],
    b: [[Binary64; 3]; 3],
    i: int,
    j: int,
) -> Binary64 {
    fl_add(
        fl_add(fl_mul(a[i][0], b[0][j]), fl_mul(a[i][1], b[1][j])),
        fl_mul(a[i][2], b[2][j]),
    )
}

/// The matrix product of `a` and `b`.
pub open spec fn product(a: [[Binary64; 3]; 3], b: [[Binary64; 3]; 3]) -> [[Binary64; 3]; 3] {
    [
        [product_entry(a, b, 0, 0), product_entry(a, b, 0, 1), product_entry(a, b, 0, 2)],
        [product_entry(a, b, 1, 0), product_entry(a, b, 1, 1), product_entry(a, b, 1, 2)],
        [product_entry(a, b, 2, 0), product_entry(a, b, 2, 1), product_entry(a, b, 2, 2)],
    ]
}

/// The squared length of a vector, summed from the left.
pub open spec fn squared_norm(w: [Binary64; 3]) -> Binary64 {
    fl_add(fl_add(fl_mul(w[0], w[0]), fl_mul(w[1], w[1])), fl_mul(w[2], w[2]))
}

/// Whether a rotation vector is so short that its rotation is expanded around zero.
pub open spec fn is_small_angle(w: [Binary64; 3]) -> bool {
    fl_lt(fl_sqrt(squared_norm(w)), fl(SMALL_ANGLE))
}

/// `I + a [w]x + b [w]x^2`, where `[w]x^2 = w w^T - theta2 I`.
pub open spec fn rodrigues(
    w: [Binary64; 3],
    theta2: Binary64,
    a: Binary64,
    b: Binary64,
) -> [[Binary64; 3]; 3] {
    [
        [
            fl_add(fl(ONE), fl_mul(b, fl_sub(fl_mul(w[0], w[0]), theta2))),
            fl_add(fl_mul(fl_neg(a), w[2]), fl_mul(fl_mul(b, w[0]), w[1])),
            fl_add(fl_mul(a, w[1]), fl_mul(fl_mul(b, w[0]), w[2])),
        ],
        [
            fl_add(fl_mul(a, w[2]), fl_mul(fl_mul(b, w[1]), w[0])),
            fl_add(fl(ONE), fl_mul(b, fl_sub(fl_mul(w[1], w[1]), theta2))),
            fl_add(fl_mul(fl_neg(a), w[0]), fl_mul(fl_mul(b, w[1]), w[2])),
        ],
        [
            fl_add(fl_mul(fl_neg(a), w[1]), fl_mul(fl_mul(b, w[2]), w[0])),
            fl_add(fl_mul(a, w[0]), fl_mul(fl_mul(b, w[2]), w[1])),
            fl_add(fl(ONE), fl_mul(b, fl_sub(fl_mul(w[2], w[2]), theta2))),
        ],
    ]
}

/// The rotation by the vector `w`, where `sine` and `cosine` are those of its length.
/// Near zero they are not used.
pub open spec fn rotation_by(
    w: [Binary64; 3],
    sine: Binary64,
    cosine: Binary64,
) -> [[Binary64; 3]; 3] {
    let theta2 = squared_norm(w);
    let theta = fl_sqrt(theta2);
    if is_small_angle(w) {
        rodrigues(
            w,
            theta2,
            fl_sub(fl(ONE), fl_div(theta2, fl(SIX))),
            fl_sub(fl(ONE_HALF), fl_div(theta2, fl(TWENTY_FOUR))),
        )
    } else {
        rodrigues(w, theta2, fl_div(sine, theta), fl_div(fl_sub(fl(ONE), cosine), theta2))
    }
}

/// Whether `f` can be asked about every angle.
pub open spec fn takes_angles<T: Fn(Binary64) -> (Binary64, Binary64)>(f: T) -> bool {
    forall|x: Binary64| #[trigger] call_requires(f, (x,))
}

/// Whether `trig` holds the answers of `f`: sine and cosine of an angle.
pub open spec fn gives_angles<T: Fn(Binary64) -> (Binary64, Binary64)>(
    f: T,
    trig: spec_fn(Binary64) -> (Binary64, Binary64),
) -> bool {
    forall|x: Binary64, r: (Binary64, Binary64)| #[trigger]
        call_ensures(f, (x,), r) ==> r == trig(x)
}

/// The rotation by the vector `w`, where `trig` gives sine and cosine of an angle.
pub open spec fn rotation_exp(
    w: [Binary64; 3],
    trig: spec_fn(Binary64) -> (Binary64, Binary64),
) -> [[Binary64; 3]; 3] {
    let (sine, cosine) = trig(fl_sqrt(squared_norm(w)));
    rotation_by(w, sine, cosine)
}

/// Row `row` of `m` times `v`.
pub fn mat3_row_dot(m: &[[Binary64; 3]; 3], row: usize, v: &[Binary64; 3]) -> (r: Binary64)
    requires
        row < 3,
    ensures
        r == row_dot(*m, row as int, *v),
{
    m[row][0] * v[0] + m[row][1] * v[1] + m[row][2] * v[2]
}

/// The matrix product of `a` and `b`.
pub fn mat3_mul(a: &[[Binary64; 3]; 3], b: &[[Binary64; 3]; 3]) -> (r: [[Binary64; 3]; 3])
    ensures
        r == product(*a, *b),
{
    let mut out: [[Binary64; 3]; 3] = [[Binary64::from_bits(0); 3]; 3];
    let mut i: usize = 0;
    while i < 3
        invariant
            i <= 3,
            forall|p: int, q: int|
                0 <= p < i && 0 <= q < 3 ==> #[trigger] out[p][q] == product_entry(*a, *b, p, q),
        decreases 3 - i,
    {
        let mut j: usize = 0;
        while j < 3
            invariant
                i < 3,
                j <= 3,
                forall|p: int, q: int|
                    0 <= p < i && 0 <= q < 3 ==> #[trigger] out[p][q] == product_entry(
                        *a,
                        *b,
                        p,
                        q,
                    ),
                forall|q: int|
                    0 <= q < j ==> #[trigger] out[i as int][q] == product_entry(
                        *a,
                        *b,
                        i as int,
                        q,
                    ),
            decreases 3 - j,
        {
            out[i][j] = a[i][0] * b[0][j] + a[i][1] * b[1][j] + a[i][2] * b[2][j];
            j = j + 1;
        }
        i = i + 1;
    }
    proof {
        let want = product(*a, *b);
        assert forall|p: int| 0 <= p < 3 implies #[trigger] out[p] == want[p] by {
            assert forall|q: int| 0 <= q < 3 implies #[trigger] out[p][q] == want[p][q] by {}
            assert(out[p] =~= want[p]);
        }
        assert(out =~= want);
    }
    out
}

/// The rotation by the vector `w`, given sine and cosine of its length.
pub fn so3_from_sin_cos(
    w: &[Binary64; 3],
    sine: Binary64,
    cosine: Binary64,
) -> (r: [[Binary64; 3]; 3])
    ensures
        r == rotation_by(*w, sine, cosine),
{
    let theta2: Binary64 = w[0] * w[0] + w[1] * w[1] + w[2] * w[2];
    let theta: Binary64 = theta2.sqrt();
    let one: Binary64 = Binary64::from_bits(ONE);
    let (a, b): (Binary64, Binary64) = if theta.less_than(Binary64::from_bits(SMALL_ANGLE)) {
        (
            one - theta2 / Binary64::from_bits(SIX),
            Binary64::from_bits(ONE_HALF) - theta2 / Binary64::from_bits(TWENTY_FOUR),
        )
    } else {
        (sine / theta, (one - cosine) / theta2)
    };
    let na: Binary64 = a.negated();
    [
        [
            one + b * (w[0] * w[0] - theta2),
            na * w[2] + b * w[0] * w[1],
            a * w[1] + b * w[0] * w[2],
        ],
        [
            a * w[2] + b * w[1] * w[0],
            one + b * (w[1] * w[1] - theta2),
            na * w[0] + b * w[1] * w[2],
        ],
        [
            na * w[1] + b * w[2] * w[0],
            a * w[0] + b * w[2] * w[1],
            one + b * (w[2] * w[2] - theta2),
        ],
    ]
}

/// SO(3) exponential map (Rodrigues): `R = I + a [w]x + b [w]x^2` with
/// `a = sin(t) / t`, `b = (1 - cos(t)) / t^2`, and a Taylor fallback near zero, which
/// does not ask for sine and cosine.
pub fn so3_exp<T: Fn(Binary64) -> (Binary64, Binary64)>(w: &[Binary64; 3], sin_cos: &T) -> (r: [[
    Binary64;
    3
]; 3])
    requires
        takes_angles(*sin_cos),
    ensures
        forall|trig: spec_fn(Binary64) -> (Binary64, Binary64)| #[trigger]
            gives_angles(*sin_cos, trig) ==> r == rotation_exp(*w, trig),
        is_small_angle(*w) ==> forall|sine: Binary64, cosine: Binary64|
            r == #[trigger] rotation_by(*w, sine, cosine),
{
    let theta: Binary64 = (w[0] * w[0] + w[1] * w[1] + w[2] * w[2]).sqrt();
    if theta.less_than(Binary64::from_bits(SMALL_ANGLE)) {
        so3_from_sin_cos(w, theta, theta)
    } else {
        let (sine, cosine): (Binary64, Binary64) = sin_cos(theta);
        so3_from_sin_cos(w, sine, cosine)
    }
}

// ---------------------------------------------------------------------------
// Normal equations
// ---------------------------------------------------------------------------

/// The largest of zero and the three diagonal entries from `first` on.
pub open spec fn block_scale(a: [[Binary64; 6]; 6], first: int) -> Binary64 {
    fl_max(
        fl_max(fl_max(fl(0), a[first][first]), a[first + 1][first + 1]),
        a[first + 2][first + 2],
    )
}

/// The largest diagonal entry of the block that row `i` belongs to: rows 0 to 2 are
/// the rotation, rows 3 to 5 the translation.
pub open spec fn pivot_scale(a: [[Binary64; 6]; 6], i: int) -> Binary64 {
    if i < 3 {
        block_scale(a, 0)
    } else {
        block_scale(a, 3)
    }
}

/// Entry `(i, j)` of the lower triangular Cholesky factor of `a`, for `j <= i`.
pub open spec fn factor(a: [[Binary64; 6]; 6], i: int, j: int) -> Binary64
    decreases j, (if i == j { 1int } else { 2int }), 0int,
{
    if j < 0 {
        fl(0)
    } else if i == j {
        fl_sqrt(residual(a, i, j, j))
    } else {
        fl_div(residual(a, i, j, j), factor(a, j, j))
    }
}

/// Entry `(i, j)` of `a` less the products of the first `k` columns of the factor,
/// subtracted from the left.
pub open spec fn residual(a: [[Binary64; 6]; 6], i: int, j: int, k: int) -> Binary64
    decreases j, 0int, k,
{
    if k <= 0 || k > j {
        a[i][j]
    } else {
        fl_sub(
            residual(a, i, j, k - 1),
            fl_mul(factor(a, i, k - 1), factor(a, j, k - 1)),
        )
    }
}

/// The squared pivot of row `i`.
pub open spec fn pivot(a: [[Binary64; 6]; 6], i: int) -> Binary64 {
    residual(a, i, i, i)
}

/// Whether the squared pivot of row `i` has collapsed relative to its block.
pub open spec fn is_collapsed(a: [[Binary64; 6]; 6], i: int) -> bool {
    fl_lt(pivot(a, i), fl_mul(fl(PIVOT_RTOL), pivot_scale(a, i)))
}

/// Whether the equations leave some direction unobserved: a block without a positive
/// diagonal entry, or a collapsed pivot.
pub open spec fn is_degenerate(a: [[Binary64; 6]; 6]) -> bool {
    ||| fl_le(block_scale(a, 0), fl(0))
    ||| fl_le(block_scale(a, 3), fl(0))
    ||| exists|i: int| 0 <= i < 6 && #[trigger] is_collapsed(a, i)
}

/// The smallest of the first `n` squared pivots, each relative to its block; infinite
/// for none.
pub open spec fn weakest_pivot(a: [[Binary64; 6]; 6], n: int) -> Binary64
    decreases n,
{
    if n <= 0 {
        fl(INFINITE)
    } else {
        fl_min(
            weakest_pivot(a, n - 1),
            fl_div(pivot(a, n - 1), pivot_scale(a, n - 1)),
        )
    }
}

/// Entry `i` of the solution `y` of `L y = b`.
pub open spec fn forward(a: [[Binary64; 6]; 6], b: [Binary64; 6], i: int) -> Binary64
    decreases i, 1int, 0int,
{
    if i < 0 {
        fl(0)
    } else {
        fl_div(forward_rest(a, b, i, i), factor(a, i, i))
    }
}

/// Entry `i` of `b` less the first `k` terms of row `i` of `L y`.
pub open spec fn forward_rest(
    a: [[Binary64; 6]; 6],
    b: [Binary64; 6],
    i: int,
    k: int,
) -> Binary64
    decreases i, 0int, k,
{
    if k <= 0 || k > i {
        b[i]
    } else {
        fl_sub(
            forward_rest(a, b, i, k - 1),
            fl_mul(factor(a, i, k - 1), forward(a, b, k - 1)),
        )
    }
}

/// Entry `i` of the solution `x` of `L^T x = y`.
pub open spec fn backward(a: [[Binary64; 6]; 6], b: [Binary64; 6], i: int) -> Binary64
    decreases 6 - i, 1int, 0int,
{
    if i >= 6 {
        fl(0)
    } else {
        fl_div(backward_rest(a, b, i, 6), factor(a, i, i))
    }
}

/// Entry `i` of `y` less the terms of row `i` of `L^T x` before column `k`.
pub open spec fn backward_rest(
    a: [[Binary64; 6]; 6],
    b: [Binary64; 6],
    i: int,
    k: int,
) -> Binary64
    decreases 6 - i, 0int, k,
{
    if k <= i + 1 || k > 6 || i < 0 {
        forward(a, b, i)
    } else {
        fl_sub(
            backward_rest(a, b, i, k - 1),
            fl_mul(factor(a, k - 1, i), backward(a, b, k - 1)),
        )
    }
}

/// The solution of `a x = b` by forward and backward substitution.
pub open spec fn solution(a: [[Binary64; 6]; 6], b: [Binary64; 6]) -> [Binary64; 6] {
    [
        backward(a, b, 0),
        backward(a, b, 1),
        backward(a, b, 2),
        backward(a, b, 3),
        backward(a, b, 4),
        backward(a, b, 5),
    ]
}

/// What the guarded solve of `a x = b` returns.
pub open spec fn guarded_solution(
    a: [[Binary64; 6]; 6],
    b: [Binary64; 6],
) -> Option<([Binary64; 6], Binary64)> {
    if is_degenerate(a) {
        None
    } else {
        Some((solution(a, b), weakest_pivot(a, 6)))
    }
}

/// The Cholesky factor of `a` and its weakest relative pivot, or `None` where `a`
/// leaves some direction unobserved. Entries above the diagonal are zero.
fn cholesky_factor(a: &[[Binary64; 6]; 6]) -> (r: Option<([[Binary64; 6]; 6], Binary64)>)
    ensures
        r is None <==> is_degenerate(*a),
        r matches Some((l, weakest)) ==> {
            &&& weakest == weakest_pivot(*a, 6)
            &&& forall|i: int, j: int| 0 <= j <= i < 6 ==> #[trigger] l[i][j] == factor(*a, i, j)
        },
{
    let zero: Binary64 = Binary64::from_bits(0);
    let max_diag_rot: Binary64 = zero.max(a[0][0]).max(a[1][1]).max(a[2][2]);
    let max_diag_trans: Binary64 = zero.max(a[3][3]).max(a[4][4]).max(a[5][5]);
    if max_diag_rot.at_most(zero) || max_diag_trans.at_most(zero) {
        return None;
    }
    let rtol: Binary64 = Binary64::from_bits(PIVOT_RTOL);
    let mut weakest: Binary64 = Binary64::from_bits(INFINITE);
    let mut l: [[Binary64; 6]; 6] = [[zero; 6]; 6];
    let mut i: usize = 0;
    while i < 6
        invariant
            i <= 6,
            max_diag_rot == block_scale(*a, 0),
            max_diag_trans == block_scale(*a, 3),
            !fl_le(block_scale(*a, 0), fl(0)),
            !fl_le(block_scale(*a, 3), fl(0)),
            rtol == fl(PIVOT_RTOL),
            weakest == weakest_pivot(*a, i as int),
            forall|p: int| 0 <= p < i ==> !#[trigger] is_collapsed(*a, p),
            forall|p: int, q: int| 0 <= q <= p < i ==> #[trigger] l[p][q] == factor(*a, p, q),
        decreases 6 - i,
    {
        let mut j: usize = 0;
        while j < i
            invariant
                j <= i < 6,
                forall|p: int, q: int| 0 <= q <= p < i ==> #[trigger] l[p][q] == factor(*a, p, q),
                forall|q: int| 0 <= q < j ==> #[trigger] l[i as int][q] == factor(*a, i as int, q),
            decreases i - j,
        {
            let sum: Binary64 = residual_of(a, &l, i, j);
            l[i][j] = sum / l[j][j];
            j = j + 1;
        }
        let sum: Binary64 = residual_of(a, &l, i, i);
        let scale: Binary64 = if i < 3 {
            max_diag_rot
        } else {
            max_diag_trans
        };
        weakest = weakest.min(sum / scale);
        if sum.less_than(rtol * scale) {
            assert(is_collapsed(*a, i as int));
            return None;
        }
        l[i][i] = sum.sqrt();
        i = i + 1;
    }
    Some((l, weakest))
}

/// Entry `(i, j)` of `a` less the products of the columns of the factor before `j`.
fn residual_of(a: &[[Binary64; 6]; 6], l: &[[Binary64; 6]; 6], i: usize, j: usize) -> (r: Binary64)
    requires
        j <= i < 6,
        forall|p: int, q: int| 0 <= q <= p < i ==> #[trigger] l[p][q] == factor(*a, p, q),
        forall|q: int| 0 <= q < j ==> #[trigger] l[i as int][q] == factor(*a, i as int, q),
    ensures
        r == residual(*a, i as int, j as int, j as int),
{
    let mut sum: Binary64 = a[i][j];
    let mut k: usize = 0;
    while k < j
        invariant
            k <= j <= i < 6,
            forall|p: int, q: int| 0 <= q <= p < i ==> #[trigger] l[p][q] == factor(*a, p, q),
            forall|q: int| 0 <= q < j ==> #[trigger] l[i as int][q] == factor(*a, i as int, q),
            sum == residual(*a, i as int, j as int, k as int),
        decreases j - k,
    {
        sum = sum - l[i][k] * l[j][k];
        k = k + 1;
    }
    sum
}

/// Solves the symmetric positive definite system `a x = b` by Cholesky factorisation and
/// reports the weakest pivot relative to its block's largest diagonal entry: how well the
/// least constrained direction is observed. Returns `None` where a squared pivot falls
/// below [`PIVOT_RTOL`] times that entry, or where a block has no positive diagonal
/// entry.
///
/// A view that pins every degree of freedom keeps the reported pivot well above the
/// threshold; a wall that fills the frame drives it toward zero along the sliding
/// direction, where the residual stays perfect while the pose drifts.
pub fn cholesky_solve_6x6(
    a: &[[Binary64; 6]; 6],
    b: &[Binary64; 6],
) -> (r: Option<([Binary64; 6], Binary64)>)
    ensures
        r == guarded_solution(*a, *b),
{
    let (l, weakest): ([[Binary64; 6]; 6], Binary64) = match cholesky_factor(a) {
        Some(f) => f,
        None => {
            return None;
        },
    };
    let zero: Binary64 = Binary64::from_bits(0);
    // L y = b
    let mut y: [Binary64; 6] = [zero; 6];
    let mut i: usize = 0;
    while i < 6
        invariant
            i <= 6,
            forall|p: int, q: int| 0 <= q <= p < 6 ==> #[trigger] l[p][q] == factor(*a, p, q),
            forall|p: int| 0 <= p < i ==> #[trigger] y[p] == forward(*a, *b, p),
        decreases 6 - i,
    {
        let mut sum: Binary64 = b[i];
        let mut k: usize = 0;
        while k < i
            invariant
                k <= i < 6,
                forall|p: int, q: int| 0 <= q <= p < 6 ==> #[trigger] l[p][q] == factor(*a, p, q),
                forall|p: int| 0 <= p < i ==> #[trigger] y[p] == forward(*a, *b, p),
                sum == forward_rest(*a, *b, i as int, k as int),
            decreases i - k,
        {
            sum = sum - l[i][k] * y[k];
            k = k + 1;
        }
        y[i] = sum / l[i][i];
        i = i + 1;
    }
    // L^T x = y
    let mut x: [Binary64; 6] = [zero; 6];
    let mut m: usize = 6;
    while m > 0
        invariant
            m <= 6,
            forall|p: int, q: int| 0 <= q <= p < 6 ==> #[trigger] l[p][q] == factor(*a, p, q),
            forall|p: int| 0 <= p < 6 ==> #[trigger] y[p] == forward(*a, *b, p),
            forall|p: int| m <= p < 6 ==> #[trigger] x[p] == backward(*a, *b, p),
        decreases m,
    {
        let i: usize = m - 1;
        let mut sum: Binary64 = y[i];
        let mut k: usize = i + 1;
        while k < 6
            invariant
                i < k <= 6,
                m == i + 1,
                forall|p: int, q: int| 0 <= q <= p < 6 ==> #[trigger] l[p][q] == factor(*a, p, q),
                forall|p: int| m <= p < 6 ==> #[trigger] x[p] == backward(*a, *b, p),
                sum == backward_rest(*a, *b, i as int, k as int),
            decreases 6 - k,
        {
            sum = sum - l[k][i] * x[k];
            k = k + 1;
        }
        x[i] = sum / l[i][i];
        m = i;
    }
    assert(x =~= solution(*a, *b));
    Some((x, weakest))
}

} // verus!
