//! Binary64 arithmetic carried out on the integer encodings.
//!
//! A [`Binary64`] is the 64-bit encoding of an IEEE 754 double precision number. Each
//! operation returns the number nearest to the exact result, ties to even, so a
//! computation gives the same bits on every machine. Where the result of an arithmetic
//! operation or of a square root is not a number, it is the one encoding [`NOT_A_NUMBER`];
//! negation and absolute value change the sign alone and keep what they are given.
use crate::rounding::{
    bit_len, bit_length, encoded, lemma_bit_len_bounds, lemma_bit_len_unique,
    lemma_nearest_even_exact, lemma_pow2_ordered, lemma_rounded_cancelled, lemma_rounded_shifted,
    power_of_two, round_to_magnitude, rounded, unit_exponent, units, INFINITE,
};
use vstd::arithmetic::div_mod::{
    lemma_basic_div, lemma_div_is_ordered, lemma_div_multiples_vanish, lemma_div_nonincreasing,
    lemma_fundamental_div_mod, lemma_fundamental_div_mod_converse,
};
use vstd::arithmetic::mul::lemma_mul_is_commutative;
use vstd::arithmetic::power2::{
    lemma2_to64, lemma2_to64_rest, lemma_pow2_adds, lemma_pow2_pos, lemma_pow2_unfold, pow2,
};
use vstd::bits::lemma_u128_shr_is_div;
use vstd::prelude::*;

verus! {

/// The sign bit: the encodings from here on are negative.
pub const SIGN: u64 = 0x8000_0000_0000_0000;

/// The encoding of the result of an invalid operation.
pub const NOT_A_NUMBER: u64 = 0x7ff8_0000_0000_0000;

/// A double precision number, held as its encoding.
#[derive(Debug, Clone, Copy)]
pub struct Binary64 {
    /// Sign, exponent and fraction, from the most significant bit down.
    pub bits: u64,
}

/// Whether the sign bit of `x` is set.
pub open spec fn negative(x: Binary64) -> bool {
    x.bits >= SIGN
}

/// The encoding of `x` without its sign bit.
pub open spec fn magnitude(x: Binary64) -> nat {
    if x.bits >= SIGN {
        (x.bits - SIGN) as nat
    } else {
        x.bits as nat
    }
}

/// The number with the given sign and magnitude field.
pub open spec fn signed(neg: bool, mag: nat) -> Binary64 {
    Binary64 {
        bits: if neg {
            (mag + SIGN) as u64
        } else {
            mag as u64
        },
    }
}

/// Whether `x` is not a number.
pub open spec fn is_nan(x: Binary64) -> bool {
    magnitude(x) > INFINITE
}

/// The integer significand of a finite magnitude field.
pub open spec fn significand(mag: nat) -> nat {
    if mag < 0x0010_0000_0000_0000 {
        mag
    } else {
        0x0010_0000_0000_0000 + mag % 0x0010_0000_0000_0000
    }
}

/// The exponent of a finite magnitude field: it encodes `significand * 2^exponent`.
pub open spec fn exponent(mag: nat) -> int {
    if mag < 0x0010_0000_0000_0000 {
        -1074
    } else {
        mag / 0x0010_0000_0000_0000 - 1075
    }
}

/// The exact value of a finite magnitude field in units of `2^e`, for an `e` that is
/// not above its exponent.
pub open spec fn in_units(mag: nat, e: int) -> nat {
    significand(mag) * pow2((exponent(mag) - e) as nat)
}

/// The sum of two finite numbers, given by sign and magnitude field. An exact zero is
/// positive unless both operands are negative.
pub open spec fn finite_sum(a_neg: bool, a: nat, b_neg: bool, b: nat) -> Binary64 {
    let e = if exponent(a) < exponent(b) {
        exponent(a)
    } else {
        exponent(b)
    };
    let x = if a_neg {
        -in_units(a, e)
    } else {
        in_units(a, e) as int
    };
    let y = if b_neg {
        -in_units(b, e)
    } else {
        in_units(b, e) as int
    };
    if x + y == 0 {
        signed(a_neg && b_neg, 0)
    } else if x + y < 0 {
        signed(true, rounded((-(x + y)) as nat, 1, e))
    } else {
        signed(false, rounded((x + y) as nat, 1, e))
    }
}

/// `a + b`.
#[verifier::opaque]
pub open spec fn fl_add(a: Binary64, b: Binary64) -> Binary64 {
    if is_nan(a) || is_nan(b) {
        Binary64 { bits: NOT_A_NUMBER }
    } else if magnitude(a) == INFINITE && magnitude(b) == INFINITE && negative(a) != negative(b) {
        Binary64 { bits: NOT_A_NUMBER }
    } else if magnitude(a) == INFINITE {
        a
    } else if magnitude(b) == INFINITE {
        b
    } else {
        finite_sum(negative(a), magnitude(a), negative(b), magnitude(b))
    }
}

/// `-a`.
#[verifier::opaque]
pub open spec fn fl_neg(a: Binary64) -> Binary64 {
    signed(!negative(a), magnitude(a))
}

/// `|a|`.
#[verifier::opaque]
pub open spec fn fl_abs(a: Binary64) -> Binary64 {
    signed(false, magnitude(a))
}

/// `a - b`.
pub open spec fn fl_sub(a: Binary64, b: Binary64) -> Binary64 {
    fl_add(a, fl_neg(b))
}

/// `a * b`.
#[verifier::opaque]
pub open spec fn fl_mul(a: Binary64, b: Binary64) -> Binary64 {
    let neg = negative(a) != negative(b);
    let x = magnitude(a);
    let y = magnitude(b);
    if is_nan(a) || is_nan(b) {
        Binary64 { bits: NOT_A_NUMBER }
    } else if x == INFINITE || y == INFINITE {
        if x == 0 || y == 0 {
            Binary64 { bits: NOT_A_NUMBER }
        } else {
            signed(neg, INFINITE as nat)
        }
    } else if x == 0 || y == 0 {
        signed(neg, 0)
    } else {
        signed(neg, rounded(significand(x) * significand(y), 1, exponent(x) + exponent(y)))
    }
}

/// `a / b`.
#[verifier::opaque]
pub open spec fn fl_div(a: Binary64, b: Binary64) -> Binary64 {
    let neg = negative(a) != negative(b);
    let x = magnitude(a);
    let y = magnitude(b);
    if is_nan(a) || is_nan(b) {
        Binary64 { bits: NOT_A_NUMBER }
    } else if (x == INFINITE && y == INFINITE) || (x == 0 && y == 0) {
        Binary64 { bits: NOT_A_NUMBER }
    } else if x == INFINITE || y == 0 {
        signed(neg, INFINITE as nat)
    } else if x == 0 || y == INFINITE {
        signed(neg, 0)
    } else {
        signed(
            neg,
            rounded(significand(x) * pow2(128), significand(y), exponent(x) - exponent(y) - 128),
        )
    }
}

/// The largest natural number whose square does not exceed `y`.
pub open spec fn floor_root(y: nat) -> nat {
    choose|s: nat| #[trigger] (s * s) <= y < (s + 1) * (s + 1)
}

/// The natural number nearest to the square root of `y`.
pub open spec fn nearest_root(y: nat) -> nat {
    let s = floor_root(y);
    if y > s * s + s {
        s + 1
    } else {
        s
    }
}

/// The exponent of the unit in the last place at which the square root of `s * 2^e`
/// has 53 significant bits.
pub open spec fn root_exponent(s: nat, e: int) -> int {
    (e + bit_len(s) - 1) / 2 - 52
}

/// The square root of `a`.
#[verifier::opaque]
pub open spec fn fl_sqrt(a: Binary64) -> Binary64 {
    let x = magnitude(a);
    if is_nan(a) {
        Binary64 { bits: NOT_A_NUMBER }
    } else if x == 0 {
        a
    } else if negative(a) {
        Binary64 { bits: NOT_A_NUMBER }
    } else if x == INFINITE {
        a
    } else {
        let s = significand(x);
        let u = root_exponent(s, exponent(x));
        signed(false, encoded(nearest_root(s * pow2((exponent(x) - 2 * u) as nat)), u))
    }
}

/// The place of a number in the order of all numbers; both zeros share theirs.
pub open spec fn order(a: Binary64) -> int {
    if negative(a) {
        -magnitude(a)
    } else {
        magnitude(a) as int
    }
}

/// `a < b`, false where either is not a number.
#[verifier::opaque]
pub open spec fn fl_lt(a: Binary64, b: Binary64) -> bool {
    !is_nan(a) && !is_nan(b) && order(a) < order(b)
}

/// `a <= b`, false where either is not a number.
#[verifier::opaque]
pub open spec fn fl_le(a: Binary64, b: Binary64) -> bool {
    !is_nan(a) && !is_nan(b) && order(a) <= order(b)
}

/// The larger of `a` and `b`, or the other one where one is not a number.
pub open spec fn fl_max(a: Binary64, b: Binary64) -> Binary64 {
    if is_nan(a) || fl_lt(a, b) {
        b
    } else {
        a
    }
}

/// The smaller of `a` and `b`, or the other one where one is not a number.
pub open spec fn fl_min(a: Binary64, b: Binary64) -> Binary64 {
    if is_nan(a) || fl_lt(b, a) {
        b
    } else {
        a
    }
}

/// The number nearest to the natural number `n`.
#[verifier::opaque]
pub open spec fn fl_of(n: nat) -> Binary64 {
    if n == 0 {
        Binary64 { bits: 0 }
    } else {
        signed(false, rounded(n, 1, 0))
    }
}

/// The integer nearest to `a`, halves away from zero.
#[verifier::opaque]
pub open spec fn fl_round(a: Binary64) -> Binary64 {
    let x = magnitude(a);
    if is_nan(a) {
        Binary64 { bits: NOT_A_NUMBER }
    } else if x == INFINITE || exponent(x) >= 0 {
        a
    } else {
        let k = (-exponent(x)) as nat;
        let t = (2 * significand(x) + pow2(k)) / pow2(k + 1);
        if t == 0 {
            signed(negative(a), 0)
        } else {
            signed(negative(a), rounded(t, 1, 0))
        }
    }
}

/// The integer part of `a`, held between zero and `usize::MAX`; zero where `a` is not
/// a number.
#[verifier::opaque]
pub open spec fn fl_index(a: Binary64) -> nat {
    let x = magnitude(a);
    if is_nan(a) || negative(a) {
        0
    } else if x == INFINITE {
        usize::MAX as nat
    } else {
        let t = if exponent(x) >= 0 {
            significand(x) * pow2(exponent(x) as nat)
        } else {
            significand(x) / pow2((-exponent(x)) as nat)
        };
        if t > usize::MAX {
            usize::MAX as nat
        } else {
            t
        }
    }
}

/// A single precision number, held as its encoding.
#[derive(Debug, Clone, Copy)]
pub struct Binary32 {
    /// Sign, exponent and fraction, from the most significant bit down.
    pub bits: u32,
}

/// The double precision number of the same value.
#[verifier::opaque]
pub open spec fn fl_widen(a: Binary32) -> Binary64 {
    let neg = a.bits >= 0x8000_0000;
    let mag = (if neg {
        a.bits - 0x8000_0000
    } else {
        a.bits as int
    }) as nat;
    if mag > 0x7f80_0000 {
        Binary64 { bits: NOT_A_NUMBER }
    } else if mag == 0x7f80_0000 {
        signed(neg, INFINITE as nat)
    } else if mag == 0 {
        signed(neg, 0)
    } else if mag < 0x0080_0000 {
        signed(neg, rounded(mag, 1, -149))
    } else {
        signed(neg, rounded(0x0080_0000 + mag % 0x0080_0000, 1, mag / 0x0080_0000 - 150))
    }
}

/// A finite magnitude field has at most 53 significant bits, and its exponent lies
/// between those of the smallest and the largest number.
pub proof fn lemma_fields(mag: nat)
    requires
        mag < INFINITE,
    ensures
        significand(mag) < 0x0020_0000_0000_0000,
        -1074 <= exponent(mag) <= 971,
        exponent(mag) > -1074 ==> significand(mag) >= 0x0010_0000_0000_0000,
        mag > 0 <==> significand(mag) > 0,
        mag == (exponent(mag) + 1074) * 0x0010_0000_0000_0000 + significand(mag),
{
}

/// Magnitude fields are ordered as exponents, then as significands.
pub proof fn lemma_fields_ordered(a: nat, b: nat)
    requires
        b <= a < INFINITE,
    ensures
        exponent(b) <= exponent(a),
        exponent(b) == exponent(a) ==> significand(b) <= significand(a),
{
    lemma_fields(a);
    lemma_fields(b);
}

/// Sums do not depend on the order of their operands.
proof fn lemma_finite_sum_commutes(a_neg: bool, a: nat, b_neg: bool, b: nat)
    ensures
        finite_sum(a_neg, a, b_neg, b) == finite_sum(b_neg, b, a_neg, a),
{
}

/// The exponent of the unit that a value is counted in can be moved into its
/// denominator.
proof fn lemma_rounded_over_power(n: nat, j: int, g: nat)
    requires
        n >= pow2(g),
    ensures
        rounded(n, pow2(g), j + g) == rounded(n, 1, j),
{
    lemma_pow2_pos(g);
    lemma_rounded_shifted(n, pow2(g), j + g, g);
    lemma_rounded_cancelled(n, 1, j, pow2(g));
}

/// A count of units with 53 significant bits is read back from its encoding.
proof fn lemma_encoded_fields(count: nat, e: int)
    requires
        0x0010_0000_0000_0000 <= count < 0x0020_0000_0000_0000,
        -1074 <= e <= 970,
    ensures
        encoded(count, e) < INFINITE,
        significand(encoded(count, e)) == count,
        exponent(encoded(count, e)) == e,
{
}

/// Counts up to `2^53` are numbers of their own: they are read back unchanged.
pub proof fn lemma_count_exact(n: nat)
    requires
        n <= 0x0020_0000_0000_0000,
    ensures
        !is_nan(fl_of(n)),
        !negative(fl_of(n)),
        magnitude(fl_of(n)) < INFINITE,
        exponent(magnitude(fl_of(n))) >= 0 ==> significand(magnitude(fl_of(n))) * pow2(
            exponent(magnitude(fl_of(n))) as nat,
        ) == n,
        exponent(magnitude(fl_of(n))) < 0 ==> significand(magnitude(fl_of(n))) == n * pow2(
            (-exponent(magnitude(fl_of(n)))) as nat,
        ),
{
    reveal(fl_of);
    lemma2_to64();
    lemma2_to64_rest();
    if n == 0 {
        assert(0 * pow2(1074) == 0);
    } else if n == 0x0020_0000_0000_0000 {
        assert(bit_len(n) == 54) by {
            lemma_bit_len_unique(n, 53);
        }
        assert(n / 1 == n);
        assert(1 * pow2(1) == 2);
        assert(rounded(n, 1, 0) == encoded(0x0010_0000_0000_0000, 1));
        lemma_encoded_fields(0x0010_0000_0000_0000, 1);
    } else {
        lemma_bit_len_bounds(n);
        let len = bit_len(n);
        if len > 53 {
            lemma_pow2_ordered(53, (len - 1) as nat);
        }
        let k = (53 - len) as nat;
        lemma_pow2_adds(len, k);
        lemma_pow2_adds((len - 1) as nat, k);
        lemma_pow2_pos(k);
        let c = n * pow2(k);
        assert(0x0010_0000_0000_0000 <= c < 0x0020_0000_0000_0000) by (nonlinear_arith)
            requires
                c == n * pow2(k),
                pow2((len - 1) as nat) <= n < pow2(len),
                pow2((len - 1) as nat) * pow2(k) == 0x0010_0000_0000_0000,
                pow2(len) * pow2(k) == 0x0020_0000_0000_0000,
                pow2(k) > 0,
        ;
        assert(n / 1 == n);
        assert(unit_exponent(n, 1, 0) == -k);
        assert(units(n, 1, 0, -(k as int)) == c) by {
            lemma_nearest_even_exact(c, 1);
            assert(c * 1 == c);
            if k == 0 {
                assert(n * pow2(0) == n) by (nonlinear_arith)
                    requires
                        pow2(0) == 1,
                ;
            }
        }
        lemma_encoded_fields(c, -(k as int));
        if k == 0 {
            assert(n * pow2(0) == n) by (nonlinear_arith)
                requires
                    pow2(0) == 1,
            ;
            assert(c * pow2(0) == c) by (nonlinear_arith)
                requires
                    pow2(0) == 1,
            ;
        }
    }
}

/// A number that does not exceed the count `n` has an index that does not exceed it.
pub proof fn lemma_index_within(a: Binary64, n: nat)
    requires
        n <= 0x0020_0000_0000_0000,
        n <= usize::MAX,
        !fl_lt(fl_of(n), a),
    ensures
        fl_index(a) <= n,
{
    reveal(fl_index);
    reveal(fl_lt);
    let limit = fl_of(n);
    lemma_count_exact(n);
    if !is_nan(a) && !negative(a) {
        let x = magnitude(a);
        let y = magnitude(limit);
        lemma_fields_ordered(y, x);
        lemma_fields(x);
        lemma_fields(y);
        let (sx, ex) = (significand(x), exponent(x));
        let (sy, ey) = (significand(y), exponent(y));
        if ex >= 0 {
            let p = pow2(ex as nat);
            let q = pow2(ey as nat);
            lemma_pow2_pos(ex as nat);
            lemma_pow2_ordered(ex as nat, ey as nat);
            if ex < ey {
                lemma_pow2_ordered((ex + 1) as nat, ey as nat);
                lemma_pow2_unfold((ex + 1) as nat);
                assert(sx * p <= sy * q) by (nonlinear_arith)
                    requires
                        sx <= 2 * sy,
                        2 * p <= q,
                        p > 0,
                        sy >= 0,
                ;
            } else {
                assert(sx * p <= sy * q) by (nonlinear_arith)
                    requires
                        sx <= sy,
                        p == q,
                        p > 0,
                ;
            }
        } else {
            let p = pow2((-ex) as nat);
            lemma_pow2_pos((-ex) as nat);
            if ey >= 0 {
                // below one half of the limit, whose significand is full
                lemma_pow2_pos(ey as nat);
                lemma_pow2_ordered(1, (-ex) as nat);
                lemma2_to64();
                assert(sx <= n * p) by (nonlinear_arith)
                    requires
                        sx <= 2 * sy,
                        n == sy * pow2(ey as nat),
                        pow2(ey as nat) >= 1,
                        p >= 2,
                ;
            } else {
                let q = pow2((-ey) as nat);
                lemma_pow2_pos((-ey) as nat);
                if ex < ey {
                    lemma_pow2_ordered((-ey + 1) as nat, (-ex) as nat);
                    lemma_pow2_unfold((-ey + 1) as nat);
                    assert(sx <= n * p) by (nonlinear_arith)
                        requires
                            sx <= 2 * sy,
                            sy == n * q,
                            2 * q <= p,
                    ;
                }
            }
            lemma_div_is_ordered(sx as int, (n * p) as int, p as int);
            lemma_div_multiples_vanish(n as int, p as int);
            lemma_mul_is_commutative(n as int, p as int);
        }
    }
}

/// The sign bit of a number.
fn sign_of(x: Binary64) -> (neg: bool)
    ensures
        neg == negative(x),
{
    x.bits >= SIGN
}

/// The encoding of a number without its sign bit.
fn magnitude_of(x: Binary64) -> (mag: u64)
    ensures
        mag == magnitude(x),
        mag < SIGN,
{
    if x.bits >= SIGN {
        x.bits - SIGN
    } else {
        x.bits
    }
}

/// The number with a given sign and magnitude field.
fn with_sign(neg: bool, mag: u64) -> (x: Binary64)
    requires
        mag < SIGN,
    ensures
        x == signed(neg, mag as nat),
{
    if neg {
        Binary64 { bits: mag + SIGN }
    } else {
        Binary64 { bits: mag }
    }
}

/// Significand and exponent of a finite magnitude field.
fn fields_of(mag: u64) -> (f: (u64, i32))
    requires
        mag < INFINITE,
    ensures
        f.0 == significand(mag as nat),
        f.1 == exponent(mag as nat),
{
    if mag < 0x0010_0000_0000_0000 {
        (mag, -1074)
    } else {
        let e: u64 = mag / 0x0010_0000_0000_0000;
        (0x0010_0000_0000_0000 + mag % 0x0010_0000_0000_0000, e as i32 - 1075)
    }
}

/// The sum of two finite numbers, the larger magnitude first.
fn ordered_sum(a_neg: bool, a: u64, b_neg: bool, b: u64) -> (r: Binary64)
    requires
        b <= a < INFINITE,
    ensures
        r == finite_sum(a_neg, a as nat, b_neg, b as nat),
{
    let (sa, ea): (u64, i32) = fields_of(a);
    let (sb, eb): (u64, i32) = fields_of(b);
    proof {
        lemma_fields(a as nat);
        lemma_fields(b as nat);
        lemma_fields_ordered(a as nat, b as nat);
        lemma2_to64();
        lemma2_to64_rest();
    }
    let gap: u32 = (ea - eb) as u32;
    let ghost big = (sa * pow2(gap as nat)) as nat;
    let ghost n = if a_neg == b_neg {
        big + sb
    } else {
        big - sb
    };
    assert(in_units(b as nat, eb as int) == sb) by {
        assert(sb * pow2(0) == sb) by (nonlinear_arith)
            requires
                pow2(0) == 1,
        ;
    }
    assert(big >= sb) by {
        lemma_pow2_pos(gap as nat);
        if gap == 0 {
            assert(sa * pow2(0) == sa) by (nonlinear_arith)
                requires
                    pow2(0) == 1,
            ;
        } else {
            lemma_pow2_ordered(1, gap as nat);
            assert(sa * pow2(gap as nat) >= sa * 2) by (nonlinear_arith)
                requires
                    pow2(gap as nat) >= 2,
            ;
        }
    }
    if gap <= 64 {
        let p: u128 = power_of_two(gap);
        proof {
            lemma_pow2_ordered(gap as nat, 64);
            assert(sa * p <= 0x0020_0000_0000_0000 * 0x1_0000_0000_0000_0000) by (nonlinear_arith)
                requires
                    sa <= 0x0020_0000_0000_0000,
                    p <= 0x1_0000_0000_0000_0000,
            ;
        }
        let aligned: u128 = (sa as u128) * p;
        if a_neg == b_neg {
            let q: u128 = aligned + (sb as u128);
            if q == 0 {
                with_sign(a_neg, 0)
            } else {
                let mag: u64 = round_to_magnitude(q, false, eb, Ghost(q as nat), Ghost(1));
                with_sign(a_neg, mag)
            }
        } else {
            let q: u128 = aligned - (sb as u128);
            if q == 0 {
                with_sign(false, 0)
            } else {
                let mag: u64 = round_to_magnitude(q, false, eb, Ghost(q as nat), Ghost(1));
                with_sign(a_neg, mag)
            }
        }
    } else {
        let ghost g = (gap - 3) as nat;
        let ghost d = pow2(g);
        let eight: u128 = (sa as u128) * 8;
        let sticky: bool = sb != 0;
        let q: u128 = if a_neg != b_neg && sticky {
            eight - 1
        } else {
            eight
        };
        proof {
            lemma_pow2_ordered(53, g);
            lemma_pow2_adds(3, g);
            assert(big == eight * d) by (nonlinear_arith)
                requires
                    big == sa * pow2(gap as nat),
                    pow2(gap as nat) == 8 * d,
                    eight == sa * 8,
            ;
            let rest: int = if a_neg == b_neg {
                sb as int
            } else if sb == 0 {
                0
            } else {
                d - sb
            };
            assert(n == q * d + rest) by (nonlinear_arith)
                requires
                    big == eight * d,
                    a_neg == b_neg ==> n == big + sb && q == eight && rest == sb,
                    a_neg != b_neg && sb == 0 ==> n == big - sb && q == eight && rest == 0,
                    a_neg != b_neg && sb != 0 ==> n == big - sb && q == eight - 1 && rest == d
                        - sb,
            ;
            lemma_fundamental_div_mod_converse(n as int, d as int, q as int, rest);
            assert(n >= d) by (nonlinear_arith)
                requires
                    n == q * d + rest,
                    rest >= 0,
                    q >= 1,
                    d > 0,
            ;
            lemma_rounded_over_power(n as nat, eb as int, g);
        }
        let mag: u64 = round_to_magnitude(
            q,
            sticky,
            ea - 3,
            Ghost(n as nat),
            Ghost(d),
        );
        with_sign(a_neg, mag)
    }
}

impl std::ops::Add for Binary64 {
    type Output = Binary64;

    fn add(self, rhs: Binary64) -> (r: Binary64) {
        proof {
            reveal(fl_add);
        }
        let a: u64 = magnitude_of(self);
        let b: u64 = magnitude_of(rhs);
        let a_neg: bool = sign_of(self);
        let b_neg: bool = sign_of(rhs);
        if a > INFINITE || b > INFINITE {
            Binary64 { bits: NOT_A_NUMBER }
        } else if a == INFINITE {
            if b == INFINITE && a_neg != b_neg {
                Binary64 { bits: NOT_A_NUMBER }
            } else {
                self
            }
        } else if b == INFINITE {
            rhs
        } else if a >= b {
            ordered_sum(a_neg, a, b_neg, b)
        } else {
            proof {
                lemma_finite_sum_commutes(a_neg, a as nat, b_neg, b as nat);
            }
            ordered_sum(b_neg, b, a_neg, a)
        }
    }
}

impl vstd::std_specs::ops::AddSpecImpl for Binary64 {
    open spec fn obeys_add_spec() -> bool {
        true
    }

    open spec fn add_req(self, rhs: Binary64) -> bool {
        true
    }

    open spec fn add_spec(self, rhs: Binary64) -> Binary64 {
        fl_add(self, rhs)
    }
}

/// The square root between two neighbouring natural numbers is unique.
proof fn lemma_floor_root(y: nat, s: nat)
    requires
        s * s <= y < (s + 1) * (s + 1),
    ensures
        floor_root(y) == s,
{
    let t = floor_root(y);
    assert(t * t <= y < (t + 1) * (t + 1));
    assert(t == s) by (nonlinear_arith)
        requires
            t * t <= y,
            y < (t + 1) * (t + 1),
            s * s <= y,
            y < (s + 1) * (s + 1),
    {
        if t < s {
            assert((t + 1) * (t + 1) <= s * s);
        } else if s < t {
            assert((s + 1) * (s + 1) <= t * t);
        }
    }
}

/// The square root, rounded down, of a number with at most 106 bits.
fn integer_root(y: u128) -> (s: u64)
    requires
        y < 0x0020_0000_0000_0000u128 * 0x0020_0000_0000_0000u128,
    ensures
        s == floor_root(y as nat),
        s < 0x0020_0000_0000_0000,
        s as nat * s as nat <= y < (s + 1) * (s + 1),
{
    let mut s: u64 = 0;
    let mut w: u64 = 0x0020_0000_0000_0000;
    let mut left: u32 = 53;
    proof {
        lemma2_to64_rest();
    }
    while left > 0
        invariant
            left <= 53,
            w == pow2(left as nat),
            s + w <= 0x0020_0000_0000_0000,
            s as nat * s as nat <= y < (s + w) * (s + w),
        decreases left,
    {
        proof {
            lemma_pow2_unfold(left as nat);
        }
        let half: u64 = w / 2;
        let t: u64 = s + half;
        proof {
            assert(t * t <= 0x0020_0000_0000_0000 * 0x0020_0000_0000_0000) by (nonlinear_arith)
                requires
                    0 <= t <= 0x0020_0000_0000_0000,
            ;
        }
        if (t as u128) * (t as u128) <= y {
            s = t;
        }
        w = half;
        left = left - 1;
    }
    proof {
        lemma2_to64();
        lemma_floor_root(y as nat, s as nat);
    }
    s
}

impl Binary64 {
    /// The number with a given encoding.
    pub fn from_bits(bits: u64) -> (r: Binary64)
        ensures
            r == (Binary64 { bits }),
    {
        Binary64 { bits }
    }

    /// Whether this is not a number.
    pub fn is_nan(self) -> (r: bool)
        ensures
            r == is_nan(self),
    {
        magnitude_of(self) > INFINITE
    }

    /// The number without its sign.
    pub fn abs(self) -> (r: Binary64)
        ensures
            r == fl_abs(self),
    {
        proof {
            reveal(fl_abs);
        }
        with_sign(false, magnitude_of(self))
    }

    /// The square root.
    pub fn sqrt(self) -> (r: Binary64)
        ensures
            r == fl_sqrt(self),
    {
        proof {
            reveal(fl_sqrt);
        }
        let x: u64 = magnitude_of(self);
        if x > INFINITE {
            Binary64 { bits: NOT_A_NUMBER }
        } else if x == 0 {
            self
        } else if sign_of(self) {
            Binary64 { bits: NOT_A_NUMBER }
        } else if x == INFINITE {
            self
        } else {
            let (s, e): (u64, i32) = fields_of(x);
            proof {
                lemma_fields(x as nat);
            }
            let len: u32 = bit_length(s as u128);
            proof {
                lemma_bit_len_bounds(s as nat);
                lemma2_to64_rest();
                if len > 53 {
                    lemma_pow2_ordered(53, (len - 1) as nat);
                }
            }
            // shifted to be positive, so that the division rounds down
            let u: i32 = (e + (len as i32) - 1 + 2000) / 2 - 1052;
            let k: u32 = (e - 2 * u) as u32;
            assert(105 - len <= k <= 106 - len);
            let p: u128 = power_of_two(k);
            proof {
                lemma_pow2_adds(len as nat, k as nat);
                lemma_pow2_ordered((len + k) as nat, 106);
                lemma_pow2_adds(53, 53);
                lemma_pow2_pos(k as nat);
                assert(s * p < pow2(106)) by (nonlinear_arith)
                    requires
                        s < pow2(len as nat),
                        pow2(len as nat) * p <= pow2(106),
                        p > 0,
                ;
            }
            let y: u128 = (s as u128) * p;
            let root: u64 = integer_root(y);
            proof {
                assert(root * root + root < 0x0020_0000_0000_0000 * 0x0020_0000_0000_0000)
                    by (nonlinear_arith)
                    requires
                        0 <= root < 0x0020_0000_0000_0000,
                ;
            }
            let square: u128 = (root as u128) * (root as u128);
            let count: u64 = if y > square + (root as u128) {
                root + 1
            } else {
                root
            };
            let mag: u64 = ((u + 1074) as u64) * 0x0010_0000_0000_0000 + count;
            with_sign(false, mag)
        }
    }

    /// `self < rhs`, false where either is not a number.
    pub fn less_than(self, rhs: Binary64) -> (r: bool)
        ensures
            r == fl_lt(self, rhs),
    {
        proof {
            reveal(fl_lt);
        }
        let a: u64 = magnitude_of(self);
        let b: u64 = magnitude_of(rhs);
        if a > INFINITE || b > INFINITE {
            false
        } else if sign_of(self) {
            if sign_of(rhs) {
                b < a
            } else {
                a > 0 || b > 0
            }
        } else {
            !sign_of(rhs) && a < b
        }
    }

    /// `self <= rhs`, false where either is not a number.
    pub fn at_most(self, rhs: Binary64) -> (r: bool)
        ensures
            r == fl_le(self, rhs),
    {
        proof {
            reveal(fl_le);
            reveal(fl_lt);
        }
        !self.is_nan() && !rhs.is_nan() && !rhs.less_than(self)
    }

    /// The larger of two numbers.
    pub fn max(self, rhs: Binary64) -> (r: Binary64)
        ensures
            r == fl_max(self, rhs),
    {
        if self.is_nan() || self.less_than(rhs) {
            rhs
        } else {
            self
        }
    }

    /// The smaller of two numbers.
    pub fn min(self, rhs: Binary64) -> (r: Binary64)
        ensures
            r == fl_min(self, rhs),
    {
        if self.is_nan() || rhs.less_than(self) {
            rhs
        } else {
            self
        }
    }

    /// The number nearest to `n`.
    pub fn of_count(n: usize) -> (r: Binary64)
        ensures
            r == fl_of(n as nat),
    {
        proof {
            reveal(fl_of);
        }
        if n == 0 {
            Binary64 { bits: 0 }
        } else {
            let mag: u64 = round_to_magnitude(n as u128, false, 0, Ghost(n as nat), Ghost(1));
            with_sign(false, mag)
        }
    }

    /// The nearest integer, halves away from zero.
    pub fn round(self) -> (r: Binary64)
        ensures
            r == fl_round(self),
    {
        proof {
            reveal(fl_round);
        }
        let x: u64 = magnitude_of(self);
        if x > INFINITE {
            return Binary64 { bits: NOT_A_NUMBER };
        }
        if x == INFINITE {
            return self;
        }
        let (s, e): (u64, i32) = fields_of(x);
        proof {
            lemma_fields(x as nat);
        }
        if e >= 0 {
            return self;
        }
        let k: u32 = (-e) as u32;
        let neg: bool = sign_of(self);
        if k > 54 {
            proof {
                lemma2_to64_rest();
                lemma_pow2_ordered(54, k as nat);
                lemma_pow2_unfold((k + 1) as nat);
                lemma_basic_div((2 * s + pow2(k as nat)) as int, pow2((k + 1) as nat) as int);
            }
            return with_sign(neg, 0);
        }
        proof {
            lemma2_to64_rest();
            lemma_pow2_ordered(k as nat, 54);
        }
        let half: u128 = power_of_two(k);
        let sum: u128 = 2 * (s as u128) + half;
        let t: u128 = sum >> ((k + 1) as u128);
        proof {
            lemma_u128_shr_is_div(sum, (k + 1) as u128);
            lemma_pow2_pos((k + 1) as nat);
            lemma_div_nonincreasing(sum as int, pow2((k + 1) as nat) as int);
        }
        if t == 0 {
            with_sign(neg, 0)
        } else {
            let mag: u64 = round_to_magnitude(t, false, 0, Ghost(t as nat), Ghost(1));
            with_sign(neg, mag)
        }
    }

    /// The integer part as an index, held between zero and `usize::MAX`; zero where
    /// this is not a number.
    pub fn to_index(self) -> (r: usize)
        ensures
            r == fl_index(self),
    {
        proof {
            reveal(fl_index);
        }
        let x: u64 = magnitude_of(self);
        if x > INFINITE || sign_of(self) {
            return 0;
        }
        if x == INFINITE {
            return usize::MAX;
        }
        let (s, e): (u64, i32) = fields_of(x);
        proof {
            lemma_fields(x as nat);
            lemma2_to64();
            lemma2_to64_rest();
        }
        let t: u128 = if e >= 12 {
            proof {
                lemma_pow2_ordered(12, e as nat);
                assert(s * pow2(e as nat) >= 0x1_0000_0000_0000_0000) by (nonlinear_arith)
                    requires
                        s >= 0x0010_0000_0000_0000,
                        pow2(e as nat) >= 4096,
                ;
            }
            return usize::MAX;
        } else if e >= 0 {
            let p: u128 = power_of_two(e as u32);
            proof {
                lemma_pow2_ordered(e as nat, 12);
                assert(s * p <= 0x0020_0000_0000_0000 * 4096) by (nonlinear_arith)
                    requires
                        s <= 0x0020_0000_0000_0000,
                        p <= 4096,
                ;
            }
            (s as u128) * p
        } else if e < -64 {
            proof {
                lemma_pow2_ordered(64, (-e) as nat);
                lemma_basic_div(s as int, pow2((-e) as nat) as int);
            }
            0
        } else {
            proof {
                lemma_u128_shr_is_div(s as u128, (-e) as u128);
            }
            (s as u128) >> ((-e) as u128)
        };
        if t > usize::MAX as u128 {
            usize::MAX
        } else {
            t as usize
        }
    }

    /// The number with the opposite sign.
    pub fn negated(self) -> (r: Binary64)
        ensures
            r == fl_neg(self),
    {
        proof {
            reveal(fl_neg);
        }
        with_sign(!sign_of(self), magnitude_of(self))
    }
}

impl std::ops::Sub for Binary64 {
    type Output = Binary64;

    fn sub(self, rhs: Binary64) -> (r: Binary64) {
        self + rhs.negated()
    }
}

impl vstd::std_specs::ops::SubSpecImpl for Binary64 {
    open spec fn obeys_sub_spec() -> bool {
        true
    }

    open spec fn sub_req(self, rhs: Binary64) -> bool {
        true
    }

    open spec fn sub_spec(self, rhs: Binary64) -> Binary64 {
        fl_sub(self, rhs)
    }
}

impl std::ops::Mul for Binary64 {
    type Output = Binary64;

    fn mul(self, rhs: Binary64) -> (r: Binary64) {
        proof {
            reveal(fl_mul);
        }
        let x: u64 = magnitude_of(self);
        let y: u64 = magnitude_of(rhs);
        let neg: bool = sign_of(self) != sign_of(rhs);
        if x > INFINITE || y > INFINITE {
            Binary64 { bits: NOT_A_NUMBER }
        } else if x == INFINITE || y == INFINITE {
            if x == 0 || y == 0 {
                Binary64 { bits: NOT_A_NUMBER }
            } else {
                with_sign(neg, INFINITE)
            }
        } else if x == 0 || y == 0 {
            with_sign(neg, 0)
        } else {
            let (sx, ex): (u64, i32) = fields_of(x);
            let (sy, ey): (u64, i32) = fields_of(y);
            proof {
                lemma_fields(x as nat);
                lemma_fields(y as nat);
                assert(0 < sx * sy < 0x0020_0000_0000_0000 * 0x0020_0000_0000_0000)
                    by (nonlinear_arith)
                    requires
                        0 < sx < 0x0020_0000_0000_0000,
                        0 < sy < 0x0020_0000_0000_0000,
                ;
            }
            let q: u128 = (sx as u128) * (sy as u128);
            let mag: u64 = round_to_magnitude(q, false, ex + ey, Ghost(q as nat), Ghost(1));
            with_sign(neg, mag)
        }
    }
}

impl vstd::std_specs::ops::MulSpecImpl for Binary64 {
    open spec fn obeys_mul_spec() -> bool {
        true
    }

    open spec fn mul_req(self, rhs: Binary64) -> bool {
        true
    }

    open spec fn mul_spec(self, rhs: Binary64) -> Binary64 {
        fl_mul(self, rhs)
    }
}

impl std::ops::Div for Binary64 {
    type Output = Binary64;

    fn div(self, rhs: Binary64) -> (r: Binary64) {
        proof {
            reveal(fl_div);
        }
        let x: u64 = magnitude_of(self);
        let y: u64 = magnitude_of(rhs);
        let neg: bool = sign_of(self) != sign_of(rhs);
        if x > INFINITE || y > INFINITE {
            Binary64 { bits: NOT_A_NUMBER }
        } else if (x == INFINITE && y == INFINITE) || (x == 0 && y == 0) {
            Binary64 { bits: NOT_A_NUMBER }
        } else if x == INFINITE || y == 0 {
            with_sign(neg, INFINITE)
        } else if x == 0 || y == INFINITE {
            with_sign(neg, 0)
        } else {
            let (sx, ex): (u64, i32) = fields_of(x);
            let (sy, ey): (u64, i32) = fields_of(y);
            proof {
                lemma_fields(x as nat);
                lemma_fields(y as nat);
            }
            let len: u32 = bit_length(sx as u128);
            proof {
                lemma_bit_len_bounds(sx as nat);
                lemma2_to64_rest();
                if len > 53 {
                    lemma_pow2_ordered(53, (len - 1) as nat);
                }
            }
            let k: u32 = 117 - len;
            let p: u128 = power_of_two(k);
            proof {
                lemma_pow2_adds((len - 1) as nat, k as nat);
                lemma_pow2_adds(len as nat, k as nat);
                lemma_pow2_adds(64, 52);
                lemma_pow2_adds(64, 53);
                lemma_pow2_pos(k as nat);
                lemma2_to64();
                assert(pow2(116) <= sx * p < pow2(117)) by (nonlinear_arith)
                    requires
                        pow2((len - 1) as nat) <= sx < pow2(len as nat),
                        pow2((len - 1) as nat) * p == pow2(116),
                        pow2(len as nat) * p == pow2(117),
                        p > 0,
                ;
            }
            let n: u128 = (sx as u128) * p;
            let q: u128 = n / (sy as u128);
            let rest: u128 = n % (sy as u128);
            proof {
                lemma_fundamental_div_mod(n as int, sy as int);
                assert(q >= 0x40_0000_0000_0000) by (nonlinear_arith)
                    requires
                        n == sy * q + rest,
                        rest < sy,
                        0 < sy < 0x0020_0000_0000_0000,
                        n >= 0x1_0000_0000_0000_0000 * 0x0010_0000_0000_0000,
                ;
                assert(q <= n) by (nonlinear_arith)
                    requires
                        n == sy * q + rest,
                        rest >= 0,
                        sy >= 1,
                ;
                let g = (128 - k) as nat;
                lemma_rounded_shifted(n as nat, sy as nat, ex - ey - k, g);
                lemma_pow2_adds(k as nat, g);
                assert((sx * p) * pow2(g) == sx * (p * pow2(g))) by (nonlinear_arith);
            }
            let mag: u64 = round_to_magnitude(
                q,
                rest != 0,
                ex - ey - (k as i32),
                Ghost(n as nat),
                Ghost(sy as nat),
            );
            with_sign(neg, mag)
        }
    }
}

impl vstd::std_specs::ops::DivSpecImpl for Binary64 {
    open spec fn obeys_div_spec() -> bool {
        true
    }

    open spec fn div_req(self, rhs: Binary64) -> bool {
        true
    }

    open spec fn div_spec(self, rhs: Binary64) -> Binary64 {
        fl_div(self, rhs)
    }
}

impl Binary32 {
    /// The number with a given encoding.
    pub fn from_bits(bits: u32) -> (r: Binary32)
        ensures
            r == (Binary32 { bits }),
    {
        Binary32 { bits }
    }

    /// The double precision number of the same value.
    pub fn widen(self) -> (r: Binary64)
        ensures
            r == fl_widen(self),
    {
        proof {
            reveal(fl_widen);
        }
        let neg: bool = self.bits >= 0x8000_0000;
        let mag: u32 = if neg {
            self.bits - 0x8000_0000
        } else {
            self.bits
        };
        if mag > 0x7f80_0000 {
            Binary64 { bits: NOT_A_NUMBER }
        } else if mag == 0x7f80_0000 {
            with_sign(neg, INFINITE)
        } else if mag == 0 {
            with_sign(neg, 0)
        } else if mag < 0x0080_0000 {
            let wide: u64 = round_to_magnitude(
                mag as u128,
                false,
                -149,
                Ghost(mag as nat),
                Ghost(1),
            );
            with_sign(neg, wide)
        } else {
            let s: u32 = 0x0080_0000 + mag % 0x0080_0000;
            let e: u32 = mag / 0x0080_0000;
            let wide: u64 = round_to_magnitude(
                s as u128,
                false,
                (e as i32) - 150,
                Ghost(s as nat),
                Ghost(1),
            );
            with_sign(neg, wide)
        }
    }
}

} // verus!
