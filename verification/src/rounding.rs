//! Rounding of exact positive values to the nearest binary64 number.
//!
//! An exact value is written `(n / d) * 2^j` with natural numbers `n >= d > 0`
//! and an integer `j`. Its rounding is described by the *magnitude field* of the
//! binary64 encoding: exponent and fraction bits read as one natural number,
//! without the sign bit. Magnitude fields are ordered as the values they encode.
use vstd::arithmetic::div_mod::{
    lemma_div_denominator, lemma_fundamental_div_mod, lemma_fundamental_div_mod_converse,
};
use vstd::arithmetic::mul::lemma_mul_is_commutative;
use vstd::arithmetic::power2::{
    lemma2_to64, lemma2_to64_rest, lemma_pow2_adds, lemma_pow2_pos, lemma_pow2_strictly_increases,
    lemma_pow2_unfold, pow2,
};
use vstd::bits::{lemma_u128_shr_is_div, lemma_u64_shr_is_div};
use vstd::prelude::*;
use vstd::std_specs::bits::axiom_u64_leading_zeros;

verus! {

/// The magnitude field of infinity.
pub const INFINITE: u64 = 0x7ff0_0000_0000_0000;

/// The exponent of the smallest unit in the last place.
pub const LEAST_EXPONENT: i32 = -1074;

/// The number of binary digits of `n`; zero has none.
pub open spec fn bit_len(n: nat) -> nat
    decreases n,
{
    if n == 0 {
        0
    } else {
        1 + bit_len(n / 2)
    }
}

/// The integer nearest to `num / den`; of two equally near ones, the even one.
pub open spec fn nearest_even(num: nat, den: nat) -> nat {
    let q = num / den;
    let r = num % den;
    if 2 * r < den || (2 * r == den && q % 2 == 0) {
        q
    } else {
        q + 1
    }
}

/// The exponent of the unit in the last place at which `(n / d) * 2^j` has 53
/// significant bits, or the least exponent where it would fall below that.
pub open spec fn unit_exponent(n: nat, d: nat, j: int) -> int {
    let e = j + bit_len(n / d) - 53;
    if e < LEAST_EXPONENT {
        LEAST_EXPONENT as int
    } else {
        e
    }
}

/// `(n / d) * 2^j` counted in units of `2^e` and rounded to the nearest integer,
/// ties to even.
pub open spec fn units(n: nat, d: nat, j: int, e: int) -> nat {
    if e >= j {
        nearest_even(n, d * pow2((e - j) as nat))
    } else {
        nearest_even(n * pow2((j - e) as nat), d)
    }
}

/// The magnitude field of `count * 2^e`, saturated at infinity.
pub open spec fn encoded(count: nat, e: int) -> nat {
    let mag = (e - LEAST_EXPONENT) * 0x0010_0000_0000_0000 + count;
    if mag > INFINITE {
        INFINITE as nat
    } else {
        mag as nat
    }
}

/// The magnitude field of the binary64 number nearest to `(n / d) * 2^j`.
pub open spec fn rounded(n: nat, d: nat, j: int) -> nat
    recommends
        n >= d > 0,
{
    let e = unit_exponent(n, d, j);
    encoded(units(n, d, j, e), e)
}

/// A positive number lies between the powers of two that its length names.
pub proof fn lemma_bit_len_bounds(n: nat)
    requires
        n > 0,
    ensures
        bit_len(n) > 0,
        pow2((bit_len(n) - 1) as nat) <= n < pow2(bit_len(n)),
    decreases n,
{
    if n == 1 {
        assert(bit_len(1) == 1 + bit_len(0));
        lemma2_to64();
    } else {
        lemma_bit_len_bounds(n / 2);
        let k = bit_len(n / 2);
        lemma_pow2_unfold(k + 1);
        lemma_pow2_unfold(k);
    }
}

/// The length is determined by the powers of two around the number.
pub proof fn lemma_bit_len_unique(n: nat, k: nat)
    requires
        pow2(k) <= n < pow2(k + 1),
    ensures
        bit_len(n) == k + 1,
{
    lemma_pow2_pos(k);
    lemma_bit_len_bounds(n);
    let b = bit_len(n);
    if b > k + 1 {
        if k + 1 < (b - 1) as nat {
            lemma_pow2_strictly_increases(k + 1, (b - 1) as nat);
        }
    } else if b < k + 1 {
        if b < k {
            lemma_pow2_strictly_increases(b, k);
        }
    }
}

/// Powers of two grow with their exponents.
pub proof fn lemma_pow2_ordered(a: nat, b: nat)
    requires
        a <= b,
    ensures
        0 < pow2(a) <= pow2(b),
{
    lemma_pow2_pos(a);
    if a < b {
        lemma_pow2_strictly_increases(a, b);
    }
}

/// A longer number is not smaller.
pub proof fn lemma_bit_len_monotone(a: nat, b: nat)
    requires
        a <= b,
    ensures
        bit_len(a) <= bit_len(b),
{
    if a > 0 && bit_len(a) > bit_len(b) {
        lemma_bit_len_bounds(a);
        lemma_bit_len_bounds(b);
        lemma_pow2_ordered(bit_len(b), (bit_len(a) - 1) as nat);
    }
}

/// Multiplying numerator and denominator by the same number changes nothing.
pub proof fn lemma_nearest_even_scaled(num: nat, den: nat, k: nat)
    requires
        den > 0,
        k > 0,
    ensures
        den * k > 0,
        nearest_even(num * k, den * k) == nearest_even(num, den),
{
    let q = (num / den) as int;
    let r = (num % den) as int;
    lemma_fundamental_div_mod(num as int, den as int);
    assert(den * k > 0) by (nonlinear_arith)
        requires
            den > 0,
            k > 0,
    ;
    assert(num * k == (den * k) * q + r * k) by (nonlinear_arith)
        requires
            num == den * q + r,
    ;
    assert(0 <= r * k < den * k) by (nonlinear_arith)
        requires
            0 <= r < den,
            k > 0,
    ;
    assert((den * k) * q == q * (den * k)) by (nonlinear_arith);
    lemma_fundamental_div_mod_converse((num * k) as int, (den * k) as int, q, r * k);
    assert(2 * (r * k) < den * k <==> 2 * r < den) by (nonlinear_arith)
        requires
            k > 0,
    ;
    assert(2 * (r * k) == den * k <==> 2 * r == den) by (nonlinear_arith)
        requires
            k > 0,
    ;
}

/// An exact quotient is its own rounding.
pub proof fn lemma_nearest_even_exact(q: nat, den: nat)
    requires
        den > 0,
    ensures
        nearest_even(q * den, den) == q,
{
    lemma_fundamental_div_mod_converse((q * den) as int, den as int, q as int, 0);
}

/// Scaling the numerator by a power of two lengthens the quotient by its exponent.
pub proof fn lemma_quotient_len_scaled(n: nat, d: nat, g: nat)
    requires
        n >= d > 0,
    ensures
        bit_len((n * pow2(g)) / d) == bit_len(n / d) + g,
{
    let q = n / d;
    lemma_fundamental_div_mod(n as int, d as int);
    assert(q >= 1) by (nonlinear_arith)
        requires
            n >= d,
            d > 0,
            n == d * q + n % d,
            0 <= n % d < d,
    ;
    lemma_bit_len_bounds(q);
    let k = (bit_len(q) - 1) as nat;
    let p = pow2(g);
    lemma_pow2_pos(g);
    lemma_pow2_adds(k, g);
    lemma_pow2_adds(k + 1, g);
    let s = (n * p) / d;
    lemma_fundamental_div_mod((n * p) as int, d as int);
    let lo = pow2(k);
    let hi = pow2(k + 1);
    let r = (n % d) as int;
    let t = ((n * p) % d) as int;
    assert(lo * p <= s) by (nonlinear_arith)
        requires
            n == d * q + r,
            0 <= r < d,
            n * p == d * s + t,
            0 <= t < d,
            lo <= q,
            p > 0,
            d > 0,
    {
        assert(d * (lo * p) <= d * (q * p));
        assert(d * (q * p) <= n * p);
        assert(d * (lo * p) < d * (s + 1));
    }
    assert(s < hi * p) by (nonlinear_arith)
        requires
            n == d * q + r,
            0 <= r < d,
            n * p == d * s + t,
            0 <= t < d,
            q < hi,
            p > 0,
            d > 0,
    {
        assert(n < d * (q + 1));
        assert(d * (q + 1) <= d * hi);
        assert(n * p < (d * hi) * p);
        assert((d * hi) * p == d * (hi * p));
        assert(d * s < d * (hi * p));
    }
    assert(k + g + 1 == k + 1 + g);
    lemma_bit_len_unique(s, k + g);
}

/// Moving a power of two from the exponent into the numerator changes nothing.
pub proof fn lemma_rounded_shifted(n: nat, d: nat, j: int, g: nat)
    requires
        n >= d > 0,
    ensures
        rounded(n * pow2(g), d, j - g) == rounded(n, d, j),
{
    lemma_quotient_len_scaled(n, d, g);
    let e = unit_exponent(n, d, j);
    assert(unit_exponent(n * pow2(g), d, j - g) == e);
    let p = pow2(g);
    lemma_pow2_pos(g);
    if e >= j {
        let s = (e - j) as nat;
        lemma_pow2_pos(s);
        lemma_pow2_adds(s, g);
        assert(d * pow2(s) > 0) by (nonlinear_arith)
            requires
                d > 0,
                pow2(s) > 0,
        ;
        lemma_nearest_even_scaled(n, d * pow2(s), p);
        assert((d * pow2(s)) * p == d * (pow2(s) * p)) by (nonlinear_arith);
        assert((e - (j - g)) as nat == s + g);
    } else if e >= j - g {
        let s = (j - e) as nat;
        let u = (e - (j - g)) as nat;
        lemma_pow2_adds(s, u);
        lemma_pow2_pos(u);
        lemma_nearest_even_scaled(n * pow2(s), d, pow2(u));
        assert(s + u == g);
        assert((n * pow2(s)) * pow2(u) == n * (pow2(s) * pow2(u))) by (nonlinear_arith);
    } else {
        let u = ((j - g) - e) as nat;
        lemma_pow2_adds(g, u);
        assert(g + u == (j - e) as nat);
        assert((n * pow2(g)) * pow2(u) == n * (pow2(g) * pow2(u))) by (nonlinear_arith);
    }
}

/// Cancelling a common factor changes nothing.
pub proof fn lemma_rounded_cancelled(n: nat, d: nat, j: int, k: nat)
    requires
        n >= d > 0,
        k > 0,
    ensures
        d * k > 0,
        rounded(n * k, d * k, j) == rounded(n, d, j),
{
    lemma_nearest_even_scaled(n, d, k);
    assert((n * k) / (d * k) == n / d) by {
        lemma_mul_is_commutative(n as int, k as int);
        lemma_mul_is_commutative(d as int, k as int);
        lemma_div_denominator((n * k) as int, k as int, d as int);
        vstd::arithmetic::div_mod::lemma_div_multiples_vanish(n as int, k as int);
    }
    let e = unit_exponent(n, d, j);
    if e >= j {
        let p = pow2((e - j) as nat);
        lemma_pow2_pos((e - j) as nat);
        assert(d * p > 0) by (nonlinear_arith)
            requires
                d > 0,
                p > 0,
        ;
        lemma_nearest_even_scaled(n, d * p, k);
        assert((d * p) * k == (d * k) * p) by (nonlinear_arith);
    } else {
        let p = pow2((j - e) as nat);
        lemma_nearest_even_scaled(n * p, d, k);
        assert((n * p) * k == (n * k) * p) by (nonlinear_arith);
    }
}

/// The power of two that a shift of one makes.
proof fn lemma_one_shifted(s: u128)
    requires
        s < 128,
    ensures
        (1u128 << s) == pow2(s as nat),
    decreases s,
{
    if s == 0 {
        assert(1u128 << 0u128 == 1u128) by (bit_vector);
        lemma2_to64();
    } else {
        let t = (s - 1) as u128;
        lemma_one_shifted(t);
        lemma_pow2_unfold(s as nat);
        assert(1u128 << s == 2 * (1u128 << t)) by (bit_vector)
            requires
                0 < s < 128,
                t == s - 1,
        ;
    }
}

/// `2^s`.
pub(crate) fn power_of_two(s: u32) -> (p: u128)
    requires
        s < 128,
    ensures
        p == pow2(s as nat),
{
    proof {
        lemma_one_shifted(s as u128);
    }
    1u128 << (s as u128)
}

/// The number of binary digits of a machine word.
fn word_length(x: u64) -> (n: u32)
    requires
        x > 0,
    ensures
        n == bit_len(x as nat),
        1 <= n <= 64,
{
    let zeros: u32 = x.leading_zeros();
    proof {
        axiom_u64_leading_zeros(x);
        let top = (63 - zeros) as u64;
        let y = x >> top;
        assert(y & 1 != 0 ==> y != 0) by (bit_vector);
        lemma_u64_shr_is_div(x, top);
        lemma_pow2_pos(top as nat);
        lemma_fundamental_div_mod(x as int, pow2(top as nat) as int);
        assert(pow2(top as nat) <= x) by (nonlinear_arith)
            requires
                x == pow2(top as nat) * y + x as nat % pow2(top as nat),
                x as nat % pow2(top as nat) >= 0,
                y >= 1,
                pow2(top as nat) > 0,
        ;
        assert(x < pow2((top + 1) as nat)) by {
            if zeros == 0 {
                lemma2_to64();
            } else {
                let over = (64 - zeros) as u64;
                lemma_u64_shr_is_div(x, over);
                lemma_pow2_pos(over as nat);
                lemma_fundamental_div_mod(x as int, pow2(over as nat) as int);
            }
        }
        lemma_bit_len_unique(x as nat, top as nat);
    }
    64 - zeros
}

/// The number of binary digits of a double word.
pub fn bit_length(q: u128) -> (n: u32)
    requires
        q > 0,
    ensures
        n == bit_len(q as nat),
        1 <= n <= 128,
{
    let high: u64 = (q / 0x1_0000_0000_0000_0000) as u64;
    if high == 0 {
        word_length(q as u64)
    } else {
        let n: u32 = word_length(high);
        proof {
            lemma2_to64();
            lemma_bit_len_bounds(high as nat);
            let k = (n - 1) as nat;
            lemma_pow2_adds(k, 64);
            lemma_pow2_adds(k + 1, 64);
            lemma_bit_len_unique(q as nat, k + 64);
        }
        64 + n
    }
}

/// The integer part of a value and the knowledge whether anything lies beyond it
/// decide how the value rounds to a coarser unit.
proof fn lemma_units_from_floor(n: nat, d: nat, q: nat, s: nat)
    requires
        d > 0,
        s > 0,
        q == n / d,
    ensures
        nearest_even(n, d * pow2(s)) == {
            let p = pow2(s);
            let half = pow2((s - 1) as nat);
            let r = q % p;
            if r > half || (r == half && (n % d != 0 || (q / p) % 2 == 1)) {
                q / p + 1
            } else {
                q / p
            }
        },
{
    let p = pow2(s);
    let half = pow2((s - 1) as nat);
    lemma_pow2_pos(s);
    lemma_pow2_unfold(s);
    let t = (q / p) as int;
    let r = (q % p) as int;
    let f = (n % d) as int;
    lemma_fundamental_div_mod(n as int, d as int);
    lemma_fundamental_div_mod(q as int, p as int);
    let rest = r * d + f;
    assert(n == t * (d * p) + rest && 0 <= rest < d * p) by (nonlinear_arith)
        requires
            n == d * q + f,
            q == p * t + r,
            0 <= r < p,
            0 <= f < d,
            rest == r * d + f,
    {
        assert(d * q == d * (p * t) + d * r);
        assert(d * (p * t) == t * (d * p));
        assert(r * d + f < (r + 1) * d);
        assert((r + 1) * d <= p * d);
    }
    lemma_fundamental_div_mod_converse(n as int, (d * p) as int, t, rest);
    assert(2 * rest < d * p <==> r < half) by (nonlinear_arith)
        requires
            rest == r * d + f,
            0 <= f < d,
            p == 2 * half,
    {
        assert(d * p == 2 * (half * d));
        if r < half {
            assert((r + 1) * d <= half * d);
        } else {
            assert(r * d >= half * d);
        }
    }
    assert(2 * rest == d * p <==> r == half && f == 0) by (nonlinear_arith)
        requires
            rest == r * d + f,
            0 <= f < d,
            p == 2 * half,
    {
        assert(d * p == 2 * (half * d));
        if r < half {
            assert((r + 1) * d <= half * d);
        } else if r > half {
            assert(r * d >= (half + 1) * d);
        }
    }
}

/// The magnitude field of the binary64 number nearest to `(n / d) * 2^j`, where `q`
/// is the integer part of `n / d` and `sticky` tells whether `n / d` exceeds it. An
/// inexact integer part is long enough that two of its bits lie below the unit in
/// the last place.
pub(crate) fn round_to_magnitude(
    q: u128,
    sticky: bool,
    j: i32,
    Ghost(n): Ghost<nat>,
    Ghost(d): Ghost<nat>,
) -> (mag: u64)
    requires
        d > 0,
        0 < q < 0x8000_0000_0000_0000_0000_0000_0000_0000,
        q == n / d,
        sticky <==> n % d != 0,
        sticky ==> q >= 0x40_0000_0000_0000,
        -4000 <= j <= 4000,
    ensures
        mag == rounded(n, d, j as int),
        mag <= INFINITE,
{
    let len: u32 = bit_length(q);
    let natural: i32 = j + (len as i32) - 53;
    let e: i32 = if natural < LEAST_EXPONENT { LEAST_EXPONENT } else { natural };
    proof {
        lemma_bit_len_bounds(q as nat);
        lemma2_to64_rest();
        lemma_pow2_adds(63, 64);
        if len > 127 {
            lemma_pow2_ordered(127, (len - 1) as nat);
        }
        if sticky && len < 55 {
            lemma_pow2_ordered(len as nat, 54);
        }
    }
    let count: u64;
    if e > j {
        let s: u32 = (e - j) as u32;
        proof {
            lemma_units_from_floor(n, d, q as nat, s as nat);
        }
        if s >= 128 {
            proof {
                lemma_pow2_ordered(len as nat, (s - 1) as nat);
                lemma_pow2_unfold(s as nat);
                vstd::arithmetic::div_mod::lemma_basic_div(q as int, pow2(s as nat) as int);
                vstd::arithmetic::div_mod::lemma_small_mod(q as nat, pow2(s as nat));
            }
            count = 0;
        } else {
            let p: u128 = power_of_two(s);
            let half: u128 = power_of_two(s - 1);
            let t: u128 = q >> (s as u128);
            proof {
                lemma_u128_shr_is_div(q, s as u128);
                lemma_pow2_pos(s as nat);
                lemma_fundamental_div_mod(q as int, p as int);
                assert(t * p <= q) by (nonlinear_arith)
                    requires
                        q == p * t + q as nat % p as nat,
                        q as nat % p as nat >= 0,
                ;
                assert(p * t == t * p) by (nonlinear_arith);
                assert(t < 0x20_0000_0000_0000) by {
                    // q < 2^len and s >= len - 53
                    lemma_pow2_ordered(len as nat, (s + 53) as nat);
                    lemma_pow2_adds(s as nat, 53);
                    assert(t < pow2(53)) by (nonlinear_arith)
                        requires
                            t * p <= q,
                            q < p * pow2(53),
                            p > 0,
                    ;
                }
            }
            let r: u128 = q - t * p;
            if r > half || (r == half && (sticky || t % 2 == 1)) {
                count = (t as u64) + 1;
            } else {
                count = t as u64;
            }
        }
    } else {
        let s: u32 = (j - e) as u32;
        proof {
            assert(!sticky);
            lemma_fundamental_div_mod(n as int, d as int);
            assert(n == q * d) by (nonlinear_arith)
                requires
                    n == d * q + 0,
            ;
            assert(len + s <= 53);
            lemma_pow2_ordered((len + s) as nat, 53);
            lemma_pow2_adds(len as nat, s as nat);
            lemma_pow2_pos(s as nat);
            assert(q * pow2(s as nat) < pow2(53)) by (nonlinear_arith)
                requires
                    q < pow2(len as nat),
                    pow2(s as nat) > 0,
                    pow2(len as nat) * pow2(s as nat) <= pow2(53),
            ;
            assert((q * d) * pow2(s as nat) == (q * pow2(s as nat)) * d) by (nonlinear_arith);
            lemma_nearest_even_exact((q * pow2(s as nat)) as nat, d);
            if e == j {
                lemma2_to64();
                assert(d * pow2(0) == d && q * pow2(0) == q) by (nonlinear_arith)
                    requires
                        pow2(0) == 1,
                ;
            }
        }
        let p: u128 = power_of_two(s);
        count = (q * p) as u64;
    }
    assert(count == units(n, d, j as int, e as int));
    let mag: i128 = ((e - LEAST_EXPONENT) as i128) * 0x0010_0000_0000_0000 + (count as i128);
    if mag > INFINITE as i128 {
        INFINITE
    } else {
        mag as u64
    }
}

} // verus!
