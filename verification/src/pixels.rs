//! Which pixel of a grid a projection falls on.
use crate::binary64::{
    exponent, fl_index, fl_lt, fl_of, fl_round, is_nan, lemma_fields, magnitude, negative,
    significand, Binary64,
};
use crate::errors::{
    abs, lemma_power_lifted, lemma_product_real, lemma_real_associative, lemma_real_mul_ordered,
    lemma_zero_value, power, value,
};
use crate::exactness::{is_finite, lemma_count_monotone, lemma_representable};
use crate::icp::pixel_of;
use crate::linear::fl;
use crate::numbers::{
    is_nearest_integer, law_count_value, law_index_is_integer_part, law_order_is_that_of_values,
    law_order_of_infinities, law_round_is_nearest,
};
use crate::rotations::{lemma_abs_product, lemma_magnitudes_ordered, lemma_square_nonnegative};
use crate::rounding::lemma_rounded_shifted;
use vstd::arithmetic::div_mod::lemma_fundamental_div_mod_converse;
use vstd::arithmetic::power2::{lemma2_to64, lemma_pow2_pos, pow2};
use vstd::prelude::*;

verus! {

/// Whether the coordinate `u` falls on row or column `k`: the nearest one, the one further from
/// zero of two, and the first where `u` is not a number.
pub open spec fn falls_on(u: Binary64, k: int) -> bool {
    ||| is_nan(u) && k == 0
    ||| is_finite(u) && is_nearest_integer(k, value(u))
}

/// There is one nearest integer.
proof fn lemma_nearest_unique(j: int, k: int, x: real)
    requires
        is_nearest_integer(j, x),
        is_nearest_integer(k, x),
    ensures
        j == k,
{
    let (p, q) = (j as real, k as real);
    if j < k {
        assert(p + (1 as real) <= q);
    } else if k < j {
        assert(q + (1 as real) <= p);
    }
}

/// A coordinate that falls on column `c` of a grid is held to lie within it, and has the index `c`.
proof fn lemma_inside(u: Binary64, c: nat, width: nat)
    requires
        falls_on(u, c as int),
        c < width <= usize::MAX,
    ensures
        !fl_lt(fl_round(u), fl(0)),
        !fl_lt(fl_of((width - 1) as nat), fl_round(u)),
        fl_index(fl_round(u)) == c,
{
    let r = fl_round(u);
    law_index_is_integer_part(r);
    if is_nan(u) {
        assert(is_nan(r)) by {
            reveal(fl_round);
        }
        law_order_of_infinities(r, fl(0));
        law_order_of_infinities(fl_of((width - 1) as nat), r);
    } else {
        let k = law_round_is_nearest(u);
        lemma_nearest_unique(k, c as int, value(u));
        lemma_zero_value(fl(0));
        law_order_is_that_of_values(r, fl(0));
        let last = (width - 1) as nat;
        law_count_value(last);
        lemma_count_monotone(c, last);
        law_order_is_that_of_values(fl_of(last), r);
        law_count_value(c);
        lemma_magnitudes_ordered(magnitude(fl_of(c)), magnitude(fl_of(last)));
        if c > 0x0020_0000_0000_0000 {
            lemma_large_count(r, c);
        }
        let i = fl_index(r);
        assert((i as real) <= (c as real));
        assert(i <= c);
    }
}

/// A number that is a large whole one is the number of that count.
proof fn lemma_large_count(r: Binary64, c: nat)
    requires
        is_finite(r),
        value(r) == c as real,
        c > 0x0020_0000_0000_0000,
    ensures
        value(fl_of(c)) == c as real,
{
    reveal(fl_of);
    let m = magnitude(r);
    lemma_fields(m);
    let (s, e) = (significand(m), exponent(m));
    lemma_zero_value(fl(0));
    lemma_magnitudes_ordered(0, m);
    assert(!negative(r));
    lemma_power_lifted(e, 0);
    if e < 0 {
        lemma_pow2_pos((-e) as nat);
        lemma_power_lifted(e, (-e) as nat);
        lemma2_to64();
        assert(power(e) <= 1 as real) by {
            let d = pow2((-e) as nat) as real;
            lemma_real_mul_ordered(1 as real, d, power(e));
            lemma_real_associative(1 as real, power(e), d);
            lemma_real_associative(d, power(e), d);
        }
        lemma_real_mul_ordered(power(e), 1 as real, s as real);
        lemma_real_associative(power(e), s as real, s as real);
    } else {
        lemma_product_real(s as int, pow2(e as nat) as int);
        assert(c == s * pow2(e as nat));
        lemma_rounded_shifted(s, 1, e, e as nat);
        lemma_representable(m);
    }
}

/// Where a projection falls: on the pixel in the row and column nearest to its coordinates, for
/// every grid that has them.
pub proof fn law_projection_falls_on_nearest_pixel(
    uv: [Binary64; 2],
    width: nat,
    height: nat,
    column: nat,
    row: nat,
)
    requires
        falls_on(uv[0], column as int),
        falls_on(uv[1], row as int),
        column < width <= usize::MAX,
        row < height <= usize::MAX,
    ensures
        pixel_of(uv, width, height) matches Some(i) && i % width == column && i / width == row && i
            == row * width + column,
{
    lemma_inside(uv[0], column, width);
    lemma_inside(uv[1], row, height);
    let i = row * width + column;
    lemma_fundamental_div_mod_converse(i as int, width as int, row as int, column as int);
}

/// A coordinate that is held to lie within a grid falls on one of its columns.
proof fn lemma_held_inside(u: Binary64, width: nat) -> (c: nat)
    requires
        0 < width <= 0x0020_0000_0000_0000,
        width <= usize::MAX,
        !fl_lt(fl_round(u), fl(0)),
        !fl_lt(fl_of((width - 1) as nat), fl_round(u)),
    ensures
        falls_on(u, c as int),
        c < width,
{
    let r = fl_round(u);
    let last = (width - 1) as nat;
    law_count_value(last);
    if is_nan(u) {
        0
    } else if is_finite(u) {
        let k = law_round_is_nearest(u);
        lemma_zero_value(fl(0));
        law_order_is_that_of_values(r, fl(0));
        law_order_is_that_of_values(fl_of(last), r);
        assert(k >= 0 && k <= last);
        k as nat
    } else {
        assert(r == u) by {
            reveal(fl_round);
        }
        law_order_of_infinities(fl_of(last), u);
        law_order_of_infinities(fl(0), u);
        0
    }
}

/// Where a pixel is found, the projection falls on it: there is none for a projection whose nearest
/// row or column lies outside of the grid.
pub proof fn law_found_pixel_is_nearest(uv: [Binary64; 2], width: nat, height: nat)
    requires
        0 < width <= 0x0020_0000_0000_0000,
        0 < height <= 0x0020_0000_0000_0000,
        width <= usize::MAX,
        height <= usize::MAX,
    ensures
        pixel_of(uv, width, height) matches Some(i) ==> {
            &&& falls_on(uv[0], (i % width) as int)
            &&& falls_on(uv[1], (i / width) as int)
            &&& i / width < height
        },
        pixel_of(uv, width, height) is Some <==> exists|column: nat, row: nat|
            column < width && row < height && #[trigger] falls_on(uv[0], column as int)
                && #[trigger] falls_on(uv[1], row as int),
{
    if pixel_of(uv, width, height) is Some {
        let column = lemma_held_inside(uv[0], width);
        let row = lemma_held_inside(uv[1], height);
        law_projection_falls_on_nearest_pixel(uv, width, height, column, row);
        assert(falls_on(uv[0], column as int) && falls_on(uv[1], row as int));
    }
    if exists|column: nat, row: nat|
        column < width && row < height && #[trigger] falls_on(uv[0], column as int)
            && #[trigger] falls_on(uv[1], row as int) {
        let (column, row) = choose|column: nat, row: nat|
            column < width && row < height && #[trigger] falls_on(uv[0], column as int)
                && #[trigger] falls_on(uv[1], row as int);
        law_projection_falls_on_nearest_pixel(uv, width, height, column, row);
    }
}

/// Another integer is not nearer.
proof fn lemma_other_not_nearer(k: int, j: int, x: real)
    requires
        is_nearest_integer(k, x),
    ensures
        (k as real - x) * (k as real - x) <= (j as real - x) * (j as real - x),
{
    let (p, q) = (abs(k as real - x), abs(j as real - x));
    if j < k {
        assert((j as real) + (1 as real) <= k as real);
    } else if k < j {
        assert((k as real) + (1 as real) <= j as real);
    }
    assert(p <= q);
    lemma_real_mul_ordered(p, q, p);
    lemma_real_mul_ordered(p, q, q);
    lemma_real_associative(p, q, q);
    lemma_abs_product(k as real - x, k as real - x);
    lemma_abs_product(j as real - x, j as real - x);
    lemma_square_nonnegative(k as real - x);
    lemma_square_nonnegative(j as real - x);
}

/// No pixel of a grid is nearer to finite coordinates than the one that is found.
pub proof fn law_no_pixel_is_nearer(
    uv: [Binary64; 2],
    width: nat,
    height: nat,
    column: nat,
    row: nat,
)
    requires
        is_finite(uv[0]),
        is_finite(uv[1]),
        0 < width <= 0x0020_0000_0000_0000,
        0 < height <= 0x0020_0000_0000_0000,
        width <= usize::MAX,
        height <= usize::MAX,
        column < width,
        row < height,
    ensures
        pixel_of(uv, width, height) matches Some(i) ==> {
            let (u, v) = (value(uv[0]), value(uv[1]));
            let (p, q) = ((i % width) as real - u, (i / width) as real - v);
            let (s, t) = (column as real - u, row as real - v);
            p * p + q * q <= s * s + t * t
        },
{
    law_found_pixel_is_nearest(uv, width, height);
    if let Some(i) = pixel_of(uv, width, height) {
        lemma_other_not_nearer((i % width) as int, column as int, value(uv[0]));
        lemma_other_not_nearer((i / width) as int, row as int, value(uv[1]));
    }
}

} // verus!
