//! What the arithmetic on the bits of doubles amounts to, as IEEE 754 has it.
//!
//! A result is the double nearest to the exact value, among all doubles; of two that are
//! equally near, it is the one with even bits.

use vstd::prelude::*;
use vstd::arithmetic::power2::pow2;
use vstd::arithmetic::power2::lemma_pow2_adds;
use vstd::arithmetic::power2::lemma_pow2_pos;
use vstd::arithmetic::power2::lemma_pow2_strictly_increases;
use vstd::arithmetic::power2::lemma_pow2_unfold;
use crate::accuracy::size;
use crate::accuracy::{lemma_finite_number, lemma_fraction_is_exact};
use crate::double::{
    above_floor,
    beyond_whole,
    cut_to,
    half_away,
    is_finite,
    is_nan,
    magnitude,
    negative,
    one,
    product,
    quotient,
    ratio,
    rounded,
    rounded_to,
    single_units,
    sum,
    truncated,
    value,
    widened,
};
use crate::double::{lemma_representable, SINGLE_HIDDEN_BIT};
use crate::rounding::{distance, nearest, units, HIDDEN_BIT, INFINITY, NEXT_BIT};
use crate::rounding::{
    lemma_nearest_exact,
    lemma_nearest_is_nearest,
    lemma_units_compose,
    lemma_units_increase,
    lemma_units_step,
};

verus! {

/// Whether a double is the one nearest to `n / d` units.
pub open spec fn is_closest(f: u64, n: int, d: int) -> bool {
    &&& is_finite(f)
    &&& forall|g: u64| #[trigger]
        is_finite(g) ==> size(value(f) * d - n) <= size(value(g) * d - n) && (size(
            value(f) * d - n,
        ) == size(value(g) * d - n) && value(f) != value(g) ==> f % 2 == 0)
}

/// Whether a whole number is the one nearest to a number of units; of two that are equally
/// near, it is the one further from 0.
pub open spec fn is_nearest_whole(q: int, v: int) -> bool {
    &&& 2 * size(q * one() - v) <= one()
    &&& 2 * size(q * one() - v) == one() ==> size(q * one()) > size(v)
}

/// Whether a whole number is what is left of a number of units without its fraction.
pub open spec fn is_whole_part(q: int, v: int) -> bool {
    &&& v >= 0 ==> q * one() <= v < (q + 1) * one()
    &&& v < 0 ==> (q - 1) * one() < v <= q * one()
}

/// The layout of the bits of a double: the sign on top; below it, up to the magnitude of
/// infinity, the magnitudes of numbers, in their order; and what is above is no number.
pub proof fn lemma_layout_of_doubles(size: u64)
    requires
        size < 0x8000_0000_0000_0000,
    ensures
        ({
            let minus = (size + 0x8000_0000_0000_0000) as u64;
            &&& !negative(size) && negative(minus)
            &&& magnitude(size) == size && magnitude(minus) == size
            &&& value(size) == units(size as int) && value(minus) == -units(size as int)
            &&& is_finite(size) <==> size < 0x7FF0_0000_0000_0000
            &&& is_finite(minus) <==> size < 0x7FF0_0000_0000_0000
            &&& is_nan(size) <==> size > 0x7FF0_0000_0000_0000
            &&& is_nan(minus) <==> size > 0x7FF0_0000_0000_0000
        }),
{
}

/// The values of magnitudes, in units of the smallest double: up to `2^53` the magnitude
/// itself, and from `2^52` on doubled with every `2^52` more.
pub proof fn lemma_values_of_magnitudes(m: int)
    requires
        0 <= m,
    ensures
        m <= 0x20_0000_0000_0000 ==> units(m) == m,
        m >= 0x10_0000_0000_0000 ==> units(m + 0x10_0000_0000_0000) == 2 * units(m),
        one() == pow2(1074),
        units(0x3FF0_0000_0000_0000) == one(),
{
    lemma_units_step(m);
    lemma_units_step(m + 0x10_0000_0000_0000);
    lemma_units_compose(HIDDEN_BIT as int, 1022);
    lemma_pow2_adds(52, 1022);
    vstd::arithmetic::power2::lemma2_to64_rest();
}

/// How far the result for a quotient is from any double.
proof fn lemma_distance_to_double(n: int, d: int, g: u64)
    requires
        d > 0,
    ensures
        ({
            let r = nearest(size(n), d);
            let e = distance(units(r) * d, size(n));
            let s = size(value(g) * d - n);
            &&& 0 <= r
            &&& 0 <= units(r)
            &&& e <= s
            &&& e == s ==> magnitude(g) == r || r % 2 == 0
            &&& e == s && value(g) != 0 ==> (negative(g) == (n < 0) || n == 0)
            &&& n == 0 ==> units(r) == 0
        }),
{
    let a = size(n);
    let m = magnitude(g);
    lemma_nearest_is_nearest(a, d, m);
    lemma_units_step(0);
    if m > 0 {
        lemma_units_increase(0, m);
    }
    let r = nearest(a, d);
    if r > 0 {
        lemma_units_increase(0, r);
    }
    let u = units(m);
    assert((-u) * d == -(u * d)) by (nonlinear_arith);
    assert(u * d >= 0) by (nonlinear_arith)
        requires
            u >= 0,
            d > 0,
    ;
    assert(u > 0 ==> u * d > 0) by (nonlinear_arith)
        requires
            d > 0,
    ;
    if n == 0 {
        lemma_nearest_exact(0, d);
        assert(units(0) * d == 0);
    }
}

/// What is rounded to a double becomes the nearest one, and infinite only where it is not
/// less than halfway from the largest double to the next power of two.
pub proof fn lemma_rounded_is_closest(n: int, d: int)
    requires
        d > 0,
    ensures
        !is_nan(rounded(n, d)),
        negative(rounded(n, d)) <==> n < 0,
        is_finite(rounded(n, d)) <==> 2 * size(n) < (units(0x7FEF_FFFF_FFFF_FFFF) + units(
            0x7FF0_0000_0000_0000,
        )) * d,
        is_finite(rounded(n, d)) ==> is_closest(rounded(n, d), n, d),
{
    let f = rounded(n, d);
    let a = size(n);
    let r = nearest(a, d);
    lemma_distance_to_double(n, d, 0);
    let low = 0x7FEF_FFFF_FFFF_FFFF;
    let high = 0x7FF0_0000_0000_0000;
    lemma_nearest_is_nearest(a, d, low);
    lemma_nearest_is_nearest(a, d, high);
    lemma_units_increase(low, high);
    let ul = units(low);
    let uh = units(high);
    let ur = units(r);
    assert((ul + uh) * d == ul * d + uh * d && ul * d < uh * d) by (nonlinear_arith)
        requires
            ul < uh,
            d > 0,
    ;
    if r < high {
        if r < low {
            lemma_units_increase(r, low);
            assert(ur * d < ul * d) by (nonlinear_arith)
                requires
                    ur < ul,
                    d > 0,
            ;
        }
    } else if r > high {
        lemma_units_increase(high, r);
        assert(ur * d > uh * d) by (nonlinear_arith)
            requires
                ur > uh,
                d > 0,
        ;
    }
    if is_finite(f) {
        assert(r < high);
        assert(magnitude(f) == r && negative(f) == (n < 0));
        assert((-ur) * d == -(ur * d)) by (nonlinear_arith);
        assert(n < 0 ==> value(f) == -ur);
        assert(size(value(f) * d - n) == distance(ur * d, a));
        assert forall|g: u64| #[trigger] is_finite(g) implies size(value(f) * d - n) <= size(
            value(g) * d - n,
        ) && (size(value(f) * d - n) == size(value(g) * d - n) && value(f) != value(g) ==> f % 2
            == 0) by {
            lemma_distance_to_double(n, d, g);
            lemma_units_step(0);
            if size(value(f) * d - n) == size(value(g) * d - n) && value(f) != value(g) {
                if magnitude(g) == r {
                    assert(negative(g) != negative(f));
                    assert(value(g) != 0);
                }
                assert(r % 2 == 0);
            }
        }
    }
}

/// The quotient of two whole numbers is the double nearest to it; that of numbers of up to
/// 128 bits is finite.
pub proof fn lemma_quotient_is_closest(n: int, d: int)
    requires
        d > 0,
    ensures
        !is_nan(quotient(n, d)),
        negative(quotient(n, d)) <==> n < 0,
        is_finite(quotient(n, d)) <==> 2 * size(n * one()) < (units(0x7FEF_FFFF_FFFF_FFFF) + units(
            0x7FF0_0000_0000_0000,
        )) * d,
        is_finite(quotient(n, d)) ==> is_closest(quotient(n, d), n * one(), d),
        size(n) <= u128::MAX ==> is_finite(quotient(n, d)),
{
    let o = one();
    lemma_pow2_pos(1074);
    lemma_rounded_is_closest(n * o, d);
    assert(n < 0 ==> n * o < 0) by (nonlinear_arith)
        requires
            o > 0,
    ;
    assert(n >= 0 ==> n * o >= 0) by (nonlinear_arith)
        requires
            o > 0,
    ;
    if size(n) <= u128::MAX {
        lemma_gap_above_the_largest();
        let q = pow2(1203) as int;
        lemma_pow2_adds(64, 64);
        lemma_pow2_adds(1, 128);
        lemma_pow2_adds(129, 1074);
        vstd::arithmetic::power2::lemma2_to64();
        vstd::arithmetic::power2::lemma2_to64_rest();
        assert(2 * size(n * o) < q) by (nonlinear_arith)
            requires
                size(n) < 0x1_0000_0000_0000_0000_0000_0000_0000_0000,
                q == 0x2_0000_0000_0000_0000_0000_0000_0000_0000 * o,
                o > 0,
        ;
        let u = units(0x7FEF_FFFF_FFFF_FFFF) + units(0x7FF0_0000_0000_0000);
        assert(u <= u * d) by (nonlinear_arith)
            requires
                u >= 0,
                d >= 1,
        ;
    }
}

/// A double plus a whole number is the double nearest to the sum; what is not a finite
/// number stays so.
pub proof fn lemma_sum_is_closest(f: u64, n: int)
    ensures
        is_nan(f) ==> is_nan(sum(f, n)),
        !is_nan(f) && !is_finite(f) ==> sum(f, n) == f,
        is_finite(f) ==> !is_nan(sum(f, n)) && (negative(sum(f, n)) <==> value(f) + n * one() < 0),
        is_finite(f) && is_finite(sum(f, n)) ==> is_closest(
            sum(f, n),
            value(f) + n * one(),
            1,
        ),
        is_finite(f) && -0x1_0000_0000 <= n <= 0x1_0000_0000 ==> is_finite(sum(f, n)),
{
    if is_finite(f) {
        let x = value(f) + n * one();
        lemma_rounded_is_closest(x, 1);
        if -0x1_0000_0000 <= n <= 0x1_0000_0000 {
            lemma_gap_above_the_largest();
            let o = one();
            lemma_pow2_pos(1074);
            assert(size(n * o) <= 0x1_0000_0000 * o) by (nonlinear_arith)
                requires
                    -0x1_0000_0000 <= n <= 0x1_0000_0000,
                    o > 0,
            ;
            let m = magnitude(f);
            let low = 0x7FEF_FFFF_FFFF_FFFF;
            lemma_units_step(0);
            if m > 0 {
                lemma_units_increase(0, m);
            }
            if m < low {
                lemma_units_increase(m, low);
            }
            let u = units(low) + units(0x7FF0_0000_0000_0000);
            assert(u * 1 == u);
        }
    }
}

/// The largest double is far below the next power of two.
proof fn lemma_gap_above_the_largest()
    ensures
        units(0x7FF0_0000_0000_0000) - units(0x7FEF_FFFF_FFFF_FFFF) > 0x10_0000_0000 * one(),
        units(0x7FEF_FFFF_FFFF_FFFF) > 0,
        units(0x7FF0_0000_0000_0000) > pow2(1203),
{
    assert(2045 * HIDDEN_BIT + NEXT_BIT == 0x7FF0_0000_0000_0000);
    lemma_units_compose(NEXT_BIT as int, 2045);
    lemma_units_compose(NEXT_BIT - 1, 2045);
    lemma_pow2_adds(64, 1074);
    lemma_pow2_adds(1138, 907);
    lemma_pow2_pos(907);
    lemma_pow2_strictly_increases(1203, 2045);
    lemma_pow2_pos(1074);
    lemma_pow2_pos(2045);
    vstd::arithmetic::power2::lemma2_to64();
    let p = pow2(2045) as int;
    let q = pow2(1138) as int;
    let t = pow2(907) as int;
    assert(NEXT_BIT * p - (NEXT_BIT - 1) * p == p && (NEXT_BIT - 1) * p >= p) by (nonlinear_arith)
        requires
            p > 0,
            NEXT_BIT == 0x20_0000_0000_0000,
    ;
    assert(p >= q) by (nonlinear_arith)
        requires
            p == q * t,
            t >= 1,
            q >= 0,
    ;
}

/// A double times a positive whole number is the double nearest to the product, infinite
/// where that is too large, and of the sign of the double.
pub proof fn lemma_product_is_closest(f: u64, k: int)
    requires
        k > 0,
    ensures
        is_nan(f) ==> is_nan(product(f, k)),
        !is_nan(f) && !is_finite(f) ==> product(f, k) == f,
        is_finite(f) ==> !is_nan(product(f, k)) && negative(product(f, k)) == negative(f),
        is_finite(f) ==> (is_finite(product(f, k)) <==> 2 * size(value(f) * k) < units(
            0x7FEF_FFFF_FFFF_FFFF,
        ) + units(0x7FF0_0000_0000_0000)),
        is_finite(f) && is_finite(product(f, k)) ==> is_closest(product(f, k), value(f) * k, 1),
{
    if is_finite(f) {
        let u = units(magnitude(f));
        lemma_units_step(0);
        if magnitude(f) > 0 {
            lemma_units_increase(0, magnitude(f));
        }
        let x = value(f) * k;
        assert((-u) * k == -(u * k)) by (nonlinear_arith);
        assert(u * k >= 0 && (u > 0 ==> u * k > 0)) by (nonlinear_arith)
            requires
                u >= 0,
                k > 0,
        ;
        let w = units(0x7FEF_FFFF_FFFF_FFFF) + units(0x7FF0_0000_0000_0000);
        assert(w * 1 == w);
        lemma_signed_is_closest(negative(f), u * k, 1);
    }
}

/// A magnitude that is rounded becomes the nearest one, with the given sign.
proof fn lemma_signed_is_closest(minus: bool, a: int, d: int)
    requires
        a >= 0,
        d > 0,
    ensures
        ({
            let f = crate::double::signed(minus, nearest(a, d));
            let n = if minus {
                -a
            } else {
                a
            };
            &&& !is_nan(f)
            &&& negative(f) == minus
            &&& is_finite(f) <==> 2 * a < (units(0x7FEF_FFFF_FFFF_FFFF) + units(
                0x7FF0_0000_0000_0000,
            )) * d
            &&& is_finite(f) ==> is_closest(f, n, d)
        }),
{
    let n = if minus {
        -a
    } else {
        a
    };
    let f = crate::double::signed(minus, nearest(a, d));
    lemma_rounded_is_closest(n, d);
    lemma_distance_to_double(n, d, 0);
    if a == 0 {
        // The result is a zero of either sign.
        lemma_nearest_exact(0, d);
        lemma_units_step(0);
        assert(units(0) * d == 0);
        let g = rounded(n, d);
        assert(value(f) == 0 && value(g) == 0);
        assert(f % 2 == 0);
        assert(0 * d == 0);
        lemma_units_increase(0, 0x7FEF_FFFF_FFFF_FFFF);
        lemma_units_increase(0, 0x7FF0_0000_0000_0000);
        let u = units(0x7FEF_FFFF_FFFF_FFFF) + units(0x7FF0_0000_0000_0000);
        assert(u * d > 0) by (nonlinear_arith)
            requires
                u > 0,
                d > 0,
        ;
        assert forall|h: u64| #[trigger] is_finite(h) implies size(value(f) * d - n) <= size(
            value(h) * d - n,
        ) by {
            assert(is_finite(h));
        }
    } else {
        assert(f == rounded(n, d));
    }
}

/// A double divided by a positive whole number is the double nearest to the quotient.
pub proof fn lemma_ratio_is_closest(f: u64, k: int)
    requires
        k > 0,
    ensures
        is_nan(f) ==> is_nan(ratio(f, k)),
        !is_nan(f) && !is_finite(f) ==> ratio(f, k) == f,
        is_finite(f) ==> is_closest(ratio(f, k), value(f), k) && negative(ratio(f, k)) == negative(
            f,
        ),
{
    if is_finite(f) {
        let m = magnitude(f);
        let u = units(m);
        let low = 0x7FEF_FFFF_FFFF_FFFF;
        lemma_units_step(0);
        if m > 0 {
            lemma_units_increase(0, m);
        }
        if m < low {
            lemma_units_increase(m, low);
        }
        lemma_units_increase(low, 0x7FF0_0000_0000_0000);
        lemma_signed_is_closest(negative(f), u, k);
        let w = units(low) + units(0x7FF0_0000_0000_0000);
        assert(2 * u < w);
        assert(w <= w * k) by (nonlinear_arith)
            requires
                w >= 0,
                k >= 1,
        ;
    }
}

/// What a double exceeds the next lower whole number by is the double nearest to it, from 0
/// to 1.
pub proof fn lemma_above_floor_is_closest(f: u64)
    requires
        is_finite(f),
    ensures
        is_closest(above_floor(f), value(f) % one(), 1),
        !negative(above_floor(f)),
        0 <= value(f) % one() < one(),
        0 <= value(above_floor(f)) <= one(),
{
    let o = one();
    lemma_pow2_pos(1074);
    let x = value(f) % o;
    vstd::arithmetic::div_mod::lemma_mod_bound(value(f), o);
    assert((1 * o) * 1 == o);
    lemma_finite_number(x, 1, 1);
    lemma_rounded_is_closest(x, 1);
    let b = lemma_representable(1, 1074);
    assert(units(b) == o) by {
        assert(1 * pow2(1074) == pow2(1074));
    }
    let r = nearest(x, 1);
    lemma_nearest_is_nearest(x, 1, b);
    assert(units(r) * 1 == units(r) && units(b) * 1 == units(b));
    lemma_units_step(0);
    if r > 0 {
        lemma_units_increase(0, r);
    }
}

/// What is left of a double beyond its whole part: a double of its sign and of less than 1
/// that makes up the double together with a whole number.
pub proof fn lemma_beyond_whole_is_exact(f: u64) -> (q: int)
    requires
        is_finite(f),
    ensures
        is_finite(beyond_whole(f)),
        negative(beyond_whole(f)) == negative(f),
        value(f) == q * one() + value(beyond_whole(f)),
        size(value(beyond_whole(f))) < one(),
        is_whole_part(q, value(f)),
{
    let o = one();
    let u = units(magnitude(f));
    lemma_pow2_pos(1074);
    lemma_units_step(0);
    if magnitude(f) > 0 {
        lemma_units_increase(0, magnitude(f));
    }
    let b = lemma_fraction_is_exact(magnitude(f));
    vstd::arithmetic::div_mod::lemma_fundamental_div_mod(u, o);
    vstd::arithmetic::div_mod::lemma_mod_pos_bound(u, o);
    let q = u / o;
    assert(o * q == q * o && (-q) * o == -(q * o) && (q + 1) * o == q * o + o && (-q - 1) * o == -(q
        * o) - o) by (nonlinear_arith);
    assert(magnitude(beyond_whole(f)) == b);
    if negative(f) {
        if u == 0 {
            vstd::arithmetic::div_mod::lemma_div_of0(o);
        }
        -q
    } else {
        q
    }
}

/// A number without its fraction.
proof fn lemma_truncated_is_whole_part(v: int, q: int)
    requires
        is_whole_part(q, v),
    ensures
        truncated(v, one()) == q,
{
    let o = one();
    lemma_pow2_pos(1074);
    assert((q + 1) * o == q * o + o && (q - 1) * o == q * o - o && (-q) * o == -(q * o))
        by (nonlinear_arith);
    if v < 0 {
        vstd::arithmetic::div_mod::lemma_fundamental_div_mod_converse(-v, o, -q, -v + q * o);
    } else {
        vstd::arithmetic::div_mod::lemma_fundamental_div_mod_converse(v, o, q, v - q * o);
    }
}

/// A double is cut towards 0, and brought between the bounds; what is no number becomes 0,
/// and what is infinite becomes a bound.
pub proof fn lemma_cut_is_whole_part(f: u64, q: int, low: int, high: int)
    requires
        is_finite(f) ==> is_whole_part(q, value(f)),
    ensures
        is_finite(f) && low <= q <= high ==> cut_to(f, low, high) == q,
        is_finite(f) && q < low ==> cut_to(f, low, high) == low,
        is_finite(f) && low <= q && q > high ==> cut_to(f, low, high) == high,
        is_nan(f) ==> cut_to(f, low, high) == 0,
        !is_nan(f) && !is_finite(f) && negative(f) ==> cut_to(f, low, high) == low,
        !is_nan(f) && !is_finite(f) && !negative(f) ==> cut_to(f, low, high) == high,
{
    if is_finite(f) {
        lemma_truncated_is_whole_part(value(f), q);
    }
}

/// A whole number that is nearest to a number of units is the only one.
proof fn lemma_half_away_is_nearest_whole(v: int, q: int)
    requires
        is_nearest_whole(q, v),
    ensures
        half_away(v, one()) == q,
{
    let o = one();
    lemma_pow2_pos(1074);
    let x = q * o;
    assert((-q) * o == -x && q * (2 * o) == 2 * x && (-q) * (2 * o) == -2 * x) by (nonlinear_arith)
        requires
            x == q * o,
    ;
    assert((q > 0 ==> x >= o) && (q < 0 ==> x <= -o) && (q == 0 ==> x == 0)) by (nonlinear_arith)
        requires
            x == q * o,
            o > 0,
    ;
    if v < 0 {
        vstd::arithmetic::div_mod::lemma_fundamental_div_mod_converse(
            2 * (-v) + o,
            2 * o,
            -q,
            2 * (x - v) + o,
        );
    } else {
        vstd::arithmetic::div_mod::lemma_fundamental_div_mod_converse(
            2 * v + o,
            2 * o,
            q,
            2 * (v - x) + o,
        );
    }
}

/// There is a nearest whole number to any number of units.
pub proof fn lemma_some_whole_is_nearest(v: int) -> (q: int)
    ensures
        is_nearest_whole(q, v),
{
    let o = one();
    lemma_pow2_pos(1074);
    lemma_pow2_unfold(1074);
    let a = size(v);
    let h = (2 * a + o) / (2 * o);
    vstd::arithmetic::div_mod::lemma_fundamental_div_mod(2 * a + o, 2 * o);
    vstd::arithmetic::div_mod::lemma_mod_pos_bound(2 * a + o, 2 * o);
    assert((2 * o) * h == 2 * (h * o) && (-h) * o == -(h * o)) by (nonlinear_arith);
    assert(h >= 0) by (nonlinear_arith)
        requires
            2 * a + o < (2 * o) * h + 2 * o,
            a >= 0,
            o > 0,
    ;
    assert(h * o >= 0) by (nonlinear_arith)
        requires
            h >= 0,
            o > 0,
    ;
    if v < 0 {
        -h
    } else {
        h
    }
}

/// A double is rounded to the nearest whole number, halves away from 0, and brought between
/// the bounds; what is no number becomes 0, and what is infinite becomes a bound.
pub proof fn lemma_round_is_nearest_whole(f: u64, q: int, low: int, high: int)
    requires
        is_finite(f) ==> is_nearest_whole(q, value(f)),
    ensures
        is_finite(f) && low <= q <= high ==> rounded_to(f, low, high) == q,
        is_finite(f) && q < low ==> rounded_to(f, low, high) == low,
        is_finite(f) && low <= q && q > high ==> rounded_to(f, low, high) == high,
        is_nan(f) ==> rounded_to(f, low, high) == 0,
        !is_nan(f) && !is_finite(f) && negative(f) ==> rounded_to(f, low, high) == low,
        !is_nan(f) && !is_finite(f) && !negative(f) ==> rounded_to(f, low, high) == high,
{
    if is_finite(f) {
        lemma_half_away_is_nearest_whole(value(f), q);
    }
}

/// A single-precision number keeps its sign and its value, which is that of its magnitude in
/// units of the smallest one, `2^925` of the double's: up to `2^24` the magnitude itself, and
/// from `2^23` on doubled with every `2^23` more.
pub proof fn lemma_widening_keeps_the_value(m: u32)
    requires
        m < 0x8000_0000,
    ensures
        ({
            let plus = widened(m);
            let minus = widened((m + 0x8000_0000) as u32);
            &&& m > 0x7F80_0000 ==> is_nan(plus) && is_nan(minus)
            &&& m == 0x7F80_0000 ==> plus == 0x7FF0_0000_0000_0000 && minus
                == 0xFFF0_0000_0000_0000
            &&& m < 0x7F80_0000 ==> {
                &&& is_finite(plus) && !negative(plus)
                &&& is_finite(minus) && negative(minus)
                &&& value(minus) == -value(plus)
                &&& m <= 0x100_0000 ==> value(plus) == m * pow2(925)
                &&& m >= 0x100_0000 ==> value(plus) == 2 * value(widened((m - 0x80_0000) as u32))
            }
        }),
{
    if m < 0x7F80_0000 {
        lemma_single_is_exact(m as int);
        lemma_single_steps(m as int);
        if m >= 0x100_0000 {
            lemma_single_is_exact(m - 0x80_0000);
        }
    }
}

/// The value of a single-precision number is that of a double.
proof fn lemma_single_is_exact(m: int)
    requires
        0 <= m < 0x7F80_0000,
    ensures
        0 <= nearest(single_units(m), 1) < INFINITY,
        units(nearest(single_units(m), 1)) == single_units(m),
{
    let h = SINGLE_HIDDEN_BIT as int;
    let (d, t): (int, nat) = if m < h {
        (m, 925)
    } else {
        (h + m % h, (m / h + 924) as nat)
    };
    assert(m >= h ==> 0 < m / h < 255);
    let b = lemma_representable(d, t);
    lemma_nearest_exact(b, 1);
    assert(units(b) * 1 == units(b));
    assert(b < INFINITY) by (nonlinear_arith)
        requires
            b <= t * HIDDEN_BIT + d,
            t <= 1178,
            d < 0x100_0000,
            HIDDEN_BIT == 0x10_0000_0000_0000,
            INFINITY == 0x7FF0_0000_0000_0000,
    ;
}

/// How the values of single-precision numbers grow.
proof fn lemma_single_steps(m: int)
    requires
        0 <= m < 0x7F80_0000,
    ensures
        m <= 0x100_0000 ==> single_units(m) == m * pow2(925),
        m >= 0x100_0000 ==> single_units(m) == 2 * single_units(m - 0x80_0000),
{
    let h = SINGLE_HIDDEN_BIT as int;
    if m >= 2 * h {
        let t = (m / h + 924) as nat;
        assert((m - h) / h == m / h - 1 && (m - h) % h == m % h);
        lemma_pow2_unfold(t);
        let d = h + m % h;
        let p = pow2((t - 1) as nat) as int;
        assert(d * (2 * p) == 2 * (d * p)) by (nonlinear_arith);
        if m == 2 * h {
            assert(t == 926);
            assert(h * (2 * p) == (2 * h) * p) by (nonlinear_arith);
        }
    } else if m >= h {
        assert(m / h == 1 && m % h == m - h);
    }
}

/// A product of at most `2^64` in size is finite.
pub(crate) proof fn lemma_small_products_are_finite(f: u64, k: int)
    requires
        is_finite(f),
        k > 0,
        size(value(f) * k) <= 0x1_0000_0000_0000_0000 * one(),
    ensures
        is_finite(product(f, k)),
{
    lemma_product_is_closest(f, k);
    lemma_gap_above_the_largest();
    lemma_pow2_adds(66, 1074);
    lemma_pow2_adds(2, 64);
    lemma_pow2_pos(1074);
    lemma_pow2_strictly_increases(1140, 1203);
    vstd::arithmetic::power2::lemma2_to64();
    vstd::arithmetic::power2::lemma2_to64_rest();
    let o = one();
    assert(pow2(66) == 0x4_0000_0000_0000_0000);
    assert(pow2(1140) == 0x4_0000_0000_0000_0000 * o);
}

} // verus!
