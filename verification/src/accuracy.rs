//! How far rounding moves a number.
//!
//! Bounds on the errors of the arithmetic on doubles, counted in units of `2^-1074`.

use vstd::prelude::*;
use vstd::arithmetic::power2::pow2;
use vstd::arithmetic::power2::lemma_pow2_adds;
use vstd::arithmetic::power2::lemma_pow2_pos;
use vstd::arithmetic::power2::lemma_pow2_strictly_increases;
use vstd::arithmetic::power2::lemma_pow2_unfold;
use crate::double::{
    clamped,
    cut_to,
    half_away,
    is_finite,
    magnitude,
    one,
    product,
    quotient,
    ratio,
    rounded,
    rounded_to,
    sum,
    value,
};
use crate::double::{lemma_mod_scales, lemma_multiple_of_one};
use crate::double::{lemma_representable, lemma_whole_is_exact};
use crate::rounding::{
    distance,
    nearest,
    scale,
    significand,
    units,
    HIDDEN_BIT,
    INFINITY,
    NEXT_BIT,
};
use crate::rounding::{
    lemma_nearest_at_scale,
    lemma_nearest_error,
    lemma_nearest_exact,
    lemma_nearest_finite,
    lemma_nearest_is_nearest,
    lemma_units_compose,
    lemma_units_increase,
    lemma_units_step,
};

verus! {

/// The size of a whole number.
pub open spec fn size(x: int) -> int {
    if x < 0 {
        -x
    } else {
        x
    }
}

/// The size of a sum is at most the sum of the sizes.
pub(crate) proof fn lemma_sizes_add_up(x: int, y: int)
    ensures
        size(x + y) <= size(x) + size(y),
        size(x) >= 0,
        size(x - y) == size(y - x),
{
}

/// What is less than a half away from a whole number is rounded to it.
pub(crate) proof fn lemma_half_away_is_near(v: int, n: int)
    requires
        2 * distance(v, n * one()) < one(),
    ensures
        half_away(v, one()) == n,
{
    let o = one();
    lemma_pow2_pos(1074);
    assert((-n) * o == -(n * o) && n * (2 * o) == 2 * (n * o) && (-n) * (2 * o) == -2 * (n * o))
        by (nonlinear_arith);
    if v < 0 {
        vstd::arithmetic::div_mod::lemma_fundamental_div_mod_converse(
            2 * (-v) + o,
            2 * o,
            -n,
            2 * (n * o - v) + o,
        );
    } else {
        vstd::arithmetic::div_mod::lemma_fundamental_div_mod_converse(
            2 * v + o,
            2 * o,
            n,
            2 * (v - n * o) + o,
        );
    }
}

/// Rounding to a whole number moves a number by at most a half.
pub(crate) proof fn lemma_half_away_error(v: int)
    ensures
        2 * size(half_away(v, one()) * one() - v) <= one(),
{
    let o = one();
    lemma_pow2_pos(1074);
    let a = size(v);
    let h = (2 * a + o) / (2 * o);
    let r = (2 * a + o) % (2 * o);
    vstd::arithmetic::div_mod::lemma_fundamental_div_mod(2 * a + o, 2 * o);
    assert((2 * o) * h == 2 * (h * o) && (-h) * o == -(h * o)) by (nonlinear_arith);
}

/// A double whose value is a whole number is cut and rounded to that number.
pub(crate) proof fn lemma_whole_value_is_cut(bits: u64, n: int)
    requires
        is_finite(bits),
        value(bits) == n * one(),
    ensures
        forall|low: int, high: int| #[trigger] cut_to(bits, low, high) == clamped(n, low, high),
        forall|low: int, high: int| #[trigger] rounded_to(bits, low, high) == clamped(n, low, high),
{
    let o = one();
    lemma_pow2_pos(1074);
    assert((-n) * o == -(n * o)) by (nonlinear_arith);
    if n < 0 {
        assert(n * o < 0) by (nonlinear_arith)
            requires
                n < 0,
                o > 0,
        ;
        vstd::arithmetic::div_mod::lemma_fundamental_div_mod_converse((-n) * o, o, -n, 0);
    } else {
        assert(n * o >= 0) by (nonlinear_arith)
            requires
                n >= 0,
                o > 0,
        ;
        vstd::arithmetic::div_mod::lemma_fundamental_div_mod_converse(n * o, o, n, 0);
    }
    lemma_half_away_is_near(n * o, n);
}

/// A number of at most 112 bits is finite as a double.
pub(crate) proof fn lemma_finite_number(n: int, d: int, top: int)
    requires
        0 <= n,
        0 < d,
        n <= (top * one()) * d,
        0 <= top <= 0x1_0000_0000_0000_0000_0000_0000_0000,
    ensures
        0 <= nearest(n, d) < INFINITY,
{
    lemma_pow2_adds(64, 62);
    lemma_pow2_adds(126, 1074);
    lemma_pow2_pos(1074);
    vstd::arithmetic::power2::lemma2_to64();
    vstd::arithmetic::power2::lemma2_to64_rest();
    let o = one();
    let p = pow2(126) as int;
    assert((top * o) * d <= (p * o) * d) by (nonlinear_arith)
        requires
            top <= p,
            o > 0,
            d > 0,
    ;
    lemma_nearest_finite(n, d);
}

/// The double nearest to a 64-bit whole number is a whole number.
pub(crate) proof fn lemma_nearest_is_whole(x: int) -> (w: int)
    requires
        i64::MIN <= x <= i64::MAX,
    ensures
        is_finite(quotient(x, 1)),
        value(quotient(x, 1)) == w * one(),
{
    if -NEXT_BIT < x < NEXT_BIT {
        lemma_whole_is_exact(x);
        x
    } else {
        let o = one();
        lemma_pow2_pos(1074);
        let a = if x < 0 {
            -x
        } else {
            x
        };
        let n = a * o;
        assert((-x) * o == -(x * o)) by (nonlinear_arith);
        assert(NEXT_BIT * o <= n <= 0x8000_0000_0000_0000 * o && (x < 0 ==> x * o < 0))
            by (nonlinear_arith)
            requires
                n == a * o,
                NEXT_BIT <= a <= 0x8000_0000_0000_0000,
                x < 0 ==> a == -x,
                o > 0,
        ;
        lemma_finite_number(n, 1, 0x8000_0000_0000_0000);
        let r = nearest(n, 1);
        // 2^53 is a double, so the nearest one is not below it.
        let b = lemma_representable(HIDDEN_BIT as int, 1075);
        assert(units(b) == NEXT_BIT * o) by {
            lemma_pow2_unfold(1075);
            assert(HIDDEN_BIT * (2 * o) == NEXT_BIT * o) by (nonlinear_arith)
                requires
                    NEXT_BIT == 2 * HIDDEN_BIT,
            ;
        }
        lemma_nearest_is_nearest(n, 1, b);
        let k = scale(r) as nat;
        let m = significand(r);
        assert(units(r) * 1 == units(r) && units(b) * 1 == units(b));
        assert(units(r) >= NEXT_BIT * o);
        if k < 1074 {
            lemma_pow2_strictly_increases(k, 1074);
            let p = pow2(k) as int;
            assert(m * p < NEXT_BIT * o) by (nonlinear_arith)
                requires
                    m < NEXT_BIT,
                    0 <= p < o,
                    o > 0,
            ;
        }
        let up = (k - 1074) as nat;
        lemma_pow2_adds(up, 1074);
        let q = pow2(up) as int;
        assert(m * (q * o) == (m * q) * o) by (nonlinear_arith);
        let w = m * q;
        assert((-w) * o == -(w * o)) by (nonlinear_arith);
        if x < 0 {
            -w
        } else {
            w
        }
    }
}

/// The largest 64-bit whole number is rounded up as a double.
pub(crate) proof fn lemma_largest_is_rounded_up(w: int)
    requires
        value(quotient(i64::MAX as int, 1)) == w * one(),
    ensures
        w > i64::MAX,
{
    let o = one();
    lemma_pow2_pos(1074);
    lemma_pow2_adds(10, 1074);
    vstd::arithmetic::power2::lemma2_to64();
    let p = pow2(1084) as int;
    let n = i64::MAX * o;
    assert(p == 1024 * o);
    assert(n == (NEXT_BIT - 1) * p + 1023 * o) by (nonlinear_arith)
        requires
            n == 0x7FFF_FFFF_FFFF_FFFF * o,
            p == 1024 * o,
            NEXT_BIT == 0x20_0000_0000_0000,
    ;
    vstd::arithmetic::div_mod::lemma_fundamental_div_mod_converse(n, p, NEXT_BIT - 1, 1023 * o);
    lemma_nearest_at_scale(n, 1, 1084);
    lemma_units_compose(NEXT_BIT as int, 1084);
    assert(nearest(n, 1) == 1084 * HIDDEN_BIT + NEXT_BIT);
    assert(1084 * HIDDEN_BIT + NEXT_BIT < INFINITY);
    assert(w * o == NEXT_BIT * p);
    assert(w > i64::MAX) by (nonlinear_arith)
        requires
            w * o == NEXT_BIT * p,
            p == 1024 * o,
            o > 0,
            NEXT_BIT == 0x20_0000_0000_0000,
    ;
}

/// The smallest 64-bit whole number is a double.
pub(crate) proof fn lemma_smallest_is_a_double()
    ensures
        value(quotient(i64::MIN as int, 1)) == i64::MIN * one(),
{
    let o = one();
    lemma_pow2_pos(1074);
    lemma_pow2_adds(11, 1074);
    vstd::arithmetic::power2::lemma2_to64();
    let b = lemma_representable(HIDDEN_BIT as int, 1085);
    lemma_nearest_exact(b, 1);
    let n = 0x8000_0000_0000_0000 * o;
    assert(units(b) == n) by (nonlinear_arith)
        requires
            units(b) == HIDDEN_BIT * pow2(1085),
            pow2(1085) == 2048 * o,
            n == 0x8000_0000_0000_0000 * o,
            HIDDEN_BIT == 0x10_0000_0000_0000,
    ;
    assert(b < INFINITY) by {
        lemma_nearest_is_whole(i64::MIN as int);
    }
}

/// A number between two doubles is not rounded beyond either.
pub(crate) proof fn lemma_rounding_stays_between(n: int, low: int, high: int)
    requires
        0 <= low,
        0 <= high,
        units(low) <= n <= units(high),
        0 <= n,
    ensures
        units(low) <= units(nearest(n, 1)) <= units(high),
{
    lemma_nearest_is_nearest(n, 1, low);
    lemma_nearest_is_nearest(n, 1, high);
    let r = nearest(n, 1);
    assert(units(r) * 1 == units(r) && units(low) * 1 == units(low) && units(high) * 1 == units(
        high,
    ));
}

/// What remains of a double without its whole part is a double.
pub(crate) proof fn lemma_fraction_is_exact(r: int) -> (b: int)
    requires
        0 <= r < INFINITY,
    ensures
        nearest(units(r) % one(), 1) == b,
        0 <= b < INFINITY,
        units(b) == units(r) % one(),
{
    let k = scale(r) as nat;
    let m = significand(r);
    lemma_units_step(0);
    lemma_pow2_pos(1074);
    if k >= 1074 {
        lemma_multiple_of_one(m, k);
        lemma_nearest_exact(0, 1);
        0
    } else {
        let x = pow2((1074 - k) as nat) as int;
        let w = pow2(k) as int;
        lemma_pow2_pos(k);
        lemma_pow2_pos((1074 - k) as nat);
        lemma_pow2_adds(k, (1074 - k) as nat);
        lemma_mod_scales(m, x, w);
        vstd::arithmetic::div_mod::lemma_mod_pos_bound(m, x);
        vstd::arithmetic::div_mod::lemma_mod_decreases(m as nat, x as nat);
        let b = lemma_representable(m % x, k);
        lemma_nearest_exact(b, 1);
        assert(units(b) * 1 == units(b));
        assert(b < INFINITY) by (nonlinear_arith)
            requires
                b <= k * HIDDEN_BIT + m % x,
                k <= 1074,
                m % x < NEXT_BIT,
                HIDDEN_BIT == 0x10_0000_0000_0000,
                NEXT_BIT == 0x20_0000_0000_0000,
                INFINITY == 0x7FF0_0000_0000_0000,
        ;
        b
    }
}

/// Rounding a number of at most 112 bits moves it by at most its `2^53`-th part, or by
/// half a unit.
pub(crate) proof fn lemma_rounded_error(n: int, d: int, top: int)
    requires
        0 < d,
        size(n) <= (top * one()) * d,
        0 <= top <= 0x1_0000_0000_0000_0000_0000_0000_0000,
    ensures
        is_finite(rounded(n, d)),
        2 * size(value(rounded(n, d)) * d - n) <= d || NEXT_BIT * size(
            value(rounded(n, d)) * d - n,
        ) <= size(n),
{
    let a = size(n);
    let r = nearest(a, d);
    lemma_finite_number(a, d, top);
    lemma_nearest_error(a, d);
    let u = units(r);
    assert((-u) * d == -(u * d)) by (nonlinear_arith);
}

/// How far the sum of a double and a whole number is off.
pub(crate) proof fn lemma_sum_error(bits: u64, n: int, top: int)
    requires
        is_finite(bits),
        size(value(bits) + n * one()) <= top * one(),
        0 <= top <= 0x1_0000_0000_0000_0000_0000_0000_0000,
    ensures
        is_finite(sum(bits, n)),
        NEXT_BIT * size(value(sum(bits, n)) - (value(bits) + n * one())) <= size(
            value(bits) + n * one(),
        ),
{
    let x = value(bits) + n * one();
    assert((top * one()) * 1 == top * one());
    lemma_rounded_error(x, 1, top);
    let v = value(rounded(x, 1));
    assert(v * 1 == v);
}

/// How far the product of a double and a positive whole number is off.
pub(crate) proof fn lemma_product_error(bits: u64, k: int, top: int)
    requires
        is_finite(bits),
        k > 0,
        size(value(bits) * k) <= top * one(),
        0 <= top <= 0x1_0000_0000_0000_0000_0000_0000_0000,
    ensures
        is_finite(product(bits, k)),
        NEXT_BIT * size(value(product(bits, k)) - value(bits) * k) <= size(value(bits) * k),
{
    let u = units(magnitude(bits));
    lemma_units_step(0);
    if magnitude(bits) > 0 {
        lemma_units_increase(0, magnitude(bits));
    }
    assert(u * k >= 0 && (-u) * k == -(u * k)) by (nonlinear_arith)
        requires
            u >= 0,
            k > 0,
    ;
    assert((top * one()) * 1 == top * one());
    lemma_finite_number(u * k, 1, top);
    lemma_nearest_error(u * k, 1);
    let v = units(nearest(u * k, 1));
    assert(v * 1 == v);
}

/// How far a double divided by a positive whole number is off.
pub(crate) proof fn lemma_ratio_error(bits: u64, k: int, top: int)
    requires
        is_finite(bits),
        k > 0,
        size(value(bits)) <= (top * one()) * k,
        0 <= top <= 0x1_0000_0000_0000_0000_0000_0000_0000,
    ensures
        is_finite(ratio(bits, k)),
        2 * size(value(ratio(bits, k)) * k - value(bits)) <= k || NEXT_BIT * size(
            value(ratio(bits, k)) * k - value(bits),
        ) <= size(value(bits)),
{
    let u = units(magnitude(bits));
    lemma_units_step(0);
    if magnitude(bits) > 0 {
        lemma_units_increase(0, magnitude(bits));
    }
    lemma_finite_number(u, k, top);
    lemma_nearest_error(u, k);
    let v = units(nearest(u, k));
    assert((-v) * k == -(v * k)) by (nonlinear_arith);
}

} // verus!
