//! The magnitudes of double-precision numbers and rounding to the nearest of them.
//!
//! A double without its sign bit is a natural number below `2^63`. Read as a
//! number, its lower 52 bits are the fraction and the rest the biased exponent.
//! Every finite double is a whole multiple of the smallest one, `2^-1074`, so
//! the value of a magnitude is given here as a count of these units.

use vstd::prelude::*;
use vstd::arithmetic::power2::pow2;
use vstd::arithmetic::power2::lemma_pow2_adds;
use vstd::arithmetic::power2::lemma_pow2_pos;
use vstd::arithmetic::power2::lemma_pow2_unfold;

verus! {

/// `2^52`, the weight of the implicit leading bit.
pub const HIDDEN_BIT: u64 = 0x10_0000_0000_0000;

/// `2^53`, the first count of units that is not stored digit by digit.
pub const NEXT_BIT: u64 = 0x20_0000_0000_0000;

/// The magnitude of infinity; larger magnitudes are not numbers.
pub const INFINITY: u64 = 0x7FF0_0000_0000_0000;

/// The digits of a magnitude, with the implicit leading bit.
pub open spec fn significand(magnitude: int) -> int {
    if magnitude < HIDDEN_BIT {
        magnitude
    } else {
        HIDDEN_BIT + magnitude % HIDDEN_BIT as int
    }
}

/// The power of two, counted in units, by which the digits are scaled.
pub open spec fn scale(magnitude: int) -> int {
    if magnitude < HIDDEN_BIT {
        0
    } else {
        magnitude / HIDDEN_BIT as int - 1
    }
}

/// The value of a magnitude, counted in units of `2^-1074`.
pub open spec fn units(magnitude: int) -> int {
    significand(magnitude) * pow2(scale(magnitude) as nat)
}

/// The whole number nearest to `n / d`; of two equally near, the even one.
pub open spec fn half_even(n: int, d: int) -> int {
    let q = n / d;
    let r = n % d;
    if 2 * r < d || (2 * r == d && q % 2 == 0) {
        q
    } else {
        q + 1
    }
}

/// The magnitude nearest to `n / d` units; of two equally near, the even one.
///
/// Below `2^53` units the magnitudes are the whole numbers themselves. From
/// there on the magnitudes repeat with twice the spacing.
/// `lemma_nearest_is_nearest` states what this amounts to.
pub open spec fn nearest(n: int, d: int) -> int
    decreases n - d,
{
    if d <= 0 || n < 0 {
        0
    } else if n < NEXT_BIT * d {
        half_even(n, d)
    } else {
        HIDDEN_BIT + nearest(n, 2 * d)
    }
}

/// The distance between two whole numbers.
pub open spec fn distance(a: int, b: int) -> int {
    if a < b {
        b - a
    } else {
        a - b
    }
}

/// The value of a magnitude of at most `2^53` is the magnitude; beyond, adding
/// `2^52` to a magnitude doubles its value.
pub proof fn lemma_units_step(magnitude: int)
    requires
        0 <= magnitude,
    ensures
        magnitude <= NEXT_BIT ==> units(magnitude) == magnitude,
        NEXT_BIT <= magnitude ==> units(magnitude) == 2 * units(magnitude - HIDDEN_BIT),
{
    let h = HIDDEN_BIT as int;
    vstd::arithmetic::power2::lemma2_to64();
    if magnitude < h {
        assert(units(magnitude) == magnitude * 1);
    } else if magnitude < NEXT_BIT {
        assert(magnitude / h == 1 && magnitude % h == magnitude - h) by (nonlinear_arith)
            requires
                h <= magnitude < 2 * h,
                h == 0x10_0000_0000_0000,
        ;
        assert(units(magnitude) == magnitude * 1);
    } else {
        assert(magnitude / h == (magnitude - h) / h + 1 && magnitude % h == (magnitude - h) % h
            && (magnitude - h) / h >= 1) by (nonlinear_arith)
            requires
                2 * h <= magnitude,
                h == 0x10_0000_0000_0000,
        ;
        let k = scale(magnitude) as nat;
        lemma_pow2_unfold(k);
        assert(scale(magnitude - h) == k - 1);
        let s = significand(magnitude);
        let p = pow2((k - 1) as nat) as int;
        assert(s * (2 * p) == 2 * (s * p)) by (nonlinear_arith);
        if magnitude == NEXT_BIT {
            assert(units(magnitude - h) == h);
        }
    }
}

/// Larger magnitudes have larger values.
pub proof fn lemma_units_increase(a: int, b: int)
    requires
        0 <= a < b,
    ensures
        0 <= units(a) < units(b),
        b >= NEXT_BIT ==> units(b) >= NEXT_BIT,
    decreases b,
{
    lemma_units_step(a);
    lemma_units_step(b);
    if b > NEXT_BIT {
        if a >= NEXT_BIT {
            lemma_units_increase(a - HIDDEN_BIT, b - HIDDEN_BIT);
            if b - HIDDEN_BIT >= NEXT_BIT {
            } else {
                lemma_units_step(b - HIDDEN_BIT);
            }
        } else {
            lemma_units_step(b - HIDDEN_BIT);
            lemma_units_increase(HIDDEN_BIT as int, b - HIDDEN_BIT);
            lemma_units_step(HIDDEN_BIT as int);
        }
    }
}

/// A magnitude put together from digits of 53 bits and a scale.
pub proof fn lemma_units_compose(m: int, k: nat)
    requires
        0 <= m <= NEXT_BIT,
        k > 0 ==> HIDDEN_BIT <= m,
    ensures
        units(k * HIDDEN_BIT + m) == m * pow2(k),
    decreases k,
{
    vstd::arithmetic::power2::lemma2_to64();
    lemma_units_step(k * HIDDEN_BIT + m);
    if k > 0 {
        lemma_units_compose(m, (k - 1) as nat);
        lemma_pow2_unfold(k);
        let p = pow2((k - 1) as nat) as int;
        assert(m * (2 * p) == 2 * (m * p)) by (nonlinear_arith);
        assert(k * HIDDEN_BIT == (k - 1) * HIDDEN_BIT + HIDDEN_BIT) by (nonlinear_arith);
        assert((k - 1) * HIDDEN_BIT >= 0) by (nonlinear_arith)
            requires
                k >= 1,
        ;
    }
}

/// Rounding depends on the quotient alone.
pub proof fn lemma_half_even_scales(n: int, d: int, c: int)
    requires
        0 <= n,
        0 < d,
        0 < c,
    ensures
        0 < c * d,
        0 <= c * n,
        half_even(c * n, c * d) == half_even(n, d),
{
    let q = n / d;
    let r = n % d;
    vstd::arithmetic::div_mod::lemma_fundamental_div_mod(n, d);
    assert(0 < c * d) by (nonlinear_arith)
        requires
            0 < c,
            0 < d,
    ;
    assert(c * n == (c * d) * q + c * r) by (nonlinear_arith)
        requires
            n == d * q + r,
    ;
    assert(0 <= c * r < c * d) by (nonlinear_arith)
        requires
            0 <= r < d,
            0 < c,
    ;
    assert(0 <= c * n) by (nonlinear_arith)
        requires
            0 <= n,
            0 < c,
    ;
    vstd::arithmetic::div_mod::lemma_fundamental_div_mod_converse(c * n, c * d, q, c * r);
    assert(2 * r < d <==> 2 * (c * r) < c * d) by (nonlinear_arith)
        requires
            0 < c,
    ;
    assert(2 * r == d <==> 2 * (c * r) == c * d) by (nonlinear_arith)
        requires
            0 < c,
    ;
}

/// The nearest magnitude depends on the quotient alone.
pub proof fn lemma_nearest_scales(n: int, d: int, c: int)
    requires
        0 <= n,
        0 < d,
        0 < c,
    ensures
        nearest(c * n, c * d) == nearest(n, d),
    decreases n - d,
{
    lemma_half_even_scales(n, d, c);
    assert(n < NEXT_BIT * d <==> c * n < NEXT_BIT * (c * d)) by (nonlinear_arith)
        requires
            0 < c,
    ;
    if n >= NEXT_BIT * d {
        lemma_nearest_scales(n, 2 * d, c);
        assert(c * (2 * d) == 2 * (c * d)) by (nonlinear_arith);
    }
}

/// Rounding a quotient whose digits at scale `k` fill 53 bits.
pub proof fn lemma_nearest_at_scale(n: int, d: int, k: nat)
    requires
        0 <= n,
        0 < d,
        n < NEXT_BIT * (d * pow2(k)),
        k > 0 ==> HIDDEN_BIT * (d * pow2(k)) <= n,
    ensures
        nearest(n, d) == k * HIDDEN_BIT + half_even(n, d * pow2(k)),
    decreases k,
{
    vstd::arithmetic::power2::lemma2_to64();
    if k == 0 {
        assert(pow2(k) == 1);
        assert(d * 1 == d);
    } else {
        lemma_pow2_unfold(k);
        lemma_pow2_pos((k - 1) as nat);
        let p = pow2((k - 1) as nat) as int;
        assert(d * (2 * p) == (2 * d) * p) by (nonlinear_arith);
        assert(NEXT_BIT * d <= HIDDEN_BIT * (d * (2 * p))) by (nonlinear_arith)
            requires
                0 < p,
                0 < d,
                NEXT_BIT == 2 * HIDDEN_BIT,
        ;
        lemma_nearest_at_scale(n, 2 * d, (k - 1) as nat);
        assert(k * HIDDEN_BIT == (k - 1) * HIDDEN_BIT + HIDDEN_BIT) by (nonlinear_arith);
    }
}

/// A whole number of halves away from both neighbours is rounded to within a half.
proof fn lemma_half_even_bounds(n: int, d: int)
    requires
        0 <= n,
        0 < d,
    ensures
        0 <= half_even(n, d),
        2 * distance(half_even(n, d) * d, n) <= d,
        forall|x: int| distance(half_even(n, d) * d, n) <= distance(#[trigger] (x * d), n),
        forall|x: int|
            distance(half_even(n, d) * d, n) == distance(#[trigger] (x * d), n) && x != half_even(
                n,
                d,
            ) ==> half_even(n, d) % 2 == 0,
        forall|x: int| 0 <= x && #[trigger] (x * d) <= n ==> x <= half_even(n, d),
        forall|x: int| 0 <= x && n <= #[trigger] (x * d) ==> half_even(n, d) <= x,
{
    let q = n / d;
    let r = n % d;
    let h = half_even(n, d);
    vstd::arithmetic::div_mod::lemma_fundamental_div_mod(n, d);
    assert(q >= 0) by {
        vstd::arithmetic::div_mod::lemma_div_pos_is_pos(n, d);
    }
    assert(q * d == d * q && (q + 1) * d == d * q + d) by (nonlinear_arith);
    assert forall|x: int|
        distance(h * d, n) <= distance(#[trigger] (x * d), n) && (distance(h * d, n) == distance(
            x * d,
            n,
        ) && x != h ==> h % 2 == 0) && (x * d <= n ==> x <= h) && (n <= x * d ==> h <= x) by {
        if x <= q - 1 {
            assert(x * d <= (q - 1) * d) by (nonlinear_arith)
                requires
                    x <= q - 1,
                    0 < d,
            ;
            assert((q - 1) * d == d * q - d) by (nonlinear_arith);
        } else if x >= q + 2 {
            assert(x * d >= (q + 2) * d) by (nonlinear_arith)
                requires
                    x >= q + 2,
                    0 < d,
            ;
            assert((q + 2) * d == d * q + 2 * d) by (nonlinear_arith);
        }
    }
}

/// The nearest magnitude is at least as near as any other, and even when
/// another one is equally near: this is rounding to nearest, ties to even.
pub proof fn lemma_nearest_is_nearest(n: int, d: int, other: int)
    requires
        0 <= n,
        0 < d,
        0 <= other,
    ensures
        0 <= nearest(n, d),
        distance(units(nearest(n, d)) * d, n) <= distance(units(other) * d, n),
        distance(units(nearest(n, d)) * d, n) == distance(units(other) * d, n) && other != nearest(
            n,
            d,
        ) ==> nearest(n, d) % 2 == 0,
    decreases n - d,
{
    lemma_half_even_bounds(n, d);
    lemma_units_step(other);
    let r = nearest(n, d);
    if n < NEXT_BIT * d {
        lemma_units_step(r);
        assert(r <= NEXT_BIT) by {
            assert(NEXT_BIT as int * d >= n);
        }
        assert(distance(r * d, n) <= distance(units(other) * d, n));
        if other >= NEXT_BIT && other != r {
            if other > NEXT_BIT {
                lemma_units_increase(NEXT_BIT as int, other);
                lemma_units_step(NEXT_BIT as int);
            }
        }
    } else {
        let far = nearest(n, 2 * d);
        lemma_nearest_lower(n, 2 * d);
        lemma_units_step(r);
        let u = units(far);
        assert((2 * u) * d == u * (2 * d)) by (nonlinear_arith);
        if other >= NEXT_BIT {
            lemma_nearest_is_nearest(n, 2 * d, other - HIDDEN_BIT);
            let v = units(other - HIDDEN_BIT);
            assert((2 * v) * d == v * (2 * d)) by (nonlinear_arith);
        } else {
            lemma_nearest_is_nearest(n, 2 * d, HIDDEN_BIT as int);
            lemma_units_step(HIDDEN_BIT as int);
            assert(HIDDEN_BIT * (2 * d) == NEXT_BIT * d) by (nonlinear_arith)
                requires
                    NEXT_BIT == 2 * HIDDEN_BIT,
            ;
            assert(other * d < NEXT_BIT * d) by (nonlinear_arith)
                requires
                    other < NEXT_BIT,
                    0 < d,
            ;
        }
    }
}

/// A quotient of at least `2^52` units is not rounded below `2^52`.
proof fn lemma_nearest_lower(n: int, d: int)
    requires
        0 < d,
        HIDDEN_BIT * d <= n,
    ensures
        HIDDEN_BIT <= nearest(n, d),
    decreases n - d,
{
    assert(0 <= n) by (nonlinear_arith)
        requires
            0 < d,
            HIDDEN_BIT * d <= n,
    ;
    lemma_half_even_bounds(n, d);
    assert(HIDDEN_BIT as int * d <= n);
    if n >= NEXT_BIT * d {
        assert(HIDDEN_BIT * (2 * d) == NEXT_BIT * d) by (nonlinear_arith)
            requires
                NEXT_BIT == 2 * HIDDEN_BIT,
        ;
        lemma_nearest_lower(n, 2 * d);
    }
}

/// Rounding moves a quotient by at most half a unit, or by at most its `2^53`-th part.
pub proof fn lemma_nearest_error(n: int, d: int)
    requires
        0 <= n,
        0 < d,
    ensures
        0 <= nearest(n, d),
        2 * distance(units(nearest(n, d)) * d, n) <= d || NEXT_BIT * distance(
            units(nearest(n, d)) * d,
            n,
        ) <= n,
    decreases n - d,
{
    lemma_half_even_bounds(n, d);
    let r = nearest(n, d);
    if n < NEXT_BIT * d {
        assert(NEXT_BIT as int * d >= n);
        lemma_units_step(r);
    } else {
        let far = nearest(n, 2 * d);
        lemma_nearest_lower(n, 2 * d);
        lemma_nearest_error(n, 2 * d);
        lemma_units_step(r);
        let u = units(far);
        assert((2 * u) * d == u * (2 * d)) by (nonlinear_arith);
        let e = distance(u * (2 * d), n);
        if 2 * e <= 2 * d {
            assert(NEXT_BIT * e <= n) by (nonlinear_arith)
                requires
                    e <= d,
                    n >= NEXT_BIT * d,
            ;
        }
    }
}

/// Rounding moves a quotient below `2^(53 + k)` units by at most half of `2^k` units.
pub proof fn lemma_nearest_error_at(n: int, d: int, k: nat)
    requires
        0 <= n,
        0 < d,
        n < NEXT_BIT * (d * pow2(k)),
    ensures
        0 <= nearest(n, d),
        2 * distance(units(nearest(n, d)) * d, n) <= d * pow2(k),
    decreases k,
{
    lemma_half_even_bounds(n, d);
    lemma_pow2_pos(k);
    vstd::arithmetic::power2::lemma2_to64();
    let r = nearest(n, d);
    let p = pow2(k) as int;
    assert(d <= d * p) by (nonlinear_arith)
        requires
            p >= 1,
            d > 0,
    ;
    if n < NEXT_BIT * d {
        assert(NEXT_BIT as int * d >= n);
        lemma_units_step(r);
    } else {
        assert(k > 0) by {
            if k == 0 {
                assert(d * 1 == d);
            }
        }
        let far = nearest(n, 2 * d);
        lemma_pow2_unfold(k);
        let q = pow2((k - 1) as nat) as int;
        assert(d * (2 * q) == (2 * d) * q) by (nonlinear_arith);
        assert(HIDDEN_BIT * (2 * d) == NEXT_BIT * d) by (nonlinear_arith)
            requires
                NEXT_BIT == 2 * HIDDEN_BIT,
        ;
        lemma_nearest_lower(n, 2 * d);
        lemma_nearest_error_at(n, 2 * d, (k - 1) as nat);
        lemma_units_step(r);
        let u = units(far);
        assert((2 * u) * d == u * (2 * d)) by (nonlinear_arith);
    }
}

/// A quotient of at most `2^1200` units is rounded to a finite magnitude.
pub proof fn lemma_nearest_finite(n: int, d: int)
    requires
        0 <= n,
        0 < d,
        n <= pow2(1200) * d,
    ensures
        0 <= nearest(n, d) < INFINITY,
{
    let r = nearest(n, d);
    lemma_nearest_error(n, d);
    if r >= INFINITY {
        if r > INFINITY {
            lemma_units_increase(INFINITY as int, r);
        }
        let top = units(INFINITY as int);
        assert(INFINITY == 2046 * HIDDEN_BIT + HIDDEN_BIT);
        lemma_units_compose(HIDDEN_BIT as int, 2046);
        assert(top == HIDDEN_BIT * pow2(2046));
        lemma_pow2_pos(1200);
        lemma_pow2_pos(846);
        lemma_pow2_adds(1200, 846);
        let p = pow2(1200) as int;
        let q = pow2(846) as int;
        assert(top >= 16 * p) by (nonlinear_arith)
            requires
                top == HIDDEN_BIT * (p * q),
                HIDDEN_BIT >= 16,
                p >= 1,
                q >= 1,
        ;
        let u = units(r);
        assert(u * d >= 16 * p * d) by (nonlinear_arith)
            requires
                u >= 16 * p,
                d > 0,
        ;
        assert(16 * p * d == 16 * (p * d)) by (nonlinear_arith);
        assert(p * d >= d) by (nonlinear_arith)
            requires
                p >= 1,
                d > 0,
        ;
        assert(NEXT_BIT * distance(u * d, n) >= distance(u * d, n));
    }
}

/// A quotient that is the value of a magnitude is rounded to that magnitude.
pub proof fn lemma_nearest_exact(magnitude: int, d: int)
    requires
        0 <= magnitude,
        0 < d,
    ensures
        nearest(units(magnitude) * d, d) == magnitude,
    decreases magnitude,
{
    lemma_units_step(magnitude);
    let n = units(magnitude) * d;
    if magnitude < NEXT_BIT {
        assert(n < NEXT_BIT * d) by (nonlinear_arith)
            requires
                n == magnitude * d,
                magnitude < NEXT_BIT,
                0 < d,
        ;
        assert(n >= 0) by (nonlinear_arith)
            requires
                n == magnitude * d,
                0 <= magnitude,
                0 < d,
        ;
        vstd::arithmetic::div_mod::lemma_fundamental_div_mod_converse(n, d, magnitude, 0);
    } else {
        if magnitude > NEXT_BIT {
            lemma_units_increase(NEXT_BIT as int, magnitude);
            lemma_units_step(NEXT_BIT as int);
        }
        let u = units(magnitude);
        assert(u * d >= NEXT_BIT * d) by (nonlinear_arith)
            requires
                u >= NEXT_BIT,
                0 < d,
        ;
        assert(NEXT_BIT * d > 0) by (nonlinear_arith)
            requires
                0 < d,
                NEXT_BIT > 0,
        ;
        lemma_nearest_exact(magnitude - HIDDEN_BIT, 2 * d);
        let v = units(magnitude - HIDDEN_BIT);
        assert((2 * v) * d == v * (2 * d)) by (nonlinear_arith);
    }
}

/// A change of less than an eighth of the spacing is rounded away.
pub proof fn lemma_nearest_absorbs(m: int, k: nat, delta: int)
    requires
        HIDDEN_BIT <= m < NEXT_BIT,
        k > 0,
        -pow2(k) < 8 * delta < pow2(k),
    ensures
        m * pow2(k) + delta > 0,
        nearest(m * pow2(k) + delta, 1) == k * HIDDEN_BIT + m,
{
    let p = pow2(k) as int;
    let n = m * p + delta;
    lemma_pow2_pos(k);
    lemma_pow2_unfold(k);
    assert(n < NEXT_BIT * p) by (nonlinear_arith)
        requires
            m + 1 <= NEXT_BIT,
            n == m * p + delta,
            delta < p,
            p > 0,
    ;
    assert(n > 0 && n >= HIDDEN_BIT * p - p) by (nonlinear_arith)
        requires
            n == m * p + delta,
            m >= HIDDEN_BIT,
            HIDDEN_BIT > 1,
            -p < delta,
            p > 0,
    ;
    if n >= HIDDEN_BIT * p {
        assert(1 * p == p);
        lemma_nearest_at_scale(n, 1, k);
        if delta >= 0 {
            vstd::arithmetic::div_mod::lemma_fundamental_div_mod_converse(n, p, m, delta);
        } else {
            assert(n == (m - 1) * p + (p + delta)) by (nonlinear_arith)
                requires
                    n == m * p + delta,
            ;
            vstd::arithmetic::div_mod::lemma_fundamental_div_mod_converse(n, p, m - 1, p + delta);
        }
    } else {
        let half = pow2((k - 1) as nat) as int;
        assert(m == HIDDEN_BIT && delta < 0) by (nonlinear_arith)
            requires
                n == m * p + delta,
                n < HIDDEN_BIT * p,
                m >= HIDDEN_BIT,
                -p < delta,
                p > 0,
        ;
        assert(n == NEXT_BIT * half + delta && n >= HIDDEN_BIT * half) by (nonlinear_arith)
            requires
                n == m * p + delta,
                m == HIDDEN_BIT,
                p == 2 * half,
                NEXT_BIT == 2 * HIDDEN_BIT,
                HIDDEN_BIT > 1,
                -half < delta,
                half > 0,
        ;
        assert(1 * half == half);
        lemma_nearest_at_scale(n, 1, (k - 1) as nat);
        assert(n == (NEXT_BIT - 1) * half + (half + delta)) by (nonlinear_arith)
            requires
                n == NEXT_BIT * half + delta,
        ;
        vstd::arithmetic::div_mod::lemma_fundamental_div_mod_converse(
            n,
            half,
            NEXT_BIT - 1,
            half + delta,
        );
        assert(k * HIDDEN_BIT == (k - 1) * HIDDEN_BIT + HIDDEN_BIT) by (nonlinear_arith);
    }
}

} // verus!
