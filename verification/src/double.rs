//! Double-precision numbers as bit patterns.
//!
//! A QVD stores its numbers as IEEE 754 doubles. They are carried as the `u64`
//! that holds their bits, and the few operations that dates, times and durations
//! need are carried out on the bits in whole-number arithmetic. Each operation
//! returns the double nearest to the exact result, ties to even.

use vstd::prelude::*;
use vstd::arithmetic::power2::pow2;
use vstd::arithmetic::power2::lemma_pow2_adds;
use vstd::arithmetic::power2::lemma_pow2_pos;
use vstd::arithmetic::power2::lemma_pow2_unfold;
use vstd::arithmetic::power2::lemma_pow2_strictly_increases;
use crate::rounding::{HIDDEN_BIT, INFINITY, NEXT_BIT};
use crate::rounding::{half_even, nearest, scale, significand, units};
use crate::rounding::{
    lemma_half_even_scales,
    lemma_nearest_absorbs,
    lemma_nearest_at_scale,
    lemma_nearest_exact,
    lemma_nearest_scales,
    lemma_units_compose,
    lemma_units_increase,
    lemma_units_step,
};

verus! {

/// The bit that is set in negative doubles.
pub const SIGN_BIT: u64 = 0x8000_0000_0000_0000;

/// The double that the operations return where the result is not a number.
pub const NOT_A_NUMBER: u64 = 0x7FF8_0000_0000_0000;

/// Whether the sign bit is set.
pub open spec fn negative(bits: u64) -> bool {
    bits >= SIGN_BIT
}

/// The bits without the sign.
pub open spec fn magnitude(bits: u64) -> int {
    if negative(bits) {
        bits - SIGN_BIT
    } else {
        bits as int
    }
}

/// Whether the bits stand for no number.
pub open spec fn is_nan(bits: u64) -> bool {
    magnitude(bits) > INFINITY
}

/// Whether the bits stand for a number other than the infinities.
pub open spec fn is_finite(bits: u64) -> bool {
    magnitude(bits) < INFINITY
}

/// The value of a finite double, counted in units of `2^-1074`.
pub open spec fn value(bits: u64) -> int {
    if negative(bits) {
        -units(magnitude(bits))
    } else {
        units(magnitude(bits))
    }
}

/// The number one, counted in units of `2^-1074`.
pub open spec fn one() -> int {
    pow2(1074) as int
}

/// A magnitude, or that of infinity where it is too large.
pub open spec fn capped(size: int) -> int {
    if size < INFINITY {
        size
    } else {
        INFINITY as int
    }
}

/// A double with the given sign and magnitude; what is too large becomes infinite.
pub open spec fn signed(minus: bool, size: int) -> u64 {
    if minus {
        (SIGN_BIT + capped(size)) as u64
    } else {
        capped(size) as u64
    }
}

/// The double nearest to `n / d` units.
pub open spec fn rounded(n: int, d: int) -> u64 {
    if n < 0 {
        signed(true, nearest(-n, d))
    } else {
        signed(false, nearest(n, d))
    }
}

/// The double nearest to the quotient of two whole numbers.
pub open spec fn quotient(n: int, d: int) -> u64 {
    rounded(n * one(), d)
}

/// The double nearest to a double plus a whole number.
pub open spec fn sum(bits: u64, n: int) -> u64 {
    if is_nan(bits) {
        NOT_A_NUMBER
    } else if !is_finite(bits) {
        bits
    } else {
        rounded(value(bits) + n * one(), 1)
    }
}

/// The double nearest to a double times a positive whole number.
pub open spec fn product(bits: u64, k: int) -> u64 {
    if is_nan(bits) {
        NOT_A_NUMBER
    } else if !is_finite(bits) {
        bits
    } else {
        signed(negative(bits), nearest(units(magnitude(bits)) * k, 1))
    }
}

/// The double nearest to a double divided by a positive whole number.
pub open spec fn ratio(bits: u64, k: int) -> u64 {
    if is_nan(bits) {
        NOT_A_NUMBER
    } else if !is_finite(bits) {
        bits
    } else {
        signed(negative(bits), nearest(units(magnitude(bits)), k))
    }
}

/// The double nearest to what a double exceeds the next lower whole number by.
pub open spec fn above_floor(bits: u64) -> u64 {
    if !is_finite(bits) {
        NOT_A_NUMBER
    } else {
        rounded(value(bits) % one(), 1)
    }
}

/// What remains of a double without its whole part, with the double's sign.
pub open spec fn beyond_whole(bits: u64) -> u64 {
    if !is_finite(bits) {
        NOT_A_NUMBER
    } else {
        signed(negative(bits), nearest(units(magnitude(bits)) % one(), 1))
    }
}

/// `v / d` without its fraction.
pub open spec fn truncated(v: int, d: int) -> int {
    if v < 0 {
        -((-v) / d)
    } else {
        v / d
    }
}

/// `v / d` rounded to the nearest whole number, halves away from zero.
pub open spec fn half_away(v: int, d: int) -> int {
    if v < 0 {
        -((2 * (-v) + d) / (2 * d))
    } else {
        (2 * v + d) / (2 * d)
    }
}

/// The number between `low` and `high` that is closest to `x`.
pub open spec fn clamped(x: int, low: int, high: int) -> int {
    if x < low {
        low
    } else if x > high {
        high
    } else {
        x
    }
}

/// A double cut to a whole number of a bounded type; 0 where it is not a number.
pub open spec fn cut_to(bits: u64, low: int, high: int) -> int {
    if is_nan(bits) {
        0
    } else if !is_finite(bits) {
        if negative(bits) {
            low
        } else {
            high
        }
    } else {
        clamped(truncated(value(bits), one()), low, high)
    }
}

/// A double rounded to a whole number of a bounded type, halves away from zero;
/// 0 where it is not a number.
pub open spec fn rounded_to(bits: u64, low: int, high: int) -> int {
    if is_nan(bits) {
        0
    } else if !is_finite(bits) {
        if negative(bits) {
            low
        } else {
            high
        }
    } else {
        clamped(half_away(value(bits), one()), low, high)
    }
}

/// The sign, the digits and the scale of a double.
fn parts(bits: u64) -> (r: (bool, u64, u32))
    ensures
        r.0 == negative(bits),
        r.1 == significand(magnitude(bits)),
        r.2 == scale(magnitude(bits)),
        units(magnitude(bits)) == r.1 * pow2(r.2 as nat),
        r.1 < NEXT_BIT,
        r.2 > 0 ==> HIDDEN_BIT <= r.1,
        r.2 <= 2046,
        magnitude(bits) == r.2 * HIDDEN_BIT + r.1,
{
    let minus = bits >= SIGN_BIT;
    let size: u64 = if minus {
        bits - SIGN_BIT
    } else {
        bits
    };
    if size < HIDDEN_BIT {
        (minus, size, 0)
    } else {
        let m: u64 = HIDDEN_BIT + size % HIDDEN_BIT;
        let k: u64 = size / HIDDEN_BIT - 1;
        (minus, m, k as u32)
    }
}

/// `2^k`.
fn power_of_two(k: u32) -> (r: u128)
    requires
        k < 128,
    ensures
        r == pow2(k as nat),
        r >= 1,
{
    let mut r: u128 = 1;
    let mut i: u32 = 0;
    proof {
        vstd::arithmetic::power2::lemma2_to64();
    }
    while i < k
        invariant
            i <= k < 128,
            r == pow2(i as nat),
            r >= 1,
        decreases k - i,
    {
        proof {
            lemma_pow2_unfold((i + 1) as nat);
            lemma_power_below_2_128((i + 1) as nat);
        }
        r = 2 * r;
        i = i + 1;
    }
    r
}

proof fn lemma_power_below_2_128(k: nat)
    requires
        k < 128,
    ensures
        2 * pow2(k) <= 0x1_0000_0000_0000_0000_0000_0000_0000_0000int,
{
    vstd::arithmetic::power2::lemma2_to64();
    lemma_pow2_adds(64, 63);
    assert(pow2(63) == 0x8000_0000_0000_0000) by {
        lemma_pow2_unfold(64);
    }
    if k < 127 {
        lemma_pow2_strictly_increases(k, 127);
    }
}

/// The magnitude nearest to `n * 2^t / d` units.
fn round_quotient(n: u128, d: u128, t: u32) -> (r: u64)
    requires
        0 < d < 0x8000_0000_0000_0000_0000_0000_0000_0000,
        t <= 4000,
    ensures
        r == capped(nearest(n * pow2(t as nat), d as int)),
        r <= INFINITY,
{
    if n == 0 {
        proof {
            assert(n * pow2(t as nat) == 0) by (nonlinear_arith)
                requires
                    n == 0,
            ;
            vstd::arithmetic::div_mod::lemma_fundamental_div_mod_converse(0, d as int, 0, 0);
        }
        return 0;
    }
    let mut q: u128 = n / d;
    let mut r: u128 = n % d;
    let mut k: u32 = t;
    let ghost whole: int = n * pow2(t as nat);
    proof {
        vstd::arithmetic::div_mod::lemma_fundamental_div_mod(n as int, d as int);
        assert(q * d == d * q) by (nonlinear_arith);
    }
    // Draw more digits of the quotient until they fill 53 bits.
    while q < HIDDEN_BIT as u128 && k > 0
        invariant
            0 < d < 0x8000_0000_0000_0000_0000_0000_0000_0000,
            r < d,
            k <= t <= 4000,
            whole == (q * d + r) * pow2(k as nat),
        decreases k,
    {
        let ghost q0: int = q as int;
        let ghost r0: int = r as int;
        let twice: u128 = 2 * r;
        if twice >= d {
            q = 2 * q + 1;
            r = twice - d;
            assert((2 * q0 + 1) * d + (2 * r0 - d) == 2 * (q0 * d + r0)) by (nonlinear_arith);
        } else {
            q = 2 * q;
            r = twice;
            assert((2 * q0) * d + 2 * r0 == 2 * (q0 * d + r0)) by (nonlinear_arith);
        }
        proof {
            lemma_pow2_unfold(k as nat);
            let p = pow2((k - 1) as nat) as int;
            let x = q0 * d + r0;
            assert(x * (2 * p) == (2 * x) * p) by (nonlinear_arith);
        }
        k = k - 1;
    }
    // Drop digits beyond 53 bits, remembering what was dropped.
    let mut half: bool = 2 * r >= d;
    let mut sticky: bool = r != 0 && 2 * r != d;
    let ghost mut dd: int = d as int;
    let ghost mut rr: int = r as int;
    let ghost mut steps: nat = 0;
    proof {
        vstd::arithmetic::power2::lemma2_to64();
        assert(q * pow2(0) == q);
    }
    while q >= NEXT_BIT as u128
        invariant
            0 <= rr < dd,
            half == (2 * rr >= dd),
            sticky == (rr != 0 && 2 * rr != dd),
            q >= HIDDEN_BIT as u128 || k == 0,
            nearest(whole, d as int) == nearest((q * dd + rr) * pow2(k as nat), dd),
            q * pow2(steps) <= u128::MAX,
            k <= 4000 + steps,
        decreases q,
    {
        let ghost q0: int = q as int;
        let odd: bool = q % 2 == 1;
        proof {
            lemma_steps_bounded(q0, steps);
            let n0 = q0 * dd + rr;
            let p = pow2(k as nat) as int;
            lemma_pow2_unfold((k + 1) as nat);
            lemma_pow2_pos(k as nat);
            assert(n0 >= 0 && n0 * p >= 0) by (nonlinear_arith)
                requires
                    n0 == q0 * dd + rr,
                    q0 >= 0,
                    dd > 0,
                    rr >= 0,
                    p > 0,
            ;
            lemma_nearest_scales(n0 * p, dd, 2);
            assert(2 * (n0 * p) == n0 * (2 * p)) by (nonlinear_arith);
            let q1 = q0 / 2;
            assert(q0 * dd + rr == q1 * (2 * dd) + ((q0 % 2) * dd + rr)) by (nonlinear_arith)
                requires
                    q0 == 2 * q1 + q0 % 2,
            ;
            lemma_pow2_unfold((steps + 1) as nat);
            let ps = pow2(steps) as int;
            lemma_pow2_pos(steps);
            assert(q1 * (2 * ps) <= q0 * ps) by (nonlinear_arith)
                requires
                    2 * q1 <= q0,
                    ps > 0,
            ;
            assert((q0 % 2) * dd == if odd {
                dd
            } else {
                0
            }) by (nonlinear_arith)
                requires
                    q0 % 2 == if odd {
                        1int
                    } else {
                        0int
                    },
            ;
            rr = (q0 % 2) * dd + rr;
            dd = 2 * dd;
            steps = steps + 1;
        }
        sticky = sticky || half;
        half = odd;
        q = q / 2;
        k = k + 1;
    }
    let up: bool = half && (sticky || q % 2 == 1);
    let m: u128 = if up {
        q + 1
    } else {
        q
    };
    proof {
        let n1 = q * dd + rr;
        let p = pow2(k as nat) as int;
        lemma_pow2_pos(k as nat);
        assert(n1 >= 0 && n1 * p >= 0) by (nonlinear_arith)
            requires
                n1 == q * dd + rr,
                q >= 0,
                dd > 0,
                rr >= 0,
                p > 0,
        ;
        assert(n1 < NEXT_BIT * dd) by (nonlinear_arith)
            requires
                n1 == q * dd + rr,
                q + 1 <= NEXT_BIT,
                0 <= rr < dd,
        ;
        assert(n1 * p < NEXT_BIT * (dd * p)) by (nonlinear_arith)
            requires
                n1 < NEXT_BIT * dd,
                p > 0,
        ;
        if k > 0 {
            assert(HIDDEN_BIT * (dd * p) <= n1 * p) by (nonlinear_arith)
                requires
                    n1 == q * dd + rr,
                    q >= HIDDEN_BIT,
                    rr >= 0,
                    dd > 0,
                    p > 0,
            ;
        }
        lemma_nearest_at_scale(n1 * p, dd, k as nat);
        lemma_half_even_scales(n1, dd, p);
        assert(p * n1 == n1 * p && p * dd == dd * p) by (nonlinear_arith);
        vstd::arithmetic::div_mod::lemma_fundamental_div_mod_converse(n1, dd, q as int, rr);
        assert(half_even(n1, dd) == m);
    }
    let size: u128 = (k as u128) * (HIDDEN_BIT as u128) + m;
    if size < INFINITY as u128 {
        size as u64
    } else {
        INFINITY
    }
}

proof fn lemma_steps_bounded(q: int, steps: nat)
    requires
        q >= NEXT_BIT,
        q * pow2(steps) <= u128::MAX,
    ensures
        steps <= 75,
{
    if steps > 75 {
        vstd::arithmetic::power2::lemma2_to64();
        lemma_pow2_adds(64, 11);
        if steps > 75 {
            lemma_pow2_strictly_increases(75, steps);
        }
        lemma_pow2_unfold(76);
        if steps > 76 {
            lemma_pow2_strictly_increases(76, steps);
        }
        let p = pow2(steps) as int;
        assert(q * p >= NEXT_BIT * p) by (nonlinear_arith)
            requires
                q >= NEXT_BIT,
                p >= 0,
        ;
    }
}

/// The double nearest to `n / d`, negated where `minus` is set.
pub fn divide(minus: bool, n: u128, d: u128) -> (r: u64)
    requires
        0 < d < 0x8000_0000_0000_0000_0000_0000_0000_0000,
        minus ==> n > 0,
    ensures
        r == quotient(if minus {
            -(n as int)
        } else {
            n as int
        }, d as int),
{
    let size: u64 = round_quotient(n, d, 1074);
    proof {
        lemma_pow2_pos(1074);
        let o = one();
        assert((-(n as int)) * o == -(n * o)) by (nonlinear_arith);
        if minus {
            assert(n * o > 0) by (nonlinear_arith)
                requires
                    n > 0,
                    o > 0,
            ;
        } else {
            assert(n * o >= 0) by (nonlinear_arith)
                requires
                    n >= 0,
                    o > 0,
            ;
        }
    }
    if minus {
        SIGN_BIT + size
    } else {
        size
    }
}

/// The double nearest to a whole number.
pub fn whole(n: i64) -> (r: u64)
    ensures
        r == quotient(n as int, 1),
{
    if n < 0 {
        divide(true, (-(n as i128)) as u128, 1)
    } else {
        divide(false, n as u128, 1)
    }
}

/// A double plus a whole number that is not zero.
pub fn add_whole(bits: u64, n: i32) -> (r: u64)
    requires
        n != 0,
        -32768 <= n <= 32768,
    ensures
        r == sum(bits, n as int),
{
    let (minus, m, k) = parts(bits);
    let size: u64 = if minus {
        bits - SIGN_BIT
    } else {
        bits
    };
    if size > INFINITY {
        return NOT_A_NUMBER;
    }
    if size == INFINITY {
        return bits;
    }
    let ghost exact: int = value(bits) + n * one();
    proof {
        lemma_pow2_pos(k as nat);
        lemma_pow2_pos(1074);
    }
    if k >= 1074 {
        let up: u32 = k - 1074;
        proof {
            lemma_pow2_adds(1074, up as nat);
        }
        if up >= 60 {
            proof {
                lemma_pow2_adds(up as nat, 1074);
                lemma_far_apart(m as int, k as nat, n as int, minus);
            }
            return bits;
        }
        let p: u128 = power_of_two(up);
        proof {
            lemma_small_power(up as nat, 60);
            assert(0 <= m * p < 0x20_0000_0000_0000 * 0x1000_0000_0000_0000) by (nonlinear_arith)
                requires
                    0 <= m < 0x20_0000_0000_0000,
                    0 < p <= 0x1000_0000_0000_0000,
            ;
        }
        let x: i128 = (m as u128 * p) as i128;
        let y: i128 = (if minus {
            -x
        } else {
            x
        }) + n as i128;
        proof {
            let o = one();
            let pi = p as int;
            assert(m * (o * pi) == (m * pi) * o) by (nonlinear_arith);
            assert(exact == y * o) by (nonlinear_arith)
                requires
                    exact == (if minus {
                        -((m * pi) * o)
                    } else {
                        (m * pi) * o
                    }) + n * o,
                    y == (if minus {
                        -(m * pi)
                    } else {
                        m * pi
                    }) + n,
            ;
        }
        signed_round(y, 1074, Ghost(exact))
    } else {
        let down: u32 = 1074 - k;
        proof {
            lemma_pow2_adds(k as nat, down as nat);
        }
        if down > 110 {
            let r: u64 = whole(n as i64);
            proof {
                lemma_tiny_added(bits, n as int, r);
            }
            return r;
        }
        let p: u128 = power_of_two(down);
        proof {
            lemma_small_power(down as nat, 110);
            assert(-0x8000 * 0x4000_0000_0000_0000_0000_0000_0000 <= n * p <= 0x8000
                * 0x4000_0000_0000_0000_0000_0000_0000) by (nonlinear_arith)
                requires
                    -0x8000 <= n <= 0x8000,
                    0 < p <= 0x4000_0000_0000_0000_0000_0000_0000,
            ;
        }
        let y: i128 = (if minus {
            -(m as i128)
        } else {
            m as i128
        }) + (n as i128) * (p as i128);
        proof {
            let q = pow2(k as nat) as int;
            let pi = p as int;
            assert(n * (q * pi) == (n * pi) * q) by (nonlinear_arith);
            assert(exact == y * q) by (nonlinear_arith)
                requires
                    exact == (if minus {
                        -(m * q)
                    } else {
                        m * q
                    }) + (n * pi) * q,
                    y == (if minus {
                        -(m as int)
                    } else {
                        m as int
                    }) + n * pi,
            ;
        }
        signed_round(y, k, Ghost(exact))
    }
}

/// The double nearest to `y * 2^k` units.
fn signed_round(y: i128, k: u32, Ghost(exact): Ghost<int>) -> (r: u64)
    requires
        y > i128::MIN,
        k <= 4000,
        exact == y * pow2(k as nat),
    ensures
        r == rounded(exact, 1),
{
    proof {
        let p = pow2(k as nat) as int;
        lemma_pow2_pos(k as nat);
        assert((-y) * p == -(y * p)) by (nonlinear_arith);
        if y < 0 {
            assert(y * p < 0) by (nonlinear_arith)
                requires
                    y < 0,
                    p > 0,
            ;
        } else {
            assert(y * p >= 0) by (nonlinear_arith)
                requires
                    y >= 0,
                    p > 0,
            ;
        }
    }
    if y < 0 {
        let size: u64 = round_quotient((-y) as u128, 1, k);
        SIGN_BIT + size
    } else {
        round_quotient(y as u128, 1, k)
    }
}

/// Powers of two up to a given one.
proof fn lemma_small_power(k: nat, top: nat)
    requires
        k <= top,
        top == 60 || top == 110,
    ensures
        pow2(k) <= pow2(top),
        pow2(60) == 0x1000_0000_0000_0000,
        pow2(110) == 0x4000_0000_0000_0000_0000_0000_0000,
{
    vstd::arithmetic::power2::lemma2_to64();
    vstd::arithmetic::power2::lemma2_to64_rest();
    lemma_pow2_adds(64, 46);
    if k < top {
        lemma_pow2_strictly_increases(k, top);
    }
}

/// A whole number of 16 bits does not change a double of at least `2^112`.
proof fn lemma_far_apart(m: int, k: nat, n: int, minus: bool)
    requires
        HIDDEN_BIT <= m < NEXT_BIT,
        k >= 1134,
        -32768 <= n <= 32768,
    ensures
        nearest(m * pow2(k) + n * one(), 1) == k * HIDDEN_BIT + m,
        nearest(m * pow2(k) - n * one(), 1) == k * HIDDEN_BIT + m,
        m * pow2(k) > n * one(),
        m * pow2(k) > -n * one(),
{
    let o = one();
    let up = (k - 1074) as nat;
    lemma_pow2_adds(1074, up);
    lemma_pow2_pos(1074);
    lemma_pow2_pos(up);
    vstd::arithmetic::power2::lemma2_to64_rest();
    if up > 60 {
        lemma_pow2_strictly_increases(60, up);
    }
    let p = pow2(up) as int;
    assert(8 * (n * o) < o * p && -(o * p) < 8 * (n * o) && (-n) * o == -(n * o))
        by (nonlinear_arith)
        requires
            -32768 <= n <= 32768,
            o > 0,
            p >= 0x1000_0000_0000_0000,
    ;
    lemma_nearest_absorbs(m, k, n * o);
    lemma_nearest_absorbs(m, k, -(n * o));
}

/// The position of the leading bit of a whole number.
proof fn lemma_leading_bit(n: int) -> (e: nat)
    requires
        1 <= n < NEXT_BIT,
    ensures
        pow2(e) <= n < 2 * pow2(e),
        e <= 52,
    decreases n,
{
    vstd::arithmetic::power2::lemma2_to64();
    vstd::arithmetic::power2::lemma2_to64_rest();
    if n == 1 {
        0
    } else {
        let e = lemma_leading_bit(n / 2);
        lemma_pow2_unfold(e + 1);
        if e + 1 > 53 {
            lemma_pow2_strictly_increases(53, e + 1);
        }
        e + 1
    }
}

/// The digits and the scale of a whole number of at most 53 bits.
proof fn lemma_whole_digits(n: int) -> (r: (int, nat))
    requires
        1 <= n < NEXT_BIT,
    ensures
        n * one() == r.0 * pow2(r.1),
        HIDDEN_BIT <= r.0 < NEXT_BIT,
        1022 <= r.1 <= 1074,
{
    let e = lemma_leading_bit(n);
    vstd::arithmetic::power2::lemma2_to64();
    vstd::arithmetic::power2::lemma2_to64_rest();
    let f = (52 - e) as nat;
    let k = (1022 + e) as nat;
    lemma_pow2_adds(e, f);
    lemma_pow2_adds(f, k);
    lemma_pow2_pos(f);
    let a = pow2(e) as int;
    let b = pow2(f) as int;
    let c = pow2(k) as int;
    assert(HIDDEN_BIT <= n * b < NEXT_BIT) by (nonlinear_arith)
        requires
            a <= n < 2 * a,
            a * b == HIDDEN_BIT,
            NEXT_BIT == 2 * HIDDEN_BIT,
            b > 0,
    ;
    assert(n * (b * c) == (n * b) * c) by (nonlinear_arith);
    (n * b, k)
}

/// Next to a whole number, less than `2^-55` is rounded away.
proof fn lemma_whole_absorbs(n: int, delta: int)
    requires
        1 <= n < NEXT_BIT,
        -pow2(1019) < delta < pow2(1019),
    ensures
        n * one() + delta > 0,
        n * one() > 0,
        nearest(n * one() + delta, 1) == nearest(n * one(), 1),
{
    let (m, k) = lemma_whole_digits(n);
    vstd::arithmetic::power2::lemma2_to64();
    lemma_pow2_adds(3, 1019);
    lemma_pow2_pos(1019);
    if k > 1022 {
        lemma_pow2_strictly_increases(1022, k);
    }
    lemma_nearest_absorbs(m, k, delta);
    lemma_nearest_absorbs(m, k, 0);
}

/// A double below `2^-57` does not change a whole number.
proof fn lemma_tiny_added(bits: u64, n: int, r: u64)
    requires
        n != 0,
        -32768 <= n <= 32768,
        scale(magnitude(bits)) < 964,
        r == quotient(n, 1),
    ensures
        r == rounded(value(bits) + n * one(), 1),
{
    let u = units(magnitude(bits));
    lemma_tiny_units(magnitude(bits));
    lemma_pow2_strictly_increases(1016, 1019);
    let o = one();
    assert((-n) * o == -(n * o)) by (nonlinear_arith);
    if n > 0 {
        lemma_whole_absorbs(n, u);
        lemma_whole_absorbs(n, -u);
    } else {
        lemma_whole_absorbs(-n, u);
        lemma_whole_absorbs(-n, -u);
    }
}

/// A magnitude of small scale has a small value.
proof fn lemma_tiny_units(size: int)
    requires
        0 <= size,
        scale(size) < 964,
    ensures
        0 <= units(size) < pow2(1016),
{
    let k = scale(size) as nat;
    let m = significand(size);
    assert(0 <= m < NEXT_BIT);
    lemma_pow2_pos(k);
    vstd::arithmetic::power2::lemma2_to64_rest();
    lemma_pow2_adds(53, 963);
    if k < 963 {
        lemma_pow2_strictly_increases(k, 963);
    }
    let p = pow2(k) as int;
    let top = pow2(963) as int;
    assert(0 <= m * p < NEXT_BIT * top) by (nonlinear_arith)
        requires
            0 <= m < NEXT_BIT,
            0 < p <= top,
    ;
}

/// A double times a positive whole number.
pub fn multiply(bits: u64, k: u64) -> (r: u64)
    requires
        k > 0,
    ensures
        r == product(bits, k as int),
{
    let (minus, m, t) = parts(bits);
    let size: u64 = if minus {
        bits - SIGN_BIT
    } else {
        bits
    };
    if size > INFINITY {
        return NOT_A_NUMBER;
    }
    if size == INFINITY {
        return bits;
    }
    proof {
        assert(0 <= m * k <= u128::MAX) by (nonlinear_arith)
            requires
                0 <= m <= u64::MAX,
                0 <= k <= u64::MAX,
        ;
        let p = pow2(t as nat) as int;
        assert((m * p) * k == (m * k) * p) by (nonlinear_arith);
    }
    let r: u64 = round_quotient((m as u128) * (k as u128), 1, t);
    if minus {
        SIGN_BIT + r
    } else {
        r
    }
}

/// A double divided by a positive whole number.
pub fn divide_by(bits: u64, k: u64) -> (r: u64)
    requires
        k > 0,
    ensures
        r == ratio(bits, k as int),
{
    let (minus, m, t) = parts(bits);
    let size: u64 = if minus {
        bits - SIGN_BIT
    } else {
        bits
    };
    if size > INFINITY {
        return NOT_A_NUMBER;
    }
    if size == INFINITY {
        return bits;
    }
    let r: u64 = round_quotient(m as u128, k as u128, t);
    if minus {
        SIGN_BIT + r
    } else {
        r
    }
}

/// What a double exceeds the next lower whole number by.
pub fn subtract_floor(bits: u64) -> (r: u64)
    ensures
        r == above_floor(bits),
{
    let (minus, m, k) = parts(bits);
    let size: u64 = if minus {
        bits - SIGN_BIT
    } else {
        bits
    };
    if size >= INFINITY {
        return NOT_A_NUMBER;
    }
    let ghost v: int = if minus {
        -(m as int)
    } else {
        m as int
    };
    proof {
        lemma_pow2_pos(k as nat);
        lemma_pow2_pos(1074);
        let q = pow2(k as nat) as int;
        assert((-(m as int)) * q == -(m * q)) by (nonlinear_arith);
        assert(value(bits) == v * q);
    }
    if k >= 1074 {
        proof {
            lemma_multiple_of_one(v, k as nat);
        }
        round_quotient(0, 1, 0)
    } else {
        let down: u32 = 1074 - k;
        proof {
            lemma_pow2_adds(k as nat, down as nat);
            lemma_pow2_pos(down as nat);
            lemma_mod_scales(v, pow2(down as nat) as int, pow2(k as nat) as int);
        }
        if down > 110 {
            proof {
                lemma_small_power(110, 110);
                lemma_pow2_strictly_increases(110, down as nat);
            }
            if minus && m != 0 {
                proof {
                    let p = pow2(down as nat) as int;
                    let q = pow2(k as nat) as int;
                    vstd::arithmetic::div_mod::lemma_fundamental_div_mod_converse(v, p, -1, v + p);
                    assert((v + p) * q == 1 * one() + v * q) by (nonlinear_arith)
                        requires
                            one() == q * p,
                    ;
                    lemma_tiny_units(magnitude(bits));
                    lemma_pow2_strictly_increases(1016, 1019);
                    lemma_whole_absorbs(1, v * q);
                }
                whole(1)
            } else {
                proof {
                    vstd::arithmetic::div_mod::lemma_small_mod(m as nat, pow2(down as nat));
                }
                round_quotient(m as u128, 1, k)
            }
        } else {
            let p: u128 = power_of_two(down);
            proof {
                lemma_small_power(down as nat, 110);
            }
            let x: u128 = (m as u128) % p;
            let y: u128 = if minus && x != 0 {
                p - x
            } else {
                x
            };
            proof {
                lemma_mod_of_negative(m as int, p as int);
            }
            round_quotient(y, 1, k)
        }
    }
}

/// What remains of a double without its whole part.
pub fn subtract_whole(bits: u64) -> (r: u64)
    ensures
        r == beyond_whole(bits),
{
    let (minus, m, k) = parts(bits);
    let size: u64 = if minus {
        bits - SIGN_BIT
    } else {
        bits
    };
    if size >= INFINITY {
        return NOT_A_NUMBER;
    }
    proof {
        lemma_pow2_pos(k as nat);
        lemma_pow2_pos(1074);
    }
    let r: u64 = if k >= 1074 {
        proof {
            lemma_multiple_of_one(m as int, k as nat);
        }
        round_quotient(0, 1, 0)
    } else {
        let down: u32 = 1074 - k;
        proof {
            lemma_pow2_adds(k as nat, down as nat);
            lemma_pow2_pos(down as nat);
            lemma_mod_scales(m as int, pow2(down as nat) as int, pow2(k as nat) as int);
        }
        if down > 110 {
            proof {
                lemma_small_power(110, 110);
                lemma_pow2_strictly_increases(110, down as nat);
                vstd::arithmetic::div_mod::lemma_small_mod(m as nat, pow2(down as nat));
            }
            round_quotient(m as u128, 1, k)
        } else {
            let p: u128 = power_of_two(down);
            round_quotient((m as u128) % p, 1, k)
        }
    };
    if minus {
        SIGN_BIT + r
    } else {
        r
    }
}

/// Whole numbers of sufficient scale are multiples of one.
pub(crate) proof fn lemma_multiple_of_one(v: int, k: nat)
    requires
        k >= 1074,
    ensures
        (v * pow2(k)) % one() == 0,
        (v * pow2(k)) / one() == v * pow2((k - 1074) as nat),
{
    let up = (k - 1074) as nat;
    lemma_pow2_adds(up, 1074);
    lemma_pow2_pos(1074);
    let a = pow2(up) as int;
    let o = one();
    assert(v * (a * o) == (v * a) * o) by (nonlinear_arith);
    vstd::arithmetic::div_mod::lemma_fundamental_div_mod_converse(v * pow2(k), o, v * a, 0);
}

/// A common factor of dividend and divisor is a factor of the remainder.
pub(crate) proof fn lemma_mod_scales(a: int, b: int, c: int)
    requires
        b > 0,
        c > 0,
    ensures
        (a * c) % (c * b) == (a % b) * c,
        (a * c) / (c * b) == a / b,
{
    let q = a / b;
    let r = a % b;
    vstd::arithmetic::div_mod::lemma_fundamental_div_mod(a, b);
    assert(a * c == q * (c * b) + r * c) by (nonlinear_arith)
        requires
            a == b * q + r,
    ;
    assert(0 <= r * c < c * b) by (nonlinear_arith)
        requires
            0 <= r < b,
            c > 0,
    ;
    vstd::arithmetic::div_mod::lemma_fundamental_div_mod_converse(a * c, c * b, q, r * c);
}

/// The remainder of a negated dividend.
proof fn lemma_mod_of_negative(a: int, b: int)
    requires
        a >= 0,
        b > 0,
    ensures
        (-a) % b == if a % b == 0 {
            0
        } else {
            b - a % b
        },
{
    let q = a / b;
    let r = a % b;
    vstd::arithmetic::div_mod::lemma_fundamental_div_mod(a, b);
    if r == 0 {
        assert(-a == (-q) * b + 0) by (nonlinear_arith)
            requires
                a == b * q,
        ;
        vstd::arithmetic::div_mod::lemma_fundamental_div_mod_converse(-a, b, -q, 0);
    } else {
        assert(-a == (-q - 1) * b + (b - r)) by (nonlinear_arith)
            requires
                a == b * q + r,
        ;
        vstd::arithmetic::div_mod::lemma_fundamental_div_mod_converse(-a, b, -q - 1, b - r);
    }
}

/// The whole part of `m * 2^k` units, or `2^64` where it is not below that.
fn whole_part(m: u64, k: u32) -> (r: u128)
    requires
        m < NEXT_BIT,
        k > 0 ==> HIDDEN_BIT <= m,
        k <= 2046,
    ensures
        r <= 0x1_0000_0000_0000_0000,
        r < 0x1_0000_0000_0000_0000 ==> r == (m * pow2(k as nat)) / one(),
        r == 0x1_0000_0000_0000_0000 ==> (m * pow2(k as nat)) / one() >= r,
{
    if k >= 1074 {
        proof {
            lemma_multiple_of_one(m as int, k as nat);
        }
        if k >= 1134 {
            proof {
                let up = (k - 1074) as nat;
                lemma_small_power(60, 60);
                if up > 60 {
                    lemma_pow2_strictly_increases(60, up);
                }
                let p = pow2(up) as int;
                assert(m * p >= 0x1_0000_0000_0000_0000) by (nonlinear_arith)
                    requires
                        m >= 0x10_0000_0000_0000,
                        p >= 0x1000_0000_0000_0000,
                ;
            }
            return 0x1_0000_0000_0000_0000;
        }
        let p: u128 = power_of_two(k - 1074);
        proof {
            lemma_small_power((k - 1074) as nat, 60);
            assert(0 <= m * p < 0x20_0000_0000_0000 * 0x1000_0000_0000_0000) by (nonlinear_arith)
                requires
                    0 <= m < 0x20_0000_0000_0000,
                    0 < p <= 0x1000_0000_0000_0000,
            ;
        }
        let x: u128 = (m as u128) * p;
        if x < 0x1_0000_0000_0000_0000 {
            x
        } else {
            0x1_0000_0000_0000_0000
        }
    } else {
        let down: u32 = 1074 - k;
        proof {
            lemma_pow2_adds(k as nat, down as nat);
            lemma_pow2_pos(down as nat);
            lemma_pow2_pos(k as nat);
            lemma_mod_scales(m as int, pow2(down as nat) as int, pow2(k as nat) as int);
        }
        if down > 110 {
            proof {
                lemma_small_power(110, 110);
                lemma_pow2_strictly_increases(110, down as nat);
                vstd::arithmetic::div_mod::lemma_basic_div(m as int, pow2(down as nat) as int);
            }
            0
        } else {
            let p: u128 = power_of_two(down);
            proof {
                vstd::arithmetic::div_mod::lemma_div_nonincreasing(m as int, p as int);
            }
            (m as u128) / p
        }
    }
}

/// The whole number nearest to `m * 2^k` units, halves upward, or `2^64` where it
/// is not below that.
fn nearest_whole(m: u64, k: u32) -> (r: u128)
    requires
        m < NEXT_BIT,
        k > 0 ==> HIDDEN_BIT <= m,
        k <= 2046,
    ensures
        r <= 0x1_0000_0000_0000_0000,
        r < 0x1_0000_0000_0000_0000 ==> r == (2 * (m * pow2(k as nat)) + one()) / (2 * one()),
        r == 0x1_0000_0000_0000_0000 ==> (2 * (m * pow2(k as nat)) + one()) / (2 * one()) >= r,
{
    if k >= 1074 {
        proof {
            lemma_multiple_of_one(m as int, k as nat);
            lemma_pow2_pos(1074);
            let o = one();
            let u = m * pow2(k as nat);
            let w = u / o;
            vstd::arithmetic::div_mod::lemma_fundamental_div_mod(u, o);
            assert(2 * u + o == w * (2 * o) + o) by (nonlinear_arith)
                requires
                    u == o * w,
            ;
            vstd::arithmetic::div_mod::lemma_fundamental_div_mod_converse(2 * u + o, 2 * o, w, o);
        }
        whole_part(m, k)
    } else {
        let down: u32 = 1074 - k;
        proof {
            lemma_pow2_adds(k as nat, down as nat);
            lemma_pow2_pos(down as nat);
            lemma_pow2_pos(k as nat);
            let p = pow2(down as nat) as int;
            let q = pow2(k as nat) as int;
            lemma_mod_scales(2 * m + p, 2 * p, q);
            assert((2 * m + p) * q == 2 * (m * q) + q * p) by (nonlinear_arith);
            assert(q * (2 * p) == 2 * (q * p)) by (nonlinear_arith);
        }
        if down > 110 {
            proof {
                lemma_small_power(110, 110);
                lemma_pow2_strictly_increases(110, down as nat);
                let p = pow2(down as nat) as int;
                vstd::arithmetic::div_mod::lemma_basic_div(2 * m + p, 2 * p);
            }
            0
        } else {
            let p: u128 = power_of_two(down);
            proof {
                lemma_small_power(down as nat, 110);
                let x = 2 * m + p;
                assert(x / (2 * p as int) <= m + 1) by (nonlinear_arith)
                    requires
                        x == 2 * m + p,
                        p >= 1,
                        m >= 0,
                ;
            }
            (2 * (m as u128) + p) / (2 * p)
        }
    }
}

/// A double cut to a whole number from `low` to `high`.
pub fn cut(bits: u64, low: i64, high: i64) -> (r: i64)
    requires
        low <= 0 <= high,
    ensures
        r == cut_to(bits, low as int, high as int),
{
    let (minus, m, k) = parts(bits);
    let size: u64 = if minus {
        bits - SIGN_BIT
    } else {
        bits
    };
    if size > INFINITY {
        return 0;
    }
    let whole: u128 = if size == INFINITY {
        0x1_0000_0000_0000_0000
    } else {
        whole_part(m, k)
    };
    proof {
        lemma_sign_of_units(bits);
    }
    bound(minus, whole, low, high)
}

/// A double rounded to a whole number from `low` to `high`, halves away from zero.
pub fn round(bits: u64, low: i64, high: i64) -> (r: i64)
    requires
        low <= 0 <= high,
    ensures
        r == rounded_to(bits, low as int, high as int),
{
    let (minus, m, k) = parts(bits);
    let size: u64 = if minus {
        bits - SIGN_BIT
    } else {
        bits
    };
    if size > INFINITY {
        return 0;
    }
    let whole: u128 = if size == INFINITY {
        0x1_0000_0000_0000_0000
    } else {
        nearest_whole(m, k)
    };
    proof {
        lemma_sign_of_units(bits);
    }
    bound(minus, whole, low, high)
}

/// The whole number with the given sign and size that is closest within bounds.
fn bound(minus: bool, size: u128, low: i64, high: i64) -> (r: i64)
    requires
        low <= 0 <= high,
        size <= 0x1_0000_0000_0000_0000,
    ensures
        r == clamped(if minus {
            -(size as int)
        } else {
            size as int
        }, low as int, high as int),
        size == 0x1_0000_0000_0000_0000 ==> r == if minus {
            low
        } else {
            high
        },
{
    if minus {
        let least: u128 = (-(low as i128)) as u128;
        if size > least {
            low
        } else {
            (-(size as i128)) as i64
        }
    } else if size > high as u128 {
        high
    } else {
        size as i64
    }
}

/// The value of a double is not positive where its sign is set, and 0 or more elsewhere.
proof fn lemma_sign_of_units(bits: u64)
    ensures
        units(magnitude(bits)) >= 0,
        units(0) == 0,
        units(magnitude(bits)) == 0 ==> magnitude(bits) == 0,
        one() > 0,
        0int / one() == 0,
        one() / (2 * one()) == 0,
{
    lemma_pow2_pos(1074);
    lemma_units_step(0);
    if magnitude(bits) > 0 {
        lemma_units_increase(0, magnitude(bits));
    }
    vstd::arithmetic::div_mod::lemma_div_of0(one());
    vstd::arithmetic::div_mod::lemma_basic_div(one(), 2 * one());
}

/// The sign bit of a single-precision number.
pub const SINGLE_SIGN_BIT: u32 = 0x8000_0000;

/// The magnitude of infinity in single precision.
pub const SINGLE_INFINITY: u32 = 0x7F80_0000;

/// The implicit leading bit of a single-precision number.
pub const SINGLE_HIDDEN_BIT: u32 = 0x80_0000;

/// The bits of a single-precision number without its sign.
pub open spec fn single_magnitude(bits: u32) -> int {
    if bits >= SINGLE_SIGN_BIT {
        bits - SINGLE_SIGN_BIT
    } else {
        bits as int
    }
}

/// The size of a single-precision number, counted in units of `2^-1074`.
///
/// Its own unit, the smallest single-precision number, is `2^-149`.
pub open spec fn single_units(size: int) -> int {
    if size < SINGLE_HIDDEN_BIT {
        size * pow2(925)
    } else {
        (SINGLE_HIDDEN_BIT + size % SINGLE_HIDDEN_BIT as int) * pow2(
            (size / SINGLE_HIDDEN_BIT as int + 924) as nat,
        )
    }
}

/// The double with the value of a single-precision number.
pub open spec fn widened(bits: u32) -> u64 {
    let size = single_magnitude(bits);
    if size > SINGLE_INFINITY {
        NOT_A_NUMBER
    } else if size == SINGLE_INFINITY {
        signed(bits >= SINGLE_SIGN_BIT, INFINITY as int)
    } else {
        signed(bits >= SINGLE_SIGN_BIT, nearest(single_units(size), 1))
    }
}

/// Widens a single-precision number. A finite one keeps its value exactly.
pub fn widen(bits: u32) -> (r: u64)
    ensures
        r == widened(bits),
        single_magnitude(bits) < SINGLE_INFINITY ==> is_finite(r) && negative(r) == (bits
            >= SINGLE_SIGN_BIT) && units(magnitude(r)) == single_units(single_magnitude(bits)),
{
    let minus = bits >= SINGLE_SIGN_BIT;
    let size: u32 = if minus {
        bits - SINGLE_SIGN_BIT
    } else {
        bits
    };
    if size > SINGLE_INFINITY {
        return NOT_A_NUMBER;
    }
    if size == SINGLE_INFINITY {
        if minus {
            return SIGN_BIT + INFINITY;
        } else {
            return INFINITY;
        }
    }
    let (m, t): (u32, u32) = if size < SINGLE_HIDDEN_BIT {
        (size, 925)
    } else {
        (SINGLE_HIDDEN_BIT + size % SINGLE_HIDDEN_BIT, size / SINGLE_HIDDEN_BIT + 924)
    };
    let r: u64 = round_quotient(m as u128, 1, t);
    proof {
        let b = lemma_representable(m as int, t as nat);
        lemma_nearest_exact(b, 1);
        assert(units(b) * 1 == units(b));
        assert(1178 * HIDDEN_BIT + HIDDEN_BIT < INFINITY);
    }
    if minus {
        SIGN_BIT + r
    } else {
        r
    }
}

/// Digits of at most 53 bits at any scale are the value of a magnitude.
pub proof fn lemma_representable(m: int, t: nat) -> (b: int)
    requires
        0 <= m < NEXT_BIT,
    ensures
        0 <= b,
        units(b) == m * pow2(t),
        b <= t * HIDDEN_BIT + m,
    decreases t,
{
    vstd::arithmetic::power2::lemma2_to64();
    if t == 0 || m >= HIDDEN_BIT {
        lemma_units_compose(m, t);
        assert(t * HIDDEN_BIT >= 0) by (nonlinear_arith);
        t * HIDDEN_BIT + m
    } else {
        let b = lemma_representable(2 * m, (t - 1) as nat);
        lemma_pow2_unfold(t);
        let p = pow2((t - 1) as nat) as int;
        assert((2 * m) * p == m * (2 * p)) by (nonlinear_arith);
        assert(t * HIDDEN_BIT == (t - 1) * HIDDEN_BIT + HIDDEN_BIT) by (nonlinear_arith);
        b
    }
}

/// Whole numbers from `-2^53` to `2^53` are doubles.
pub proof fn lemma_whole_is_exact(n: int)
    requires
        -NEXT_BIT <= n <= NEXT_BIT,
    ensures
        is_finite(quotient(n, 1)),
        value(quotient(n, 1)) == n * one(),
{
    let a = if n < 0 {
        -n
    } else {
        n
    };
    let o = one();
    lemma_pow2_pos(1074);
    let b = if a < NEXT_BIT {
        lemma_representable(a, 1074)
    } else {
        lemma_pow2_unfold(1075);
        assert(HIDDEN_BIT * (2 * o) == NEXT_BIT * o) by (nonlinear_arith)
            requires
                NEXT_BIT == 2 * HIDDEN_BIT,
        ;
        lemma_representable(HIDDEN_BIT as int, 1075)
    };
    lemma_nearest_exact(b, 1);
    assert((-n) * o == -(n * o)) by (nonlinear_arith);
    assert(a * o >= 0) by (nonlinear_arith)
        requires
            a >= 0,
            o > 0,
    ;
    if n < 0 {
        assert(n * o < 0) by (nonlinear_arith)
            requires
                n < 0,
                o > 0,
        ;
    }
}

} // verus!
