//! Correctly rounded binary64 arithmetic, carried out on integers.
//!
//! Sample rates, frame counts and durations meet in fractions of a second, and the
//! pipeline computes those fractions the way IEEE 754 binary64 does: every operation
//! is exact and then rounded once, to the nearest representable value, ties to even.
//! A non-negative binary64 value is a whole multiple of `2^-1074`; the spec functions
//! below speak of that multiple, a natural number, and of nothing else.
use vstd::arithmetic::div_mod::*;
use vstd::arithmetic::mul::*;
use vstd::arithmetic::power2::*;
use vstd::prelude::*;

verus! {

/// The number of smallest steps, `2^-1074` each, in the value one.
pub open spec fn unit() -> nat {
    pow2(1074)
}

/// The integer nearest to `n / d`; of two that are equally near, the even one.
pub open spec fn round_half_even(n: nat, d: nat) -> nat {
    let q = n / d;
    let r = n % d;
    if 2 * r < d || (2 * r == d && q % 2 == 0) {
        q
    } else {
        q + 1
    }
}

/// Whether `n / d`, written in steps of `2^x`, needs 53 bits before the point
/// (or at most 53, when the steps cannot get any smaller).
pub open spec fn spans(n: nat, d: nat, x: nat) -> bool {
    &&& n < pow2(53) * (d * pow2(x))
    &&& x == 0 || pow2(52) * (d * pow2(x)) <= n
}

/// The exponent of the step in which `n / d` is rounded.
pub open spec fn step_exponent(n: nat, d: nat) -> nat {
    choose|x: nat| spans(n, d, x)
}

/// The binary64 value nearest to `n / d` smallest steps.
pub open spec fn nearest(n: nat, d: nat) -> nat {
    let x = step_exponent(n, d);
    round_half_even(n, d * pow2(x)) * pow2(x)
}

/// The integer `n` as a binary64 value.
pub open spec fn of_nat(n: nat) -> nat {
    nearest(n * unit(), 1)
}

/// The quotient of two values.
pub open spec fn quotient(a: nat, b: nat) -> nat {
    nearest(a * unit(), b)
}

/// The product of two values.
pub open spec fn product(a: nat, b: nat) -> nat {
    nearest(a * b, unit())
}

/// The sum of two values.
pub open spec fn sum(a: nat, b: nat) -> nat {
    nearest(a + b, 1)
}

/// The largest integer that is not above the value.
pub open spec fn floor(a: nat) -> nat {
    a / unit()
}

/// The smallest integer that is not below the value.
pub open spec fn ceil(a: nat) -> nat {
    if a % unit() == 0 {
        a / unit()
    } else {
        a / unit() + 1
    }
}

/// The part of the value after the point.
pub open spec fn fraction(a: nat) -> nat {
    a % unit()
}

/// The value, taken as seconds, in whole nanoseconds.
pub open spec fn nanoseconds(a: nat) -> nat {
    round_half_even(a * 1_000_000_000, unit())
}

/// `|a|`.
pub open spec fn magnitude(a: int) -> nat {
    if a >= 0 {
        a as nat
    } else {
        (-a) as nat
    }
}

/// `s1 + (s2 - s1) * f`, rounded after the product and after the sum, then cut off at
/// the point and brought into the range of 16 bits.
pub open spec fn interpolated(s1: int, s2: int, f: nat) -> int {
    let p = nearest(magnitude(s2 - s1) * f, 1);
    let t = if s2 >= s1 {
        s1 * unit() + p
    } else {
        s1 * unit() - p
    };
    let m = floor(nearest(magnitude(t), 1)) as int;
    clamped(if t >= 0 {
        m
    } else {
        -m
    })
}

/// The 16-bit integer nearest to `a`.
pub open spec fn clamped(a: int) -> int {
    if a > 32767 {
        32767
    } else if a < -32768 {
        -32768
    } else {
        a
    }
}

/// Scaling both terms of a fraction does not move its nearest integer.
proof fn lemma_round_half_even_scaled(a: nat, b: nat, k: nat)
    requires
        b > 0,
        k > 0,
    ensures
        round_half_even(a * k, b * k) == round_half_even(a, b),
{
    let q = a / b;
    let r = a % b;
    lemma_fundamental_div_mod(a as int, b as int);
    assert(b * k > 0) by (nonlinear_arith)
        requires
            b > 0,
            k > 0,
    ;
    assert(a * k == q * (b * k) + r * k) by (nonlinear_arith)
        requires
            a == b * q + r,
    ;
    assert(r * k < b * k) by (nonlinear_arith)
        requires
            r < b,
            k > 0,
    ;
    assert(r * k >= 0) by (nonlinear_arith)
        requires
            r >= 0,
            k > 0,
    ;
    lemma_fundamental_div_mod_converse((a * k) as int, (b * k) as int, q as int, (r * k) as int);
    assert((2 * (r * k) < b * k) == (2 * r < b)) by (nonlinear_arith)
        requires
            k > 0,
    ;
    assert((2 * (r * k) == b * k) == (2 * r == b)) by (nonlinear_arith)
        requires
            k > 0,
    ;
}

/// There is only one exponent in which a fraction spans its 53 bits.
proof fn lemma_spans_unique(n: nat, d: nat, x: nat, y: nat)
    requires
        d > 0,
        spans(n, d, x),
        spans(n, d, y),
    ensures
        x == y,
{
    if x < y {
        lemma_spans_ordered(n, d, x, y);
    } else if y < x {
        lemma_spans_ordered(n, d, y, x);
    }
}

proof fn lemma_spans_ordered(n: nat, d: nat, x: nat, y: nat)
    requires
        d > 0,
        x < y,
        spans(n, d, x),
    ensures
        !spans(n, d, y),
{
    lemma_pow2_adds(x, 1);
    lemma2_to64();
    assert(pow2(x + 1) == pow2(x) * 2);
    if x + 1 < y {
        lemma_pow2_strictly_increases(x + 1, y);
    }
    lemma_pow2_adds(52, 1);
    let p = pow2(x);
    let c = pow2(52);
    assert(pow2(53) == c * 2);
    let z = pow2(y);
    assert((c * 2) * (d * p) <= c * (d * z)) by (nonlinear_arith)
        requires
            p * 2 <= z,
            d > 0,
            c >= 0,
    ;
}

/// Where a fraction of smallest steps is rounded, given the step.
proof fn lemma_nearest(n: nat, d: nat, x: nat, a: nat, b: nat, k: nat)
    requires
        d > 0,
        b > 0,
        k > 0,
        n == a * k,
        d * pow2(x) == b * k,
        a < pow2(53) * b,
        x == 0 || pow2(52) * b <= a,
    ensures
        nearest(n, d) == round_half_even(a, b) * pow2(x),
{
    let c = pow2(53);
    assert(a * k < c * (b * k)) by (nonlinear_arith)
        requires
            a < c * b,
            k > 0,
    ;
    if x != 0 {
        let e = pow2(52);
        assert(e * (b * k) <= a * k) by (nonlinear_arith)
            requires
                e * b <= a,
                k > 0,
        ;
    }
    assert(spans(n, d, x));
    let y = step_exponent(n, d);
    assert(spans(n, d, y));
    lemma_spans_unique(n, d, x, y);
    lemma_round_half_even_scaled(a, b, k);
}

/// An integer of at most 53 bits, in steps of any size, is its own nearest value.
proof fn lemma_nearest_exact(v: nat, e: nat)
    requires
        v < pow2(53),
    ensures
        nearest(v * pow2(e), 1) == v * pow2(e),
    decreases e,
{
    lemma_pow2_pos(e);
    lemma2_to64();
    if e == 0 || v >= pow2(52) {
        assert(round_half_even(v, 1) == v);
        assert(1 * pow2(e) == 1 * pow2(e));
        lemma_nearest(v * pow2(e), 1, e, v, 1, pow2(e));
    } else {
        lemma_pow2_adds(52, 1);
        let f = (e - 1) as nat;
        lemma_pow2_adds(f, 1);
        lemma_nearest_exact(2 * v, f);
        let p = pow2(f);
        assert((2 * v) * p == v * (p * 2)) by (nonlinear_arith);
    }
}

/// A larger fraction, in the same denominator, has no smaller nearest integer.
proof fn lemma_round_half_even_ordered(a1: nat, a2: nat, d: nat)
    requires
        d > 0,
        a1 <= a2,
    ensures
        round_half_even(a1, d) <= round_half_even(a2, d),
{
    lemma_div_is_ordered(a1 as int, a2 as int, d as int);
    lemma_fundamental_div_mod(a1 as int, d as int);
    lemma_fundamental_div_mod(a2 as int, d as int);
}

/// A larger fraction has no smaller nearest integer.
proof fn lemma_round_half_even_monotone(n1: nat, d1: nat, n2: nat, d2: nat)
    requires
        d1 > 0,
        d2 > 0,
        n1 * d2 <= n2 * d1,
    ensures
        round_half_even(n1, d1) <= round_half_even(n2, d2),
{
    lemma_round_half_even_scaled(n1, d1, d2);
    lemma_round_half_even_scaled(n2, d2, d1);
    assert(d2 * d1 == d1 * d2) by (nonlinear_arith);
    assert(d1 * d2 > 0) by (nonlinear_arith)
        requires
            d1 > 0,
            d2 > 0,
    ;
    lemma_round_half_even_ordered(n1 * d2, n2 * d1, d1 * d2);
}

/// A whole number is its own nearest integer.
proof fn lemma_round_half_even_whole(m: nat, d: nat)
    requires
        d > 0,
    ensures
        round_half_even(m * d, d) == m,
{
    lemma_round_half_even_scaled(m, 1, d);
    assert(round_half_even(m, 1) == m);
    assert(1 * d == d);
}

proof fn lemma_spans_from(n: nat, d: nat, x: nat)
    requires
        d > 0,
        x == 0 || pow2(52) * (d * pow2(x)) <= n,
    ensures
        exists|y: nat| spans(n, d, y),
    decreases
            if n >= d * pow2(x) {
                n - d * pow2(x)
            } else {
                0
            },
{
    if n < pow2(53) * (d * pow2(x)) {
        assert(spans(n, d, x));
    } else {
        lemma2_to64();
        lemma_pow2_adds(52, 1);
        lemma_pow2_adds(x, 1);
        lemma_pow2_pos(x);
        lemma_pow2_pos(52);
        let c = pow2(52);
        let p = pow2(x);
        assert(c * (d * (p * 2)) == (c * 2) * (d * p)) by (nonlinear_arith);
        assert(d * (p * 2) > d * p) by (nonlinear_arith)
            requires
                d > 0,
                p > 0,
        ;
        let e = d * (p * 2);
        assert(e <= c * e) by (nonlinear_arith)
            requires
                c >= 1,
                e >= 0,
        ;
        lemma_spans_from(n, d, x + 1);
    }
}

/// Every fraction has a step in which it is rounded.
proof fn lemma_spans_exists(n: nat, d: nat)
    requires
        d > 0,
    ensures
        spans(n, d, step_exponent(n, d)),
{
    lemma_spans_from(n, d, 0);
}

/// Rounding keeps the order of fractions.
pub proof fn lemma_nearest_monotone(n1: nat, d1: nat, n2: nat, d2: nat)
    requires
        d1 > 0,
        d2 > 0,
        n1 * d2 <= n2 * d1,
    ensures
        nearest(n1, d1) <= nearest(n2, d2),
{
    lemma_spans_exists(n1, d1);
    lemma_spans_exists(n2, d2);
    let x1 = step_exponent(n1, d1);
    let x2 = step_exponent(n2, d2);
    let p1 = pow2(x1);
    let p2 = pow2(x2);
    lemma_pow2_pos(x1);
    lemma_pow2_pos(x2);
    lemma2_to64();
    lemma_pow2_adds(52, 1);
    let c = pow2(52);
    let e1 = d1 * p1;
    let e2 = d2 * p2;
    assert(e1 > 0) by (nonlinear_arith)
        requires
            d1 > 0,
            p1 > 0,
            e1 == d1 * p1,
    ;
    assert(e2 > 0) by (nonlinear_arith)
        requires
            d2 > 0,
            p2 > 0,
            e2 == d2 * p2,
    ;
    let r1 = round_half_even(n1, e1);
    let r2 = round_half_even(n2, e2);
    if x1 == x2 {
        assert(n1 * e2 <= n2 * e1) by (nonlinear_arith)
            requires
                n1 * d2 <= n2 * d1,
                e1 == d1 * p1,
                e2 == d2 * p1,
                p1 > 0,
        ;
        lemma_round_half_even_monotone(n1, e1, n2, e2);
        assert(r1 * p1 <= r2 * p1) by (nonlinear_arith)
            requires
                r1 <= r2,
                p1 > 0,
        ;
    } else if x1 < x2 {
        // The first fraction is below its step's bound, the second above its own.
        lemma_round_half_even_whole(2 * c, e1);
        assert(n1 * e1 <= ((2 * c) * e1) * e1) by (nonlinear_arith)
            requires
                n1 < (2 * c) * e1,
                e1 > 0,
        ;
        lemma_round_half_even_monotone(n1, e1, (2 * c) * e1, e1);
        lemma_round_half_even_whole(c, e2);
        assert((c * e2) * e2 <= n2 * e2) by (nonlinear_arith)
            requires
                c * e2 <= n2,
                e2 > 0,
        ;
        lemma_round_half_even_monotone(c * e2, e2, n2, e2);
        lemma_pow2_adds(x1, 1);
        if x1 + 1 < x2 {
            lemma_pow2_strictly_increases(x1 + 1, x2);
        }
        assert(r1 * p1 <= r2 * p2) by (nonlinear_arith)
            requires
                r1 <= 2 * c,
                c <= r2,
                p1 * 2 <= p2,
                p1 > 0,
                c >= 0,
        ;
    } else {
        lemma_pow2_adds(x2, 1);
        if x2 + 1 < x1 {
            lemma_pow2_strictly_increases(x2 + 1, x1);
        }
        assert(n1 * d2 > n2 * d1) by (nonlinear_arith)
            requires
                c * (d1 * p1) <= n1,
                n2 < (2 * c) * (d2 * p2),
                p2 * 2 <= p1,
                d1 > 0,
                d2 > 0,
                c > 0,
        {
            assert(n1 * d2 >= (c * (d1 * p1)) * d2);
            assert(n2 * d1 < ((2 * c) * (d2 * p2)) * d1);
            assert(((2 * c) * (d2 * p2)) * d1 == (c * d1 * d2) * (2 * p2));
            assert((c * (d1 * p1)) * d2 == (c * d1 * d2) * p1);
            assert((c * d1 * d2) * (2 * p2) <= (c * d1 * d2) * p1);
        }
    }
}

/// `2^e`, for the exponents that fit.
fn power_of_two(e: u32) -> (r: u128)
    requires
        e < 128,
    ensures
        r == pow2(e as nat),
{
    let mut r: u128 = 1;
    let mut i: u32 = 0;
    proof {
        lemma2_to64();
        lemma_power_of_two_fits(e);
    }
    while i < e
        invariant
            i <= e,
            e < 128,
            r == pow2(i as nat),
            pow2(e as nat) <= u128::MAX,
        decreases e - i,
    {
        proof {
            lemma_pow2_adds(i as nat, 1);
            lemma2_to64();
            if i + 1 < e {
                lemma_pow2_strictly_increases((i + 1) as nat, e as nat);
            }
        }
        r = r * 2;
        i = i + 1;
    }
    r
}

proof fn lemma_power_of_two_fits(e: u32)
    requires
        e < 128,
    ensures
        pow2(e as nat) <= 0x8000_0000_0000_0000_0000_0000_0000_0000,
{
    lemma2_to64();
    lemma2_to64_rest();
    lemma_pow2_adds(64, 63);
    if e < 127 {
        lemma_pow2_strictly_increases(e as nat, 127);
    }
}

/// The integer nearest to `n / d`, ties to even.
fn half_even(n: u128, d: u128) -> (r: u128)
    requires
        d > 1 || n < u128::MAX,
        d > 0,
    ensures
        r == round_half_even(n as nat, d as nat),
{
    let q: u128 = n / d;
    let r: u128 = n % d;
    if r < d - r || (r == d - r && q % 2 == 0) {
        q
    } else {
        proof {
            lemma_fundamental_div_mod(n as int, d as int);
            assert(q < u128::MAX) by (nonlinear_arith)
                requires
                    n == d * q + r,
                    r > 0,
                    d > 0,
                    n <= u128::MAX,
                    q >= 0,
            ;
        }
        q + 1
    }
}

/// A non-negative binary64 value in its normal range.
#[derive(Clone, Copy)]
pub struct Binary64 {
    mant: u64,
    exp: u32,
}

impl View for Binary64 {
    type V = nat;

    /// The value in smallest steps.
    closed spec fn view(&self) -> nat {
        self.mant as nat * pow2(self.exp as nat)
    }
}

impl Binary64 {
    /// Zero, or a significand of 53 bits.
    pub closed spec fn wf(self) -> bool {
        self.mant == 0 || pow2(52) <= self.mant < pow2(53)
    }

    /// The exponent of the last bit.
    pub closed spec fn exponent(self) -> nat {
        self.exp as nat
    }

    fn from_parts(mant: u64, exp: u32) -> (r: Self)
        requires
            pow2(52) <= mant <= pow2(53),
            exp < 10_000,
        ensures
            r.wf(),
            r@ == mant * pow2(exp as nat),
            r@ > 0,
            exp <= r.exponent() <= exp + 1,
    {
        proof {
            lemma2_to64();
            lemma2_to64_rest();
            lemma_pow2_adds(52, 1);
            lemma_pow2_pos(exp as nat);
            lemma_pow2_adds(exp as nat, 1);
        }
        let r = if mant == 0x20_0000_0000_0000 {
            Binary64 { mant: 0x10_0000_0000_0000, exp: exp + 1 }
        } else {
            Binary64 { mant, exp }
        };
        proof {
            let p = pow2(exp as nat);
            assert(mant == 2 * 0x10_0000_0000_0000 ==> mant * p == 0x10_0000_0000_0000 * (p * 2)) by (nonlinear_arith);
            assert(mant * p > 0) by (nonlinear_arith)
                requires
                    mant > 0,
                    p > 0,
            ;
        }
        r
    }
}

/// Where a fraction is rounded whose value is `v` in steps of `2^e`.
proof fn lemma_nearest_in_steps(v: nat, e: nat, s: nat, n: nat, d: nat)
    requires
        d > 0,
        n == (v * pow2(e)) * d,
        v < pow2(53) * pow2(s),
        pow2(52) * pow2(s) <= v,
    ensures
        nearest(n, d) == round_half_even(v, pow2(s)) * pow2(s + e),
{
    let p = pow2(e);
    let t = pow2(s);
    lemma_pow2_pos(e);
    lemma_pow2_pos(s);
    lemma_pow2_adds(s, e);
    assert((v * p) * d == v * (p * d)) by (nonlinear_arith);
    assert(d * (t * p) == t * (p * d)) by (nonlinear_arith);
    assert(p * d > 0) by (nonlinear_arith)
        requires
            p > 0,
            d > 0,
    ;
    lemma_nearest(n, d, s + e, v, t, p * d);
}

/// The nearest integer to `v / 2^s` has 53 bits, or is the next power of two.
proof fn lemma_significand_bounds(v: nat, s: nat)
    requires
        v < pow2(53) * pow2(s),
        pow2(52) * pow2(s) <= v,
    ensures
        pow2(52) <= round_half_even(v, pow2(s)) <= pow2(53),
{
    let t = pow2(s);
    lemma_pow2_pos(s);
    lemma_round_half_even_whole(pow2(52), t);
    lemma_round_half_even_whole(pow2(53), t);
    lemma_round_half_even_ordered(pow2(52) * t, v, t);
    lemma_round_half_even_ordered(v, pow2(53) * t, t);
}

/// A binary64 value rounded from zero is zero.
proof fn lemma_nearest_zero(d: nat)
    requires
        d > 0,
    ensures
        nearest(0, d) == 0,
{
    lemma2_to64();
    lemma_pow2_pos(53);
    let c = pow2(53);
    assert(0 < c * d) by (nonlinear_arith)
        requires
            c > 0,
            d > 0,
    ;
    lemma_nearest(0, d, 0, 0, d, 1);
    assert(round_half_even(0, d) == 0) by {
        lemma_round_half_even_whole(0, d);
    }
}

/// The step in which an integer of more than 53 bits is rounded, with its exponent.
fn step_of(v: u128) -> (r: (u32, u128))
    requires
        0x20_0000_0000_0000 <= v < 0x1000_0000_0000_0000_0000_0000_0000_0000,
    ensures
        1 <= r.0 <= 71,
        r.1 == pow2(r.0 as nat),
        pow2(52) * r.1 <= v < pow2(53) * r.1,
{
    proof {
        lemma2_to64();
        lemma2_to64_rest();
    }
    let mut t: u128 = 2;
    let mut s: u32 = 1;
    while v >= 0x20_0000_0000_0000 * t
        invariant
            1 <= s <= 71,
            t == pow2(s as nat),
            t <= 0x80_0000_0000_0000_0000,
            0x10_0000_0000_0000 * t <= v,
            v < 0x1000_0000_0000_0000_0000_0000_0000_0000,
        decreases 72 - s,
    {
        proof {
            lemma2_to64();
            lemma2_to64_rest();
            lemma_pow2_adds(s as nat, 1);
            lemma_pow2_adds(64, 7);
            if s == 71 {
                assert(t == 0x80_0000_0000_0000_0000);
                assert(0x20_0000_0000_0000 * t == 0x1000_0000_0000_0000_0000_0000_0000_0000);
            } else if s < 70 {
                lemma_pow2_strictly_increases((s + 1) as nat, 71);
            }
        }
        t = t * 2;
        s = s + 1;
    }
    (s, t)
}

impl Binary64 {
    /// Zero.
    pub fn zero() -> (r: Self)
        ensures
            r.wf(),
            r@ == 0,
            r.exponent() == 1022,
    {
        Binary64 { mant: 0, exp: 1022 }
    }

    /// The value nearest to `v` steps of `2^exp`.
    fn round(v: u128, exp: u32) -> (r: Self)
        requires
            52 <= exp < 5_000,
            v < 0x1000_0000_0000_0000_0000_0000_0000_0000,
        ensures
            r.wf(),
            forall|n: nat, d: nat| #[trigger]
                nearest(n, d) == r@ || d == 0 || n != (v * pow2(exp as nat)) * d,
            v == 0 <==> r@ == 0,
            v == 0 ==> r.exponent() == 1022,
            v > 0 ==> exp - 52 <= r.exponent() && pow2(52) * pow2(r.exponent()) <= 2 * (v * pow2(
                exp as nat,
            )),
    {
        proof {
            lemma2_to64();
            lemma2_to64_rest();
            lemma_pow2_adds(52, 1);
            lemma_pow2_pos(exp as nat);
        }
        if v == 0 {
            proof {
                assert forall|n: nat, d: nat|
                    d != 0 && n == (v * pow2(exp as nat)) * d implies #[trigger] nearest(n, d)
                    == 0 by {
                    let p = pow2(exp as nat);
                    assert((0 * p) * d == 0) by (nonlinear_arith);
                    lemma_nearest_zero(d);
                }
            }
            return Self::zero();
        }
        if v < 0x20_0000_0000_0000 {
            let mut m: u64 = v as u64;
            let mut e: u32 = exp;
            while m < 0x10_0000_0000_0000
                invariant
                    0 < m < 0x20_0000_0000_0000,
                    e <= exp,
                    e >= 52 || m >= pow2((52 - e) as nat),
                    exp < 5_000,
                    52 <= exp,
                    exp - e <= 52,
                    m >= pow2((exp - e) as nat),
                    m * pow2(e as nat) == v * pow2(exp as nat),
                decreases 0x20_0000_0000_0000 - m,
            {
                proof {
                    lemma2_to64();
                    lemma2_to64_rest();
                    if exp - e == 52 {
                        assert(m >= 0x10_0000_0000_0000);
                    }
                    lemma_pow2_adds((exp - e) as nat, 1);
                    lemma_pow2_adds((e - 1) as nat, 1);
                    let p = pow2((e - 1) as nat);
                    assert((2 * m) * p == m * (p * 2)) by (nonlinear_arith);
                }
                m = m * 2;
                e = e - 1;
            }
            proof {
                assert forall|n: nat, d: nat|
                    d != 0 && n == (v * pow2(exp as nat)) * d implies #[trigger] nearest(n, d)
                    == m * pow2(e as nat) by {
                    assert(pow2(53) * pow2(0) == pow2(53) && pow2(52) * pow2(0) == pow2(52));
                    lemma_nearest_in_steps(m as nat, e as nat, 0, n, d);
                    assert(round_half_even(m as nat, 1) == m);
                }
            }
            let r = Self::from_parts(m, e);
            proof {
                Self::lemma_exponent_value(r);
                assert(r@ == v * pow2(exp as nat));
            }
            r
        } else {
            let (s, t) = step_of(v);
            proof {
                lemma_significand_bounds(v as nat, s as nat);
                assert forall|n: nat, d: nat|
                    d != 0 && n == (v * pow2(exp as nat)) * d implies #[trigger] nearest(n, d)
                    == round_half_even(v as nat, t as nat) * pow2((s + exp) as nat) by {
                    lemma_nearest_in_steps(v as nat, exp as nat, s as nat, n, d);
                }
            }
            let q: u128 = half_even(v, t);
            let r = Self::from_parts(q as u64, s + exp);
            proof {
                Self::lemma_exponent_value(r);
                lemma_pow2_adds(s as nat, exp as nat);
                let p = pow2(exp as nat);
                // `q * t <= v + t <= 2 * v`
                lemma_fundamental_div_mod(v as int, t as int);
                let w = (v / t) as nat;
                assert(q <= w + 1);
                assert(q * (t * p) <= 2 * (v * p)) by (nonlinear_arith)
                    requires
                        q <= w + 1,
                        v == t * w + v % t,
                        0x10_0000_0000_0000 * t <= v,
                        v % t >= 0,
                        t > 0,
                        p > 0,
                {
                    assert(q * t <= (w + 1) * t);
                    assert((w + 1) * t == t * w + t);
                    assert(q * t <= 2 * v);
                    assert((q * t) * p <= (2 * v) * p);
                }
            }
            r
        }
    }

    /// The size of a value that is not zero lies between two powers of two.
    proof fn lemma_exponent_value(r: Self)
        requires
            r.wf(),
            r@ > 0,
        ensures
            pow2(52) * pow2(r.exponent()) <= r@ < pow2(53) * pow2(r.exponent()),
    {
        let p = pow2(r.exponent());
        lemma_pow2_pos(r.exponent());
        let m = r.mant as nat;
        let lo = pow2(52);
        let hi = pow2(53);
        if m == 0 {
            assert(m * p == 0) by (nonlinear_arith)
                requires
                    m == 0,
            ;
        }
        assert(lo * p <= m * p && m * p < hi * p) by (nonlinear_arith)
            requires
                lo <= m < hi,
                p > 0,
        ;
    }
}

/// Of two powers of two the larger has the larger exponent.
proof fn lemma_pow2_reflects(a: nat, b: nat)
    requires
        pow2(a) <= pow2(b),
    ensures
        a <= b,
{
    if b < a {
        lemma_pow2_strictly_increases(b, a);
    }
}

impl Binary64 {
    /// The integer `n`, rounded where it has more than 53 bits.
    pub fn from_u64(n: u64) -> (r: Self)
        ensures
            r.wf(),
            r@ == of_nat(n as nat),
            r@ == 0 <==> n == 0,
            1022 <= r.exponent() <= 1088,
            n <= u32::MAX ==> r.exponent() <= 1055,
    {
        let r = Self::round(n as u128, 1074);
        proof {
            let m = n as nat;
            assert((m * pow2(1074)) * 1 == m * unit());
            assert(nearest(m * unit(), 1) == r@);
            if n > 0 {
                let p = pow2(1074);
                lemma_pow2_pos(1074);
                lemma2_to64();
                lemma2_to64_rest();
                assert(2 * (n * p) <= 0x2_0000_0000_0000_0000 * p) by (nonlinear_arith)
                    requires
                        n <= 0x1_0000_0000_0000_0000,
                        p > 0,
                ;
                lemma_pow2_adds(64, 1);
                lemma_pow2_adds(65, 1074);
                lemma_pow2_adds(52, r.exponent());
                lemma_pow2_reflects(52 + r.exponent(), 65 + 1074);
                if n <= u32::MAX {
                    assert(2 * (n * p) <= 0x2_0000_0000 * p) by (nonlinear_arith)
                        requires
                            n <= 0x1_0000_0000,
                            p > 0,
                    ;
                    lemma_pow2_adds(33, 1074);
                    lemma_pow2_reflects(52 + r.exponent(), 33 + 1074);
                }
            }
        }
        r
    }

    /// The quotient of two values.
    pub fn divided_by(self, other: Self) -> (r: Self)
        requires
            self.wf(),
            other.wf(),
            other@ > 0,
            900 <= self.exponent() <= 1_200,
            900 <= other.exponent() <= 1_200,
        ensures
            r.wf(),
            r@ == quotient(self@, other@),
            r@ == 0 <==> self@ == 0,
            self@ > 0 ==> self.exponent() + 1021 <= r.exponent() + other.exponent()
                <= self.exponent() + 1023,
            self@ == 0 ==> r.exponent() == 1022,
    {
        let ghost (ma, xa) = (self.mant as nat, self.exp as nat);
        let ghost (mb, xb) = (other.mant as nat, other.exp as nat);
        proof {
            lemma2_to64();
            lemma2_to64_rest();
            lemma_pow2_pos(xa);
            lemma_pow2_pos(xb);
            lemma_pow2_adds(52, 1);
            let (pa, pb) = (pow2(xa), pow2(xb));
            assert(mb == 0 ==> mb * pb == 0) by (nonlinear_arith);
            assert(ma == 0 ==> ma * pa == 0) by (nonlinear_arith);
            assert(ma > 0 ==> ma * pa > 0) by (nonlinear_arith)
                requires
                    pa > 0,
            ;
        }
        if self.mant == 0 {
            proof {
                assert(0 * unit() == 0);
                lemma_nearest_zero(other@);
            }
            return Self::zero();
        }
        let k: u32 = if self.mant >= other.mant {
            52
        } else {
            53
        };
        let f: u128 = power_of_two_53(k);
        proof {
            assert(ma * f <= 0x20_0000_0000_0000 * 0x20_0000_0000_0000) by (nonlinear_arith)
                requires
                    ma <= 0x20_0000_0000_0000,
                    f <= 0x20_0000_0000_0000,
                    f >= 0,
            ;
        }
        let n: u128 = self.mant as u128 * f;
        let q: u128 = half_even(n, other.mant as u128);
        let x: u32 = self.exp + 1074 - other.exp - k;
        proof {
            let (kk, xx) = (k as nat, x as nat);
            let (a, c) = (n as nat, pow2(53));
            assert(a == f * ma) by (nonlinear_arith)
                requires
                    a == ma * f,
            ;
            assert(0x10_0000_0000_0000 * mb <= a < 0x20_0000_0000_0000 * mb);
            lemma_pow2_adds(xa, 1074);
            lemma_pow2_adds(kk, (xa + 1074 - kk) as nat);
            lemma_pow2_adds(xb, xx);
            let w = pow2((xa + 1074 - kk) as nat);
            lemma_pow2_pos((xa + 1074 - kk) as nat);
            assert(self@ * unit() == a * w) by (nonlinear_arith)
                requires
                    self@ == ma * pow2(xa),
                    pow2(xa) * unit() == pow2(kk) * w,
                    a == ma * pow2(kk),
            {
                assert((ma * pow2(xa)) * unit() == ma * (pow2(xa) * unit()));
                assert(ma * (pow2(kk) * w) == (ma * pow2(kk)) * w);
            }
            assert(other@ * pow2(xx) == mb * w) by (nonlinear_arith)
                requires
                    other@ == mb * pow2(xb),
                    w == pow2(xb) * pow2(xx),
            ;
            lemma_nearest(self@ * unit(), other@, xx, a, mb, w);
            lemma_round_half_even_whole(pow2(52), mb);
            lemma_round_half_even_whole(c, mb);
            lemma_round_half_even_ordered(pow2(52) * mb, a, mb);
            lemma_round_half_even_ordered(a, c * mb, mb);
        }
        Self::from_parts(q as u64, x)
    }

    /// The product of two values.
    pub fn times(self, other: Self) -> (r: Self)
        requires
            self.wf(),
            other.wf(),
            900 <= self.exponent() <= 1_200,
            900 <= other.exponent() <= 1_200,
        ensures
            r.wf(),
            r@ == product(self@, other@),
            r@ == 0 <==> self@ == 0 || other@ == 0,
            r@ > 0 ==> self.exponent() + other.exponent() + 52 <= r.exponent() + 1074
                <= self.exponent() + other.exponent() + 54,
            r@ == 0 ==> r.exponent() == 1022,
    {
        let ghost (ma, xa) = (self.mant as nat, self.exp as nat);
        let ghost (mb, xb) = (other.mant as nat, other.exp as nat);
        proof {
            lemma2_to64();
            lemma2_to64_rest();
            lemma_pow2_pos(xa);
            lemma_pow2_pos(xb);
            lemma_pow2_pos(1074);
            let (pa, pb) = (pow2(xa), pow2(xb));
            assert(ma == 0 ==> ma * pa == 0) by (nonlinear_arith);
            assert(mb == 0 ==> mb * pb == 0) by (nonlinear_arith);
            assert(ma > 0 ==> ma * pa > 0) by (nonlinear_arith)
                requires
                    pa > 0,
            ;
            assert(mb > 0 ==> mb * pb > 0) by (nonlinear_arith)
                requires
                    pb > 0,
            ;
        }
        if self.mant == 0 || other.mant == 0 {
            proof {
                assert(self@ * other@ == 0) by (nonlinear_arith)
                    requires
                        self@ == 0 || other@ == 0,
                ;
                lemma_nearest_zero(unit());
            }
            return Self::zero();
        }
        proof {
            assert(0x10_0000_0000_0000 * 0x10_0000_0000_0000 <= ma * mb < 0x20_0000_0000_0000
                * 0x20_0000_0000_0000) by (nonlinear_arith)
                requires
                    0x10_0000_0000_0000 <= ma < 0x20_0000_0000_0000,
                    0x10_0000_0000_0000 <= mb < 0x20_0000_0000_0000,
            ;
        }
        let v: u128 = self.mant as u128 * other.mant as u128;
        let s: u32 = if v < 0x200_0000_0000_0000_0000_0000_0000 {
            52
        } else {
            53
        };
        let q: u128 = half_even(v, power_of_two_53(s));
        let x: u32 = self.exp + other.exp - 1074;
        proof {
            lemma_pow2_adds(xa, xb);
            lemma_pow2_adds(x as nat, 1074);
            assert(self@ * other@ == (v * pow2(x as nat)) * unit()) by (nonlinear_arith)
                requires
                    self@ == ma * pow2(xa),
                    other@ == mb * pow2(xb),
                    v == ma * mb,
                    pow2(xa) * pow2(xb) == pow2(x as nat) * unit(),
            {
                assert((ma * pow2(xa)) * (mb * pow2(xb)) == (ma * mb) * (pow2(xa) * pow2(xb)));
                assert((v * pow2(x as nat)) * unit() == v * (pow2(x as nat) * unit()));
            }
            assert(pow2(52) * pow2(52) == 0x100_0000_0000_0000_0000_0000_0000);
            assert(pow2(53) * pow2(52) == 0x200_0000_0000_0000_0000_0000_0000);
            assert(pow2(52) * pow2(53) == 0x200_0000_0000_0000_0000_0000_0000);
            assert(pow2(53) * pow2(53) == 0x400_0000_0000_0000_0000_0000_0000);
            lemma_nearest_in_steps(v as nat, x as nat, s as nat, self@ * other@, unit());
            lemma_significand_bounds(v as nat, s as nat);
        }
        Self::from_parts(q as u64, s + x)
    }
}

/// `2^52` or `2^53`.
fn power_of_two_53(s: u32) -> (r: u128)
    requires
        52 <= s <= 53,
    ensures
        r == pow2(s as nat),
{
    proof {
        lemma2_to64();
        lemma2_to64_rest();
    }
    if s == 52 {
        0x10_0000_0000_0000
    } else {
        0x20_0000_0000_0000
    }
}

/// Quotient and remainder of two numbers with a common factor.
proof fn lemma_div_mod_common(m: nat, t: nat, p: nat)
    requires
        t > 0,
        p > 0,
    ensures
        (m * p) / (t * p) == m / t,
        (m * p) % (t * p) == (m % t) * p,
{
    let q = m / t;
    let r = m % t;
    lemma_fundamental_div_mod(m as int, t as int);
    assert(m * p == q * (t * p) + r * p) by (nonlinear_arith)
        requires
            m == t * q + r,
    ;
    assert(0 <= r * p < t * p) by (nonlinear_arith)
        requires
            0 <= r < t,
            p > 0,
    ;
    lemma_fundamental_div_mod_converse((m * p) as int, (t * p) as int, q as int, (r * p) as int);
}

/// `v` rounded to 53 bits; that is the nearest value in steps of any size.
fn round_integer(v: u128, exp: u32) -> (r: u128)
    requires
        v < 0x1000_0000_0000_0000_0000_0000_0000_0000,
    ensures
        nearest(v as nat * pow2(exp as nat), 1) == r * pow2(exp as nat),
        r <= 2 * v,
{
    proof {
        lemma2_to64();
        lemma2_to64_rest();
    }
    if v < 0x20_0000_0000_0000 {
        proof {
            lemma_nearest_exact(v as nat, exp as nat);
        }
        v
    } else {
        let (s, t) = step_of(v);
        let q: u128 = half_even(v, t);
        proof {
            let (n, p) = (v as nat, pow2(exp as nat));
            lemma_nearest_in_steps(n, exp as nat, s as nat, n * p, 1);
            lemma_pow2_adds(s as nat, exp as nat);
            assert(q * (t * p) == (q * t) * p) by (nonlinear_arith);
            lemma_fundamental_div_mod(v as int, t as int);
            let w = (v / t) as nat;
            assert(q * t <= 2 * v) by (nonlinear_arith)
                requires
                    q <= w + 1,
                    v == t * w + v % t,
                    0x10_0000_0000_0000 * t <= v,
                    v % t >= 0,
                    t > 0,
            {
                assert(q * t <= (w + 1) * t);
                assert((w + 1) * t == t * w + t);
            }
            assert(q * t >= 0) by (nonlinear_arith)
                requires
                    q >= 0,
                    t >= 0,
            ;
        }
        q * t
    }
}

impl Binary64 {
    /// The sum of two values.
    pub fn plus(self, other: Self) -> (r: Self)
        requires
            self.wf(),
            other.wf(),
            900 <= self.exponent() <= 1_200,
            900 <= other.exponent() <= 1_200,
        ensures
            r.wf(),
            r@ == sum(self@, other@),
            r@ == 0 <==> self@ == 0 && other@ == 0,
            848 <= r.exponent() <= 1_203,
            self.exponent() <= 1_090 && other.exponent() <= 1_090 ==> r.exponent() <= 1_093,
            self.exponent() >= 960 && other.exponent() >= 960 ==> r.exponent() >= 908,
    {
        if self.exp < other.exp {
            Self::sum_ordered(other, self)
        } else {
            Self::sum_ordered(self, other)
        }
    }

    fn sum_ordered(hi: Self, lo: Self) -> (r: Self)
        requires
            hi.wf(),
            lo.wf(),
            900 <= lo.exponent() <= hi.exponent() <= 1_200,
        ensures
            r.wf(),
            r@ == sum(hi@, lo@),
            r@ == 0 <==> hi@ == 0 && lo@ == 0,
            lo.exponent() - 52 <= r.exponent() <= hi.exponent() + 3 || r.exponent() == 1022,
            r.exponent() == 1022 || r.exponent() >= lo.exponent() - 52,
    {
        let ghost (mh, xh) = (hi.mant as nat, hi.exp as nat);
        let ghost (ml, xl) = (lo.mant as nat, lo.exp as nat);
        let ghost (ph, pl) = (pow2(xh), pow2(xl));
        proof {
            lemma2_to64();
            lemma2_to64_rest();
            lemma_pow2_pos(xh);
            lemma_pow2_pos(xl);
            assert(mh == 0 ==> mh * ph == 0) by (nonlinear_arith);
            assert(ml == 0 ==> ml * pl == 0) by (nonlinear_arith);
            assert(mh > 0 ==> mh * ph > 0) by (nonlinear_arith)
                requires
                    ph > 0,
            ;
            assert(ml > 0 ==> ml * pl > 0) by (nonlinear_arith)
                requires
                    pl > 0,
            ;
        }
        if hi.mant == 0 {
            proof {
                lemma_nearest_exact(ml, xl);
            }
            return lo;
        }
        let diff: u32 = hi.exp - lo.exp;
        let ghost td = pow2(diff as nat);
        proof {
            lemma_pow2_adds(diff as nat, xl);
            assert(mh * (td * pl) + ml * pl == (mh * td + ml) * pl) by (nonlinear_arith);
        }
        if diff <= 64 {
            let t: u128 = power_of_two(diff);
            proof {
                if diff < 64 {
                    lemma_pow2_strictly_increases(diff as nat, 64);
                }
                lemma_pow2_pos(diff as nat);
                assert(0 < mh * td < 0x20_0000_0000_0000_0000_0000_0000_0000) by (nonlinear_arith)
                    requires
                        0 < mh < 0x20_0000_0000_0000,
                        0 < td <= 0x1_0000_0000_0000_0000,
                ;
            }
            let v: u128 = hi.mant as u128 * t + lo.mant as u128;
            let r = Self::round(v, lo.exp);
            proof {
                assert((v * pl) * 1 == hi@ + lo@);
                assert(nearest(hi@ + lo@, 1) == r@);
                let c = pow2(54);
                assert(2 * (v * pl) <= (2 * c) * (td * pl)) by (nonlinear_arith)
                    requires
                        v == mh * td + ml,
                        mh < 0x20_0000_0000_0000,
                        ml < 0x20_0000_0000_0000,
                        c == 0x40_0000_0000_0000,
                        td >= 1,
                        pl > 0,
                {
                    assert(mh * td <= 0x20_0000_0000_0000 * td);
                    assert(ml <= 0x20_0000_0000_0000 * td);
                    assert(v <= c * td);
                    assert(v * pl <= (c * td) * pl);
                    assert((c * td) * pl == c * (td * pl));
                }
                lemma_pow2_adds(54, 1);
                lemma_pow2_adds(55, xh);
                lemma_pow2_adds(52, r.exponent());
                lemma_pow2_reflects(52 + r.exponent(), 55 + xh);
            }
            r
        } else {
            proof {
                lemma_pow2_strictly_increases(64, diff as nat);
                let v = mh * td + ml;
                assert(v < pow2(53) * td) by (nonlinear_arith)
                    requires
                        v == mh * td + ml,
                        mh + 1 <= pow2(53),
                        ml < td,
                ;
                assert(pow2(52) * td <= v) by (nonlinear_arith)
                    requires
                        v == mh * td + ml,
                        mh >= pow2(52),
                        td >= 0,
                ;
                lemma_nearest_in_steps(v, xl, diff as nat, hi@ + lo@, 1);
                lemma_fundamental_div_mod_converse(v as int, td as int, mh as int, ml as int);
            }
            hi
        }
    }

    /// The whole part, and the bits after the point in steps of the last bit.
    fn split(self) -> (r: (u128, u64))
        requires
            self.wf(),
            self.exponent() <= 1_148,
        ensures
            r.0 == floor(self@),
            fraction(self@) == r.1 * pow2(self.exponent()),
            r.1 < 0x20_0000_0000_0000,
            self.exponent() >= 1074 ==> r.1 == 0,
    {
        let ghost (m, x) = (self.mant as nat, self.exp as nat);
        proof {
            lemma2_to64();
            lemma2_to64_rest();
            lemma_pow2_pos(x);
            lemma_pow2_pos(1074);
        }
        if self.exp >= 1074 {
            let t: u128 = power_of_two(self.exp - 1074);
            proof {
                let y = (x - 1074) as nat;
                lemma_pow2_adds(y, 1074);
                lemma_pow2_pos(y);
                lemma_pow2_adds(64, 10);
                if y < 74 {
                    lemma_pow2_strictly_increases(y, 74);
                }
                let u = unit();
                assert(m * (t * u) == (m * t) * u) by (nonlinear_arith);
                assert(0 <= m * t < 0x20_0000_0000_0000 * 0x400_0000_0000_0000_0000) by (nonlinear_arith)
                    requires
                        0 <= m < 0x20_0000_0000_0000,
                        0 < t <= 0x400_0000_0000_0000_0000,
                ;
                lemma_fundamental_div_mod_converse((m * t * u) as int, u as int, (m * t) as int, 0);
                assert(0 * pow2(x) == 0);
            }
            (self.mant as u128 * t, 0)
        } else {
            let sh: u32 = 1074 - self.exp;
            proof {
                lemma_pow2_adds(sh as nat, x);
                lemma_pow2_pos(sh as nat);
                lemma_div_mod_common(m, pow2(sh as nat), pow2(x));
            }
            if sh >= 64 {
                proof {
                    if sh > 64 {
                        lemma_pow2_strictly_increases(64, sh as nat);
                    }
                    lemma_basic_div(m as int, pow2(sh as nat) as int);
                    lemma_small_mod(m, pow2(sh as nat));
                }
                (0, self.mant)
            } else {
                let t: u128 = power_of_two(sh);
                proof {
                    lemma_pow2_strictly_increases(sh as nat, 64);
                    lemma_mod_decreases(m, t as nat);
                }
                (self.mant as u128 / t, (self.mant as u128 % t) as u64)
            }
        }
    }
}

impl Binary64 {
    /// The largest integer that is not above the value.
    pub fn to_floor(self) -> (r: u128)
        requires
            self.wf(),
            self.exponent() <= 1_148,
        ensures
            r == floor(self@),
    {
        self.split().0
    }

    /// The smallest integer that is not below the value.
    pub fn to_ceil(self) -> (r: u128)
        requires
            self.wf(),
            self.exponent() <= 1_148,
        ensures
            r == ceil(self@),
    {
        let (whole, rest) = self.split();
        proof {
            let p = pow2(self.exponent());
            lemma_pow2_pos(self.exponent());
            assert(rest * p == 0 <==> rest == 0) by (nonlinear_arith)
                requires
                    p > 0,
            ;
            lemma_floor_bound(self);
        }
        if rest == 0 {
            whole
        } else {
            whole + 1
        }
    }

    /// The value, taken as seconds, in whole nanoseconds, ties to even.
    pub fn to_nanoseconds(self) -> (r: u128)
        requires
            self.wf(),
            self.exponent() <= 1_110,
        ensures
            r == nanoseconds(self@),
    {
        let ghost (m, x) = (self.mant as nat, self.exp as nat);
        proof {
            lemma2_to64();
            lemma2_to64_rest();
            lemma_pow2_pos(x);
            lemma_pow2_pos(1074);
        }
        let n: u128 = self.mant as u128 * 1_000_000_000;
        let ghost p = pow2(x);
        proof {
            assert((m * p) * 1_000_000_000 == (m * 1_000_000_000) * p) by (nonlinear_arith);
        }
        if self.exp >= 1074 {
            let t: u128 = power_of_two(self.exp - 1074);
            proof {
                let y = (x - 1074) as nat;
                lemma_pow2_adds(y, 1074);
                lemma_pow2_pos(y);
                if y < 36 {
                    lemma_pow2_strictly_increases(y, 36);
                }
                let u = unit();
                assert(n * (t * u) == (n * t) * u) by (nonlinear_arith);
                assert(0 <= n * t < 0x1000_0000_0000_0000_0000_0000 * 0x10_0000_0000) by (nonlinear_arith)
                    requires
                        0 <= n < 0x1000_0000_0000_0000_0000_0000,
                        0 < t <= 0x10_0000_0000,
                ;
                lemma_round_half_even_whole((n * t) as nat, u);
            }
            n * t
        } else {
            let sh: u32 = 1074 - self.exp;
            proof {
                lemma_pow2_adds(sh as nat, x);
                lemma_pow2_pos(sh as nat);
                lemma_round_half_even_scaled(n as nat, pow2(sh as nat), p);
            }
            if sh >= 100 {
                proof {
                    lemma_pow2_adds(64, 36);
                    if sh > 100 {
                        lemma_pow2_strictly_increases(100, sh as nat);
                    }
                    lemma_basic_div(n as int, pow2(sh as nat) as int);
                    lemma_small_mod(n as nat, pow2(sh as nat));
                }
                0
            } else {
                half_even(n, power_of_two(sh))
            }
        }
    }

    /// The value on the line from `s1` to `s2`, at the part of `self` after the point.
    pub fn interpolate(self, s1: i16, s2: i16) -> (r: i16)
        requires
            self.wf(),
            980 <= self.exponent() <= 1_148,
        ensures
            r == interpolated(s1 as int, s2 as int, fraction(self@)),
    {
        let (_, g) = self.split();
        let ghost x = self.exp as nat;
        let ghost px = pow2(x);
        let exp: u32 = if self.exp >= 1074 {
            1074
        } else {
            self.exp
        };
        let ghost e = exp as nat;
        let ghost pe = pow2(e);
        let ghost f = fraction(self@);
        proof {
            lemma2_to64();
            lemma2_to64_rest();
            lemma_pow2_pos(e);
            assert(g == 0 ==> g * px == g * pe) by (nonlinear_arith);
            assert(f == g * pe);
        }
        let sh: u32 = 1074 - exp;
        let t: u128 = power_of_two(sh);
        proof {
            lemma_pow2_adds(sh as nat, e);
            lemma_pow2_adds(64, 30);
            if sh < 94 {
                lemma_pow2_strictly_increases(sh as nat, 94);
            }
            lemma_pow2_pos(sh as nat);
        }
        let rising: bool = s2 >= s1;
        let delta: u32 = if rising {
            (s2 as i32 - s1 as i32) as u32
        } else {
            (s1 as i32 - s2 as i32) as u32
        };
        proof {
            assert(0 <= delta * g <= 0x1_0000 * 0x20_0000_0000_0000) by (nonlinear_arith)
                requires
                    0 <= delta <= 0x1_0000,
                    0 <= g <= 0x20_0000_0000_0000,
            ;
            assert((delta as nat) * (g * pe) == (delta * g) * pe) by (nonlinear_arith);
        }
        let p: u128 = round_integer(delta as u128 * g as u128, exp);
        proof {
            assert(-(0x8000 * 0x4000_0000_0000_0000_0000_0000) <= s1 * t <= 0x8000
                * 0x4000_0000_0000_0000_0000_0000) by (nonlinear_arith)
                requires
                    -0x8000 <= s1 <= 0x8000,
                    0 < t <= 0x4000_0000_0000_0000_0000_0000,
            ;
        }
        let base: i128 = s1 as i128 * t as i128;
        let v: i128 = if rising {
            base + p as i128
        } else {
            base - p as i128
        };
        let abs: u128 = if v >= 0 {
            v as u128
        } else {
            (-v) as u128
        };
        let q: u128 = round_integer(abs, exp);
        let m: u128 = q / t;
        proof {
            let pp = p as nat * pe;
            assert(s1 * (t * pe) == (s1 * t) * pe) by (nonlinear_arith);
            assert(base * pe + p * pe == (base + p) * pe) by (nonlinear_arith);
            assert(base * pe - p * pe == (base - p) * pe) by (nonlinear_arith);
            assert(v >= 0 ==> v * pe >= 0) by (nonlinear_arith)
                requires
                    pe > 0,
            ;
            assert(v < 0 ==> v * pe < 0) by (nonlinear_arith)
                requires
                    pe > 0,
            ;
            assert(-(v * pe) == (-v) * pe) by (nonlinear_arith);
            let tt = if s2 >= s1 {
                s1 * unit() + pp
            } else {
                s1 * unit() - pp
            };
            assert(tt == v * pe);
            assert(magnitude(tt) == abs as nat * pe);
            lemma_div_mod_common(q as nat, t as nat, pe);
            assert(floor(nearest(magnitude(tt), 1)) == m);
            assert(magnitude(s2 - s1) == delta as nat);
            assert(nearest(magnitude(s2 - s1) * f, 1) == pp);
        }
        if v >= 0 {
            if m > 32767 {
                32767
            } else {
                m as i16
            }
        } else if m > 32768 {
            -32768
        } else {
            (-(m as i32)) as i16
        }
    }
}

/// The whole part of a value that a `to_floor` can be asked for is far from overflow.
proof fn lemma_floor_bound(a: Binary64)
    requires
        a.wf(),
        a.exponent() <= 1_148,
    ensures
        floor(a@) < 0x8000_0000_0000_0000_0000_0000_0000_0000,
{
    let (m, x) = (a.mant as nat, a.exp as nat);
    lemma2_to64();
    lemma2_to64_rest();
    lemma_pow2_adds(64, 10);
    lemma_pow2_adds(74, 1074);
    if x < 1148 {
        lemma_pow2_strictly_increases(x, 1148);
    }
    lemma_pow2_pos(1074);
    let u = unit();
    let c = 0x400_0000_0000_0000_0000nat;
    let px = pow2(x);
    assert(m * px <= (m * c) * u) by (nonlinear_arith)
        requires
            px <= c * u,
            m >= 0,
    ;
    lemma_div_is_ordered((m * px) as int, ((m * c) * u) as int, u as int);
    lemma_div_by_multiple((m * c) as int, u as int);
}

/// A whole number of at most 53 bits is exact.
pub proof fn lemma_whole_exact(v: nat)
    requires
        v < pow2(53),
    ensures
        nearest(v * unit(), 1) == v * unit(),
        of_nat(v) == v * unit(),
        floor(v * unit()) == v,
        fraction(v * unit()) == 0,
{
    lemma_nearest_exact(v, 1074);
    lemma_pow2_pos(1074);
    lemma_fundamental_div_mod_converse((v * unit()) as int, unit() as int, v as int, 0);
}

/// At a point that lies on a sample, interpolation gives that sample.
pub proof fn lemma_interpolated_on_sample(s1: int, s2: int)
    requires
        -32768 <= s1 <= 32767,
        -32768 <= s2 <= 32767,
    ensures
        interpolated(s1, s2, 0) == s1,
{
    lemma2_to64_rest();
    let d = magnitude(s2 - s1);
    assert(d * 0 == 0) by (nonlinear_arith);
    lemma_nearest_zero(1);
    lemma_pow2_pos(1074);
    let u = unit();
    let m = magnitude(s1);
    lemma_whole_exact(m);
    assert(magnitude(s1 * u) == m * u) by (nonlinear_arith)
        requires
            m == magnitude(s1),
            u > 0,
    ;
    assert(s1 * u >= 0 <==> s1 >= 0) by (nonlinear_arith)
        requires
            u > 0,
    ;
}

/// An interpolated value never leaves the range between its two neighbours.
pub proof fn lemma_interpolated_between(s1: int, s2: int, f: nat)
    requires
        -32768 <= s1 <= 32767,
        -32768 <= s2 <= 32767,
        f <= unit(),
    ensures
        s1 <= s2 ==> s1 <= interpolated(s1, s2, f) <= s2,
        s2 <= s1 ==> s2 <= interpolated(s1, s2, f) <= s1,
{
    lemma2_to64_rest();
    lemma_pow2_pos(1074);
    let u = unit();
    let d = magnitude(s2 - s1);
    let p = nearest(d * f, 1);
    assert(d * f <= d * u) by (nonlinear_arith)
        requires
            f <= u,
            d >= 0,
    ;
    lemma_nearest_monotone(d * f, 1, d * u, 1);
    lemma_whole_exact(d);
    let t = if s2 >= s1 {
        s1 * u + p
    } else {
        s1 * u - p
    };
    assert(s2 >= s1 ==> d * u == s2 * u - s1 * u) by (nonlinear_arith)
        requires
            s2 >= s1 ==> d == s2 - s1,
    ;
    assert(s2 < s1 ==> d * u == s1 * u - s2 * u) by (nonlinear_arith)
        requires
            s2 < s1 ==> d == s1 - s2,
    ;
    let lo = if s1 <= s2 {
        s1
    } else {
        s2
    };
    let hi = if s1 <= s2 {
        s2
    } else {
        s1
    };
    assert(lo * u <= t <= hi * u);
    let m = floor(nearest(magnitude(t), 1));
    if t >= 0 {
        assert(hi >= 0) by (nonlinear_arith)
            requires
                hi * u >= 0,
                u > 0,
        ;
        lemma_magnitude_floor(t as nat, if lo >= 0 {
            lo as nat
        } else {
            0
        }, hi as nat);
    } else {
        assert(lo < 0) by (nonlinear_arith)
            requires
                lo * u < 0,
                u > 0,
        ;
        assert((-lo) * u == -(lo * u)) by (nonlinear_arith);
        assert((-hi) * u == -(hi * u)) by (nonlinear_arith);
        lemma_magnitude_floor((-t) as nat, if hi < 0 {
            (-hi) as nat
        } else {
            0
        }, (-lo) as nat);
    }
}

/// The whole part of a rounded value stays between two integers that hold the value.
proof fn lemma_magnitude_floor(t: nat, lo: nat, hi: nat)
    requires
        lo * unit() <= t <= hi * unit(),
        hi < pow2(53),
        lo < pow2(53),
    ensures
        lo <= floor(nearest(t, 1)) <= hi,
{
    lemma_pow2_pos(1074);
    lemma_whole_exact(lo);
    lemma_whole_exact(hi);
    lemma_nearest_monotone(lo * unit(), 1, t, 1);
    lemma_nearest_monotone(t, 1, hi * unit(), 1);
    lemma_div_is_ordered((lo * unit()) as int, nearest(t, 1) as int, unit() as int);
    lemma_div_is_ordered(nearest(t, 1) as int, (hi * unit()) as int, unit() as int);
}

/// A product with zero is zero.
pub proof fn lemma_product_zero(a: nat)
    ensures
        of_nat(0) == 0,
        product(a, 0) == 0,
        ceil(0) == 0,
{
    lemma2_to64();
    lemma_pow2_pos(53);
    lemma_pow2_pos(1074);
    lemma_whole_exact(0);
    assert(a * 0 == 0) by (nonlinear_arith);
    lemma_nearest_zero(unit());
}

/// Zero divided by anything else is zero.
pub proof fn lemma_zero_quotient(b: nat)
    requires
        b > 0,
    ensures
        of_nat(0) == 0,
        quotient(0, b) == 0,
        floor(0) == 0,
        fraction(0) == 0,
{
    lemma2_to64();
    lemma_pow2_pos(53);
    lemma_pow2_pos(1074);
    lemma_whole_exact(0);
    assert(0 * unit() == 0);
    lemma_nearest_zero(b);
}

/// The part after the point is less than one.
pub proof fn lemma_fraction_below_one(a: nat)
    ensures
        fraction(a) < unit(),
{
    lemma_pow2_pos(1074);
}

/// The ratio of two rates that are not zero is not zero.
pub proof fn lemma_rate_positive(a: u32, b: u32)
    requires
        a > 0,
        b > 0,
    ensures
        quotient(of_nat(a as nat), of_nat(b as nat)) > 0,
{
    lemma2_to64();
    lemma2_to64_rest();
    lemma_whole_exact(a as nat);
    lemma_whole_exact(b as nat);
    lemma_pow2_pos(1074);
    lemma_pow2_pos(1042);
    lemma_pow2_adds(32, 1042);
    let u = unit();
    let low = pow2(1042);
    let (n, d) = (a as nat, b as nat);
    assert(low * (d * u) <= ((n * u) * u) * 1) by (nonlinear_arith)
        requires
            n >= 1,
            d <= 0x1_0000_0000,
            u == 0x1_0000_0000 * low,
            u > 0,
            low > 0,
    {
        assert(low * d <= low * 0x1_0000_0000);
        assert(low * d <= u);
        assert((low * d) * u <= u * u);
        assert(low * (d * u) == (low * d) * u);
        assert(u * u <= (n * u) * u);
    }
    assert(d * u > 0) by (nonlinear_arith)
        requires
            d > 0,
            u > 0,
    ;
    lemma_nearest_monotone(low, 1, (n * u) * u, d * u);
    assert(1 * pow2(1042) == low);
    lemma_nearest_exact(1, 1042);
}

/// The ratio of two rates has been rounded.
pub proof fn lemma_rate_rounded(a: u32, b: u32)
    requires
        b > 0,
    ensures
        nearest(quotient(of_nat(a as nat), of_nat(b as nat)), 1) == quotient(
            of_nat(a as nat),
            of_nat(b as nat),
        ),
{
    lemma_positive_value(b as nat);
    lemma_nearest_again(of_nat(a as nat) * unit(), of_nat(b as nat));
}

/// A quotient of an integer below `2^63` by a positive integer is at most `2^63`.
pub proof fn lemma_quotient_bound(a: u64, b: u64)
    requires
        b > 0,
        a <= 0x7fff_ffff_ffff_ffff,
    ensures
        quotient(of_nat(a as nat), of_nat(b as nat)) <= 0x8000_0000_0000_0000 * unit(),
        nanoseconds(quotient(of_nat(a as nat), of_nat(b as nat)))
            <= 0x8000_0000_0000_0000 * 1_000_000_000,
{
    lemma2_to64();
    lemma2_to64_rest();
    lemma_pow2_pos(1074);
    let u = unit();
    let top = 0x8000_0000_0000_0000 * u;
    let (n, d) = (of_nat(a as nat), of_nat(b as nat));
    lemma_pow2_adds(11, 1074);
    lemma_nearest_exact(0x10_0000_0000_0000, 1085);
    assert(0x10_0000_0000_0000 * pow2(1085) == top);
    assert(a as nat * u <= top) by (nonlinear_arith)
        requires
            a <= 0x8000_0000_0000_0000,
            top == 0x8000_0000_0000_0000 * u,
            u > 0,
    ;
    lemma_nearest_monotone(a as nat * u, 1, top, 1);
    lemma_whole_exact(1);
    assert(1 * u <= b as nat * u) by (nonlinear_arith)
        requires
            b >= 1,
            u > 0,
    ;
    lemma_nearest_monotone(1 * u, 1, b as nat * u, 1);
    assert(n * u <= top * d) by (nonlinear_arith)
        requires
            n <= top,
            u <= d,
            n >= 0,
            top >= 0,
    ;
    lemma_nearest_monotone(n * u, d, top, 1);
    let q = quotient(n, d);
    let e = 0x8000_0000_0000_0000nat * 1_000_000_000;
    lemma_round_half_even_whole(e, u);
    assert(e * u == top * 1_000_000_000) by (nonlinear_arith)
        requires
            e == 0x8000_0000_0000_0000 * 1_000_000_000,
            top == 0x8000_0000_0000_0000 * u,
    ;
    lemma_round_half_even_ordered(q * 1_000_000_000, e * u, u);
}

/// A product of zero is zero.
pub proof fn lemma_zero_product(b: nat)
    ensures
        product(of_nat(0), b) == 0,
        floor(0) == 0,
{
    lemma2_to64();
    lemma_pow2_pos(53);
    lemma_pow2_pos(1074);
    lemma_whole_exact(0);
    assert(0 * unit() == 0);
    assert(0 * b == 0) by (nonlinear_arith);
    lemma_nearest_zero(unit());
}

/// Equal fractions have the same nearest value.
proof fn lemma_nearest_equal(n1: nat, d1: nat, n2: nat, d2: nat)
    requires
        d1 > 0,
        d2 > 0,
        n1 * d2 == n2 * d1,
    ensures
        nearest(n1, d1) == nearest(n2, d2),
{
    lemma_nearest_monotone(n1, d1, n2, d2);
    lemma_nearest_monotone(n2, d2, n1, d1);
}

/// A quotient of whole numbers that is itself one, of at most 53 bits, is exact.
pub proof fn lemma_whole_quotient(a: nat, b: nat, q: nat)
    requires
        b > 0,
        a == q * b,
        a < pow2(53),
    ensures
        quotient(of_nat(a), of_nat(b)) == q * unit(),
{
    let u = unit();
    lemma_pow2_pos(1074);
    assert(b <= a || q == 0) by (nonlinear_arith)
        requires
            a == q * b,
            b > 0,
    ;
    assert(q <= a) by (nonlinear_arith)
        requires
            a == q * b,
            b > 0,
    ;
    lemma_whole_exact(a);
    lemma_whole_exact(q);
    if q == 0 {
        lemma_positive_value(b);
        lemma_zero_quotient(of_nat(b));
        assert(0 * u == 0);
    } else {
        lemma_whole_exact(b);
        assert(b * u > 0) by (nonlinear_arith)
            requires
                b > 0,
                u > 0,
        ;
        assert(((q * b) * u) * u * 1 == (q * u) * (b * u)) by (nonlinear_arith);
        lemma_nearest_equal((a * u) * u, b * u, q * u, 1);
    }
}

/// A whole number that is not zero has a value that is not zero.
proof fn lemma_positive_value(b: nat)
    requires
        b > 0,
    ensures
        of_nat(b) > 0,
{
    let u = unit();
    lemma2_to64();
    lemma2_to64_rest();
    lemma_pow2_pos(1074);
    lemma_whole_exact(1);
    assert(1 * u <= b * u) by (nonlinear_arith)
        requires
            b > 0,
            u > 0,
    ;
    lemma_nearest_monotone(1 * u, 1, b * u, 1);
}

/// A product of whole numbers, of at most 53 bits, is exact.
pub proof fn lemma_whole_product(a: nat, b: nat)
    requires
        a < pow2(53),
        a * b < pow2(53),
    ensures
        product(of_nat(a), b * unit()) == (a * b) * unit(),
        ceil((a * b) * unit()) == a * b,
{
    let u = unit();
    lemma_pow2_pos(1074);
    lemma_whole_exact(a);
    lemma_whole_exact(a * b);
    assert(((a * u) * (b * u)) * 1 == ((a * b) * u) * u) by (nonlinear_arith);
    lemma_nearest_equal((a * u) * (b * u), u, (a * b) * u, 1);
}

/// A value times a whole number that is not zero is not zero where the value is not.
pub proof fn lemma_product_positive(n: nat, b: nat)
    requires
        n > 0,
        b > 0,
        nearest(b, 1) == b,
    ensures
        product(of_nat(n), b) > 0,
        ceil(product(of_nat(n), b)) > 0,
{
    let u = unit();
    let a = of_nat(n);
    lemma2_to64();
    lemma2_to64_rest();
    lemma_pow2_pos(1074);
    lemma_whole_exact(1);
    assert(1 * u <= n * u) by (nonlinear_arith)
        requires
            n > 0,
            u > 0,
    ;
    lemma_nearest_monotone(1 * u, 1, n * u, 1);
    assert(b * u <= (a * b) * 1) by (nonlinear_arith)
        requires
            u <= a,
    ;
    lemma_nearest_monotone(b, 1, a * b, u);
    let p = product(a, b);
    lemma_fundamental_div_mod(p as int, u as int);
    if p % u == 0 {
        assert(p / u > 0) by (nonlinear_arith)
            requires
                p == u * (p / u) + p % u,
                p % u == 0,
                p > 0,
                u > 0,
        ;
    }
}

/// What has been rounded stays as it is when it is rounded again.
pub proof fn lemma_nearest_again(n: nat, d: nat)
    requires
        d > 0,
    ensures
        nearest(nearest(n, d), 1) == nearest(n, d),
{
    lemma_spans_exists(n, d);
    let x = step_exponent(n, d);
    let p = pow2(x);
    let c = pow2(53);
    lemma_pow2_pos(x);
    lemma2_to64_rest();
    assert(d * p > 0) by (nonlinear_arith)
        requires
            d > 0,
            p > 0,
    ;
    lemma_round_half_even_whole(c, d * p);
    lemma_round_half_even_ordered(n, c * (d * p), d * p);
    let v = round_half_even(n, d * p);
    if v < c {
        lemma_nearest_exact(v, x);
    } else {
        lemma_pow2_adds(53, x);
        assert(1 * pow2(53 + x) == v * p);
        lemma_nearest_exact(1, 53 + x);
    }
}

/// How many steps of `2^-54` the value nearest to a third has.
spec fn third_steps() -> nat {
    6_004_799_503_160_661
}

proof fn lemma_third()
    ensures
        nearest(unit(), 3) == third_steps() * pow2(1020),
        3 * (third_steps() * pow2(1020)) == unit() - pow2(1020),
        unit() == 0x40_0000_0000_0000 * pow2(1020),
        pow2(1020) > 0,
{
    lemma2_to64();
    lemma2_to64_rest();
    let p = pow2(1020);
    lemma_pow2_pos(1020);
    lemma_pow2_adds(54, 1020);
    lemma_nearest(unit(), 3, 1020, 0x40_0000_0000_0000, 3, p);
    assert(round_half_even(0x40_0000_0000_0000, 3) == third_steps()) by {
        assert(0x40_0000_0000_0000nat / 3 == third_steps());
        assert(0x40_0000_0000_0000nat % 3 == 1);
    }
    assert(3 * (6_004_799_503_160_661 * p) == 0x40_0000_0000_0000 * p - p) by (nonlinear_arith);
}

/// Where the ratio of two rates is one to three, it is what a third is rounded to.
proof fn lemma_third_of_rate(to: nat)
    requires
        0 < to,
        3 * to < pow2(53),
    ensures
        quotient(of_nat(to), of_nat(3 * to)) == third_steps() * pow2(1020),
{
    let u = unit();
    lemma_pow2_pos(1074);
    lemma_whole_exact(to);
    lemma_whole_exact(3 * to);
    assert((3 * to) * u > 0) by (nonlinear_arith)
        requires
            to > 0,
            u > 0,
    ;
    assert(((to * u) * u) * 3 == u * ((3 * to) * u)) by (nonlinear_arith);
    lemma_nearest_equal((to * u) * u, (3 * to) * u, u, 3);
    lemma_third();
}

/// A place divided by a third is three times as far, exactly.
pub proof fn lemma_divided_by_third(to: nat, i: nat)
    requires
        0 < to,
        3 * to < pow2(53),
        i < 0x4_0000_0000_0000,
    ensures
        quotient(of_nat(i), quotient(of_nat(to), of_nat(3 * to))) == (3 * i) * unit(),
{
    let u = unit();
    let p = pow2(1020);
    let t = third_steps();
    let d = t * p;
    lemma2_to64();
    lemma2_to64_rest();
    lemma_third();
    lemma_third_of_rate(to);
    lemma_whole_exact(i);
    let n = (i * u) * u;
    assert(d > 0) by (nonlinear_arith)
        requires
            d == t * p,
            t == third_steps(),
            p > 0,
    ;
    lemma_spans_exists(n, d);
    let x = step_exponent(n, d);
    let step = pow2(x);
    lemma_pow2_pos(x);
    let iu = i * u;
    let four = 0x40_0000_0000_0000nat;
    assert(n == iu * (four * p));
    // The step divides one.
    if x > 1074 {
        lemma_pow2_adds(1074, 1);
        if x > 1075 {
            lemma_pow2_strictly_increases(1075, x);
        }
        assert(0x10_0000_0000_0000 * (d * step) <= n);
        assert(false) by (nonlinear_arith)
            requires
                0x10_0000_0000_0000 * (d * step) <= n,
                n == iu * (four * p),
                four == 0x40_0000_0000_0000,
                d == t * p,
                t == 6_004_799_503_160_661,
                p > 0,
                step >= 2 * u,
                u > 0,
                iu == i * u,
                i < 0x4_0000_0000_0000,
        {
            assert(0x10_0000_0000_0000 * ((t * p) * step) == (0x10_0000_0000_0000 * t * step) * p);
            assert(iu * (four * p) == (iu * four) * p);
            assert(0x10_0000_0000_0000 * t * step <= iu * four);
            assert(0x10_0000_0000_0000 * t * step >= 0x10_0000_0000_0000 * t * (2 * u));
            assert(iu * four <= (0x4_0000_0000_0000 * u) * four);
        }
    }
    let rest = (1074 - x) as nat;
    lemma_pow2_adds(rest, x);
    let w = (3 * i) * pow2(rest);
    assert(w * step == (3 * i) * u) by (nonlinear_arith)
        requires
            w == (3 * i) * pow2(rest),
            u == pow2(rest) * step,
    ;
    let rem = iu * p;
    let b = d * step;
    assert(n == b * w + rem) by {
        assert(b * w == d * (w * step)) by (nonlinear_arith)
            requires
                b == d * step,
        ;
        assert(d * ((3 * i) * u) == iu * (3 * d)) by (nonlinear_arith)
            requires
                iu == i * u,
        ;
        assert(iu * (3 * d) == iu * u - iu * p) by (nonlinear_arith)
            requires
                3 * d == u - p,
        ;
    }
    assert(n < 0x20_0000_0000_0000 * (d * step));
    assert(2 * rem < b) by (nonlinear_arith)
        requires
            n < 0x20_0000_0000_0000 * b,
            n == iu * (four * p),
            four == 0x40_0000_0000_0000,
            rem == iu * p,
    {
        assert(iu * (four * p) == four * (iu * p));
    }
    lemma_fundamental_div_mod_converse(n as int, b as int, w as int, rem as int);
    assert(round_half_even(n, b) == w);
}

/// A number of samples, times a third and rounded up, is a third of them, rounded up.
pub proof fn lemma_third_of_len(to: nat, len: nat)
    requires
        0 < to,
        3 * to < pow2(53),
        len < 0x4_0000_0000_0000,
    ensures
        ceil(product(of_nat(len), quotient(of_nat(to), of_nat(3 * to)))) == (len + 2) / 3,
{
    let u = unit();
    let p = pow2(1020);
    let t = third_steps();
    let d = t * p;
    lemma2_to64();
    lemma2_to64_rest();
    lemma_third();
    lemma_third_of_rate(to);
    lemma_whole_exact(len);
    lemma_pow2_pos(1074);
    let v = product(of_nat(len), d);
    assert(((len * u) * d) * 1 == (len * d) * u) by (nonlinear_arith);
    lemma_nearest_equal((len * u) * d, u, len * d, 1);
    let c = (len + 2) / 3;
    lemma_whole_exact(c);
    assert(len * d <= c * u) by (nonlinear_arith)
        requires
            len <= 3 * c,
            3 * d <= u,
    {
        assert(len * d <= (3 * c) * d);
        assert((3 * c) * d == c * (3 * d));
        assert(c * (3 * d) <= c * u);
    }
    lemma_nearest_monotone(len * d, 1, c * u, 1);
    assert(v <= c * u);
    if len == 0 {
        assert(0 * d == 0);
        assert(0 * u == 0);
        lemma_nearest_zero(1);
        assert(ceil(0) == 0);
    } else {
        let m = (c - 1) as nat;
        let eighth = pow2(1071);
        lemma_pow2_adds(3, 1071);
        lemma_pow2_adds(51, 1020);
        lemma_nearest_exact(8 * m + 1, 1071);
        assert(u == 8 * eighth);
        assert(eighth == 0x8_0000_0000_0000 * p);
        assert((8 * m + 1) * eighth <= len * d) by (nonlinear_arith)
            requires
                len >= 3 * m + 1,
                3 * d == u - p,
                u == 8 * eighth,
                eighth == 0x8_0000_0000_0000 * p,
                d == t * p,
                t == 6_004_799_503_160_661,
                m < 0x4_0000_0000_0000,
                p > 0,
        {
            assert(len * d >= (3 * m + 1) * d);
            assert((3 * m + 1) * d == m * (3 * d) + d);
            assert(m * (3 * d) == m * u - m * p);
            assert((8 * m + 1) * eighth == m * u + eighth);
            assert(m * p <= 0x4_0000_0000_0000 * p);
        }
        lemma_nearest_monotone((8 * m + 1) * eighth, 1, len * d, 1);
        assert(m * u < v) by (nonlinear_arith)
            requires
                (8 * m + 1) * eighth <= v,
                u == 8 * eighth,
                eighth > 0,
        ;
        lemma_ceil_between(v, c);
    }
}

/// A value above the whole number before and not above a whole number is rounded up to it.
proof fn lemma_ceil_between(v: nat, c: nat)
    requires
        c > 0,
        (c - 1) * unit() < v <= c * unit(),
    ensures
        ceil(v) == c,
{
    let u = unit();
    lemma_pow2_pos(1074);
    if v == c * u {
        lemma_fundamental_div_mod_converse(v as int, u as int, c as int, 0);
    } else {
        let m = c - 1;
        assert(c * u == m * u + u) by (nonlinear_arith)
            requires
                m == c - 1,
        ;
        lemma_fundamental_div_mod_converse(v as int, u as int, m, v - m * u);
    }
}

/// Half of an odd whole number is exact: it lies in the middle between two whole numbers.
pub proof fn lemma_halfway(n: nat)
    requires
        n % 2 == 1,
        n < 0x10_0000_0000_0000,
    ensures
        quotient(of_nat(n), 2 * unit()) == n * pow2(1073),
        floor(n * pow2(1073)) == n / 2,
        fraction(n * pow2(1073)) == pow2(1073),
        unit() == 2 * pow2(1073),
{
    let u = unit();
    let h = pow2(1073);
    lemma2_to64();
    lemma2_to64_rest();
    lemma_pow2_pos(1073);
    lemma_pow2_adds(1, 1073);
    lemma_whole_exact(n);
    lemma_nearest_exact(n, 1073);
    assert(((n * u) * u) * 1 == (n * h) * (2 * u)) by (nonlinear_arith)
        requires
            u == 2 * h,
    ;
    lemma_nearest_equal((n * u) * u, 2 * u, n * h, 1);
    let q = n / 2;
    assert(n * h == q * u + h) by (nonlinear_arith)
        requires
            n == 2 * q + 1,
            u == 2 * h,
    ;
    lemma_fundamental_div_mod_converse((n * h) as int, u as int, q as int, h as int);
}

/// In the middle between two samples interpolation gives their mean, cut off towards zero.
pub proof fn lemma_interpolated_halfway(s1: int, s2: int)
    requires
        -32768 <= s1 <= 32767,
        -32768 <= s2 <= 32767,
    ensures
        interpolated(s1, s2, pow2(1073)) == if s1 + s2 >= 0 {
            (s1 + s2) / 2
        } else {
            -((-(s1 + s2)) / 2)
        },
{
    let u = unit();
    let h = pow2(1073);
    lemma2_to64();
    lemma2_to64_rest();
    lemma_pow2_pos(1073);
    lemma_pow2_adds(1, 1073);
    let d = magnitude(s2 - s1);
    lemma_nearest_exact(d, 1073);
    let p = d * h;
    let t = if s2 >= s1 {
        s1 * u + p
    } else {
        s1 * u - p
    };
    assert(t == (s1 + s2) * h) by (nonlinear_arith)
        requires
            u == 2 * h,
            s2 >= s1 ==> d == s2 - s1,
            s2 < s1 ==> d == s1 - s2,
            p == d * h,
            s2 >= s1 ==> t == s1 * u + p,
            s2 < s1 ==> t == s1 * u - p,
    ;
    let m = magnitude(s1 + s2);
    assert(magnitude(t) == m * h && (t >= 0 <==> s1 + s2 >= 0)) by (nonlinear_arith)
        requires
            t == (s1 + s2) * h,
            m == magnitude(s1 + s2),
            h > 0,
    ;
    lemma_nearest_exact(m, 1073);
    let q = m / 2;
    let r = m % 2;
    assert(m * h == q * u + r * h) by (nonlinear_arith)
        requires
            m == 2 * q + r,
            u == 2 * h,
    ;
    assert(0 <= r * h < u) by (nonlinear_arith)
        requires
            0 <= r < 2,
            u == 2 * h,
            h > 0,
    ;
    lemma_fundamental_div_mod_converse((m * h) as int, u as int, q as int, (r * h) as int);
}

/// The distance of two whole numbers.
pub open spec fn distance(a: nat, b: nat) -> nat {
    if a >= b {
        (a - b) as nat
    } else {
        (b - a) as nat
    }
}

/// The nearest integer is off by no more than a half.
pub proof fn lemma_round_half_even_close(n: nat, d: nat)
    requires
        d > 0,
    ensures
        2 * distance(round_half_even(n, d) * d, n) <= d,
{
    let (q, r) = (n / d, n % d);
    lemma_fundamental_div_mod(n as int, d as int);
    assert(q * d == d * q) by (nonlinear_arith);
    assert((q + 1) * d == d * q + d) by (nonlinear_arith);
}

/// Rounding is off by no more than one part in `2^53`, above the smallest values.
pub proof fn lemma_nearest_close(n: nat, d: nat)
    requires
        d > 0,
        0x10_0000_0000_0000 * d <= n,
    ensures
        0x20_0000_0000_0000 * distance(nearest(n, d) * d, n) <= n,
{
    lemma2_to64_rest();
    lemma_spans_exists(n, d);
    let x = step_exponent(n, d);
    let p = pow2(x);
    lemma_pow2_pos(x);
    lemma2_to64();
    let b = d * p;
    assert(b > 0) by (nonlinear_arith)
        requires
            d > 0,
            p > 0,
            b == d * p,
    ;
    lemma_round_half_even_close(n, b);
    let v = round_half_even(n, b);
    assert((v * p) * d == v * b) by (nonlinear_arith)
        requires
            b == d * p,
    ;
    if x == 0 {
        assert(b == d) by (nonlinear_arith)
            requires
                b == d * p,
                p == 1,
        ;
    }
    assert(0x10_0000_0000_0000 * b <= n);
}

/// A quotient of whole numbers is off by no more than one part in `2^53`.
pub proof fn lemma_quotient_close(a: nat, b: nat)
    requires
        a < pow2(53),
        0 < b < 0x1_0000_0000,
    ensures
        of_nat(a) == a * unit(),
        of_nat(b) == b * unit(),
        0x20_0000_0000_0000 * distance(quotient(of_nat(a), of_nat(b)) * b, a * unit()) <= a * unit(),
{
    let u = unit();
    lemma2_to64();
    lemma2_to64_rest();
    lemma_pow2_pos(1074);
    lemma_pow2_pos(990);
    lemma_whole_exact(a);
    lemma_whole_exact(b);
    if a == 0 {
        lemma_positive_value(b);
        lemma_zero_quotient(of_nat(b));
        assert(0 * u == 0);
        assert(0 * b == 0);
    } else {
        lemma_pow2_adds(52, 32);
        lemma_pow2_adds(84, 990);
        let d = b * u;
        let n = (a * u) * u;
        let low = pow2(990);
        assert(d > 0) by (nonlinear_arith)
            requires
                b > 0,
                u > 0,
                d == b * u,
        ;
        assert(0x10_0000_0000_0000 * d <= n) by (nonlinear_arith)
            requires
                d == b * u,
                n == (a * u) * u,
                a >= 1,
                b < 0x1_0000_0000,
                u == (0x10_0000_0000_0000 * 0x1_0000_0000) * low,
                low >= 1,
        {
            assert(0x10_0000_0000_0000 * b <= u);
            assert((0x10_0000_0000_0000 * b) * u <= u * u);
            assert(u * u <= (a * u) * u);
        }
        lemma_nearest_close(n, d);
        let q = quotient(of_nat(a), of_nat(b));
        let (x, y) = (q * b, a * u);
        assert(q * d == x * u) by (nonlinear_arith)
            requires
                d == b * u,
                x == q * b,
        ;
        lemma_distance_scaled(x, y, u);
        let e = distance(x, y);
        assert(0x20_0000_0000_0000 * e <= y) by (nonlinear_arith)
            requires
                0x20_0000_0000_0000 * (e * u) <= y * u,
                u > 0,
        ;
    }
}

/// Distances scale.
pub proof fn lemma_distance_scaled(a: nat, b: nat, k: nat)
    ensures
        distance(a * k, b * k) == distance(a, b) * k,
{
    if a >= b {
        assert(a * k >= b * k && a * k - b * k == (a - b) * k) by (nonlinear_arith)
            requires
                a >= b,
                k >= 0,
        ;
    } else {
        assert(a * k <= b * k && b * k - a * k == (b - a) * k) by (nonlinear_arith)
            requires
                a < b,
                k >= 0,
        ;
        if a * k == b * k {
            assert((b - a) * k == 0);
        }
    }
}

/// The way over a third place is no shorter.
pub proof fn lemma_distance_triangle(a: nat, b: nat, c: nat)
    ensures
        distance(a, c) <= distance(a, b) + distance(b, c),
{
}

/// A quotient of whole numbers, taken as seconds, is given to within two nanoseconds.
pub proof fn lemma_nanoseconds_close(a: nat, b: nat)
    requires
        a < pow2(53),
        0 < b < 0x1_0000_0000,
        a * 1_000_000_000 <= b * 0x20_0000_0000_0000,
    ensures
        distance(nanoseconds(quotient(of_nat(a), of_nat(b))) * b, a * 1_000_000_000) <= 2 * b,
{
    let u = unit();
    let g = 1_000_000_000nat;
    lemma_pow2_pos(1074);
    lemma_quotient_close(a, b);
    let q = quotient(of_nat(a), of_nat(b));
    let t = nanoseconds(q);
    lemma_round_half_even_close(q * g, u);
    lemma_distance_scaled(t * u, q * g, b);
    lemma_distance_scaled(q * b, a * u, g);
    let e1 = distance(t * u, q * g);
    let e2 = distance(q * b, a * u);
    assert((t * u) * b == (t * b) * u) by (nonlinear_arith);
    assert((q * g) * b == (q * b) * g) by (nonlinear_arith);
    assert((a * u) * g == (a * g) * u) by (nonlinear_arith);
    lemma_distance_triangle((t * b) * u, (q * b) * g, (a * g) * u);
    lemma_distance_scaled(t * b, a * g, u);
    let e = distance(t * b, a * g);
    assert(e * u <= e1 * b + e2 * g);
    assert(2 * (e1 * b) <= u * b) by (nonlinear_arith)
        requires
            2 * e1 <= u,
    ;
    assert(e2 * g <= b * u) by (nonlinear_arith)
        requires
            0x20_0000_0000_0000 * e2 <= a * u,
            a * g <= b * 0x20_0000_0000_0000,
            u >= 0,
    {
        assert(0x20_0000_0000_0000 * (e2 * g) <= (a * u) * g);
        assert((a * u) * g == (a * g) * u);
        assert((a * g) * u <= (b * 0x20_0000_0000_0000) * u);
        assert((b * 0x20_0000_0000_0000) * u == 0x20_0000_0000_0000 * (b * u));
    }
    assert(e <= 2 * b) by (nonlinear_arith)
        requires
            e * u <= e1 * b + e2 * g,
            2 * (e1 * b) <= u * b,
            e2 * g <= b * u,
            u > 0,
    {
        assert(e * u <= 2 * (b * u));
        assert((2 * b) * u == 2 * (b * u));
    }
}

/// A place in a stream of so many samples per second and channels, taken as seconds, is given
/// to within two nanoseconds.
pub proof fn lemma_place_close(index: nat, rate: nat, channels: nat)
    requires
        index < pow2(53),
        0 < rate < 0x1_0000_0000,
        0 < channels < 0x1_0000,
        index * 1_000_000_000 <= (rate * channels) * 0x10_0000_0000_0000,
    ensures
        distance(
            nanoseconds(
                quotient(quotient(of_nat(index), of_nat(rate)), of_nat(channels)),
            ) * (rate * channels),
            index * 1_000_000_000,
        ) <= 2 * (rate * channels),
{
    let u = unit();
    let g = 1_000_000_000nat;
    let big = 0x20_0000_0000_0000nat;
    lemma2_to64();
    lemma2_to64_rest();
    lemma_pow2_pos(1074);
    lemma_quotient_close(index, rate);
    lemma_whole_exact(channels);
    let q1 = quotient(of_nat(index), of_nat(rate));
    let q2 = quotient(q1, of_nat(channels));
    let d = rate * channels;
    assert(d > 0) by (nonlinear_arith)
        requires
            rate > 0,
            channels > 0,
            d == rate * channels,
    ;
    let iu = index * u;
    let e1 = distance(q1 * rate, iu);
    if index == 0 {
        assert(iu == 0);
        assert(e1 == 0);
        assert(q1 == 0) by (nonlinear_arith)
            requires
                q1 * rate == 0,
                rate > 0,
        ;
        lemma_positive_value(channels);
        lemma_zero_quotient(of_nat(channels));
        lemma_round_half_even_whole(0, u);
        assert(0 * u == 0 && 0 * d == 0);
    } else {
        lemma_pow2_adds(52, 50);
        lemma_pow2_adds(102, 972);
        lemma_pow2_pos(972);
        assert((q1 * u) * channels == q1 * (channels * u)) by (nonlinear_arith);
        assert(channels * u > 0) by (nonlinear_arith)
            requires
                channels > 0,
                u > 0,
        ;
        lemma_nearest_equal(q1 * u, channels * u, q1, channels);
        assert(2 * (q1 * rate) >= iu);
        assert(0x10_0000_0000_0000 * channels <= q1) by (nonlinear_arith)
            requires
                2 * (q1 * rate) >= iu,
                iu == index * u,
                index >= 1,
                u == (0x10_0000_0000_0000 * 0x4_0000_0000_0000) * pow2(972),
                pow2(972) >= 1,
                rate < 0x1_0000_0000,
                rate > 0,
                channels < 0x1_0000,
        {
            assert(iu >= u);
            assert(u >= 0x10_0000_0000_0000 * 0x4_0000_0000_0000);
            assert(2 * q1 * 0x1_0000_0000 >= 2 * (q1 * rate));
            assert(2 * q1 * 0x1_0000_0000 >= 0x10_0000_0000_0000 * 0x4_0000_0000_0000);
        }
        lemma_nearest_close(q1, channels);
        let e2 = distance(q2 * channels, q1);
        let t = nanoseconds(q2);
        lemma_round_half_even_close(q2 * g, u);
        let e3 = distance(t * u, q2 * g);
        let e = distance(t * d, index * g);
        // From the time to the place, one rounding after the other.
        lemma_distance_scaled(t * u, q2 * g, d);
        lemma_distance_scaled(q2 * channels, q1, rate * g);
        lemma_distance_scaled(q1 * rate, iu, g);
        lemma_distance_scaled(t * d, index * g, u);
        assert((t * u) * d == (t * d) * u) by (nonlinear_arith);
        assert((q2 * g) * d == (q2 * channels) * (rate * g)) by (nonlinear_arith)
            requires
                d == rate * channels,
        ;
        assert(q1 * (rate * g) == (q1 * rate) * g) by (nonlinear_arith);
        assert(iu * g == (index * g) * u) by (nonlinear_arith)
            requires
                iu == index * u,
        ;
        lemma_distance_triangle((t * d) * u, (q2 * g) * d, (index * g) * u);
        lemma_distance_triangle((q2 * g) * d, (q1 * rate) * g, (index * g) * u);
        assert(e * u <= e3 * d + e2 * (rate * g) + e1 * g);
        assert(2 * (e3 * d) <= u * d) by (nonlinear_arith)
            requires
                2 * e3 <= u,
        ;
        assert(big * (e2 * (rate * g)) <= 2 * (iu * g)) by (nonlinear_arith)
            requires
                big * e2 <= q1,
                q1 * rate <= 2 * iu,
        {
            assert((big * e2) * (rate * g) <= q1 * (rate * g));
            assert(q1 * (rate * g) == (q1 * rate) * g);
            assert((q1 * rate) * g <= (2 * iu) * g);
            assert(big * (e2 * (rate * g)) == (big * e2) * (rate * g));
        }
        assert(big * (e1 * g) <= iu * g) by (nonlinear_arith)
            requires
                big * e1 <= iu,
        ;
        assert(2 * (iu * g) <= big * (d * u)) by (nonlinear_arith)
            requires
                index * g <= d * 0x10_0000_0000_0000,
                iu * g == (index * g) * u,
                big == 0x20_0000_0000_0000,
                u > 0,
        {
            assert((index * g) * u <= (d * 0x10_0000_0000_0000) * u);
            assert((d * 0x10_0000_0000_0000) * u == 0x10_0000_0000_0000 * (d * u));
        }
        let du = d * u;
        assert(u * d == du) by (nonlinear_arith)
            requires
                du == d * u,
        ;
        assert(2 * (e * u) <= 4 * du);
        assert(e <= 2 * d) by (nonlinear_arith)
            requires
                2 * (e * u) <= 4 * du,
                du == d * u,
                u > 0,
        ;
    }
}

/// A whole number of frames in a span of so many nanoseconds, at a rate, is what rate and span
/// give, to within a thousandth of a frame.
pub proof fn lemma_frames_close(rate: nat, nanos: nat)
    requires
        0 < rate < 0x1_0000_0000,
        rate * nanos <= 1_000_000_000 * 0x100_0000_0000,
    ensures
        ({
            let seconds = sum(
                of_nat(nanos / 1_000_000_000),
                quotient(of_nat(nanos % 1_000_000_000), of_nat(1_000_000_000)),
            );
            let frames = floor(product(of_nat(rate), seconds));
            &&& frames * 1_000_000_000 <= rate * nanos + 1_000_000
            &&& rate * nanos < (frames + 1) * 1_000_000_000 + 1_000_000
        }),
{
    let u = unit();
    let g = 1_000_000_000nat;
    let big = 0x20_0000_0000_0000nat;
    lemma2_to64();
    lemma2_to64_rest();
    lemma_pow2_pos(1074);
    let (whole, rest) = (nanos / g, nanos % g);
    assert(nanos <= g * 0x100_0000_0000) by (nonlinear_arith)
        requires
            rate * nanos <= g * 0x100_0000_0000,
            rate >= 1,
    ;
    assert(whole <= 0x100_0000_0000);
    lemma_whole_exact(whole);
    lemma_whole_exact(rate);
    lemma_quotient_close(rest, g);
    let part = quotient(of_nat(rest), of_nat(g));
    let exact = whole * u + part;
    let s = sum(of_nat(whole), part);
    let p = product(of_nat(rate), s);
    let nu = nanos * u;
    assert((whole * u) * g + rest * u == nu) by (nonlinear_arith)
        requires
            nanos == g * whole + rest,
            nu == nanos * u,
    ;
    let e1 = distance(exact * g, nu);
    assert(exact * g == (whole * u) * g + part * g) by (nonlinear_arith)
        requires
            exact == whole * u + part,
    ;
    assert(big * e1 <= nu);
    if nanos == 0 {
        assert(nu == 0 && e1 == 0);
        assert(exact == 0) by (nonlinear_arith)
            requires
                exact * g == 0,
                g > 0,
        ;
        lemma_nearest_zero(1);
        lemma_product_zero(of_nat(rate));
        assert(floor(0) == 0) by {
            lemma_zero_quotient(u);
        }
        assert(rate * 0 == 0) by (nonlinear_arith);
    } else {
        lemma_pow2_adds(52, 50);
        lemma_pow2_adds(102, 972);
        lemma_pow2_pos(972);
        assert(0x10_0000_0000_0000 <= exact) by (nonlinear_arith)
            requires
                2 * (exact * g) >= nu,
                nu == nanos * u,
                nanos >= 1,
                u == (0x10_0000_0000_0000 * 0x4_0000_0000_0000) * pow2(972),
                pow2(972) >= 1,
                g == 1_000_000_000,
        {
            assert(nu >= u);
            assert(u >= 0x10_0000_0000_0000 * 0x4_0000_0000_0000);
        }
        lemma_nearest_close(exact, 1);
        let e2 = distance(s, exact);
        assert(nearest(exact, 1) * 1 == s);
        assert(big * e2 <= exact);
        let rs = rate * s;
        assert(((rate * u) * s) * 1 == rs * u) by (nonlinear_arith)
            requires
                rs == rate * s,
        ;
        lemma_nearest_equal((rate * u) * s, u, rs, 1);
        assert(rs >= s) by (nonlinear_arith)
            requires
                rs == rate * s,
                rate >= 1,
        ;
        lemma_nearest_monotone(0x10_0000_0000_0000, 1, exact, 1);
        lemma_nearest_exact(0x10_0000_0000_0000, 0);
        assert(0x10_0000_0000_0000nat * pow2(0) == 0x10_0000_0000_0000);
        lemma_nearest_close(rs, 1);
        let e3 = distance(p, rs);
        assert(nearest(rs, 1) * 1 == p);
        assert(big * e3 <= rs);
        let target = (rate * nanos) * u;
        lemma_distance_scaled(p, rs, g);
        lemma_distance_scaled(s, exact, rate * g);
        lemma_distance_scaled(exact * g, nu, rate);
        assert(rs * g == s * (rate * g)) by (nonlinear_arith)
            requires
                rs == rate * s,
        ;
        assert(exact * (rate * g) == (exact * g) * rate) by (nonlinear_arith);
        assert(nu * rate == target) by (nonlinear_arith)
            requires
                nu == nanos * u,
                target == (rate * nanos) * u,
        ;
        lemma_distance_triangle(p * g, rs * g, target);
        lemma_distance_triangle(rs * g, exact * (rate * g), target);
        let e = distance(p * g, target);
        assert(e <= e3 * g + e2 * (rate * g) + e1 * rate);
        // Each of the three is at most two parts in 2^53 of what is aimed at.
        assert(big * (e1 * rate) <= target) by (nonlinear_arith)
            requires
                big * e1 <= nu,
                nu * rate == target,
        ;
        assert(exact * g <= 2 * nu);
        assert(big * (e2 * (rate * g)) <= 2 * target) by (nonlinear_arith)
            requires
                big * e2 <= exact,
                exact * g <= 2 * nu,
                nu * rate == target,
        {
            assert((big * e2) * (rate * g) <= exact * (rate * g));
            assert(exact * (rate * g) == (exact * g) * rate);
            assert((exact * g) * rate <= (2 * nu) * rate);
        }
        assert(s <= 2 * exact);
        assert(big * (e3 * g) <= 4 * target) by (nonlinear_arith)
            requires
                big * e3 <= rs,
                rs == rate * s,
                s <= 2 * exact,
                exact * g <= 2 * nu,
                nu * rate == target,
        {
            assert((big * e3) * g <= rs * g);
            assert(rs * g <= (rate * (2 * exact)) * g) by {
                assert(rate * s <= rate * (2 * exact));
            }
            assert((rate * (2 * exact)) * g == 2 * (rate * (exact * g)));
            assert(rate * (exact * g) <= rate * (2 * nu));
            assert(rate * (2 * nu) == 2 * (nu * rate));
        }
        assert(big * e <= 7 * target);
        assert(target <= (g * 0x100_0000_0000) * u) by (nonlinear_arith)
            requires
                target == (rate * nanos) * u,
                rate * nanos <= g * 0x100_0000_0000,
        ;
        let frames = floor(p);
        lemma_fundamental_div_mod(p as int, u as int);
        lemma_frames_from_place(p, frames, rate * nanos, e, u);
    }
}

proof fn lemma_frames_from_place(p: nat, frames: nat, aim: nat, e: nat, u: nat)
    requires
        u > 0,
        u * frames <= p < u * frames + u,
        e == distance(p * 1_000_000_000, aim * u),
        0x20_0000_0000_0000 * e <= 7 * (aim * u),
        aim * u <= (1_000_000_000 * 0x100_0000_0000) * u,
    ensures
        frames * 1_000_000_000 <= aim + 1_000_000,
        aim < (frames + 1) * 1_000_000_000 + 1_000_000,
{
    let au = aim * u;
    assert(au <= 1_099_511_627_776_000_000_000 * u) by (nonlinear_arith)
        requires
            au <= (1_000_000_000 * 0x100_0000_0000) * u,
    ;
    assert(9_007_199_254_740_992 * e <= 7_696_581_394_432_000_000_000 * u);
    assert(e <= 1_000_000 * u);
    assert(frames * 1_000_000_000 <= aim + 1_000_000) by (nonlinear_arith)
        requires
            u > 0,
            u * frames <= p,
            p * 1_000_000_000 <= aim * u + 1_000_000 * u,
    {
        assert((frames * 1_000_000_000) * u <= (aim + 1_000_000) * u);
    }
    assert(aim < (frames + 1) * 1_000_000_000 + 1_000_000) by (nonlinear_arith)
        requires
            u > 0,
            p < u * frames + u,
            aim * u <= p * 1_000_000_000 + 1_000_000 * u,
    {
        assert(aim * u < ((frames + 1) * 1_000_000_000 + 1_000_000) * u);
    }
}

/// A whole number of units is rounded by at most one part in 2^53.
proof fn lemma_units_close(n: nat)
    ensures
        0x20_0000_0000_0000 * distance(nearest(n, 1), n) <= n,
{
    lemma2_to64();
    lemma2_to64_rest();
    if 0x10_0000_0000_0000 <= n {
        lemma_nearest_close(n, 1);
        assert(nearest(n, 1) * 1 == nearest(n, 1));
    } else {
        lemma_nearest_exact(n, 0);
        assert(n * pow2(0) == n);
    }
}

/// A value between two samples lies on the line between them: it is what the line gives at
/// that place, to within nine eighths.
pub proof fn lemma_interpolated_close(s1: int, s2: int, f: nat)
    requires
        -32768 <= s1 <= 32767,
        -32768 <= s2 <= 32767,
        f < unit(),
    ensures
        -32768 <= interpolated(s1, s2, f) <= 32767,
        ({
            let off = interpolated(s1, s2, f) * unit() - (s1 * unit() + (s2 - s1) * f);
            -9 * unit() <= 8 * off <= 9 * unit()
        }),
{
    let u = unit() as int;
    lemma_pow2_pos(1074);
    let k = magnitude(s2 - s1);
    let n = k * f;
    assert(n <= 65535 * u) by (nonlinear_arith)
        requires
            k <= 65535,
            f < u,
            n == k * f,
    ;
    lemma_units_close(n);
    let p = nearest(n, 1);
    let start = s1 * u;
    assert(-32768 * u <= start <= 32767 * u) by (nonlinear_arith)
        requires
            -32768 <= s1 <= 32767,
            start == s1 * u,
            u > 0,
    ;
    let line = start + (s2 - s1) * f;
    assert((s2 - s1) * f == if s2 >= s1 {
        n as int
    } else {
        -(n as int)
    }) by (nonlinear_arith)
        requires
            n == k * f,
            k == if s2 >= s1 {
                s2 - s1
            } else {
                s1 - s2
            },
    ;
    assert(-32768 * u <= line <= 32767 * u) by {
        let step = (s2 - s1) * f;
        assert(s1 * u + step <= 32767 * u && -32768 * u <= s1 * u + step) by (nonlinear_arith)
            requires
                -32768 <= s1 <= 32767,
                -32768 <= s2 <= 32767,
                0 <= f < u,
                step == (s2 - s1) * f,
        {
            if s2 >= s1 {
                assert(0 <= step <= (s2 - s1) * u);
                assert(s1 * u + (s2 - s1) * u == s2 * u);
                assert(s2 * u <= 32767 * u);
                assert(s1 * u >= -32768 * u);
            } else {
                assert((s2 - s1) * u <= step <= 0);
                assert(s1 * u + (s2 - s1) * u == s2 * u);
                assert(s2 * u >= -32768 * u);
                assert(s1 * u <= 32767 * u);
            }
        }
    }
    let t = if s2 >= s1 {
        start + p
    } else {
        start - p
    };
    let a = magnitude(t);
    lemma_units_close(a);
    let b = nearest(a, 1);
    lemma_fundamental_div_mod(b as int, u);
    let m = floor(b) as int;
    let v = if t >= 0 {
        m
    } else {
        -m
    };
    assert(u * m <= b < u * m + u);
    let vu = v * u;
    assert(vu == if t >= 0 {
        u * m
    } else {
        -(u * m)
    }) by (nonlinear_arith)
        requires
            vu == v * u,
            v == if t >= 0 {
                m
            } else {
                -m
            },
    ;
    assert(-9 * u <= 8 * (vu - line) <= 9 * u);
    let r = interpolated(s1, s2, f);
    assert(r == clamped(v));
    let ru = r * u;
    if v > 32767 {
        assert(vu >= 32767 * u && ru == 32767 * u) by (nonlinear_arith)
            requires
                v > 32767,
                r == 32767,
                vu == v * u,
                ru == r * u,
                u > 0,
        ;
    } else if v < -32768 {
        assert(vu <= -32768 * u && ru == -32768 * u) by (nonlinear_arith)
            requires
                v < -32768,
                r == -32768,
                vu == v * u,
                ru == r * u,
                u > 0,
        ;
    }
}

/// The place in the input that an output sample is taken from, counted in samples, is what
/// the rates give, to within one part in 2^19 of a sample.
pub proof fn lemma_position_close(i: nat, from_rate: nat, to_rate: nat)
    requires
        i < 0x20_0000_0000_0000,
        0 < from_rate < 0x1_0000_0000,
        0 < to_rate < 0x1_0000_0000,
        i * from_rate <= to_rate * 0x1_0000_0000,
    ensures
        ({
            let position = quotient(of_nat(i), quotient(of_nat(to_rate), of_nat(from_rate)));
            0x8_0000 * distance(position * to_rate, (i * from_rate) * unit()) <= to_rate * unit()
        }),
{
    let u = unit();
    let big = 0x20_0000_0000_0000nat;
    lemma2_to64();
    lemma2_to64_rest();
    lemma_pow2_pos(1074);
    lemma_pow2_adds(52, 50);
    lemma_pow2_adds(102, 972);
    lemma_pow2_pos(972);
    assert(u >= 0x40_0000_0000_0000_0000_0000_0000nat) by (nonlinear_arith)
        requires
            u == (0x10_0000_0000_0000 * 0x4_0000_0000_0000) * pow2(972),
            pow2(972) >= 1,
    ;
    lemma_quotient_close(to_rate, from_rate);
    let ratio = quotient(of_nat(to_rate), of_nat(from_rate));
    let tu = to_rate * u;
    let e1 = distance(ratio * from_rate, tu);
    assert(tu >= u) by (nonlinear_arith)
        requires
            tu == to_rate * u,
            to_rate >= 1,
    ;
    assert(ratio > 0) by {
        if ratio == 0 {
            assert(ratio * from_rate == 0);
        }
    }
    let x = i * from_rate;
    let xu = x * u;
    let position = quotient(of_nat(i), ratio);
    if i == 0 {
        lemma_whole_exact(0);
        assert(0 * u == 0);
        lemma_zero_quotient(ratio);
        assert(0 * from_rate == 0 && 0 * to_rate == 0);
        assert(xu == 0);
    } else {
        lemma_whole_exact(i);
        let n = (i * u) * u;
        assert(ratio <= 2 * tu) by (nonlinear_arith)
            requires
                ratio * from_rate <= 2 * tu,
                from_rate >= 1,
        ;
        assert(0x10_0000_0000_0000 * ratio <= n) by (nonlinear_arith)
            requires
                ratio <= 2 * tu,
                tu == to_rate * u,
                to_rate < 0x1_0000_0000,
                n == (i * u) * u,
                i >= 1,
                u >= 0x40_0000_0000_0000_0000_0000_0000nat,
        {
            assert(ratio <= 0x2_0000_0000 * u);
            assert(n >= u * u);
            assert(u * u >= 0x40_0000_0000_0000_0000_0000_0000nat * u);
        }
        lemma_nearest_close(n, ratio);
        let e2 = distance(position * ratio, n);
        let d = distance(position * to_rate, xu);
        // The place, times the rounded ratio, is the number of the output sample.
        lemma_distance_scaled(ratio * from_rate, tu, position);
        lemma_distance_scaled(position * ratio, n, from_rate);
        lemma_distance_scaled(position * to_rate, xu, u);
        assert((ratio * from_rate) * position == (position * ratio) * from_rate) by (nonlinear_arith);
        assert(tu * position == (position * to_rate) * u) by (nonlinear_arith)
            requires
                tu == to_rate * u,
        ;
        assert(n * from_rate == xu * u) by (nonlinear_arith)
            requires
                n == (i * u) * u,
                xu == (i * from_rate) * u,
        ;
        lemma_distance_triangle((position * to_rate) * u, (position * ratio) * from_rate, xu * u);
        let near = position * to_rate;
        let nu = near * u;
        let xuu = xu * u;
        assert(d * u <= e1 * position + e2 * from_rate);
        assert(big * (e1 * position) <= nu) by (nonlinear_arith)
            requires
                big * e1 <= tu,
                tu * position == nu,
        ;
        assert(big * (e2 * from_rate) <= xuu) by (nonlinear_arith)
            requires
                big * e2 <= n,
                n * from_rate == xuu,
        ;
        let du = d * u;
        assert(distance(nu, xuu) == du);
        assert(big * du <= nu + xuu);
        assert(nu <= 2 * xuu);
        assert(big * du <= 3 * xuu);
        assert(big * d <= 3 * xu) by (nonlinear_arith)
            requires
                big * du <= 3 * xuu,
                du == d * u,
                xuu == xu * u,
                u > 0,
        ;
        assert(xu <= 0x1_0000_0000 * tu) by (nonlinear_arith)
            requires
                xu == x * u,
                x <= to_rate * 0x1_0000_0000,
                tu == to_rate * u,
        ;
    }
}

/// The number of samples that a conversion gives is what the rates give, rounded up, to within
/// a thousandth of a sample.
pub proof fn lemma_converted_len_close(len: nat, from_rate: nat, to_rate: nat)
    requires
        len < 0x20_0000_0000_0000,
        0 < from_rate < 0x1_0000_0000,
        0 < to_rate < 0x1_0000_0000,
        len * to_rate <= from_rate * 0x100_0000_0000,
    ensures
        ({
            let count = ceil(product(of_nat(len), quotient(of_nat(to_rate), of_nat(from_rate))));
            &&& 1000 * (len * to_rate) <= 1000 * (count * from_rate) + from_rate
            &&& 1000 * (count * from_rate) < 1000 * (len * to_rate) + 1001 * from_rate
        }),
{
    let u = unit();
    let big = 0x20_0000_0000_0000nat;
    lemma2_to64();
    lemma2_to64_rest();
    lemma_pow2_pos(1074);
    lemma_whole_exact(len);
    lemma_quotient_close(to_rate, from_rate);
    let ratio = quotient(of_nat(to_rate), of_nat(from_rate));
    let tu = to_rate * u;
    let e1 = distance(ratio * from_rate, tu);
    let exact = len * ratio;
    assert(((len * u) * ratio) * 1 == exact * u) by (nonlinear_arith)
        requires
            exact == len * ratio,
    ;
    lemma_nearest_equal((len * u) * ratio, u, exact, 1);
    lemma_units_close(exact);
    let made = product(of_nat(len), ratio);
    assert(made == nearest(exact, 1));
    let e2 = distance(made, exact);
    let aim = len * to_rate;
    let au = aim * u;
    let d = distance(made * from_rate, au);
    lemma_distance_scaled(made, exact, from_rate);
    lemma_distance_scaled(ratio * from_rate, tu, len);
    assert((ratio * from_rate) * len == exact * from_rate) by (nonlinear_arith)
        requires
            exact == len * ratio,
    ;
    assert(tu * len == au) by (nonlinear_arith)
        requires
            tu == to_rate * u,
            au == (len * to_rate) * u,
    ;
    lemma_distance_triangle(made * from_rate, exact * from_rate, au);
    let ef = exact * from_rate;
    assert(d <= e2 * from_rate + e1 * len);
    assert(big * (e2 * from_rate) <= ef) by (nonlinear_arith)
        requires
            big * e2 <= exact,
            ef == exact * from_rate,
    ;
    assert(big * (e1 * len) <= au) by (nonlinear_arith)
        requires
            big * e1 <= tu,
            tu * len == au,
    ;
    assert(ef <= 2 * au);
    assert(big * d <= 3 * au);
    let fu = from_rate * u;
    assert(au <= 0x100_0000_0000 * fu) by (nonlinear_arith)
        requires
            au == aim * u,
            aim <= from_rate * 0x100_0000_0000,
            fu == from_rate * u,
    ;
    assert(1000 * d <= fu);
    let count = ceil(made);
    lemma_fundamental_div_mod(made as int, u as int);
    assert(made <= u * count < made + u) by (nonlinear_arith)
        requires
            made == u * (made / u) + made % u,
            0 <= made % u < u,
            count == if made % u == 0 {
                made / u
            } else {
                made / u + 1
            },
    ;
    let mf = made * from_rate;
    assert(1000 * aim <= 1000 * (count * from_rate) + from_rate) by (nonlinear_arith)
        requires
            u > 0,
            made <= u * count,
            mf == made * from_rate,
            1000 * au <= 1000 * mf + fu,
            au == aim * u,
            fu == from_rate * u,
    {
        assert(mf <= (u * count) * from_rate);
        assert((u * count) * from_rate == (count * from_rate) * u);
        assert((1000 * aim) * u <= (1000 * (count * from_rate) + from_rate) * u);
    }
    assert(1000 * (count * from_rate) < 1000 * aim + 1001 * from_rate) by (nonlinear_arith)
        requires
            u > 0,
            from_rate > 0,
            u * count < made + u,
            mf == made * from_rate,
            1000 * mf <= 1000 * au + fu,
            au == aim * u,
            fu == from_rate * u,
    {
        assert((u * count) * from_rate < (made + u) * from_rate);
        assert((made + u) * from_rate == mf + fu);
        assert((u * count) * from_rate == (count * from_rate) * u);
        assert((1000 * (count * from_rate)) * u < (1000 * aim + 1001 * from_rate) * u);
    }
}

/// A quotient is rounded to the whole number nearest to it, and to the even one of two that
/// are equally near.
pub proof fn lemma_rounds_to_even(n: nat, d: nat, other: nat)
    requires
        d > 0,
    ensures
        distance(round_half_even(n, d) * d, n) <= distance(other * d, n),
        other != round_half_even(n, d) && distance(round_half_even(n, d) * d, n) == distance(
            other * d,
            n,
        ) ==> round_half_even(n, d) % 2 == 0,
{
    let r = round_half_even(n, d);
    lemma_round_half_even_close(n, d);
    lemma_fundamental_div_mod(n as int, d as int);
    let q = n / d;
    assert(q * d == d * q && (q + 1) * d == d * q + d) by (nonlinear_arith);
    if other != r {
        assert(other * d >= r * d + d || other * d + d <= r * d) by (nonlinear_arith)
            requires
                other != r,
        {
            if other > r {
                assert(other * d >= (r + 1) * d);
            } else {
                assert(r * d >= (other + 1) * d);
            }
        }
    }
}

/// Rounding down and up gives the whole numbers around a value.
pub proof fn lemma_whole_numbers_around(a: nat)
    ensures
        floor(a) * unit() <= a < (floor(a) + 1) * unit(),
        a <= ceil(a) * unit() < a + unit(),
        fraction(a) == a - floor(a) * unit(),
{
    let u = unit();
    lemma_pow2_pos(1074);
    lemma_fundamental_div_mod(a as int, u as int);
    let q = a / u;
    assert(q * u == u * q && (q + 1) * u == u * q + u) by (nonlinear_arith);
}

} // verus!
