//! Non-negative binary64 numbers in integer arithmetic.
//!
//! A number is modelled by its *units*: the integer number of times that
//! 2^-128 goes into it. Every binary64 number that arises from a duration, a
//! sample rate or a sample count is a whole number of units, since each one
//! that is not zero is at least 2^-48 and carries 53 significant bits.

use vstd::arithmetic::div_mod::{
    lemma_fundamental_div_mod, lemma_fundamental_div_mod_converse, lemma_mod_bound,
};
use vstd::arithmetic::mul::{lemma_mul_is_associative, lemma_mul_is_commutative};
use vstd::arithmetic::power2::{lemma_pow2_adds, lemma_pow2_pos, lemma_pow2_unfold, pow2};
use vstd::prelude::*;

verus! {

/// The units in the number one.
pub open spec fn one() -> nat {
    pow2(128)
}

/// The integer nearest to `n / d`, a tie going to the even one.
pub open spec fn nearest(n: nat, d: nat) -> nat
    recommends
        d > 0,
{
    let q = n / d;
    let r = n % d;
    if 2 * r < d || (2 * r == d && q % 2 == 0) {
        q
    } else {
        q + 1
    }
}

/// The distance between neighbouring binary64 numbers, in units, around a
/// magnitude of `v` units: the power of two that leaves 53 significant bits.
pub open spec fn spacing(v: nat) -> nat
    decreases v,
{
    if v < 0x20_0000_0000_0000 {
        1
    } else {
        2 * spacing(v / 2)
    }
}

/// The units of the binary64 number nearest to `n / d` units.
pub open spec fn round53(n: nat, d: nat) -> nat
    recommends
        d > 0,
{
    let u = spacing(n / d);
    u * nearest(n, d * u)
}

proof fn lemma_div_unique(n: nat, d: nat, q: nat, r: nat)
    requires
        n == q * d + r,
        r < d,
    ensures
        n / d == q,
        n % d == r,
{
    lemma_fundamental_div_mod_converse(n as int, d as int, q as int, r as int);
}

proof fn lemma_div_parts(n: nat, d: nat)
    requires
        d > 0,
    ensures
        n == (n / d) * d + n % d,
        n % d < d,
{
    lemma_fundamental_div_mod(n as int, d as int);
    lemma_mul_is_commutative(d as int, (n / d) as int);
    lemma_mod_bound(n as int, d as int);
}

/// Dividing by `2 * d` is dividing by `d` and halving.
proof fn lemma_halve(n: nat, d: nat)
    requires
        d > 0,
    ensures
        n / (2 * d) == (n / d) / 2,
        n % (2 * d) == ((n / d) % 2) * d + n % d,
        n % (2 * d) == 0 <==> (n % d == 0 && (n / d) % 2 == 0),
{
    lemma_div_parts(n, d);
    let q = n / d;
    let r = n % d;
    let m = q / 2;
    let b = q % 2;
    assert(q * d == m * (2 * d) + b * d) by (nonlinear_arith)
        requires
            q == 2 * m + b,
    ;
    assert(b * d + r < 2 * d) by (nonlinear_arith)
        requires
            b <= 1,
            r < d,
    ;
    lemma_div_unique(n, 2 * d, m, b * d + r);
    assert(b * d == 0 <==> b == 0) by (nonlinear_arith)
        requires
            d > 0,
            b >= 0,
    ;
}

/// A common factor of `n` and `d` leaves the quotient as it is.
proof fn lemma_cancel_div(n: nat, d: nat, c: nat)
    requires
        d > 0,
        c > 0,
    ensures
        d * c > 0,
        (n * c) / (d * c) == n / d,
        (n * c) % (d * c) == (n % d) * c,
{
    lemma_div_parts(n, d);
    let q = n / d;
    let r = n % d;
    assert(n * c == q * (d * c) + r * c) by (nonlinear_arith)
        requires
            n == q * d + r,
    ;
    assert(0 <= r * c < d * c) by (nonlinear_arith)
        requires
            0 <= r < d,
            c > 0,
    ;
    lemma_div_unique(n * c, d * c, q, r * c);
}

proof fn lemma_nearest_cancel(n: nat, d: nat, c: nat)
    requires
        d > 0,
        c > 0,
    ensures
        nearest(n * c, d * c) == nearest(n, d),
{
    lemma_cancel_div(n, d, c);
    let r = n % d;
    assert(2 * (r * c) < d * c <==> 2 * r < d) by (nonlinear_arith)
        requires
            c > 0,
    ;
    assert(2 * (r * c) == d * c <==> 2 * r == d) by (nonlinear_arith)
        requires
            c > 0,
    ;
}

/// What a spacing says of the magnitude it belongs to.
pub(crate) proof fn lemma_spacing_bounds(v: nat)
    ensures
        spacing(v) > 0,
        v < 0x20_0000_0000_0000 * spacing(v),
        spacing(v) > 1 ==> v >= 0x10_0000_0000_0000 * spacing(v),
    decreases v,
{
    if v >= 0x20_0000_0000_0000 {
        lemma_spacing_bounds(v / 2);
    }
}

/// Rounding depends on the quotient alone.
pub(crate) proof fn lemma_round53_cancel(n: nat, d: nat, c: nat)
    requires
        d > 0,
        c > 0,
    ensures
        round53(n * c, d * c) == round53(n, d),
{
    lemma_cancel_div(n, d, c);
    let u = spacing(n / d);
    lemma_spacing_bounds(n / d);
    assert(d * u > 0) by (nonlinear_arith)
        requires
            d > 0,
            u > 0,
    ;
    lemma_nearest_cancel(n, d * u, c);
    assert((d * c) * u == (d * u) * c) by (nonlinear_arith);
}

/// Doubling a quotient doubles what it rounds to, where the quotient has 53
/// bits to begin with or is an integer.
proof fn lemma_round53_double(n: nat, d: nat)
    requires
        d > 0,
        n / d >= 0x10_0000_0000_0000 || n % d == 0,
    ensures
        round53(2 * n, d) == 2 * round53(n, d),
        (2 * n) / d >= 0x10_0000_0000_0000 || (2 * n) % d == 0,
{
    lemma_div_parts(n, d);
    let q = n / d;
    let r = n % d;
    let carry: nat = if 2 * r >= d { 1 } else { 0 };
    let r2 = (2 * r - carry * d) as nat;
    assert(2 * n == (2 * q + carry) * d + r2) by (nonlinear_arith)
        requires
            n == q * d + r,
            r2 == 2 * r - carry * d,
    ;
    lemma_div_unique(2 * n, d, 2 * q + carry, r2);
    if q >= 0x10_0000_0000_0000 {
        let u = spacing(q);
        lemma_spacing_bounds(q);
        assert((2 * q + carry) / 2 == q);
        assert(spacing((2 * n) / d) == 2 * u);
        assert(d * u > 0) by (nonlinear_arith)
            requires
                d > 0,
                u > 0,
        ;
        lemma_nearest_cancel(n, d * u, 2);
        assert(n * 2 == 2 * n);
        assert((d * u) * 2 == d * (2 * u)) by (nonlinear_arith);
        assert((2 * u) * nearest(n, d * u) == 2 * (u * nearest(n, d * u))) by (nonlinear_arith);
    } else {
        assert(r == 0);
        assert(spacing(q) == 1 && spacing(2 * q) == 1);
    }
}

/// The same for any power of two.
pub(crate) proof fn lemma_round53_shift(n: nat, d: nat, s: nat)
    requires
        d > 0,
        n / d >= 0x10_0000_0000_0000 || n % d == 0,
    ensures
        round53(n * pow2(s), d) == round53(n, d) * pow2(s),
        (n * pow2(s)) / d >= 0x10_0000_0000_0000 || (n * pow2(s)) % d == 0,
    decreases s,
{
    if s == 0 {
        vstd::arithmetic::power2::lemma2_to64();
        assert(n * pow2(0) == n) by (nonlinear_arith)
            requires
                pow2(0) == 1,
        ;
        assert(round53(n, d) * pow2(0) == round53(n, d)) by (nonlinear_arith)
            requires
                pow2(0) == 1,
        ;
    } else {
        let t = (s - 1) as nat;
        lemma_round53_shift(n, d, t);
        lemma_pow2_unfold(s);
        lemma_round53_double(n * pow2(t), d);
        assert(2 * (n * pow2(t)) == n * pow2(s)) by (nonlinear_arith)
            requires
                pow2(s) == 2 * pow2(t),
        ;
        assert(2 * (round53(n, d) * pow2(t)) == round53(n, d) * pow2(s)) by (nonlinear_arith)
            requires
                pow2(s) == 2 * pow2(t),
        ;
    }
}

/// The spacing of a magnitude, read off its leading 54 bits.
proof fn lemma_spacing_at(v: nat, j: nat)
    requires
        0x20_0000_0000_0000 <= v / pow2(j) < 0x40_0000_0000_0000,
    ensures
        spacing(v) == pow2(j + 1),
    decreases j,
{
    lemma_pow2_pos(j);
    lemma_pow2_unfold(j + 1);
    if j == 0 {
        vstd::arithmetic::power2::lemma2_to64();
        assert(v / 1 == v);
        assert(spacing(v / 2) == 1);
    } else {
        let i = (j - 1) as nat;
        lemma_pow2_pos(i);
        lemma_pow2_unfold(j);
        lemma_halve(v, pow2(i));
        // (v / 2) / 2^i == v / 2^j
        vstd::arithmetic::div_mod::lemma_div_denominator(v as int, 2, pow2(i) as int);
        assert(2 * pow2(i) == pow2(j));
        lemma_spacing_at(v / 2, i);
        assert(v >= 0x20_0000_0000_0000) by {
            vstd::arithmetic::div_mod::lemma_div_nonincreasing(v as int, pow2(j) as int);
        }
    }
}

/// A larger magnitude has the same spacing, or one at least twice as wide.
pub(crate) proof fn lemma_spacing_grows(v: nat, w: nat)
    requires
        v <= w,
    ensures
        spacing(v) == spacing(w) || 2 * spacing(v) <= spacing(w),
    decreases w,
{
    if v >= 0x20_0000_0000_0000 {
        lemma_spacing_grows(v / 2, w / 2);
    } else if w >= 0x20_0000_0000_0000 {
        lemma_spacing_bounds(w / 2);
    }
}

proof fn lemma_nearest_grows(m: nat, n: nat, d: nat)
    requires
        m <= n,
        d > 0,
    ensures
        nearest(m, d) <= nearest(n, d),
{
    lemma_div_parts(m, d);
    lemma_div_parts(n, d);
    let p = m / d;
    let q = n / d;
    assert(p <= q) by (nonlinear_arith)
        requires
            m <= n,
            m == p * d + m % d,
            n == q * d + n % d,
            m % d < d,
            n % d < d,
            d > 0,
            m % d >= 0,
    ;
    if p == q {
        assert(m % d <= n % d);
    }
}

/// Dividing twice is dividing by the product.
proof fn lemma_div_twice(n: nat, d: nat, u: nat)
    requires
        d > 0,
        u > 0,
    ensures
        d * u > 0,
        (n / d) / u == n / (d * u),
{
    assert(d * u > 0) by (nonlinear_arith)
        requires
            d > 0,
            u > 0,
    ;
    vstd::arithmetic::div_mod::lemma_div_denominator(n as int, d as int, u as int);
}

/// The nearest integer to an integer.
pub(crate) proof fn lemma_nearest_exact(k: nat, d: nat)
    requires
        d > 0,
    ensures
        nearest(k * d, d) == k,
{
    lemma_div_unique(k * d, d, k, 0);
}

/// The nearest integer is off by half at most.
pub(crate) proof fn lemma_nearest_error(n: nat, d: nat)
    requires
        d > 0,
    ensures
        2 * (nearest(n, d) * d) <= 2 * n + d,
        2 * n <= 2 * (nearest(n, d) * d) + d,
{
    lemma_div_parts(n, d);
    let q = n / d;
    assert((q + 1) * d == q * d + d) by (nonlinear_arith);
}

/// Rounding keeps the order of quotients.
#[verifier::spinoff_prover]
pub(crate) proof fn lemma_round53_grows(m: nat, n: nat, d: nat)
    requires
        m <= n,
        d > 0,
    ensures
        round53(m, d) <= round53(n, d),
{
    let v = m / d;
    let w = n / d;
    assert(v <= w) by {
        vstd::arithmetic::div_mod::lemma_div_is_ordered(m as int, n as int, d as int);
    }
    let u = spacing(v);
    let t = spacing(w);
    lemma_spacing_bounds(v);
    lemma_spacing_bounds(w);
    lemma_spacing_grows(v, w);
    lemma_div_twice(m, d, u);
    lemma_div_twice(n, d, t);
    if u == t {
        lemma_nearest_grows(m, n, d * u);
        let a = nearest(m, d * u);
        let b = nearest(n, d * u);
        assert(u * a <= u * b) by (nonlinear_arith)
            requires
                a <= b,
                u > 0,
        ;
    } else {
        let a = nearest(m, d * u);
        let b = nearest(n, d * t);
        lemma_div_parts(v, u);
        lemma_div_parts(w, t);
        assert(v / u < 0x20_0000_0000_0000) by (nonlinear_arith)
            requires
                v == (v / u) * u + v % u,
                v < 0x20_0000_0000_0000 * u,
                v % u >= 0,
                u > 0,
        ;
        assert(w / t >= 0x10_0000_0000_0000) by (nonlinear_arith)
            requires
                w == (w / t) * t + w % t,
                w >= 0x10_0000_0000_0000 * t,
                w % t < t,
                t > 0,
        ;
        assert(u * a <= t * b) by (nonlinear_arith)
            requires
                a <= 0x20_0000_0000_0000,
                b >= 0x10_0000_0000_0000,
                2 * u <= t,
        ;
    }
}

/// A number rounds to within half of its spacing.
pub(crate) proof fn lemma_round53_error(n: nat, d: nat)
    requires
        d > 0,
    ensures
        ({
            let u = spacing(n / d);
            &&& 2 * (round53(n, d) * d) <= 2 * n + d * u
            &&& 2 * n <= 2 * (round53(n, d) * d) + d * u
        }),
{
    let u = spacing(n / d);
    lemma_spacing_bounds(n / d);
    lemma_div_twice(n, d, u);
    let w = d * u;
    lemma_div_parts(n, w);
    let q = n / w;
    let r = n % w;
    let a = nearest(n, w);
    assert((u * a) * d == a * w) by (nonlinear_arith)
        requires
            w == d * u,
    ;
    assert((q + 1) * w == q * w + w) by (nonlinear_arith);
}

/// One, written out.
pub(crate) proof fn lemma_one()
    ensures
        one() == 0x1_0000_0000_0000_0000_0000_0000_0000_0000,
{
    vstd::arithmetic::power2::lemma2_to64();
    vstd::arithmetic::power2::lemma2_to64_rest();
    lemma_pow2_adds(64, 64);
    assert(pow2(128) == 0x1_0000_0000_0000_0000_0000_0000_0000_0000) by (nonlinear_arith)
        requires
            pow2(128) == pow2(64) * pow2(64),
            pow2(64) == 0x1_0000_0000_0000_0000,
    ;
}

proof fn lemma_spacing_is_pow2(v: nat) -> (k: nat)
    ensures
        spacing(v) == pow2(k),
    decreases v,
{
    if v < 0x20_0000_0000_0000 {
        lemma_pow2_zero();
        0
    } else {
        let k = lemma_spacing_is_pow2(v / 2);
        lemma_pow2_unfold(k + 1);
        k + 1
    }
}

/// Zero rounds to itself.
pub(crate) proof fn lemma_round53_zero(d: nat)
    requires
        d > 0,
    ensures
        round53(0, d) == 0,
{
    lemma_div_unique(0, d, 0, 0);
    assert(spacing(0) == 1);
    assert(d * 1 == d);
    assert(nearest(0, d) == 0);
    assert(1 * nearest(0, d) == 0);
}

/// What was rounded rounds to itself.
pub(crate) proof fn lemma_round53_again(n: nat, d: nat)
    requires
        d > 0,
    ensures
        round53(round53(n, d), 1) == round53(n, d),
{
    let v = n / d;
    let u = spacing(v);
    lemma_spacing_bounds(v);
    let k = lemma_spacing_is_pow2(v);
    lemma_div_twice(n, d, u);
    lemma_div_parts(v, u);
    assert(v / u < 0x20_0000_0000_0000) by (nonlinear_arith)
        requires
            v == (v / u) * u + v % u,
            v < 0x20_0000_0000_0000 * u,
            v % u >= 0,
            u > 0,
    ;
    let a = nearest(n, d * u);
    lemma_round53_exact(a, k);
    lemma_mul_is_commutative(u as int, a as int);
}

/// Less than one makes no difference to an integer of 54 bits or more.
#[verifier::spinoff_prover]
pub(crate) proof fn lemma_whole_absorbs(x: nat, f: nat)
    requires
        x >= 0x20_0000_0000_0000,
        f < one(),
    ensures
        round53(whole_units(x) + f, 1) == whole_units(x),
{
    let w = whole_units(x);
    let least: nat = 0x20_0000_0000_0000 * one();
    lemma_one();
    lemma_whole_exact(0x20_0000_0000_0000);
    assert(0x20_0000_0000_0000 * one() <= x * one()) by (nonlinear_arith)
        requires
            x >= 0x20_0000_0000_0000,
    ;
    lemma_round53_grows(least, x * one(), 1);
    assert(w >= least);
    lemma_div_unique(least, pow2(128), 0x20_0000_0000_0000, 0);
    lemma_spacing_at(least, 128);
    lemma_pow2_unfold(129);
    lemma_spacing_grows(least, w);
    let u = spacing(w);
    assert(u >= 2 * one());
    lemma_round53_again(x * one(), 1);
    assert(w / 1 == w && 1 * u == u);
    let a = nearest(w, u);
    assert(w == u * a);
    let v = w + f;
    lemma_spacing_bounds(w);
    lemma_spacing_bounds(v);
    lemma_spacing_grows(w, v);
    assert(a < 0x20_0000_0000_0000) by (nonlinear_arith)
        requires
            w == u * a,
            w < 0x20_0000_0000_0000 * u,
            u > 0,
    ;
    assert(v < 0x20_0000_0000_0000 * u) by (nonlinear_arith)
        requires
            w == u * a,
            a + 1 <= 0x20_0000_0000_0000,
            v < w + u,
            u > 0,
    ;
    assert(spacing(v) == u);
    lemma_mul_is_commutative(u as int, a as int);
    lemma_div_unique(v, u, a, f);
    assert(v / 1 == v);
}

/// A binary64 number: `mantissa` times 2^`scale` units.
#[derive(Clone, Copy)]
pub(crate) struct Double {
    pub(crate) mantissa: u64,
    pub(crate) scale: u32,
}

impl Double {
    pub(crate) open spec fn units(self) -> nat {
        self.mantissa as nat * pow2(self.scale as nat)
    }

    /// At most 53 significant bits.
    pub(crate) open spec fn wf(self) -> bool {
        self.mantissa <= 0x20_0000_0000_0000
    }
}

/// `m * 2^s`.
fn scale_up(m: u128, s: u32) -> (r: u128)
    requires
        m as nat * pow2(s as nat) <= u128::MAX,
    ensures
        r == m as nat * pow2(s as nat),
{
    let mut r: u128 = m;
    let mut i: u32 = 0;
    proof {
        lemma_pow2_zero();
        assert(m as nat * pow2(0) == m as nat) by (nonlinear_arith)
            requires
                pow2(0) == 1,
        ;
    }
    while i < s
        invariant
            i <= s,
            r == m as nat * pow2(i as nat),
            m as nat * pow2(s as nat) <= u128::MAX,
        decreases s - i,
    {
        proof {
            lemma_pow2_unfold((i + 1) as nat);
            let k = (s - (i + 1)) as nat;
            lemma_pow2_pos(k);
            lemma_pow2_adds((i + 1) as nat, k);
            assert(m as nat * pow2((i + 1) as nat) == 2 * r) by (nonlinear_arith)
                requires
                    r == m as nat * pow2(i as nat),
                    pow2((i + 1) as nat) == 2 * pow2(i as nat),
            ;
            assert(2 * r <= m as nat * pow2(s as nat)) by (nonlinear_arith)
                requires
                    2 * r == m as nat * pow2((i + 1) as nat),
                    pow2(s as nat) == pow2((i + 1) as nat) * pow2(k),
                    pow2(k) >= 1,
            ;
        }
        r = r * 2;
        i = i + 1;
    }
    r
}

proof fn lemma_pow2_zero()
    ensures
        pow2(0) == 1,
{
    vstd::arithmetic::power2::lemma2_to64();
}

/// The quotient of `m` by 2^`s`, and whether a remainder was left.
fn scale_down(m: u128, s: u32) -> (r: (u128, bool))
    ensures
        r.0 == m as nat / pow2(s as nat),
        r.1 == (m as nat % pow2(s as nat) != 0),
{
    let mut q: u128 = m;
    let mut inexact: bool = false;
    let mut i: u32 = 0;
    proof {
        lemma_pow2_zero();
    }
    while i < s
        invariant
            i <= s,
            q == m as nat / pow2(i as nat),
            inexact == (m as nat % pow2(i as nat) != 0),
        decreases s - i,
    {
        proof {
            lemma_pow2_pos(i as nat);
            lemma_pow2_unfold((i + 1) as nat);
            lemma_halve(m as nat, pow2(i as nat));
        }
        inexact = inexact || q % 2 == 1;
        q = q / 2;
        i = i + 1;
    }
    (q, inexact)
}

/// Rounds `n / d` to 53 bits, given its integer part `q` and whether it has a
/// fraction, and scales it by 2^`scale` units.
#[verifier::spinoff_prover]
fn narrow(q: u128, inexact: bool, scale: u32, Ghost(n): Ghost<nat>, Ghost(d): Ghost<nat>) -> (r:
    Double)
    requires
        d > 0,
        q == n / d,
        inexact == (n % d != 0),
        inexact ==> q >= 0x20_0000_0000_0000,
        scale <= 1000,
    ensures
        r.wf(),
        r.units() == round53(n, d) * pow2(scale as nat),
        scale <= r.scale <= scale + 75,
        round53(n, d) <= 2 * q,
{
    let mut top: u128 = q;
    let mut rest: bool = inexact;
    let mut j: u32 = 0;
    proof {
        lemma_pow2_zero();
        assert(d * pow2(0) == d) by (nonlinear_arith)
            requires
                pow2(0) == 1,
        ;
        assert(q as nat / pow2(0) == q as nat);
        vstd::arithmetic::power2::lemma2_to64_rest();
        lemma_pow2_adds(64, 64);
    }
    while top >= 0x40_0000_0000_0000
        invariant
            d > 0,
            q == n / d,
            inexact == (n % d != 0),
            top == n / (d * pow2(j as nat)),
            top == q as nat / pow2(j as nat),
            rest == (n % (d * pow2(j as nat)) != 0),
            j > 0 ==> top >= 0x20_0000_0000_0000,
            j == 0 ==> (top == q && rest == inexact),
            j <= 74,
            top * pow2(j as nat) <= q,
            q < pow2(128),
            pow2(54) == 0x40_0000_0000_0000,
        decreases top,
    {
        proof {
            lemma_pow2_pos(j as nat);
            lemma_pow2_unfold((j + 1) as nat);
            let w = d * pow2(j as nat);
            assert(w > 0) by (nonlinear_arith)
                requires
                    d > 0,
                    pow2(j as nat) > 0,
                    w == d * pow2(j as nat),
            ;
            lemma_halve(n, w);
            lemma_halve(q as nat, pow2(j as nat));
            assert(2 * w == d * pow2((j + 1) as nat)) by (nonlinear_arith)
                requires
                    w == d * pow2(j as nat),
                    pow2((j + 1) as nat) == 2 * pow2(j as nat),
            ;
            let half = top / 2;
            assert(half * pow2((j + 1) as nat) <= q) by (nonlinear_arith)
                requires
                    2 * half <= top,
                    half >= 0,
                    top * pow2(j as nat) <= q,
                    pow2((j + 1) as nat) == 2 * pow2(j as nat),
            ;
            if j == 74 {
                lemma_pow2_adds(54, 74);
                assert(pow2(54) * pow2(74) <= top * pow2(74)) by (nonlinear_arith)
                    requires
                        pow2(54) <= top,
                ;
                assert(false);
            }
        }
        rest = rest || top % 2 == 1;
        top = top / 2;
        j = j + 1;
    }
    if top < 0x20_0000_0000_0000 {
        proof {
            assert(j == 0 && n % d == 0 && n / d == q as nat);
            assert(spacing(n / d) == 1);
            assert(d * 1 == d);
            assert(nearest(n, d) == q as nat);
            assert(round53(n, d) == q as nat);
        }
        Double { mantissa: top as u64, scale }
    } else {
        let m: u128 = top / 2;
        let up: bool = top % 2 == 1 && (rest || m % 2 == 1);
        let mantissa: u128 = if up {
            m + 1
        } else {
            m
        };
        proof {
            let p = pow2(j as nat);
            lemma_pow2_pos(j as nat);
            lemma_pow2_unfold((j + 1) as nat);
            lemma_spacing_at(q as nat, j as nat);
            let u = pow2((j + 1) as nat);
            let w = d * p;
            assert(w > 0) by (nonlinear_arith)
                requires
                    d > 0,
                    p > 0,
                    w == d * p,
            ;
            lemma_halve(n, w);
            lemma_div_parts(n, w);
            assert(2 * w == d * u) by (nonlinear_arith)
                requires
                    w == d * p,
                    u == 2 * p,
            ;
            let b = top as nat % 2;
            assert(n % (2 * w) == b * w + n % w);
            assert(b * w == if b == 1 { w } else { 0 }) by (nonlinear_arith)
                requires
                    b == 0 || b == 1,
            ;
            assert(nearest(n, d * u) == mantissa as nat);
            assert(round53(n, d) == u * mantissa as nat);
            lemma_pow2_adds((j + 1) as nat, scale as nat);
            assert((u * mantissa as nat) * pow2(scale as nat) == mantissa as nat * (u * pow2(
                scale as nat,
            ))) by (nonlinear_arith);
            assert(u * mantissa as nat <= 2 * q) by (nonlinear_arith)
                requires
                    mantissa <= top,
                    u == 2 * p,
                    top * p <= q,
            ;
        }
        Double { mantissa: mantissa as u64, scale: scale + j + 1 }
    }
}

/// The units of the binary64 number nearest to the integer `x`.
pub open spec fn whole_units(x: nat) -> nat {
    round53(x * one(), 1)
}

/// The integer nearest to a number of `v` units, a tie going up.
pub open spec fn half_up(v: nat) -> nat {
    (2 * v + one()) / (2 * one())
}

/// Rounding to an integer is off by half at most.
pub(crate) proof fn lemma_half_up(v: nat)
    ensures
        half_up(v) * (2 * one()) <= 2 * v + one(),
        2 * v < half_up(v) * (2 * one()) + one(),
{
    lemma_pow2_pos(128);
    lemma_div_parts(2 * v + one(), 2 * one());
}

/// An integer rounds to itself.
pub(crate) proof fn lemma_half_up_exact(k: nat)
    ensures
        half_up(k * one()) == k,
{
    lemma_pow2_pos(128);
    assert(2 * (k * one()) + one() == k * (2 * one()) + one()) by (nonlinear_arith);
    lemma_div_unique(2 * (k * one()) + one(), 2 * one(), k, one());
}

/// Rounding to an integer keeps the order of numbers.
pub(crate) proof fn lemma_half_up_grows(v: nat, w: nat)
    requires
        v <= w,
    ensures
        half_up(v) <= half_up(w),
{
    lemma_pow2_pos(128);
    vstd::arithmetic::div_mod::lemma_div_is_ordered(
        (2 * v + one()) as int,
        (2 * w + one()) as int,
        (2 * one()) as int,
    );
}

/// An integer that fits 53 bits is a binary64 number.
pub(crate) proof fn lemma_whole_exact(x: nat)
    requires
        x <= 0x20_0000_0000_0000,
    ensures
        whole_units(x) == x * one(),
{
    lemma_round53_exact(x, 128);
}

/// A number of 53 significant bits rounds to itself.
pub(crate) proof fn lemma_round53_exact(m: nat, s: nat)
    requires
        m <= 0x20_0000_0000_0000,
    ensures
        round53(m * pow2(s), 1) == m * pow2(s),
{
    lemma_round53_shift(m, 1, s);
    assert(m / 1 == m && m % 1 == 0);
    if m == 0x20_0000_0000_0000 {
        assert(spacing(m / 2) == 1);
        assert(spacing(m) == 2);
        assert(nearest(m, 1 * 2) == m / 2);
    } else {
        assert(spacing(m) == 1);
        assert(nearest(m, 1 * 1) == m);
    }
    let u = spacing(m / 1);
    assert(1 * u == u);
    assert(u * nearest(m, u) == m) by (nonlinear_arith)
        requires
            (u == 1 && nearest(m, u) == m) || (u == 2 && 2 * nearest(m, u) == m),
    ;
}

/// Rounding at a coarser unit, where 53 bits are left above it.
proof fn lemma_round53_coarse(n: nat, s: nat)
    requires
        n / pow2(s) >= 0x10_0000_0000_0000,
    ensures
        round53(n, pow2(s)) * pow2(s) == round53(n, 1),
{
    lemma_pow2_pos(s);
    lemma_round53_shift(n, pow2(s), s);
    lemma_round53_cancel(n, 1, pow2(s));
    assert(1 * pow2(s) == pow2(s));
}

impl Double {
    /// The integer `x` as a binary64 number.
    pub(crate) fn whole(x: u64) -> (r: Double)
        ensures
            r.wf(),
            r.units() == whole_units(x as nat),
            128 <= r.scale <= 203,
            r.units() <= 0x2_0000_0000_0000_0000 * one(),
    {
        let r = narrow(x as u128, false, 128, Ghost(x as nat), Ghost(1));
        proof {
            lemma_round53_shift(x as nat, 1, 128);
            lemma_pow2_pos(128);
            assert(round53(x as nat, 1) * one() <= 0x2_0000_0000_0000_0000 * one())
                by (nonlinear_arith)
                requires
                    round53(x as nat, 1) <= 0x2_0000_0000_0000_0000,
            ;
        }
        r
    }

    /// `n / d`, for `n` under `d` and `d` under 2^30.
    pub(crate) fn fraction(n: u32, d: u32) -> (r: Double)
        requires
            n < d < 0x4000_0000,
        ensures
            r.wf(),
            r.units() == round53(n as nat * one(), d as nat),
            32 <= r.scale <= 107,
    {
        let wide: u128 = (n as u128) * 0x1_0000_0000_0000_0000_0000_0000;
        let q: u128 = wide / (d as u128);
        let inexact: bool = wide % (d as u128) != 0;
        proof {
            vstd::arithmetic::power2::lemma2_to64_rest();
            lemma_pow2_adds(64, 32);
            lemma_pow2_adds(96, 32);
            vstd::arithmetic::power2::lemma2_to64();
            assert(pow2(96) == 0x1_0000_0000_0000_0000_0000_0000) by (nonlinear_arith)
                requires
                    pow2(96) == pow2(64) * pow2(32),
                    pow2(64) == 0x1_0000_0000_0000_0000,
                    pow2(32) == 0x1_0000_0000,
            ;
            if n > 0 {
                assert(q >= 0x20_0000_0000_0000) by (nonlinear_arith)
                    requires
                        q == wide / (d as u128),
                        wide >= 0x1_0000_0000_0000_0000_0000_0000,
                        0 < d < 0x4000_0000,
                ;
            } else {
                assert(0u128 % (d as u128) == 0);
            }
        }
        let r = narrow(q, inexact, 32, Ghost(wide as nat), Ghost(d as nat));
        proof {
            lemma_round53_shift(wide as nat, d as nat, 32);
            assert(wide as nat * pow2(32) == n as nat * one()) by (nonlinear_arith)
                requires
                    wide == n as nat * pow2(96),
                    one() == pow2(96) * pow2(32),
            ;
        }
        r
    }

    /// The sum of an integer and a fraction.
    #[verifier::spinoff_prover]
    pub(crate) fn plus(self, other: Double) -> (r: Double)
        requires
            self.wf(),
            other.wf(),
            self.scale >= 128,
            self.units() <= 0x2_0000_0000_0000_0000 * one(),
            32 <= other.scale <= 107,
        ensures
            r.wf(),
            r.units() == round53(self.units() + other.units(), 1),
            32 <= r.scale <= 203,
    {
        if self.mantissa == 0 {
            proof {
                assert(self.units() == 0) by (nonlinear_arith)
                    requires
                        self.units() == self.mantissa as nat * pow2(self.scale as nat),
                        self.mantissa == 0,
                ;
                lemma_round53_exact(other.mantissa as nat, other.scale as nat);
            }
            return other;
        }
        let ghost n = self.units() + other.units();
        let lift: u32 = self.scale - 128;
        let ghost x = self.mantissa as nat * pow2(lift as nat);
        proof {
            lemma_pow2_adds(lift as nat, 128);
            lemma_pow2_pos(128);
            lemma_pow2_pos(lift as nat);
            assert(self.units() == x * one()) by (nonlinear_arith)
                requires
                    self.units() == self.mantissa as nat * pow2(self.scale as nat),
                    x == self.mantissa as nat * pow2(lift as nat),
                    pow2(self.scale as nat) == pow2(lift as nat) * one(),
            ;
            assert(x <= 0x2_0000_0000_0000_0000) by (nonlinear_arith)
                requires
                    x * one() <= 0x2_0000_0000_0000_0000 * one(),
                    one() > 0,
            ;
            assert(x >= 1) by (nonlinear_arith)
                requires
                    x == self.mantissa as nat * pow2(lift as nat),
                    self.mantissa >= 1,
                    pow2(lift as nat) >= 1,
            ;
        }
        let integer: u128 = scale_up(self.mantissa as u128, lift);
        proof {
            vstd::arithmetic::power2::lemma2_to64_rest();
            lemma_pow2_adds(62, 66);
            lemma_pow2_pos(66);
        }
        // Both summands in multiples of 2^66 units.
        let high: u128 = integer * 0x4000_0000_0000_0000;
        let (low, inexact) = if other.scale >= 66 {
            let s: u32 = other.scale - 66;
            proof {
                lemma_pow2_adds(s as nat, 66);
                vstd::arithmetic::power2::lemma_pow2_strictly_increases(s as nat, 42);
                let low = other.mantissa as nat * pow2(s as nat);
                assert(low <= 0x20_0000_0000_0000 * 0x400_0000_0000) by (nonlinear_arith)
                    requires
                        low == other.mantissa as nat * pow2(s as nat),
                        other.mantissa <= 0x20_0000_0000_0000,
                        pow2(s as nat) <= 0x400_0000_0000,
                ;
                assert(other.units() == low * pow2(66) + 0) by (nonlinear_arith)
                    requires
                        other.units() == other.mantissa as nat * pow2(other.scale as nat),
                        low == other.mantissa as nat * pow2(s as nat),
                        pow2(other.scale as nat) == pow2(s as nat) * pow2(66),
                ;
                lemma_div_unique(other.units(), pow2(66), low, 0);
            }
            (scale_up(other.mantissa as u128, s), false)
        } else {
            let s: u32 = 66 - other.scale;
            proof {
                lemma_pow2_adds(s as nat, other.scale as nat);
                lemma_pow2_pos(s as nat);
                lemma_pow2_pos(other.scale as nat);
                lemma_cancel_div(
                    other.mantissa as nat,
                    pow2(s as nat),
                    pow2(other.scale as nat),
                );
                let rem = other.mantissa as nat % pow2(s as nat);
                assert(rem * pow2(other.scale as nat) == 0 <==> rem == 0) by (nonlinear_arith)
                    requires
                        pow2(other.scale as nat) > 0,
                        rem >= 0,
                ;
            }
            scale_down(other.mantissa as u128, s)
        };
        proof {
            let b = other.units();
            lemma_div_parts(b, pow2(66));
            assert(low == b / pow2(66));
            assert(inexact == (b % pow2(66) != 0));
            assert(n == (high as nat + low as nat) * pow2(66) + b % pow2(66)) by (nonlinear_arith)
                requires
                    n == x * one() + b,
                    one() == 0x4000_0000_0000_0000 * pow2(66),
                    high == x * 0x4000_0000_0000_0000,
                    b == low as nat * pow2(66) + b % pow2(66),
            ;
            lemma_div_unique(n, pow2(66), high as nat + low as nat, b % pow2(66));
            lemma_round53_coarse(n, 66);
        }
        narrow(high + low, inexact, 66, Ghost(n), Ghost(pow2(66)))
    }

    /// The product of two numbers.
    pub(crate) fn times(self, other: Double) -> (r: Double)
        requires
            self.wf(),
            other.wf(),
            128 <= self.scale + other.scale <= 1000,
        ensures
            r.wf(),
            r.units() == round53(self.units() * other.units(), one()),
            self.scale + other.scale - 128 <= r.scale <= self.scale + other.scale - 53,
    {
        let ghost a = self.mantissa as nat;
        let ghost b = other.mantissa as nat;
        proof {
            assert(a * b <= 0x20_0000_0000_0000 * 0x20_0000_0000_0000) by (nonlinear_arith)
                requires
                    a <= 0x20_0000_0000_0000,
                    b <= 0x20_0000_0000_0000,
            ;
        }
        let q: u128 = (self.mantissa as u128) * (other.mantissa as u128);
        let scale: u32 = self.scale + other.scale - 128;
        let r = narrow(q, false, scale, Ghost(q as nat), Ghost(1));
        proof {
            lemma_round53_shift(q as nat, 1, scale as nat);
            lemma_pow2_pos(128);
            lemma_round53_cancel(q as nat * pow2(scale as nat), 1, one());
            lemma_pow2_adds(self.scale as nat, other.scale as nat);
            lemma_pow2_adds(scale as nat, 128);
            let pa = pow2(self.scale as nat);
            let pb = pow2(other.scale as nat);
            assert((a * pa) * (b * pb) == (q as nat * pow2(scale as nat)) * one())
                by (nonlinear_arith)
                requires
                    q == a * b,
                    pa * pb == pow2(scale as nat) * one(),
            ;
            assert(1 * one() == one());
        }
        r
    }

    /// The quotient of an integer and the integer `d`.
    #[verifier::spinoff_prover]
    pub(crate) fn over(self, d: u64) -> (r: Double)
        requires
            self.wf(),
            128 <= self.scale <= 203,
            0 < d < 0x1_0000_0000_0000,
        ensures
            r.wf(),
            r.units() == round53(self.units() * one(), whole_units(d as nat)),
            2 <= r.scale <= 278,
    {
        let mut n: u128 = self.mantissa as u128;
        let mut k: u32 = 0;
        proof {
            lemma_pow2_zero();
            assert(n == self.mantissa as nat * pow2(0)) by (nonlinear_arith)
                requires
                    n == self.mantissa,
                    pow2(0) == 1,
            ;
        }
        while k < 126 && n < 0x4000_0000_0000_0000_0000_0000_0000_0000
            invariant
                k <= 126,
                n == self.mantissa as nat * pow2(k as nat),
            decreases 126 - k,
        {
            proof {
                lemma_pow2_unfold((k + 1) as nat);
                assert(self.mantissa as nat * pow2((k + 1) as nat) == 2 * n) by (nonlinear_arith)
                    requires
                        n == self.mantissa as nat * pow2(k as nat),
                        pow2((k + 1) as nat) == 2 * pow2(k as nat),
                ;
            }
            n = n * 2;
            k = k + 1;
        }
        let q: u128 = n / (d as u128);
        let inexact: bool = n % (d as u128) != 0;
        let ghost dn = d as nat;
        proof {
            vstd::arithmetic::power2::lemma2_to64_rest();
            lemma_pow2_adds(62, 64);
            if self.mantissa == 0 {
                assert(n == 0) by (nonlinear_arith)
                    requires
                        n == self.mantissa as nat * pow2(k as nat),
                        self.mantissa == 0,
                ;
                assert(0u128 % (d as u128) == 0);
            } else {
                assert(n >= 0x4000_0000_0000_0000_0000_0000_0000_0000) by {
                    if k == 126 {
                        assert(n >= pow2(126)) by (nonlinear_arith)
                            requires
                                n == self.mantissa as nat * pow2(126),
                                self.mantissa >= 1,
                        ;
                        assert(pow2(126) == 0x4000_0000_0000_0000_0000_0000_0000_0000)
                            by (nonlinear_arith)
                            requires
                                pow2(126) == pow2(62) * pow2(64),
                                pow2(62) == 0x4000_0000_0000_0000,
                                pow2(64) == 0x1_0000_0000_0000_0000,
                        ;
                    }
                }
                assert(q >= 0x20_0000_0000_0000) by (nonlinear_arith)
                    requires
                        q == n / (d as u128),
                        n >= 0x4000_0000_0000_0000_0000_0000_0000_0000,
                        0 < d < 0x1_0000_0000_0000,
                ;
            }
        }
        let scale: u32 = self.scale - k;
        let r = narrow(q, inexact, scale, Ghost(n as nat), Ghost(dn));
        proof {
            lemma_round53_shift(n as nat, dn, scale as nat);
            lemma_pow2_adds(k as nat, scale as nat);
            assert(n as nat * pow2(scale as nat) == self.units()) by (nonlinear_arith)
                requires
                    n == self.mantissa as nat * pow2(k as nat),
                    self.units() == self.mantissa as nat * pow2(self.scale as nat),
                    pow2(self.scale as nat) == pow2(k as nat) * pow2(scale as nat),
            ;
            lemma_pow2_pos(128);
            lemma_round53_cancel(self.units(), dn, one());
            lemma_whole_exact(dn);
        }
        r
    }

    /// The nearest integer, a tie going up, and the largest `u64` for one that
    /// is larger.
    #[verifier::spinoff_prover]
    pub(crate) fn rounded(self) -> (r: u64)
        requires
            self.wf(),
        ensures
            r == if half_up(self.units()) <= u64::MAX {
                half_up(self.units())
            } else {
                u64::MAX as nat
            },
    {
        proof {
            lemma_pow2_pos(128);
        }
        if self.scale >= 128 {
            let lift: u32 = self.scale - 128;
            let ghost k = self.mantissa as nat * pow2(lift as nat);
            proof {
                self.lemma_integer();
                lemma_half_up_exact(k);
            }
            match lift_u64(self.mantissa, lift) {
                Some(v) => v,
                None => u64::MAX,
            }
        } else {
            let t: u32 = 128 - self.scale;
            let (q, inexact) = scale_down(self.mantissa as u128, t - 1);
            let ghost m = self.mantissa as nat;
            proof {
                let h = pow2((t - 1) as nat);
                lemma_pow2_pos((t - 1) as nat);
                lemma_pow2_pos(self.scale as nat);
                lemma_pow2_unfold(t as nat);
                lemma_pow2_adds(t as nat, self.scale as nat);
                let p = pow2(self.scale as nat);
                // (2 v + 1) / 2, with both sides divided by 2^(scale + 1).
                assert(2 * self.units() + one() == (m + h) * (2 * p)) by (nonlinear_arith)
                    requires
                        self.units() == m * p,
                        one() == (2 * h) * p,
                ;
                assert(2 * one() == (2 * h) * (2 * p)) by (nonlinear_arith)
                    requires
                        one() == (2 * h) * p,
                ;
                lemma_cancel_div(m + h, 2 * h, 2 * p);
                lemma_div_parts(m, h);
                assert(m + h == (q as nat + 1) * h + m % h) by (nonlinear_arith)
                    requires
                        m == q as nat * h + m % h,
                ;
                lemma_div_unique(m + h, h, q as nat + 1, m % h);
                lemma_halve(m + h, h);
                assert(q <= m) by {
                    vstd::arithmetic::div_mod::lemma_div_nonincreasing(m as int, h as int);
                }
            }
            ((q + 1) / 2) as u64
        }
    }

    /// A number of scale 128 or more is an integer.
    proof fn lemma_integer(self)
        requires
            self.scale >= 128,
        ensures
            self.units() == (self.mantissa as nat * pow2((self.scale - 128) as nat)) * one(),
    {
        lemma_pow2_adds((self.scale - 128) as nat, 128);
        lemma_mul_is_associative(
            self.mantissa as int,
            pow2((self.scale - 128) as nat) as int,
            one() as int,
        );
    }

    /// The nearest integer to 10^9 times the number, a tie going to the even
    /// one; nothing where the number is 2^64 or more.
    #[verifier::spinoff_prover]
    pub(crate) fn nanos(self) -> (r: Option<u128>)
        requires
            self.wf(),
        ensures
            r is None <==> self.units() >= 0x1_0000_0000_0000_0000 * one(),
            r matches Some(v) ==> {
                &&& v == nearest(self.units() * 1_000_000_000, one())
                &&& v < 0x1_0000_0000_0000_0000 * 1_000_000_000
            },
    {
        proof {
            lemma_pow2_pos(128);
        }
        let ghost m = self.mantissa as nat;
        if self.scale >= 128 {
            let lift: u32 = self.scale - 128;
            let ghost k = m * pow2(lift as nat);
            proof {
                self.lemma_integer();
                assert((k * one()) * 1_000_000_000 == (k * 1_000_000_000) * one() + 0)
                    by (nonlinear_arith);
                lemma_div_unique(
                    (k * one()) * 1_000_000_000,
                    one(),
                    k * 1_000_000_000,
                    0,
                );
                assert(k * one() >= 0x1_0000_0000_0000_0000 * one() <==> k
                    >= 0x1_0000_0000_0000_0000) by (nonlinear_arith)
                    requires
                        one() > 0,
                ;
            }
            match lift_u64(self.mantissa, lift) {
                Some(v) => Some((v as u128) * 1_000_000_000),
                None => None,
            }
        } else {
            let t: u32 = 128 - self.scale;
            let wide: u128 = (self.mantissa as u128) * 1_000_000_000;
            let (q, inexact) = scale_down(wide, t - 1);
            let total: u128 = q / 2;
            let up: bool = q % 2 == 1 && (inexact || total % 2 == 1);
            proof {
                let n = wide as nat;
                let h = pow2((t - 1) as nat);
                let p = pow2(self.scale as nat);
                lemma_pow2_pos((t - 1) as nat);
                lemma_pow2_pos(self.scale as nat);
                lemma_pow2_unfold(t as nat);
                lemma_pow2_adds(t as nat, self.scale as nat);
                assert(self.units() * 1_000_000_000 == n * p) by (nonlinear_arith)
                    requires
                        self.units() == m * p,
                        n == m * 1_000_000_000,
                ;
                lemma_nearest_cancel(n, 2 * h, p);
                lemma_halve(n, h);
                lemma_div_parts(n, h);
                let b = q as nat % 2;
                assert(b * h == if b == 1 { h } else { 0 }) by (nonlinear_arith)
                    requires
                        b == 0 || b == 1,
                ;
                assert(q <= n) by {
                    vstd::arithmetic::div_mod::lemma_div_nonincreasing(n as int, h as int);
                }
                assert(self.units() < 0x1_0000_0000_0000_0000 * one()) by (nonlinear_arith)
                    requires
                        self.units() == m * p,
                        m <= 0x20_0000_0000_0000,
                        one() == (2 * h) * p,
                        h >= 1,
                        p >= 1,
                ;
            }
            if up {
                Some(total + 1)
            } else {
                Some(total)
            }
        }
    }
}

/// `m * 2^s`, where that fits.
fn lift_u64(m: u64, s: u32) -> (r: Option<u64>)
    ensures
        r is None <==> m as nat * pow2(s as nat) > u64::MAX,
        r matches Some(v) ==> v == m as nat * pow2(s as nat),
{
    let mut v: u64 = m;
    let mut i: u32 = 0;
    proof {
        lemma_pow2_zero();
        assert(m as nat * pow2(0) == m as nat) by (nonlinear_arith)
            requires
                pow2(0) == 1,
        ;
    }
    while i < s
        invariant
            i <= s,
            v == m as nat * pow2(i as nat),
        decreases s - i,
    {
        proof {
            lemma_pow2_unfold((i + 1) as nat);
            assert(m as nat * pow2((i + 1) as nat) == 2 * v) by (nonlinear_arith)
                requires
                    v == m as nat * pow2(i as nat),
                    pow2((i + 1) as nat) == 2 * pow2(i as nat),
            ;
        }
        if v > u64::MAX / 2 {
            proof {
                let k = (s - (i + 1)) as nat;
                lemma_pow2_pos(k);
                lemma_pow2_adds((i + 1) as nat, k);
                assert(2 * v <= m as nat * pow2(s as nat)) by (nonlinear_arith)
                    requires
                        2 * v == m as nat * pow2((i + 1) as nat),
                        pow2(s as nat) == pow2((i + 1) as nat) * pow2(k),
                        pow2(k) >= 1,
                ;
            }
            return None;
        }
        v = v * 2;
        i = i + 1;
    }
    Some(v)
}

/// `m` with the binary point `e` bits to the left.
pub open spec fn shifted(m: nat, e: nat) -> nat {
    m * pow2(e)
}

/// Whether `v` units are a binary64 number: 53 significant bits at most.
pub open spec fn is_double(v: nat) -> bool {
    exists|m: nat, e: nat| m < 0x20_0000_0000_0000 && v == #[trigger] shifted(m, e)
}

/// How far two numbers are apart.
pub open spec fn distance(a: nat, b: nat) -> nat {
    if a >= b {
        (a - b) as nat
    } else {
        (b - a) as nat
    }
}

/// Whether `v` units are the binary64 number nearest to `n / d` units: no other
/// is nearer, and of two that are as near, `v` is the one that is an even
/// multiple of what lies between them.
pub open spec fn is_nearest_double(n: nat, d: nat, v: nat) -> bool {
    &&& is_double(v)
    &&& forall|w: nat| #[trigger]
        is_double(w) && w != v ==> {
            &&& distance(v * d, n) <= distance(w * d, n)
            &&& distance(v * d, n) == distance(w * d, n) ==> v % (2 * distance(v, w)) == 0
        }
}

/// No other multiple of `d` is nearer to `n`, and one that is as near is next to
/// an even one.
proof fn lemma_nearest_is_nearest(n: nat, d: nat, j: nat)
    requires
        d > 0,
        j != nearest(n, d),
    ensures
        distance(nearest(n, d) * d, n) <= distance(j * d, n),
        distance(nearest(n, d) * d, n) == distance(j * d, n) ==> distance(nearest(n, d), j) == 1
            && nearest(n, d) % 2 == 0,
{
    lemma_div_parts(n, d);
    let q = n / d;
    let r = n % d;
    let a = nearest(n, d);
    assert((q + 1) * d == q * d + d) by (nonlinear_arith);
    if j < q {
        assert(j * d + d <= q * d) by (nonlinear_arith)
            requires
                j + 1 <= q,
                d > 0,
        ;
        if j + 1 < q {
            assert(j * d + 2 * d <= q * d) by (nonlinear_arith)
                requires
                    j + 2 <= q,
                    d > 0,
            ;
        }
    } else if j > q + 1 {
        assert(j * d >= q * d + 2 * d) by (nonlinear_arith)
            requires
                j >= q + 2,
                d > 0,
        ;
    }
}

/// What rounding gives is a binary64 number.
proof fn lemma_round53_is_double(n: nat, d: nat)
    requires
        d > 0,
    ensures
        is_double(round53(n, d)),
{
    let v = n / d;
    let u = spacing(v);
    let k = lemma_spacing_is_pow2(v);
    lemma_spacing_bounds(v);
    lemma_div_parts(n, d);
    let step = d * u;
    assert(step > 0) by (nonlinear_arith)
        requires
            d > 0,
            u > 0,
            step == d * u,
    ;
    let q = nearest(n, step);
    assert(n < 0x20_0000_0000_0000 * step) by (nonlinear_arith)
        requires
            n == v * d + n % d,
            n % d < d,
            v + 1 <= 0x20_0000_0000_0000 * u,
            step == d * u,
            d > 0,
    ;
    lemma_div_parts(n, step);
    assert(n / step < 0x20_0000_0000_0000) by (nonlinear_arith)
        requires
            n == (n / step) * step + n % step,
            n % step >= 0,
            n < 0x20_0000_0000_0000 * step,
            step > 0,
    ;
    assert(u * q == q * u) by (nonlinear_arith);
    if q < 0x20_0000_0000_0000 {
        assert(round53(n, d) == shifted(q, k));
    } else {
        vstd::arithmetic::power2::lemma2_to64();
        vstd::arithmetic::power2::lemma2_to64_rest();
        lemma_pow2_adds(53, k);
        assert(round53(n, d) == shifted(1, 53 + k));
    }
}

/// No other binary64 number is nearer, and one that is as near is next to an even
/// multiple of what lies between.
#[verifier::spinoff_prover]
proof fn lemma_round53_beats(n: nat, d: nat, w: nat)
    requires
        d > 0,
        is_double(w),
        w != round53(n, d),
    ensures
        distance(round53(n, d) * d, n) <= distance(w * d, n),
        distance(round53(n, d) * d, n) == distance(w * d, n) ==> round53(n, d) % (2 * distance(
            round53(n, d),
            w,
        )) == 0,
{
    let v = n / d;
    let u = spacing(v);
    let k = lemma_spacing_is_pow2(v);
    lemma_spacing_bounds(v);
    lemma_div_parts(n, d);
    let step = d * u;
    assert(step > 0) by (nonlinear_arith)
        requires
            d > 0,
            u > 0,
            step == d * u,
    ;
    let q = nearest(n, step);
    let r = round53(n, d);
    assert(r * d == q * step) by (nonlinear_arith)
        requires
            r == u * q,
            step == d * u,
    ;
    let (m, e) = choose|m: nat, e: nat| m < 0x20_0000_0000_0000 && w == #[trigger] shifted(m, e);
    if e >= k {
        let rest = (e - k) as nat;
        lemma_pow2_adds(rest, k);
        let j = m * pow2(rest);
        assert(w == j * u) by (nonlinear_arith)
            requires
                w == m * pow2(e),
                pow2(e) == pow2(rest) * pow2(k),
                u == pow2(k),
                j == m * pow2(rest),
        ;
        assert(w * d == j * step) by (nonlinear_arith)
            requires
                w == j * u,
                step == d * u,
        ;
        assert(u * q == q * u) by (nonlinear_arith);
        assert(j != q);
        lemma_nearest_is_nearest(n, step, j);
        if distance(r * d, n) == distance(w * d, n) {
            let half = q / 2;
            assert(q == 2 * half);
            assert(distance(r, w) == u) by (nonlinear_arith)
                requires
                    r == u * q,
                    w == j * u,
                    q == j + 1 || j == q + 1,
                    distance(r, w) == if r >= w {
                        r - w
                    } else {
                        w - r
                    },
                    u > 0,
            ;
            assert(r == half * (2 * u)) by (nonlinear_arith)
                requires
                    r == u * q,
                    q == 2 * half,
            ;
            lemma_div_unique(r, 2 * u, half, 0);
        }
    } else {
        // Finer than the spacing, so in a lower binade than the quotient.
        let rest = (k - 1 - e) as nat;
        lemma_pow2_unfold(k);
        lemma_pow2_adds(rest, e);
        lemma_pow2_pos(rest);
        lemma_pow2_pos(e);
        assert(pow2(e) <= pow2((k - 1) as nat)) by (nonlinear_arith)
            requires
                pow2((k - 1) as nat) == pow2(rest) * pow2(e),
                pow2(rest) >= 1,
                pow2(e) >= 0,
        ;
        let b: nat = 0x10_0000_0000_0000;
        assert(w < b * u) by (nonlinear_arith)
            requires
                w == m * pow2(e),
                m < 2 * b,
                0 < pow2(e),
                2 * pow2(e) <= u,
                b > 0,
        ;
        assert(v >= b * u);
        assert(b * step <= n && w * d < b * step) by (nonlinear_arith)
            requires
                v >= b * u,
                n >= v * d,
                w < b * u,
                step == d * u,
                d > 0,
        ;
        if b != q {
            lemma_nearest_is_nearest(n, step, b);
        }
    }
}

/// Rounding gives the binary64 number nearest to the quotient, and there is just
/// one that is.
pub(crate) proof fn lemma_round53_is_nearest(n: nat, d: nat, v: nat)
    requires
        d > 0,
    ensures
        is_nearest_double(n, d, v) <==> v == round53(n, d),
{
    let r = round53(n, d);
    lemma_round53_is_double(n, d);
    assert forall|w: nat| #[trigger] is_double(w) && w != r implies {
        &&& distance(r * d, n) <= distance(w * d, n)
        &&& distance(r * d, n) == distance(w * d, n) ==> r % (2 * distance(r, w)) == 0
    } by {
        lemma_round53_beats(n, d, w);
    }
    if is_nearest_double(n, d, v) && v != r {
        let g = distance(v, r);
        assert(distance(r, v) == g && g > 0);
        lemma_div_parts(v, 2 * g);
        lemma_div_parts(r, 2 * g);
        let a = v / (2 * g);
        let b = r / (2 * g);
        assert(v == a * (2 * g) && r == b * (2 * g));
        assert(false) by (nonlinear_arith)
            requires
                v == a * (2 * g),
                r == b * (2 * g),
                v == r + g || r == v + g,
                g > 0,
        ;
    }
}

/// The integer nearest to a quotient is off by half at most, and even where that
/// leaves two.
pub(crate) proof fn lemma_nearest_by_distance(n: nat, d: nat)
    requires
        d > 0,
    ensures
        2 * distance(nearest(n, d) * d, n) <= d,
        2 * distance(nearest(n, d) * d, n) == d ==> nearest(n, d) % 2 == 0,
{
    lemma_div_parts(n, d);
    let q = n / d;
    assert((q + 1) * d == q * d + d) by (nonlinear_arith);
}

} // verus!
