//! Spans of time, and the samples and frames that fit them.

use crate::double::{
    distance, half_up, is_nearest_double, lemma_half_up, lemma_half_up_exact, lemma_half_up_grows,
    lemma_nearest_by_distance, lemma_nearest_error, lemma_nearest_exact, lemma_one,
    lemma_round53_again, lemma_round53_cancel, lemma_round53_error, lemma_round53_exact,
    lemma_round53_grows, lemma_round53_is_nearest, lemma_round53_zero, lemma_spacing_bounds,
    lemma_whole_absorbs, lemma_whole_exact, nearest, one, round53, spacing, whole_units, Double,
};
use vstd::arithmetic::power2::pow2;
use vstd::prelude::*;

verus! {

/// A span of time: whole seconds and the nanoseconds past them.
#[derive(Clone, Copy, Debug, PartialEq, Eq, Structural)]
pub struct Span {
    pub secs: u64,
    pub nanos: u32,
}

impl View for Span {
    type V = nat;

    /// The whole span in nanoseconds.
    open spec fn view(&self) -> nat {
        self.secs as nat * 1_000_000_000 + self.nanos as nat
    }
}

/// The nanoseconds that no span reaches.
pub open spec fn span_limit() -> nat {
    0x1_0000_0000_0000_0000 * 1_000_000_000
}

impl Span {
    /// The nanoseconds past the last whole second are less than a second.
    pub open spec fn wf(self) -> bool {
        self.nanos < 1_000_000_000
    }

    /// The span of `millis` milliseconds.
    pub fn from_millis(millis: u64) -> (r: Span)
        ensures
            r.wf(),
            r == (Span {
                secs: millis / 1000,
                nanos: ((millis % 1000) * 1_000_000) as u32,
            }),
            r@ == millis as nat * 1_000_000,
    {
        Span { secs: millis / 1000, nanos: ((millis % 1000) as u32) * 1_000_000 }
    }

    /// The span of `nanos` nanoseconds.
    fn from_nanos(nanos: u128) -> (r: Span)
        requires
            nanos < span_limit(),
        ensures
            r.wf(),
            r@ == nanos,
    {
        Span { secs: (nanos / 1_000_000_000) as u64, nanos: (nanos % 1_000_000_000) as u32 }
    }

    /// The whole span in nanoseconds.
    fn total(self) -> (r: u128)
        requires
            self.wf(),
        ensures
            r == self@,
            r < span_limit(),
    {
        (self.secs as u128) * 1_000_000_000 + (self.nanos as u128)
    }

    /// The two spans one after the other. Their sum has to be a span.
    pub fn plus(self, other: Span) -> (r: Span)
        requires
            self.wf(),
            other.wf(),
            self@ + other@ < span_limit(),
        ensures
            r.wf(),
            r@ == self@ + other@,
    {
        Span::from_nanos(self.total() + other.total())
    }

    /// What is left of the span after `other`, nothing if `other` is longer.
    pub fn saturating_sub(self, other: Span) -> (r: Span)
        requires
            self.wf(),
            other.wf(),
        ensures
            r.wf(),
            r@ == if self@ >= other@ {
                (self@ - other@) as nat
            } else {
                0
            },
    {
        let a: u128 = self.total();
        let b: u128 = other.total();
        if a >= b {
            Span::from_nanos(a - b)
        } else {
            Span { secs: 0, nanos: 0 }
        }
    }
}

/// The span in seconds as a binary64 number, in units: the seconds and the
/// fraction are each rounded, and so is their sum.
pub open spec fn seconds_units(span: Span) -> nat {
    round53(
        whole_units(span.secs as nat) + round53(span.nanos as nat * one(), 1_000_000_000),
        1,
    )
}

/// The steps that a clock of `rate` steps a second takes in `span`: the binary64
/// product, rounded to the nearest integer.
pub open spec fn step_count(span: Span, rate: nat) -> nat {
    half_up(round53(seconds_units(span) * whole_units(rate), one()))
}

/// `n`, or `max` if that is less.
pub open spec fn at_most(n: nat, max: nat) -> nat {
    if n <= max {
        n
    } else {
        max
    }
}

/// The samples that fit in `span` at `lane` samples a second.
pub fn samples(span: Span, lane: u64) -> (r: u64)
    requires
        span.wf(),
    ensures
        r == at_most(step_count(span, lane as nat), u64::MAX as nat),
        step_count(span, lane as nat) <= u64::MAX ==> r == step_count(span, lane as nat),
        step_count(span, lane as nat) > u64::MAX ==> r == u64::MAX,
{
    let secs = Double::whole(span.secs);
    let fraction = Double::fraction(span.nanos, 1_000_000_000);
    let seconds = secs.plus(fraction);
    seconds.times(Double::whole(lane)).rounded()
}

/// The frames that fit in `span` at `rate` frames a second.
pub fn frames(span: Span, rate: u32) -> (r: u32)
    requires
        span.wf(),
    ensures
        r == at_most(step_count(span, rate as nat), u32::MAX as nat),
        step_count(span, rate as nat) <= u32::MAX ==> r == step_count(span, rate as nat),
        step_count(span, rate as nat) > u32::MAX ==> r == u32::MAX,
{
    let n: u64 = samples(span, rate as u64);
    if n <= u32::MAX as u64 {
        n as u32
    } else {
        u32::MAX
    }
}

/// The seconds that `samples` samples take at `lane` samples a second, as a
/// binary64 number in units.
pub open spec fn playtime_units(samples: nat, lane: nat) -> nat {
    round53(whole_units(samples) * one(), whole_units(lane))
}

/// Whether that number of seconds is short enough for a span.
pub open spec fn has_playtime(samples: nat, lane: nat) -> bool {
    playtime_units(samples, lane) < 0x1_0000_0000_0000_0000 * one()
}

/// The nanoseconds that `samples` samples take at `lane` samples a second.
pub open spec fn playtime_nanos(samples: nat, lane: nat) -> nat {
    nearest(playtime_units(samples, lane) * 1_000_000_000, one())
}

/// The time that `samples` samples take at `lane` samples a second, if it is
/// short enough for a span.
pub fn playtime(samples: u64, lane: u64) -> (r: Option<Span>)
    requires
        0 < lane < 0x1_0000_0000_0000,
    ensures
        r is Some <==> has_playtime(samples as nat, lane as nat),
        r matches Some(span) ==> span.wf() && span@ == playtime_nanos(
            samples as nat,
            lane as nat,
        ),
{
    match Double::whole(samples).over(lane).nanos() {
        Some(nanos) => Some(Span::from_nanos(nanos)),
        None => None,
    }
}

/// The part of a span past its whole seconds, in units.
spec fn fraction_units(nanos: nat) -> nat {
    round53(nanos * one(), 1_000_000_000)
}

/// The fraction is off by 2^-53 at most, and stays below one.
proof fn lemma_fraction(nanos: nat)
    requires
        nanos < 1_000_000_000,
    ensures
        fraction_units(nanos) < one(),
        fraction_units(nanos) * 1_000_000_000 <= nanos * one() + 1_000_000_000
            * 0x800_0000_0000_0000_0000,
        nanos * one() <= fraction_units(nanos) * 1_000_000_000 + 1_000_000_000
            * 0x800_0000_0000_0000_0000,
{
    let n = nanos * one();
    let v = n / 1_000_000_000;
    lemma_one();
    lemma_round53_error(n, 1_000_000_000);
    lemma_spacing_bounds(v);
    assert(spacing(v) < 0x1000_0000_0000_0000_0000);
}

/// A longer span is not fewer seconds.
#[verifier::spinoff_prover]
proof fn lemma_seconds_grow(a: Span, b: Span)
    requires
        a.wf(),
        b.wf(),
        a@ <= b@,
    ensures
        seconds_units(a) <= seconds_units(b),
{
    let wa = whole_units(a.secs as nat);
    let wb = whole_units(b.secs as nat);
    let fa = fraction_units(a.nanos as nat);
    let fb = fraction_units(b.nanos as nat);
    lemma_one();
    lemma_fraction(a.nanos as nat);
    if a.secs == b.secs {
        lemma_round53_grows(a.nanos as nat * one(), b.nanos as nat * one(), 1_000_000_000);
        lemma_round53_grows(wa + fa, wb + fb, 1);
    } else if a.secs < 0x20_0000_0000_0000 {
        let next = a.secs as nat + 1;
        lemma_whole_exact(a.secs as nat);
        lemma_whole_exact(next);
        lemma_round53_grows(next * one(), b.secs as nat * one(), 1);
        lemma_round53_grows(wa + fa, wb + fb, 1);
    } else {
        lemma_whole_absorbs(a.secs as nat, fa);
        lemma_round53_grows(a.secs as nat * one(), b.secs as nat * one(), 1);
        lemma_round53_again(b.secs as nat * one(), 1);
        lemma_round53_grows(wb, wb + fb, 1);
    }
}

/// A longer span takes as many steps or more.
pub proof fn law_longer_takes_more(a: Span, b: Span, rate: nat)
    requires
        a.wf(),
        b.wf(),
        a@ <= b@,
    ensures
        step_count(a, rate) <= step_count(b, rate),
{
    lemma_seconds_grow(a, b);
    lemma_one();
    let p = seconds_units(a);
    let q = seconds_units(b);
    let w = whole_units(rate);
    assert(p * w <= q * w) by (nonlinear_arith)
        requires
            p <= q,
            w >= 0,
    ;
    lemma_round53_grows(p * w, q * w, one());
    lemma_half_up_grows(round53(p * w, one()), round53(q * w, one()));
}

/// Whole seconds are counted exactly, and the samples of whole seconds are
/// timed exactly, as long as there are no more than 2^53 of them.
#[verifier::spinoff_prover]
pub proof fn law_whole_seconds(secs: u64, lane: nat)
    requires
        0 < lane <= 0x20_0000_0000_0000,
        secs * lane <= 0x20_0000_0000_0000,
    ensures
        step_count((Span { secs, nanos: 0 }), lane) == secs * lane,
        has_playtime((secs * lane) as nat, lane),
        playtime_nanos((secs * lane) as nat, lane) == secs * 1_000_000_000,
{
    let s = secs as nat;
    let n = s * lane;
    let o = one();
    lemma_one();
    assert(s <= n) by (nonlinear_arith)
        requires
            n == s * lane,
            lane >= 1,
    ;
    lemma_whole_exact(s);
    lemma_whole_exact(lane);
    lemma_whole_exact(n);
    lemma_round53_again(s * o, 1);
    lemma_round53_zero(1_000_000_000);
    assert(fraction_units(0) == 0);
    assert(seconds_units(Span { secs, nanos: 0 }) == s * o);
    assert((s * o) * (lane * o) == (n * o) * o) by (nonlinear_arith)
        requires
            n == s * lane,
    ;
    lemma_round53_cancel(n * o, 1, o);
    assert(1 * o == o);
    lemma_half_up_exact(n);
    assert(lane * o > 0);
    assert(1 * (lane * o) == lane * o);
    lemma_round53_cancel(s * o, 1, lane * o);
    assert(playtime_units(n, lane) == s * o);
    lemma_nearest_exact(s * 1_000_000_000, o);
    assert((s * o) * 1_000_000_000 == (s * 1_000_000_000) * o) by (nonlinear_arith);
}

/// A rounded number is off by one part in 2^53 of itself at most, or by half a
/// unit.
proof fn lemma_relative_error(n: nat)
    ensures
        0x20_0000_0000_0000 * round53(n, 1) <= 0x20_0000_0000_0000 * n + n + 0x10_0000_0000_0000,
        0x20_0000_0000_0000 * n <= 0x20_0000_0000_0000 * round53(n, 1) + n + 0x10_0000_0000_0000,
{
    assert(n / 1 == n);
    lemma_round53_error(n, 1);
    lemma_spacing_bounds(n);
}

/// A bound on how far two numbers are apart holds for their products with a
/// third, taken as often.
proof fn lemma_scale_bound(a: nat, b: nat, p: nat, q: nat, e: nat, k: nat)
    requires
        p * a <= q * b + e,
    ensures
        p * (a * k) <= q * (b * k) + e * k,
{
    assert(p * (a * k) <= q * (b * k) + e * k) by (nonlinear_arith)
        requires
            p * a <= q * b + e,
            k >= 0,
    ;
}

/// The errors of the roundings add up to less than one sample.
#[verifier::spinoff_prover]
proof fn lemma_errors_add_up(x: nat, y: nat, z: nat, p: nat, c: nat, lane: nat, o: nat)
    requires
        o == 0x1_0000_0000_0000_0000_0000_0000_0000_0000,
        lane < 0x1_0000_0000_0000,
        z < 0x4_0000_0000_0000 * 1_000_000_000,
        1_000_000_000 * y <= o * z + 1_000_000_000 * (0x800_0000_0000_0000_0000 * lane),
        o * z <= 1_000_000_000 * y + 1_000_000_000 * (0x800_0000_0000_0000_0000 * lane),
        0x20_0000_0000_0000 * x <= 0x20_0000_0000_0001 * y + 0x10_0000_0000_0000 * lane,
        0x1f_ffff_ffff_ffff * y <= 0x20_0000_0000_0000 * x + 0x10_0000_0000_0000 * lane,
        0x20_0000_0000_0000 * p <= 0x20_0000_0000_0001 * x + 0x10_0000_0000_0000,
        0x1f_ffff_ffff_ffff * x <= 0x20_0000_0000_0000 * p + 0x10_0000_0000_0000,
        c * (2 * o) <= 2 * p + o,
        2 * p < c * (2 * o) + o,
    ensures
        c * 1_000_000_000 < z + 1_000_000_000,
        z < c * 1_000_000_000 + 1_000_000_000,
{
    assert(o * z == 0x1_0000_0000_0000_0000_0000_0000_0000_0000 * z) by (nonlinear_arith)
        requires
            o == 0x1_0000_0000_0000_0000_0000_0000_0000_0000,
    ;
    assert(c * (2 * o) == 0x2_0000_0000_0000_0000_0000_0000_0000_0000 * c) by (nonlinear_arith)
        requires
            o == 0x1_0000_0000_0000_0000_0000_0000_0000_0000,
    ;
    let zo = 0x1_0000_0000_0000_0000_0000_0000_0000_0000 * z;
    // 2^123, from the rounding of the fraction.
    let far: nat = 0x800_0000_0000_0000_0000_0000_0000_0000;
    assert(1_000_000_000 * y <= zo + 1_000_000_000 * far);
    assert(zo <= 1_000_000_000 * y + 1_000_000_000 * far);
    // 2^125 and a little, from the rounding of the sum.
    let near: nat = 0x2000_0000_0000_0100_0000_0000_0000_0000;
    assert(y <= 0x4_0000_0000_0000_0800_0000_0000_0000_0000_0000_0000_0000);
    assert(x <= y + near && y <= x + near);
    // 2^125 and a little more, from the rounding of the product.
    let close: nat = 0x2000_0000_0000_0800_0000_0000_0000_0000;
    assert(x <= 0x4_0000_0000_0000_4000_0000_0000_0000_0000_0000_0000_0000);
    assert(p <= x + close && x <= p + close);
    // 2^127, from the rounding to an integer.
    let half: nat = 0x8000_0000_0000_0000_0000_0000_0000_0000;
    let co = 0x1_0000_0000_0000_0000_0000_0000_0000_0000 * c;
    assert(co <= p + half && p <= co + half);
    assert(1_000_000_000 * co <= zo + 1_000_000_000 * (far + near + close + half));
    assert(zo <= 1_000_000_000 * co + 1_000_000_000 * (far + near + close + half));
}

/// How far off the roundings of a count are: `y` is the product of the seconds
/// and the lane before the seconds' last rounding, `x` the one after it, and `p`
/// the product's own rounding.
#[verifier::spinoff_prover]
proof fn lemma_count_errors(span: Span, lane: nat) -> (r: (nat, nat, nat))
    requires
        span.wf(),
        0 < lane < 0x1_0000_0000_0000,
        span.secs <= 0x20_0000_0000_0000,
    ensures
        ({
            let (x, y, p) = r;
            let z = span@ * lane;
            let c = step_count(span, lane);
            let o = one();
            &&& 1_000_000_000 * y <= o * z + 1_000_000_000 * (0x800_0000_0000_0000_0000 * lane)
            &&& o * z <= 1_000_000_000 * y + 1_000_000_000 * (0x800_0000_0000_0000_0000 * lane)
            &&& 0x20_0000_0000_0000 * x <= 0x20_0000_0000_0001 * y + 0x10_0000_0000_0000 * lane
            &&& 0x1f_ffff_ffff_ffff * y <= 0x20_0000_0000_0000 * x + 0x10_0000_0000_0000 * lane
            &&& 0x20_0000_0000_0000 * p <= 0x20_0000_0000_0001 * x + 0x10_0000_0000_0000
            &&& 0x1f_ffff_ffff_ffff * x <= 0x20_0000_0000_0000 * p + 0x10_0000_0000_0000
            &&& c * (2 * o) <= 2 * p + o
            &&& 2 * p < c * (2 * o) + o
        }),
{
    let o = one();
    let s = span.secs as nat;
    let f = fraction_units(span.nanos as nat);
    lemma_one();
    lemma_whole_exact(s);
    lemma_whole_exact(lane);
    lemma_fraction(span.nanos as nat);
    // The seconds before and after their last rounding.
    let t = s * o + f;
    let d = seconds_units(span);
    lemma_relative_error(t);
    // The product before and after its rounding.
    let x = d * lane;
    let y = t * lane;
    assert(d * (lane * o) == x * o) by (nonlinear_arith)
        requires
            x == d * lane,
    ;
    lemma_round53_cancel(x, 1, o);
    assert(1 * o == o);
    let p = round53(x, 1);
    lemma_relative_error(x);
    lemma_half_up(p);
    let e: nat = 1_000_000_000 * 0x800_0000_0000_0000_0000;
    lemma_scale_bound(d, t, 0x20_0000_0000_0000, 0x20_0000_0000_0001, 0x10_0000_0000_0000, lane);
    lemma_scale_bound(t, d, 0x1f_ffff_ffff_ffff, 0x20_0000_0000_0000, 0x10_0000_0000_0000, lane);
    lemma_scale_bound(t, span@, 1_000_000_000, o, e, lane);
    lemma_scale_bound(span@, t, o, 1_000_000_000, e, lane);
    assert(e * lane == 1_000_000_000 * (0x800_0000_0000_0000_0000 * lane)) by (nonlinear_arith)
        requires
            e == 1_000_000_000 * 0x800_0000_0000_0000_0000,
    ;
    (x, y, p)
}

/// Under 2^50 samples, the count is less than one sample off.
#[verifier::spinoff_prover]
pub proof fn law_within_a_sample(span: Span, lane: nat)
    requires
        span.wf(),
        0 < lane < 0x1_0000_0000_0000,
        span@ * lane < 0x4_0000_0000_0000 * 1_000_000_000,
    ensures
        step_count(span, lane) * 1_000_000_000 < span@ * lane + 1_000_000_000,
        span@ * lane < step_count(span, lane) * 1_000_000_000 + 1_000_000_000,
{
    lemma_one();
    assert(span@ <= span@ * lane) by (nonlinear_arith)
        requires
            lane >= 1,
            span@ >= 0,
    ;
    let (x, y, p) = lemma_count_errors(span, lane);
    lemma_errors_add_up(x, y, span@ * lane, p, step_count(span, lane), lane, one());
}

/// The errors of the roundings add up to less than one nanosecond.
#[verifier::spinoff_prover]
proof fn lemma_nanos_add_up(n: nat, lane: nat, a: nat, b: nat, o: nat)
    requires
        o == 0x1_0000_0000_0000_0000_0000_0000_0000_0000,
        0 < lane,
        n < 0x10_0000 * lane,
        // `a`: `lane` times the seconds; `b`: `lane` times the nanoseconds.
        0x20_0000_0000_0000 * a <= 0x20_0000_0000_0001 * (n * o) + 0x10_0000_0000_0000 * lane,
        0x1f_ffff_ffff_ffff * (n * o) <= 0x20_0000_0000_0000 * a + 0x10_0000_0000_0000 * lane,
        2 * (b * o) <= 2 * (a * 1_000_000_000) + o * lane,
        2 * (a * 1_000_000_000) <= 2 * (b * o) + o * lane,
    ensures
        b < n * 1_000_000_000 + lane,
        n * 1_000_000_000 < b + lane,
{
    assert(n * o == 0x1_0000_0000_0000_0000_0000_0000_0000_0000 * n && o * lane
        == 0x1_0000_0000_0000_0000_0000_0000_0000_0000 * lane && b * o
        == 0x1_0000_0000_0000_0000_0000_0000_0000_0000 * b) by (nonlinear_arith)
        requires
            o == 0x1_0000_0000_0000_0000_0000_0000_0000_0000,
    ;
    // Off by 2^96 units at most for every sample a second: 2^-32 seconds.
    let no = 0x1_0000_0000_0000_0000_0000_0000_0000_0000 * n;
    assert(a <= no + 0x1_0000_0000_0000_0000_0000_0000 * lane);
    assert(no <= a + 0x1_0000_0000_0000_0000_0000_0000 * lane);
}

/// How far off the roundings of a time are: `w` is the number of samples once
/// rounded, and `a` the seconds, taken `lane` times.
#[verifier::spinoff_prover]
proof fn lemma_playtime_errors(samples: nat, lane: nat) -> (r: (nat, nat))
    requires
        0 < lane < 0x1_0000_0000_0000,
    ensures
        ({
            let (w, a) = r;
            let b = playtime_nanos(samples, lane) * lane;
            let o = one();
            &&& w == whole_units(samples)
            &&& 0x20_0000_0000_0000 * w <= 0x20_0000_0000_0001 * (samples * o)
                + 0x10_0000_0000_0000
            &&& 0x1f_ffff_ffff_ffff * (samples * o) <= 0x20_0000_0000_0000 * w
                + 0x10_0000_0000_0000
            &&& 0x20_0000_0000_0000 * a <= 0x20_0000_0000_0001 * w + 0x10_0000_0000_0000 * lane
            &&& 0x1f_ffff_ffff_ffff * w <= 0x20_0000_0000_0000 * a + 0x10_0000_0000_0000 * lane
            &&& 2 * (b * o) <= 2 * (a * 1_000_000_000) + o * lane
            &&& 2 * (a * 1_000_000_000) <= 2 * (b * o) + o * lane
        }),
{
    let o = one();
    let w = whole_units(samples);
    lemma_one();
    lemma_relative_error(samples * o);
    lemma_whole_exact(lane);
    lemma_round53_cancel(w, lane, o);
    let d = playtime_units(samples, lane);
    let m = playtime_nanos(samples, lane);
    assert(d == round53(w, lane));
    lemma_round53_error(w, lane);
    let v = w / lane;
    lemma_spacing_bounds(v);
    let u = spacing(v);
    let a = d * lane;
    assert(v * lane <= w) by {
        vstd::arithmetic::div_mod::lemma_fundamental_div_mod(w as int, lane as int);
        assert(lane * v == v * lane) by (nonlinear_arith);
    }
    // The spacing is 2^-52 of the number at most, or one unit.
    assert(0x10_0000_0000_0000 * (lane * u) <= w + 0x10_0000_0000_0000 * lane)
        by (nonlinear_arith)
        requires
            v * lane <= w,
            u == 1 || v >= 0x10_0000_0000_0000 * u,
            lane > 0,
            w >= 0,
    ;
    lemma_nearest_error(d * 1_000_000_000, o);
    let b = m * lane;
    lemma_scale_bound(m * o, d * 1_000_000_000, 2, 2, o, lane);
    lemma_scale_bound(d * 1_000_000_000, m * o, 2, 2, o, lane);
    assert((m * o) * lane == b * o && (d * 1_000_000_000) * lane == a * 1_000_000_000)
        by (nonlinear_arith)
        requires
            b == m * lane,
            a == d * lane,
    ;
    (w, a)
}

/// Up to 2^20 seconds, the time of some samples is less than a nanosecond off.
#[verifier::spinoff_prover]
pub proof fn law_playtime_within_a_nanosecond(samples: nat, lane: nat)
    requires
        0 < lane < 0x1_0000_0000_0000,
        samples <= 0x20_0000_0000_0000,
        samples < 0x10_0000 * lane,
    ensures
        playtime_nanos(samples, lane) * lane < samples * 1_000_000_000 + lane,
        samples * 1_000_000_000 < playtime_nanos(samples, lane) * lane + lane,
{
    lemma_one();
    lemma_whole_exact(samples);
    let (w, a) = lemma_playtime_errors(samples, lane);
    lemma_nanos_add_up(samples, lane, a, playtime_nanos(samples, lane) * lane, one());
}

/// Samples in more than one channel, or at more than one a second, always take
/// a time that is short enough for a span, and so do 2^63 samples at any rate.
#[verifier::spinoff_prover]
pub proof fn law_playtime_exists(samples: u64, lane: nat)
    requires
        0 < lane < 0x1_0000_0000_0000,
        lane >= 2 || samples <= 0x8000_0000_0000_0000,
    ensures
        has_playtime(samples as nat, lane),
{
    let o = one();
    lemma_one();
    // What the samples are rounded to at most, the bound being a power of two.
    let most: nat = if lane >= 2 {
        0x1_0000_0000_0000_0000
    } else {
        0x8000_0000_0000_0000
    };
    vstd::arithmetic::power2::lemma2_to64();
    vstd::arithmetic::power2::lemma_pow2_adds(if lane >= 2 { 64 } else { 63 }, 128);
    vstd::arithmetic::power2::lemma2_to64_rest();
    lemma_round53_exact(1, if lane >= 2 { 192 } else { 191 });
    assert(most * o == 1 * pow2(if lane >= 2 { 192 } else { 191 }));
    let w = whole_units(samples as nat);
    lemma_round53_grows(samples as nat * o, most * o, 1);
    assert(w <= most * o);
    lemma_whole_exact(lane);
    lemma_round53_cancel(w, lane, o);
    let d = playtime_units(samples as nat, lane);
    let v = w / lane;
    lemma_round53_error(w, lane);
    lemma_spacing_bounds(v);
    let u = spacing(v);
    assert(v * lane <= w) by {
        vstd::arithmetic::div_mod::lemma_fundamental_div_mod(w as int, lane as int);
        assert(lane * v == v * lane) by (nonlinear_arith);
    }
    assert(v <= 0x8000_0000_0000_0000 * o) by (nonlinear_arith)
        requires
            v * lane <= w,
            w <= most * o,
            (lane >= 2 && most == 0x1_0000_0000_0000_0000) || (lane >= 1 && most
                == 0x8000_0000_0000_0000),
            v >= 0,
            o >= 0,
    ;
    assert(w < (v + 1) * lane) by {
        vstd::arithmetic::div_mod::lemma_fundamental_div_mod(w as int, lane as int);
        assert((v + 1) * lane == lane * v + lane) by (nonlinear_arith);
        assert(w % lane < lane);
    }
    assert(2 * d <= 2 * (v + 1) + u) by (nonlinear_arith)
        requires
            2 * (d * lane) <= 2 * w + lane * u,
            w < (v + 1) * lane,
            lane > 0,
    ;
}

/// The errors of a count and of the time of what was counted add up to half a
/// sample and a nanosecond at most.
#[verifier::spinoff_prover]
proof fn lemma_round_trip_adds_up(
    x: nat,
    y: nat,
    z: nat,
    p: nat,
    c: nat,
    w: nat,
    a: nat,
    b: nat,
    lane: nat,
    o: nat,
)
    requires
        o == 0x1_0000_0000_0000_0000_0000_0000_0000_0000,
        0 < lane,
        z <= 0x8000 * (1_000_000_000 * lane),
        1_000_000_000 * y <= o * z + 1_000_000_000 * (0x800_0000_0000_0000_0000 * lane),
        o * z <= 1_000_000_000 * y + 1_000_000_000 * (0x800_0000_0000_0000_0000 * lane),
        0x20_0000_0000_0000 * x <= 0x20_0000_0000_0001 * y + 0x10_0000_0000_0000 * lane,
        0x1f_ffff_ffff_ffff * y <= 0x20_0000_0000_0000 * x + 0x10_0000_0000_0000 * lane,
        0x20_0000_0000_0000 * p <= 0x20_0000_0000_0001 * x + 0x10_0000_0000_0000,
        0x1f_ffff_ffff_ffff * x <= 0x20_0000_0000_0000 * p + 0x10_0000_0000_0000,
        c * (2 * o) <= 2 * p + o,
        2 * p < c * (2 * o) + o,
        0x20_0000_0000_0000 * w <= 0x20_0000_0000_0001 * (c * o) + 0x10_0000_0000_0000,
        0x1f_ffff_ffff_ffff * (c * o) <= 0x20_0000_0000_0000 * w + 0x10_0000_0000_0000,
        0x20_0000_0000_0000 * a <= 0x20_0000_0000_0001 * w + 0x10_0000_0000_0000 * lane,
        0x1f_ffff_ffff_ffff * w <= 0x20_0000_0000_0000 * a + 0x10_0000_0000_0000 * lane,
        2 * (b * o) <= 2 * (a * 1_000_000_000) + o * lane,
        2 * (a * 1_000_000_000) <= 2 * (b * o) + o * lane,
    ensures
        2 * b <= 2 * z + 1_000_000_000 + 2 * lane,
        2 * z <= 2 * b + 1_000_000_000 + 2 * lane,
        c <= 0x8001 * lane,
{
    assert(o * z == 0x1_0000_0000_0000_0000_0000_0000_0000_0000 * z && c * (2 * o)
        == 0x2_0000_0000_0000_0000_0000_0000_0000_0000 * c && c * o
        == 0x1_0000_0000_0000_0000_0000_0000_0000_0000 * c && b * o
        == 0x1_0000_0000_0000_0000_0000_0000_0000_0000 * b && o * lane
        == 0x1_0000_0000_0000_0000_0000_0000_0000_0000 * lane) by (nonlinear_arith)
        requires
            o == 0x1_0000_0000_0000_0000_0000_0000_0000_0000,
    ;
    let zo = 0x1_0000_0000_0000_0000_0000_0000_0000_0000 * z;
    let co = 0x1_0000_0000_0000_0000_0000_0000_0000_0000 * c;
    let bo = 0x1_0000_0000_0000_0000_0000_0000_0000_0000 * b;
    // Each number is 2^144 units at most for every sample a second, and each of
    // these roundings is off by 2^92 at most: 2^-36 seconds.
    let err = 0x1000_0000_0000_0000_0000_0000 * lane;
    let most = 0x1_0000_0000_0000_0000_0000_0000_0000_0000_0000 * lane;
    assert(y <= most && x <= y + err && y <= x + err);
    assert(x <= 0x8000_1000_0000_0000_0000_0000_0000_0000_0000 * lane);
    assert(x <= most && p <= x + err && x <= p + err);
    assert(p <= 0x8000_2000_0000_0000_0000_0000_0000_0000_0000 * lane);
    let half: nat = 0x8000_0000_0000_0000_0000_0000_0000_0000;
    assert(co <= p + half && p <= co + half);
    assert(co <= 0x8001_0000_0000_0000_0000_0000_0000_0000_0000 * lane);
    assert(co <= most && w <= co + err && co <= w + err);
    assert(w <= 0x8001_1000_0000_0000_0000_0000_0000_0000_0000 * lane);
    assert(w <= most && a <= w + err && w <= a + err);
    assert(1_000_000_000 * a <= zo + 1_000_000_000 * (5 * err + half));
    assert(zo <= 1_000_000_000 * a + 1_000_000_000 * (5 * err + half));
}

/// Up to 2^15 seconds, at every lane, the time of the samples that fit a span
/// is the span, give or take half a sample and a nanosecond.
#[verifier::spinoff_prover]
pub proof fn law_there_and_back(span: Span, lane: nat)
    requires
        span.wf(),
        0 < lane < 0x1_0000_0000_0000,
        span@ <= 0x8000 * 1_000_000_000,
    ensures
        step_count(span, lane) <= u64::MAX,
        has_playtime(step_count(span, lane), lane),
        2 * (playtime_nanos(step_count(span, lane), lane) * lane) <= 2 * (span@ * lane)
            + 1_000_000_000 + 2 * lane,
        2 * (span@ * lane) <= 2 * (playtime_nanos(step_count(span, lane), lane) * lane)
            + 1_000_000_000 + 2 * lane,
{
    let z = span@ * lane;
    let c = step_count(span, lane);
    lemma_one();
    let (x, y, p) = lemma_count_errors(span, lane);
    let (w, a) = lemma_playtime_errors(c, lane);
    assert(z <= 0x8000 * (1_000_000_000 * lane)) by (nonlinear_arith)
        requires
            z == span@ * lane,
            span@ <= 0x8000 * 1_000_000_000,
    ;
    lemma_round_trip_adds_up(
        x,
        y,
        z,
        p,
        c,
        w,
        a,
        playtime_nanos(c, lane) * lane,
        lane,
        one(),
    );
    law_playtime_exists(c as u64, lane);
}

/// The samples for which the errors of a count and of a time add up to less than
/// half a sample: `head` samples that were timed, and `n` more that were counted
/// with them, at `lane` samples a second. Each rounding of a binary64 number is
/// off by 2^-53 of it, and the rounding to nanoseconds by half of one.
pub open spec fn sharp(head: nat, n: nat, lane: nat) -> bool {
    (3 * head + 2 * n + lane + 8) * 1_000_000_000 + 0x10_0000_0000_0000 * lane
        <= 0x10_0000_0000_0000 * 1_000_000_000
}

/// The errors of the time of `h` samples and of the count of it and a time for
/// `n` samples add up to less than a sample.
#[verifier::spinoff_prover]
proof fn lemma_sum_adds_up(
    h: nat,
    n: nat,
    a: nat,
    b: nat,
    x: nat,
    y: nat,
    z: nat,
    p: nat,
    c: nat,
    lane: nat,
    o: nat,
)
    requires
        o == 0x1_0000_0000_0000_0000_0000_0000_0000_0000,
        0 < lane,
        sharp(h, n, lane),
        // `a`: `lane` times the seconds; `b`: `lane` times the nanoseconds.
        0x20_0000_0000_0000 * a <= 0x20_0000_0000_0001 * (h * o) + 0x10_0000_0000_0000 * lane,
        0x1f_ffff_ffff_ffff * (h * o) <= 0x20_0000_0000_0000 * a + 0x10_0000_0000_0000 * lane,
        2 * (b * o) <= 2 * (a * 1_000_000_000) + o * lane,
        2 * (a * 1_000_000_000) <= 2 * (b * o) + o * lane,
        z == n * 1_000_000_000 + b,
        1_000_000_000 * y <= o * z + 1_000_000_000 * (0x800_0000_0000_0000_0000 * lane),
        o * z <= 1_000_000_000 * y + 1_000_000_000 * (0x800_0000_0000_0000_0000 * lane),
        0x20_0000_0000_0000 * x <= 0x20_0000_0000_0001 * y + 0x10_0000_0000_0000 * lane,
        0x1f_ffff_ffff_ffff * y <= 0x20_0000_0000_0000 * x + 0x10_0000_0000_0000 * lane,
        0x20_0000_0000_0000 * p <= 0x20_0000_0000_0001 * x + 0x10_0000_0000_0000,
        0x1f_ffff_ffff_ffff * x <= 0x20_0000_0000_0000 * p + 0x10_0000_0000_0000,
        c * (2 * o) <= 2 * p + o,
        2 * p < c * (2 * o) + o,
    ensures
        c == h + n,
{
    assert(h * o == 0x1_0000_0000_0000_0000_0000_0000_0000_0000 * h && o * lane
        == 0x1_0000_0000_0000_0000_0000_0000_0000_0000 * lane && b * o
        == 0x1_0000_0000_0000_0000_0000_0000_0000_0000 * b && o * z
        == 0x1_0000_0000_0000_0000_0000_0000_0000_0000 * z && c * (2 * o)
        == 0x2_0000_0000_0000_0000_0000_0000_0000_0000 * c) by (nonlinear_arith)
        requires
            o == 0x1_0000_0000_0000_0000_0000_0000_0000_0000,
    ;
    let ho = 0x1_0000_0000_0000_0000_0000_0000_0000_0000 * h;
    let to = 0x1_0000_0000_0000_0000_0000_0000_0000_0000 * (h + n);
    let co = 0x1_0000_0000_0000_0000_0000_0000_0000_0000 * c;
    let lo = 0x1_0000_0000_0000_0000_0000_0000_0000_0000 * lane;
    assert(lane < 1_000_000_000);
    assert(3 * h + 2 * n <= 0x10_0000_0000_0000);
    // The time: off by 2^-53 of itself and half a nanosecond.
    let slip = 0x10_0000_0000_0000 * lane;
    assert(0x20_0000_0000_0000 * a <= 0x20_0000_0000_0000 * ho + ho + slip);
    assert(0x20_0000_0000_0000 * ho <= 0x20_0000_0000_0000 * a + ho + slip);
    // The product before any rounding of a product or a sum.
    let drift = 0x800_0000_0000_0000_0000 * lane;
    assert(2_000_000_000 * y <= 2_000_000_000 * (to - ho) + 2_000_000_000 * a + lo
        + 2_000_000_000 * drift);
    assert(2_000_000_000 * (to - ho) + 2_000_000_000 * a <= 2_000_000_000 * y + lo
        + 2_000_000_000 * drift);
    // It is off by two samples at most.
    assert(a <= ho + o / 2 + 1);
    assert(y <= to + 2 * o);
    assert(x <= to + 3 * o);
    assert(0x20_0000_0000_0000 * x <= 0x20_0000_0000_0000 * y + to + 2 * o + slip);
    assert(0x20_0000_0000_0000 * y <= 0x20_0000_0000_0000 * x + to + 2 * o + slip);
    assert(0x20_0000_0000_0000 * p <= 0x20_0000_0000_0000 * x + to + 3 * o
        + 0x10_0000_0000_0000);
    assert(0x20_0000_0000_0000 * x <= 0x20_0000_0000_0000 * p + to + 3 * o
        + 0x10_0000_0000_0000);
    // The three roundings of numbers.
    let rounding = ho + 2 * to + 5 * o + 2 * slip + 0x10_0000_0000_0000;
    assert(0x20_0000_0000_0000 * (2_000_000_000 * p) <= 0x20_0000_0000_0000 * (2_000_000_000 * to)
        + 2_000_000_000 * rounding + 0x20_0000_0000_0000 * (lo + 2_000_000_000 * drift));
    assert(0x20_0000_0000_0000 * (2_000_000_000 * to) <= 0x20_0000_0000_0000 * (2_000_000_000 * p)
        + 2_000_000_000 * rounding + 0x20_0000_0000_0000 * (lo + 2_000_000_000 * drift));
    // All but the rounding to an integer is less than half a sample.
    assert(2_000_000_000 * rounding + 0x20_0000_0000_0000 * (lo + 2_000_000_000 * drift)
        < 0x20_0000_0000_0000 * (1_000_000_000 * o));
    assert(2 * p < 2 * to + o && 2 * to < 2 * p + o);
    assert(2 * co <= 2 * p + o && 2 * p < 2 * co + o);
    assert(c < h + n + 1 && h + n < c + 1);
}

/// The time of `head` samples and a time in which `n` samples fit exactly add up
/// to a time in which their sum fits.
#[verifier::spinoff_prover]
pub proof fn law_times_add_up(position: Span, target: Span, head: nat, n: nat, lane: nat)
    requires
        position.wf(),
        target.wf(),
        0 < lane,
        sharp(head, n, lane),
        position@ * lane == n * 1_000_000_000,
        target@ == position@ + playtime_nanos(head, lane),
    ensures
        step_count(position, lane) == n,
        step_count(target, lane) == head + n,
{
    let o = one();
    let m = playtime_nanos(head, lane);
    let z = target@ * lane;
    lemma_one();
    assert(lane < 1_000_000_000 && head <= 0x20_0000_0000_0000 && n <= 0x20_0000_0000_0000);
    assert(position@ <= position@ * lane && target@ <= z) by (nonlinear_arith)
        requires
            z == target@ * lane,
            lane >= 1,
            target@ >= 0,
            position@ >= 0,
    ;
    let (x, y, p) = lemma_count_errors(position, lane);
    lemma_sum_adds_up(0, n, 0, 0, x, y, position@ * lane, p, step_count(position, lane), lane, o);
    lemma_whole_exact(head);
    let (w, a) = lemma_playtime_errors(head, lane);
    assert(z == n * 1_000_000_000 + m * lane) by (nonlinear_arith)
        requires
            z == target@ * lane,
            target@ == position@ + m,
            position@ * lane == n * 1_000_000_000,
    ;
    let (x, y, p) = lemma_count_errors(target, lane);
    lemma_sum_adds_up(head, n, a, m * lane, x, y, z, p, step_count(target, lane), lane, o);
}

/// The errors of a count add up to half a sample and a little, 2^-11 of one.
#[verifier::spinoff_prover]
proof fn lemma_half_adds_up(x: nat, y: nat, z: nat, p: nat, c: nat, lane: nat, o: nat)
    requires
        o == 0x1_0000_0000_0000_0000_0000_0000_0000_0000,
        lane <= 0x1_0000_0000,
        z < 0x100_0000_0000 * 1_000_000_000,
        1_000_000_000 * y <= o * z + 1_000_000_000 * (0x800_0000_0000_0000_0000 * lane),
        o * z <= 1_000_000_000 * y + 1_000_000_000 * (0x800_0000_0000_0000_0000 * lane),
        0x20_0000_0000_0000 * x <= 0x20_0000_0000_0001 * y + 0x10_0000_0000_0000 * lane,
        0x1f_ffff_ffff_ffff * y <= 0x20_0000_0000_0000 * x + 0x10_0000_0000_0000 * lane,
        0x20_0000_0000_0000 * p <= 0x20_0000_0000_0001 * x + 0x10_0000_0000_0000,
        0x1f_ffff_ffff_ffff * x <= 0x20_0000_0000_0000 * p + 0x10_0000_0000_0000,
        c * (2 * o) <= 2 * p + o,
        2 * p < c * (2 * o) + o,
    ensures
        2048 * (c * 1_000_000_000) <= 2048 * z + 1025 * 1_000_000_000,
        2048 * z <= 2048 * (c * 1_000_000_000) + 1025 * 1_000_000_000,
{
    assert(o * z == 0x1_0000_0000_0000_0000_0000_0000_0000_0000 * z && c * (2 * o)
        == 0x2_0000_0000_0000_0000_0000_0000_0000_0000 * c) by (nonlinear_arith)
        requires
            o == 0x1_0000_0000_0000_0000_0000_0000_0000_0000,
    ;
    let zo = 0x1_0000_0000_0000_0000_0000_0000_0000_0000 * z;
    let co = 0x1_0000_0000_0000_0000_0000_0000_0000_0000 * c;
    // 2^107, from the rounding of the fraction.
    let far: nat = 0x800_0000_0000_0000_0000_0000_0000;
    assert(1_000_000_000 * y <= zo + 1_000_000_000 * far);
    assert(zo <= 1_000_000_000 * y + 1_000_000_000 * far);
    // 2^115 and a little, from each of the other two roundings.
    let near: nat = 0x8_1000_0000_0000_0000_0000_0000_0000;
    assert(y <= 0x101_0000_0000_0000_0000_0000_0000_0000_0000_0000_0000);
    assert(x <= y + near && y <= x + near);
    assert(x <= 0x102_0000_0000_0000_0000_0000_0000_0000_0000_0000_0000);
    assert(p <= x + near && x <= p + near);
    let half: nat = 0x8000_0000_0000_0000_0000_0000_0000_0000;
    assert(co <= p + half && p <= co + half);
    assert(1_000_000_000 * co <= zo + 1_000_000_000 * (far + 2 * near + half));
    assert(zo <= 1_000_000_000 * co + 1_000_000_000 * (far + 2 * near + half));
}

/// Under 2^40 samples, at up to 2^32 a second, the count is the number of
/// samples nearest to the span: it is off by half a sample at most, and 2^-11 of
/// one for the arithmetic.
#[verifier::spinoff_prover]
pub proof fn law_nearest_sample(span: Span, lane: nat)
    requires
        span.wf(),
        lane <= 0x1_0000_0000,
        span@ * lane < 0x100_0000_0000 * 1_000_000_000,
    ensures
        2048 * (step_count(span, lane) * 1_000_000_000) <= 2048 * (span@ * lane) + 1025
            * 1_000_000_000,
        2048 * (span@ * lane) <= 2048 * (step_count(span, lane) * 1_000_000_000) + 1025
            * 1_000_000_000,
{
    lemma_one();
    if lane == 0 {
        lemma_whole_exact(0);
        assert(seconds_units(span) * (0 * one()) == 0) by (nonlinear_arith);
        lemma_round53_zero(one());
        lemma_half_up_exact(0);
        assert(span@ * 0 == 0) by (nonlinear_arith);
    } else {
        assert(span@ <= span@ * lane) by (nonlinear_arith)
            requires
                lane >= 1,
                span@ >= 0,
        ;
        let (x, y, p) = lemma_count_errors(span, lane);
        lemma_half_adds_up(x, y, span@ * lane, p, step_count(span, lane), lane, one());
    }
}

/// A count is what binary64 arithmetic gives, to the last bit. The whole seconds
/// are rounded to the nearest such number, and the fraction; then their sum; the
/// rate; and the product of the two. What comes out is the integer nearest to
/// that, a tie going up. All numbers are in units of 2^-128.
pub proof fn law_count_is_that_of_binary64(
    span: Span,
    rate: nat,
    whole: nat,
    fraction: nat,
    seconds: nat,
    pace: nat,
    product: nat,
)
    requires
        is_nearest_double(span.secs as nat * pow2(128), 1, whole),
        is_nearest_double(span.nanos as nat * pow2(128), 1_000_000_000, fraction),
        is_nearest_double(whole + fraction, 1, seconds),
        is_nearest_double(rate * pow2(128), 1, pace),
        is_nearest_double(seconds * pace, pow2(128), product),
    ensures
        step_count(span, rate) * (2 * pow2(128)) <= 2 * product + pow2(128),
        2 * product < step_count(span, rate) * (2 * pow2(128)) + pow2(128),
{
    lemma_one();
    lemma_round53_is_nearest(span.secs as nat * pow2(128), 1, whole);
    lemma_round53_is_nearest(span.nanos as nat * pow2(128), 1_000_000_000, fraction);
    lemma_round53_is_nearest(whole + fraction, 1, seconds);
    lemma_round53_is_nearest(rate * pow2(128), 1, pace);
    lemma_round53_is_nearest(seconds * pace, pow2(128), product);
    lemma_half_up(product);
}

/// There are numbers such as the law on counts speaks of, for every span and
/// rate.
pub proof fn law_count_has_its_numbers(span: Span, rate: nat) -> (r: (nat, nat, nat, nat, nat))
    ensures
        ({
            let (whole, fraction, seconds, pace, product) = r;
            &&& is_nearest_double(span.secs as nat * pow2(128), 1, whole)
            &&& is_nearest_double(span.nanos as nat * pow2(128), 1_000_000_000, fraction)
            &&& is_nearest_double(whole + fraction, 1, seconds)
            &&& is_nearest_double(rate * pow2(128), 1, pace)
            &&& is_nearest_double(seconds * pace, pow2(128), product)
        }),
{
    lemma_one();
    let whole = round53(span.secs as nat * pow2(128), 1);
    let fraction = round53(span.nanos as nat * pow2(128), 1_000_000_000);
    let seconds = round53(whole + fraction, 1);
    let pace = round53(rate * pow2(128), 1);
    let product = round53(seconds * pace, pow2(128));
    lemma_round53_is_nearest(span.secs as nat * pow2(128), 1, whole);
    lemma_round53_is_nearest(span.nanos as nat * pow2(128), 1_000_000_000, fraction);
    lemma_round53_is_nearest(whole + fraction, 1, seconds);
    lemma_round53_is_nearest(rate * pow2(128), 1, pace);
    lemma_round53_is_nearest(seconds * pace, pow2(128), product);
    (whole, fraction, seconds, pace, product)
}

/// The time of some samples is what binary64 arithmetic gives, to the last bit.
/// The samples and the lane are rounded to the nearest such number, and so is
/// their quotient, which is a span if it is under 2^64 seconds. What comes out
/// is the number of nanoseconds nearest to that, a tie going to the even one.
pub proof fn law_playtime_is_that_of_binary64(
    samples: nat,
    lane: nat,
    count: nat,
    pace: nat,
    seconds: nat,
)
    requires
        lane > 0,
        is_nearest_double(samples * pow2(128), 1, count),
        is_nearest_double(lane * pow2(128), 1, pace),
        pace > 0,
        is_nearest_double(count * pow2(128), pace, seconds),
    ensures
        has_playtime(samples, lane) <==> seconds < 0x1_0000_0000_0000_0000 * pow2(128),
        ({
            let nanos = playtime_nanos(samples, lane);
            let off = distance(nanos * pow2(128), seconds * 1_000_000_000);
            &&& 2 * off <= pow2(128)
            &&& 2 * off == pow2(128) ==> nanos % 2 == 0
        }),
{
    lemma_one();
    lemma_round53_is_nearest(samples * pow2(128), 1, count);
    lemma_round53_is_nearest(lane * pow2(128), 1, pace);
    lemma_round53_is_nearest(count * pow2(128), pace, seconds);
    lemma_nearest_by_distance(seconds * 1_000_000_000, pow2(128));
}

/// There are numbers such as the law on times speaks of, for every number of
/// samples and every lane.
pub proof fn law_playtime_has_its_numbers(samples: nat, lane: nat) -> (r: (nat, nat, nat))
    requires
        0 < lane <= 0x20_0000_0000_0000,
    ensures
        ({
            let (count, pace, seconds) = r;
            &&& is_nearest_double(samples * pow2(128), 1, count)
            &&& is_nearest_double(lane * pow2(128), 1, pace)
            &&& pace > 0
            &&& is_nearest_double(count * pow2(128), pace, seconds)
        }),
{
    lemma_one();
    lemma_whole_exact(lane);
    let count = round53(samples * pow2(128), 1);
    let pace = round53(lane * pow2(128), 1);
    lemma_round53_is_nearest(samples * pow2(128), 1, count);
    lemma_round53_is_nearest(lane * pow2(128), 1, pace);
    let seconds = round53(count * pow2(128), pace);
    lemma_round53_is_nearest(count * pow2(128), pace, seconds);
    (count, pace, seconds)
}

/// The lesser of two numbers is one of them and no more than either.
pub proof fn law_at_most_is_the_lesser(n: nat, max: nat)
    ensures
        at_most(n, max) <= n,
        at_most(n, max) <= max,
        at_most(n, max) == n || at_most(n, max) == max,
{
}

/// A span is its seconds and the nanoseconds past them, and no two spans that are
/// well-formed are as long as each other.
pub proof fn law_length_tells_spans_apart(a: Span, b: Span)
    requires
        a.nanos < 1_000_000_000,
        b.nanos < 1_000_000_000,
    ensures
        a@ == a.secs * 1_000_000_000 + a.nanos,
        a@ == b@ <==> a == b,
        a@ < b@ <==> a.secs < b.secs || (a.secs == b.secs && a.nanos < b.nanos),
        a@ < 0x1_0000_0000_0000_0000 * 1_000_000_000,
        span_limit() == 0x1_0000_0000_0000_0000 * 1_000_000_000,
        a.wf(),
{
}

} // verus!
