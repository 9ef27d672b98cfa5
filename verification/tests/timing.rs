use sonora::{frames, playtime, samples, Span};
use std::time::Duration;

fn span_of(d: Duration) -> Span {
    Span { secs: d.as_secs(), nanos: d.subsec_nanos() }
}

fn millis(n: u64) -> Span {
    Span::from_millis(n)
}

/// What binary64 arithmetic makes of the same count.
fn samples_by_float(span: Duration, lane: u64) -> u64 {
    (span.as_secs_f64() * lane as f64).round() as u64
}

fn frames_by_float(span: Duration, rate: u32) -> u32 {
    (span.as_secs_f64() * rate as f64).round() as u32
}

/// A stream of numbers of all sizes.
struct Numbers(u64);

impl Numbers {
    fn next(&mut self) -> u64 {
        self.0 ^= self.0 << 13;
        self.0 ^= self.0 >> 7;
        self.0 ^= self.0 << 17;
        self.0
    }

    fn any_size(&mut self) -> u64 {
        let n = self.next();
        n >> (self.next() % 64)
    }
}

const LANES: [u64; 12] = [
    1,
    2,
    3,
    8_000,
    22_050,
    44_100,
    88_200,
    96_000,
    192_000,
    384_000,
    8_388_607,
    281_470_681_677_825,
];

#[test]
fn samples_match_binary64() {
    let mut numbers = Numbers(0x9e37_79b9_7f4a_7c15);
    for _ in 0..20_000 {
        let secs = numbers.any_size();
        let nanos = (numbers.next() % 1_000_000_000) as u32;
        let span = Duration::new(secs, nanos);
        for lane in LANES {
            assert_eq!(samples(span_of(span), lane), samples_by_float(span, lane));
        }
    }
}

#[test]
fn samples_match_binary64_on_round_spans() {
    for n in 0..20_000u64 {
        let span = Duration::from_micros(n * 125);
        for lane in LANES {
            assert_eq!(samples(span_of(span), lane), samples_by_float(span, lane));
        }
    }
}

#[test]
fn frames_match_binary64() {
    let mut numbers = Numbers(0xfeed_beef_cafe_f00d);
    for _ in 0..20_000 {
        let secs = numbers.any_size();
        let nanos = (numbers.next() % 1_000_000_000) as u32;
        let rate = numbers.any_size() as u32;
        let span = Duration::new(secs, nanos);
        assert_eq!(frames(span_of(span), rate), frames_by_float(span, rate));
    }
}

#[test]
fn playtime_matches_binary64() {
    let mut numbers = Numbers(0x1234_5678_9abc_def1);
    for _ in 0..20_000 {
        let n = numbers.any_size();
        for lane in LANES {
            let expected = Duration::try_from_secs_f64(n as f64 / lane as f64).ok();
            assert_eq!(playtime(n, lane), expected.map(span_of));
        }
    }
}

#[test]
fn samples_of_given_spans() {
    assert_eq!(samples(millis(0), 88_200), 0);
    assert_eq!(samples(millis(10), 88_200), 882);
    assert_eq!(samples(millis(1_500), 88_200), 132_300);
    // A tie goes up.
    assert_eq!(samples(millis(500), 1), 1);
    assert_eq!(samples(millis(2_500), 1), 3);
    assert_eq!(samples(millis(499), 1), 0);
}

#[test]
fn samples_saturate() {
    let longest = Span { secs: u64::MAX, nanos: 999_999_999 };
    assert_eq!(samples(longest, 1), u64::MAX);
    assert_eq!(samples(longest, 192_000), u64::MAX);
    assert_eq!(samples(longest, 0), 0);
    assert_eq!(frames(longest, 1), u32::MAX);
}

#[test]
fn samples_lose_what_binary64_cannot_hold() {
    // 2^53 + 1 is not a binary64 number.
    let secs = (1u64 << 53) + 1;
    assert_eq!(samples(Span { secs, nanos: 0 }, 1), 1 << 53);
}

#[test]
fn frames_of_given_spans() {
    assert_eq!(frames(millis(25), 44_100), 1_103);
    assert_eq!(frames(millis(25), 48_000), 1_200);
    assert_eq!(frames(millis(50), 44_100), 2_205);
    assert_eq!(frames(millis(50), 48_000), 2_400);
    assert_eq!(frames(millis(25), 1), 0);
}

#[test]
fn playtime_of_given_counts() {
    assert_eq!(playtime(0, 88_200), Some(millis(0)));
    assert_eq!(playtime(88_200, 88_200), Some(millis(1_000)));
    assert_eq!(playtime(132_300, 88_200), Some(millis(1_500)));
    assert_eq!(playtime(1, 3), Some(Span { secs: 0, nanos: 333_333_333 }));
    assert_eq!(playtime(2, 3), Some(Span { secs: 0, nanos: 666_666_667 }));
    // Ties go to the even nanosecond: 976562.5 ns and 2929687.5 ns.
    assert_eq!(playtime(1, 1_024), Some(Span { secs: 0, nanos: 976_562 }));
    assert_eq!(playtime(3, 1_024), Some(Span { secs: 0, nanos: 2_929_688 }));
}

#[test]
fn playtime_too_long_for_a_span() {
    assert_eq!(playtime(u64::MAX, 1), None);
    assert_eq!(playtime(u64::MAX - 1_024, 1), Some(Span { secs: u64::MAX - 2_047, nanos: 0 }));
    assert_eq!(playtime(u64::MAX, 2), Some(Span { secs: 1 << 63, nanos: 0 }));
}

#[test]
fn whole_seconds_are_exact_both_ways() {
    for lane in [1, 8_000, 88_200, 384_000] {
        for secs in [0, 1, 59, 3_600, 1 << 30] {
            assert_eq!(samples(Span { secs, nanos: 0 }, lane), secs * lane);
            assert_eq!(playtime(secs * lane, lane), Some(Span { secs, nanos: 0 }));
        }
    }
}

#[test]
fn longer_spans_take_more_samples() {
    let spans = [
        Span { secs: 0, nanos: 0 },
        Span { secs: 0, nanos: 1 },
        Span { secs: 0, nanos: 999_999_999 },
        Span { secs: 1, nanos: 0 },
        Span { secs: 1 << 53, nanos: 999_999_999 },
        Span { secs: (1 << 53) + 1, nanos: 0 },
        Span { secs: u64::MAX, nanos: 0 },
    ];
    for lane in LANES {
        for pair in spans.windows(2) {
            assert!(samples(pair[0], lane) <= samples(pair[1], lane));
        }
    }
}

#[test]
fn counts_are_within_a_sample() {
    let mut numbers = Numbers(0x0dd_ba11);
    for _ in 0..20_000 {
        let secs = numbers.next() % 100_000;
        let nanos = (numbers.next() % 1_000_000_000) as u32;
        let lane = 1 + numbers.next() % 400_000;
        let exact = (secs as u128 * 1_000_000_000 + nanos as u128) * lane as u128;
        let count = samples(Span { secs, nanos }, lane) as u128 * 1_000_000_000;
        assert!(count < exact + 1_000_000_000 && exact < count + 1_000_000_000);
    }
}

#[test]
fn playtimes_are_within_a_nanosecond() {
    let mut numbers = Numbers(0x5eed);
    for _ in 0..20_000 {
        let lane = 1 + numbers.next() % 400_000;
        let n = numbers.next() % (lane << 20);
        let span = playtime(n, lane).unwrap();
        let nanos = span.secs as u128 * 1_000_000_000 + span.nanos as u128;
        let exact = n as u128 * 1_000_000_000;
        let lane = lane as u128;
        assert!(nanos * lane < exact + lane && exact < nanos * lane + lane);
    }
}

#[test]
fn spans_add_and_subtract() {
    let a = Span { secs: 1, nanos: 700_000_000 };
    let b = Span { secs: 2, nanos: 600_000_000 };
    assert_eq!(a.plus(b), Span { secs: 4, nanos: 300_000_000 });
    assert_eq!(b.saturating_sub(a), Span { secs: 0, nanos: 900_000_000 });
    assert_eq!(a.saturating_sub(b), Span { secs: 0, nanos: 0 });
    assert_eq!(a.saturating_sub(a), Span { secs: 0, nanos: 0 });
    assert_eq!(Span::from_millis(2_025), Span { secs: 2, nanos: 25_000_000 });
}
