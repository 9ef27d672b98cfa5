use sonora::{Span, Trimmed, Turn};

const NOTHING: Span = Span { secs: 0, nanos: 0 };

/// A source of 1000 samples a second on two channels.
fn source(n: u32, skip: Span, take: Option<Span>) -> Trimmed<std::vec::IntoIter<u32>> {
    let input: Vec<u32> = (0..n).collect();
    Trimmed::new(input.into_iter(), 500, 2, skip, take)
}

fn drain(mut source: Trimmed<std::vec::IntoIter<u32>>) -> Vec<u32> {
    let mut all = Vec::new();
    while let Some(sample) = source.next() {
        all.push(sample);
    }
    assert_eq!(source.next(), None);
    all
}

#[test]
fn trims_nothing() {
    assert_eq!(drain(source(10, NOTHING, None)), (0..10).collect::<Vec<u32>>());
}

#[test]
fn drops_the_head() {
    assert_eq!(drain(source(10, Span::from_millis(4), None)), vec![4, 5, 6, 7, 8, 9]);
}

#[test]
fn ends_after_the_body() {
    let take = Some(Span::from_millis(3));
    assert_eq!(drain(source(10, Span::from_millis(4), take)), vec![4, 5, 6]);
}

#[test]
fn ends_with_the_input() {
    let take = Some(Span::from_millis(30));
    assert_eq!(drain(source(10, Span::from_millis(8), take)), vec![8, 9]);
}

#[test]
fn head_longer_than_the_input() {
    assert_eq!(drain(source(10, Span::from_millis(11), None)), Vec::<u32>::new());
}

#[test]
fn empty_body_still_drops_the_head() {
    let mut source = source(10, Span::from_millis(4), Some(NOTHING));
    assert_eq!(source.next(), None);
    assert_eq!(source.input.next(), Some(4));
}

#[test]
fn counts_samples_over_all_channels() {
    let source = Trimmed::new(
        std::iter::empty::<u32>(),
        44_100,
        2,
        Span::from_millis(1_500),
        Some(Span::from_millis(10)),
    );
    assert_eq!(source.lane, 88_200);
    assert_eq!(source.head, 132_300);
    assert_eq!(source.body, Some(882));
    assert_eq!(source.emitted, 0);
    assert!(!source.primed);
}

#[test]
fn offset_is_the_length_of_the_head() {
    let skip = Span { secs: 7, nanos: 0 };
    assert_eq!(source(0, skip, None).offset(), skip);
    // 1.5 samples are rounded to 2.
    let skip = Span { secs: 0, nanos: 1_500_000 };
    assert_eq!(source(0, skip, None).offset(), Span::from_millis(2));
}

#[test]
fn duration_of_a_bounded_source() {
    let source = source(10, Span::from_millis(4), Some(Span::from_millis(3)));
    assert_eq!(source.total_duration(None), Some(Span::from_millis(3)));
    assert_eq!(source.total_duration(Some(Span::from_millis(10))), Some(Span::from_millis(3)));
}

#[test]
fn duration_of_an_unbounded_source() {
    let source = source(10, Span::from_millis(4), None);
    assert_eq!(source.total_duration(None), None);
    assert_eq!(source.total_duration(Some(Span::from_millis(10))), Some(Span::from_millis(6)));
    assert_eq!(source.total_duration(Some(Span::from_millis(3))), Some(NOTHING));
}

#[test]
fn seek_goes_past_the_head() {
    let source = source(10, Span::from_millis(4), None);
    assert_eq!(source.seek_target(Span::from_millis(3)), Span::from_millis(7));
}

#[test]
fn seek_that_succeeds() {
    let mut source = source(10, Span::from_millis(4), Some(Span::from_millis(5)));
    let outcome: Result<(), u8> = source.try_seek(Span::from_millis(3), Ok(()));
    assert_eq!(outcome, Ok(()));
    assert!(source.primed);
    assert_eq!(source.emitted, 3);
    // The input is where the target is.
    source.input = (7..10).collect::<Vec<u32>>().into_iter();
    assert_eq!(drain(source), vec![7, 8]);
}

#[test]
fn seek_that_fails() {
    let mut source = source(10, Span::from_millis(4), None);
    assert_eq!(source.try_seek(Span::from_millis(3), Err(9u8)), Err(9));
    assert!(!source.primed);
    assert_eq!(source.emitted, 0);
    assert_eq!(drain(source), vec![4, 5, 6, 7, 8, 9]);
}

#[test]
fn seek_to_the_start_plays_it_again() {
    let take = Some(Span::from_millis(3));
    let first = drain(source(10, Span::from_millis(4), take));
    let mut source = source(10, Span::from_millis(4), take);
    assert_eq!(source.next(), Some(4));
    let outcome: Result<(), u8> = source.try_seek(NOTHING, Ok(()));
    assert_eq!(outcome, Ok(()));
    source.input = (4..10).collect::<Vec<u32>>().into_iter();
    assert_eq!(drain(source), first);
}

#[test]
fn seek_past_the_body_leaves_nothing() {
    let mut source = source(10, NOTHING, Some(Span::from_millis(3)));
    let outcome: Result<(), u8> = source.try_seek(Span::from_millis(4), Ok(()));
    assert_eq!(outcome, Ok(()));
    assert_eq!(source.emitted, 4);
    assert_eq!(drain(source), Vec::<u32>::new());
}

#[test]
fn seek_further_leaves_less() {
    let mut lengths = Vec::new();
    for n in 0..6 {
        let mut source = source(10, NOTHING, Some(Span::from_millis(4)));
        let outcome: Result<(), u8> = source.try_seek(Span::from_millis(n), Ok(()));
        assert_eq!(outcome, Ok(()));
        lengths.push(drain(source).len());
    }
    assert_eq!(lengths, vec![4, 3, 2, 1, 0, 0]);
}

/// The distance between two spans in nanoseconds.
fn apart(a: Span, b: Span) -> i128 {
    let nanos = |s: Span| s.secs as i128 * 1_000_000_000 + s.nanos as i128;
    (nanos(a) - nanos(b)).abs()
}

#[test]
fn offset_stays_near_the_skip() {
    let formats = [(44_100, 2), (48_000, 8), (3, 1), (u32::MAX, u16::MAX)];
    for (rate, channels) in formats {
        let lane = rate as i128 * channels as i128;
        for micros in 0..1_000u32 {
            let skip = Span { secs: 3_599, nanos: micros * 1_001 };
            let mut source = Trimmed::new(std::iter::empty::<u8>(), rate, channels, skip, None);
            let offset = source.offset();
            assert!(2 * apart(offset, skip) * lane <= 1_000_000_000 + 2 * lane);
            assert_eq!(source.next(), None);
            assert_eq!(source.offset(), offset);
            assert_eq!(source.try_seek(skip, Ok::<(), u8>(())), Ok(()));
            assert_eq!(source.offset(), offset);
        }
    }
}

#[test]
fn seek_to_a_sample_plays_on_from_there() {
    // At 8000 samples a second, sample `n` is at 125000 times `n` nanoseconds.
    let input: Vec<u32> = (0..100).collect();
    let skip = Span { secs: 0, nanos: 875_000 };
    let take = Some(Span { secs: 0, nanos: 2_500_000 });
    let new = || Trimmed::new(input.clone().into_iter(), 8_000, 1, skip, take);
    let all = drain(new());
    assert_eq!(all, (7..27).collect::<Vec<u32>>());
    for before in 0..22 {
        for n in 0..22u32 {
            let mut source = new();
            for _ in 0..before {
                source.next();
            }
            let position = Span { secs: 0, nanos: n * 125_000 };
            let target = source.seek_target(position);
            let landed = sonora::samples(target, source.lane) as usize;
            source.input = input[landed..].to_vec().into_iter();
            assert_eq!(source.try_seek(position, Ok::<(), u8>(())), Ok(()));
            let rest = (n as usize).min(all.len());
            assert_eq!(drain(source), all[rest..].to_vec());
        }
    }
}

#[test]
fn seek_lands_far_in() {
    // Some fifty years of 192000 samples a second, every third of which is a
    // whole number of nanoseconds in.
    let mut source = Trimmed::new((), 96_000, 2, Span { secs: 700_000_000, nanos: 5_209 }, None);
    assert_eq!(source.lane, 192_000);
    assert_eq!(source.head, 134_400_000_000_001);
    for n in [0u64, 3, 192_003, 172_800_000_000_003] {
        let nanos = n as u128 * 1_000_000_000 / 192_000;
        let position =
            Span { secs: (nanos / 1_000_000_000) as u64, nanos: (nanos % 1_000_000_000) as u32 };
        assert_eq!(nanos * 192_000, n as u128 * 1_000_000_000);
        let target = source.seek_target(position);
        assert_eq!(sonora::samples(target, source.lane), source.head + n);
        assert_eq!(source.try_seek(position, Ok::<(), u8>(())), Ok(()));
        assert_eq!(source.emitted, n);
    }
}

/// An input that counts how often it is read, and gives what it is told to.
struct Told {
    gifts: Vec<Option<u32>>,
    reads: usize,
}

impl Iterator for Told {
    type Item = u32;

    fn next(&mut self) -> Option<u32> {
        self.reads += 1;
        self.gifts.get(self.reads - 1).copied().flatten()
    }
}

fn told(gifts: Vec<Option<u32>>, head: u64, body: Option<u64>) -> Trimmed<Told> {
    let input = Told { gifts, reads: 0 };
    Trimmed { input, head, body, emitted: 0, primed: false, lane: 1_000 }
}

#[test]
fn input_is_left_alone_past_the_end() {
    let mut source = told((0..10).map(Some).collect(), 3, Some(2));
    assert_eq!(source.next(), Some(3));
    assert_eq!(source.input.reads, 4);
    assert_eq!(source.next(), Some(4));
    for _ in 0..5 {
        assert_eq!(source.next(), None);
    }
    assert_eq!(source.input.reads, 5);
    assert_eq!(source.emitted, 2);
}

#[test]
fn input_that_pauses_in_the_head() {
    let gifts = vec![Some(0), Some(1), None, Some(2), None, Some(3), Some(4), Some(5)];
    let mut source = told(gifts, 5, Some(3));
    assert_eq!(source.next(), None);
    assert_eq!(source.input.reads, 3);
    let heard: Vec<Option<u32>> = (0..6).map(|_| source.next()).collect();
    assert_eq!(heard, vec![Some(2), None, Some(3), Some(4), None, None]);
    assert_eq!(source.input.reads, 7);
}

#[test]
fn calls_go_turn_by_turn() {
    let mut source = told(Vec::new(), 2, Some(1));
    assert_eq!(source.start::<u32>(), Turn::Read(2));
    assert_eq!(source.take(2, Some(7)), Turn::Read(1));
    assert_eq!(source.take(1, Some(8)), Turn::Read(0));
    assert_eq!(source.take(0, Some(9)), Turn::Give(Some(9)));
    assert_eq!(source.start::<u32>(), Turn::Give(None));
    assert_eq!(source.emitted, 1);

    let mut empty = told(Vec::new(), 1, Some(0));
    assert_eq!(empty.start::<u32>(), Turn::Read(1));
    assert_eq!(empty.take(1, Some(7)), Turn::Give(None));

    let mut paused = told(Vec::new(), 2, None);
    assert_eq!(paused.start::<u32>(), Turn::Read(2));
    assert_eq!(paused.take(2, None::<u32>), Turn::Give(None));
    assert_eq!(paused.start::<u32>(), Turn::Read(0));
}
