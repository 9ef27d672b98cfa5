use sonora::{Action, Cells, Chain, Device, Output, Phase, SmoothGain, Span, Streams, Volume};

/// Cells with one volume, of `gain`.
fn cells(gain: u32) -> Cells {
    let mut cells = Cells::new();
    Volume::new(&mut cells, gain);
    cells
}

/// The volume of such cells.
const VOLUME: Volume = Volume { cell: 0 };

/// Plays one sample through the ramp and returns what comes out, and whether
/// the tap was to hear of a new format.
fn play(
    gain: &mut SmoothGain<(), u8>,
    channels: u16,
    rate: u32,
    volume: f32,
    sample: f32,
) -> (f32, bool) {
    let (reformat, mut action) = gain.next(channels, rate, &cells(volume.to_bits()));
    loop {
        action = match action {
            Action::Slope { from, to, frames } => {
                let step = (f32::from_bits(to) - f32::from_bits(from)) / frames as f32;
                gain.sloped(step.to_bits())
            }
            Action::Sum { gain: current, step } => {
                let sum = f32::from_bits(current) + f32::from_bits(step);
                gain.summed(sum.to_bits())
            }
            Action::Scale { gain: current } => {
                return (sample * f32::from_bits(current), reformat);
            }
        };
    }
}

fn at(initial: f32, ramp: Span) -> SmoothGain<(), u8> {
    SmoothGain::new((), VOLUME, initial.to_bits(), ramp)
}

#[test]
fn steady_volume_scales_at_once() {
    let mut gain = at(0.5, Span::from_millis(25));
    for _ in 0..10 {
        assert_eq!(play(&mut gain, 2, 44_100, 0.5, 0.8).0, 0.4);
    }
    assert_eq!(gain.frames_left, 0);
}

#[test]
fn new_volume_is_reached_step_by_step() {
    // Four frames.
    let mut gain = at(0.0, Span::from_millis(4));
    let heard: Vec<f32> = (0..6).map(|_| play(&mut gain, 1, 1_000, 1.0, 1.0).0).collect();
    assert_eq!(heard, vec![0.25, 0.5, 0.75, 1.0, 1.0, 1.0]);
}

#[test]
fn ramp_lands_on_target_whatever_the_sums() {
    let mut gain: SmoothGain<(), u8> = SmoothGain::new((), VOLUME, 7, Span::from_millis(3));
    let nine = cells(9);
    assert_eq!(
        gain.next(1, 1_000, &nine),
        (false, Action::Slope { from: 7, to: 9, frames: 3 })
    );
    assert_eq!(gain.phase, Phase::Slope);
    assert_eq!(gain.sloped(100), Action::Sum { gain: 7, step: 100 });
    assert_eq!(gain.phase, Phase::Sum);
    assert_eq!(gain.summed(1), Action::Scale { gain: 1 });
    assert_eq!(gain.next(1, 1_000, &nine).1, Action::Sum { gain: 1, step: 100 });
    assert_eq!(gain.summed(2), Action::Scale { gain: 2 });
    assert_eq!(gain.next(1, 1_000, &nine).1, Action::Sum { gain: 2, step: 100 });
    assert_eq!(gain.summed(3), Action::Scale { gain: 9 });
    assert_eq!(gain.next(1, 1_000, &nine).1, Action::Scale { gain: 9 });
}

#[test]
fn samples_of_a_frame_share_a_gain() {
    let mut gain = at(0.0, Span::from_millis(2));
    let heard: Vec<f32> = (0..6).map(|_| play(&mut gain, 3, 1_000, 1.0, 1.0).0).collect();
    assert_eq!(heard, vec![0.5, 0.5, 0.5, 1.0, 1.0, 1.0]);
    assert_eq!(gain.channel, 0);
}

#[test]
fn volume_changes_only_between_frames() {
    let mut gain = at(0.5, Span::from_millis(1));
    assert_eq!(play(&mut gain, 2, 1_000, 0.5, 1.0).0, 0.5);
    assert_eq!(play(&mut gain, 2, 1_000, 0.25, 1.0).0, 0.5);
    assert_eq!(play(&mut gain, 2, 1_000, 0.25, 1.0).0, 0.25);
}

#[test]
fn ramp_turns_round_under_way() {
    let mut gain = at(0.0, Span::from_millis(4));
    assert_eq!(play(&mut gain, 1, 1_000, 1.0, 1.0).0, 0.25);
    assert_eq!(play(&mut gain, 1, 1_000, 1.0, 1.0).0, 0.5);
    let heard: Vec<f32> = (0..5).map(|_| play(&mut gain, 1, 1_000, 0.0, 1.0).0).collect();
    assert_eq!(heard, vec![0.375, 0.25, 0.125, 0.0, 0.0]);
}

#[test]
fn ramp_has_a_frame_at_least() {
    let mut gain = at(0.0, Span { secs: 0, nanos: 0 });
    assert_eq!(play(&mut gain, 1, 44_100, 1.0, 1.0).0, 1.0);
    assert_eq!(gain.ramp_frames, 1);
}

#[test]
fn ramp_follows_the_sample_rate() {
    let mut gain = at(1.0, Span::from_millis(25)).with_tap(3);
    assert!(gain.resync(2, 44_100));
    assert_eq!(gain.ramp_frames, 1_103);
    assert!(!gain.resync(2, 44_100));
    assert_eq!(gain.ramp_frames, 1_103);
    assert!(gain.resync(2, 48_000));
    assert_eq!(gain.ramp_frames, 1_200);
    assert!(gain.resync(1, 48_000));
    assert!(!gain.resync(1, 48_000));
    assert_eq!((gain.channels, gain.rate, gain.tap), (1, 48_000, Some(3)));
}

#[test]
fn format_is_taken_up_without_a_tap() {
    let mut gain = at(1.0, Span::from_millis(25));
    assert!(!gain.resync(2, 44_100));
    assert_eq!((gain.channels, gain.rate, gain.ramp_frames), (2, 44_100, 1_103));
}

#[test]
fn volume_that_stays_is_kept_once_reached() {
    // Three frames of two channels each, then a new volume on the way.
    let mut gain = at(0.0, Span::from_millis(3));
    let heard: Vec<f32> = (0..10).map(|_| play(&mut gain, 2, 1_000, 0.75, 1.0).0).collect();
    assert_eq!(heard, vec![0.25, 0.25, 0.5, 0.5, 0.75, 0.75, 0.75, 0.75, 0.75, 0.75]);
    assert_eq!((gain.frames_left, gain.ramp_frames, gain.channel), (0, 3, 0));
    let heard: Vec<f32> = (0..8).map(|_| play(&mut gain, 2, 1_000, 0.0, 1.0).0).collect();
    assert_eq!(heard, vec![0.5, 0.5, 0.25, 0.25, 0.0, 0.0, 0.0, 0.0]);
}

#[test]
fn new_format_keeps_a_ramp_going() {
    let mut gain = at(0.0, Span::from_millis(100));
    play(&mut gain, 1, 1_000, 1.0, 1.0);
    assert_eq!(gain.frames_left, 99);
    play(&mut gain, 1, 100, 1.0, 1.0);
    assert_eq!(gain.ramp_frames, 10);
    assert_eq!(gain.frames_left, 9);
    play(&mut gain, 1, 10_000, 1.0, 1.0);
    assert_eq!(gain.ramp_frames, 1_000);
    assert_eq!(gain.frames_left, 8);
}

#[test]
fn tap_hears_of_new_formats() {
    let mut gain = at(1.0, Span::from_millis(25)).with_tap(3);
    assert_eq!(gain.tap, Some(3));
    assert!(play(&mut gain, 2, 44_100, 1.0, 1.0).1);
    // In the middle of a frame the format is not looked at.
    assert!(!play(&mut gain, 1, 48_000, 1.0, 1.0).1);
    assert!(play(&mut gain, 1, 48_000, 1.0, 1.0).1);
    assert!(!play(&mut gain, 1, 48_000, 1.0, 1.0).1);
}

#[test]
fn no_tap_hears_nothing() {
    let mut gain = at(1.0, Span::from_millis(25));
    assert!(!play(&mut gain, 2, 44_100, 1.0, 1.0).1);
}

#[test]
fn requested_gain_is_from_zero_up() {
    let gains = [
        0.0,
        f32::from_bits(1),
        0.5,
        1.0,
        1e30,
        f32::INFINITY,
        -1.0,
        -1e-30,
        f32::NEG_INFINITY,
        f32::NAN,
        -f32::NAN,
    ];
    for gain in gains {
        let requested = VOLUME.requested(&cells(gain.to_bits()));
        assert_eq!(requested, gain.max(0.0).to_bits());
    }
    assert_eq!(f32::from_bits(VOLUME.requested(&cells((-0.0f32).to_bits()))), 0.0);
}

#[test]
fn negative_volume_is_silence() {
    let mut gain = at(1.0, Span::from_millis(1));
    assert_eq!(play(&mut gain, 1, 1_000, -2.0, 1.0).0, 0.0);
    assert_eq!(play(&mut gain, 1, 1_000, f32::NAN, 1.0).0, 0.0);
}

#[test]
fn volume_reads_back() {
    let mut cells = Cells::new();
    let volume = Volume::new(&mut cells, 3);
    assert_eq!(volume.get(&cells), 3);
    volume.set(&mut cells, 0xffff_ffff);
    assert_eq!(volume.get(&cells), 0xffff_ffff);
}

#[test]
fn clones_of_a_volume_share_it() {
    let mut cells = Cells::new();
    let volume = Volume::new(&mut cells, 3);
    let other = Volume::new(&mut cells, 3);
    let clone = volume.clone();
    clone.set(&mut cells, (-1.0f32).to_bits());
    assert_eq!(volume.get(&cells), (-1.0f32).to_bits());
    volume.set(&mut cells, 9);
    assert_eq!(clone.get(&cells), 9);
    assert_eq!(other.get(&cells), 3);
}

#[test]
fn output_opens_on_the_gain_of_the_moment() {
    let mut streams = Streams::new();
    let (device, frames) = Device::open("alsa:default".to_string(), 44_100);
    assert_eq!(frames, 2_205);
    let stream = streams.open(device);
    let mut cells = cells(0.25f32.to_bits());
    let chain = Chain { volume: VOLUME, equalizer: "source", spectrum: "tap" };
    let (output, mut gain) = Output::open(chain, &cells, stream, 7u8);
    assert_eq!(*output.sink(), 7);
    assert_eq!(output.stream, stream);
    assert!(!output.failed(&streams));
    assert_eq!(gain.input, "source");
    assert_eq!(gain.tap, Some("tap"));
    assert_eq!(gain.volume, output.volume);
    assert_eq!(gain.ramp, Span { secs: 0, nanos: 25_000_000 });
    let (reformat, action) = gain.next(1, 48_000, &cells);
    assert!(reformat);
    assert_eq!(action, Action::Scale { gain: 0.25f32.to_bits() });
    output.set_volume(&mut cells, 1.0f32.to_bits());
    assert_eq!(VOLUME.get(&cells), 1.0f32.to_bits());
    let (reformat, action) = gain.next(1, 48_000, &cells);
    assert!(!reformat);
    let slope = Action::Slope { from: 0.25f32.to_bits(), to: 1.0f32.to_bits(), frames: 1_200 };
    assert_eq!(action, slope);
}
