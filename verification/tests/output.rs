use sonora::{ident, Cells, Chain, Device, Join, Output, SmoothGain, Streams, Volume};

/// Puts a stream on the device known as `id` into `streams`.
fn open(streams: &mut Streams, id: &str) -> usize {
    let (device, _) = Device::open(id.to_string(), 48_000);
    streams.open(device)
}

fn join(streams: &Streams, id: &str) -> Join {
    Device::shared(Some(&id.to_string()), streams)
}

/// An output with a volume of its own on the stream at `stream`.
fn output(cells: &mut Cells, stream: usize) -> (Output<()>, SmoothGain<(), ()>) {
    let volume = Volume::new(cells, 1.0f32.to_bits());
    let chain = Chain { volume, equalizer: (), spectrum: () };
    Output::open(chain, cells, stream, ())
}

#[test]
fn device_without_an_id_is_unknown() {
    assert_eq!(ident(None), "unknown");
    assert_eq!(ident(Some("alsa:hw".to_string())), "alsa:hw");
    assert_eq!(ident(Some(String::new())), "");
}

#[test]
fn no_default_device() {
    let mut streams = Streams::new();
    assert_eq!(Device::shared(None, &streams), Join::Missing);
    open(&mut streams, "a");
    assert_eq!(Device::shared(None, &streams), Join::Missing);
}

#[test]
fn new_stream_is_shared_from_then_on() {
    let mut streams = Streams::new();
    assert_eq!(join(&streams, "a"), Join::Open);
    let (device, frames) = Device::open("a".to_string(), 48_000);
    assert_eq!(frames, 2_400);
    assert_eq!(device.outputs, 1);
    assert_eq!(streams.open(device), 0);
    assert_eq!(join(&streams, "a"), Join::Reuse(0));
    assert_eq!(join(&streams, "b"), Join::Open);
}

#[test]
fn stream_is_shared_again_after_the_default_moved_away_and_back() {
    let mut streams = Streams::new();
    let a = open(&mut streams, "a");
    assert_eq!(join(&streams, "b"), Join::Open);
    let b = open(&mut streams, "b");
    assert_eq!(join(&streams, "a"), Join::Reuse(a));
    streams.join(a);
    assert_eq!(streams.devices[a].outputs, 2);
    assert_eq!(join(&streams, "b"), Join::Reuse(b));
}

#[test]
fn failed_stream_is_not_shared() {
    let mut streams = Streams::new();
    let a = open(&mut streams, "a");
    streams.report(a, false);
    assert_eq!(join(&streams, "a"), Join::Open);
    let again = open(&mut streams, "a");
    assert_eq!(join(&streams, "a"), Join::Reuse(again));
    assert_ne!(a, again);
}

#[test]
fn stream_closes_with_its_last_output() {
    let mut streams = Streams::new();
    let a = open(&mut streams, "a");
    let b = open(&mut streams, "b");
    streams.join(a);
    assert!(!streams.leave(a));
    assert_eq!(join(&streams, "a"), Join::Reuse(a));
    assert!(streams.leave(a));
    assert_eq!(join(&streams, "a"), Join::Open);
    assert_eq!(join(&streams, "b"), Join::Reuse(b));
}

#[test]
fn underrun_is_no_failure() {
    let mut streams = Streams::new();
    let a = open(&mut streams, "a");
    streams.report(a, true);
    assert!(!streams.devices[a].failed);
    streams.report(a, false);
    assert!(streams.devices[a].failed);
    streams.report(a, true);
    assert!(streams.devices[a].failed);
    assert_eq!(streams.devices[a].id, "a");
}

#[test]
fn every_output_on_a_stream_sees_its_failure() {
    let mut cells = Cells::new();
    let mut streams = Streams::new();
    let a = open(&mut streams, "a");
    streams.join(a);
    let b = open(&mut streams, "b");
    let one = output(&mut cells, a).0;
    let two = output(&mut cells, a).0;
    let other = output(&mut cells, b).0;
    streams.report(a, true);
    assert!(!one.failed(&streams) && !two.failed(&streams) && !other.failed(&streams));
    streams.report(a, false);
    assert!(one.failed(&streams) && two.failed(&streams) && !other.failed(&streams));
    streams.report(a, true);
    streams.leave(a);
    assert!(one.failed(&streams) && two.failed(&streams) && !other.failed(&streams));
}

#[test]
fn output_moves_with_the_default() {
    let mut streams = Streams::new();
    let a = open(&mut streams, "a");
    let output = output(&mut Cells::new(), a).0;
    assert!(!output.changed(Some(&"a".to_string()), &streams));
    assert!(output.changed(Some(&"b".to_string()), &streams));
}

#[test]
fn output_stays_without_a_known_default() {
    let mut streams = Streams::new();
    let a = open(&mut streams, "a");
    let output = output(&mut Cells::new(), a).0;
    assert!(!output.changed(None, &streams));
    assert!(!output.changed(Some(&"unknown".to_string()), &streams));
}

#[test]
fn output_that_moves_changes_stream() {
    let mut streams = Streams::new();
    let a = open(&mut streams, "a");
    open(&mut streams, "b");
    let output = output(&mut Cells::new(), a).0;
    let ways = [("a", Join::Reuse(0)), ("b", Join::Reuse(1)), ("c", Join::Open)];
    for (name, way) in ways {
        assert_eq!(join(&streams, name), way);
        assert_eq!(output.changed(Some(&name.to_string()), &streams), way != Join::Reuse(a));
    }
}

#[test]
fn set_volume_reaches_its_own_source_alone() {
    let mut cells = Cells::new();
    let (one, mut loud) = output(&mut cells, 0);
    let (two, mut soft) = output(&mut cells, 0);
    one.set_volume(&mut cells, (-2.0f32).to_bits());
    assert_eq!(one.volume.get(&cells), (-2.0f32).to_bits());
    assert_eq!(two.volume.get(&cells), 1.0f32.to_bits());
    loud.next(1, 1_000, &cells);
    assert_eq!(loud.target, 0);
    soft.next(1, 1_000, &cells);
    assert_eq!(soft.target, 1.0f32.to_bits());
}
