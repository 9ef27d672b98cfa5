//! The streams on output devices, and the players on them.

use crate::smooth::{ramp_length, Phase, SmoothGain};
use crate::span::{at_most, frames, law_nearest_sample, step_count, Span};
use crate::volume::{nonnegative, Cells, Chain, Volume};
use vstd::prelude::*;

verus! {

/// The milliseconds that a new gain takes to be reached.
pub const RAMP_MILLIS: u64 = 25;

/// The milliseconds of sound that the device's buffer holds.
pub const BUFFER_MILLIS: u64 = 50;

/// How long a new gain takes to be reached.
pub open spec fn ramp_span() -> Span {
    Span { secs: 0, nanos: 25_000_000 }
}

/// How much sound the device's buffer holds.
pub open spec fn buffer_span() -> Span {
    Span { secs: 0, nanos: 50_000_000 }
}

/// What a device is known by, given the id that it reported, if it did.
pub fn ident(id: Option<String>) -> (r: String)
    ensures
        r@ == match id {
            Some(name) => name@,
            None => "unknown"@,
        },
{
    match id {
        Some(name) => name,
        None => "unknown".to_owned(),
    }
}

/// What an optional name holds.
pub open spec fn name_in(name: Option<&String>) -> Option<Seq<char>> {
    match name {
        Some(name) => Some(name@),
        None => None,
    }
}

/// How to come by a stream on the default device.
#[derive(Clone, Copy, Debug, PartialEq, Eq, Structural)]
pub enum Join {
    /// There is no default device.
    Missing,
    /// Join the stream at this place.
    Reuse(usize),
    /// Open a stream.
    Open,
}

/// One stream on an output device, and the number of outputs that hold it. It
/// is open as long as one does.
pub struct Device {
    pub id: String,
    pub failed: bool,
    pub outputs: usize,
}

/// All streams that were opened, in their order. Each keeps its place for good,
/// also once it is closed, so that an error that comes late is never taken for
/// one of another stream.
pub struct Streams {
    pub devices: Vec<Device>,
}

impl View for Streams {
    type V = Seq<Device>;

    open spec fn view(&self) -> Seq<Device> {
        self.devices@
    }
}

/// Whether `join` is a way to a stream on the device known as `default`: one
/// that is held and healthy if there is one, and else one to be opened.
pub open spec fn leads_to(default: Option<Seq<char>>, devices: Seq<Device>, join: Join) -> bool {
    match default {
        None => join is Missing,
        Some(name) => match join {
            Join::Missing => false,
            Join::Reuse(i) => i < devices.len() && devices[i as int].serves(name),
            Join::Open => forall|i: int|
                0 <= i < devices.len() ==> !(#[trigger] devices[i]).serves(name),
        },
    }
}

/// The streams with one more output on the stream at `stream`.
pub open spec fn joined(devices: Seq<Device>, stream: usize) -> Seq<Device> {
    let device = devices[stream as int];
    devices.update(stream as int, Device { outputs: (device.outputs + 1) as usize, ..device })
}

/// The streams with one output less on the stream at `stream`.
pub open spec fn left(devices: Seq<Device>, stream: usize) -> Seq<Device> {
    let device = devices[stream as int];
    devices.update(stream as int, Device { outputs: (device.outputs - 1) as usize, ..device })
}

/// The streams after an error on the stream at `stream`. An underrun does no
/// harm; any other error means that the stream has failed, for good.
pub open spec fn reported(devices: Seq<Device>, stream: usize, underrun: bool) -> Seq<Device> {
    let device = devices[stream as int];
    devices.update(stream as int, Device { failed: device.failed || !underrun, ..device })
}

impl Device {
    /// Whether an output holds this stream, and it is a healthy one on the
    /// device known as `name`.
    pub open spec fn serves(self, name: Seq<char>) -> bool {
        self.outputs > 0 && !self.failed && self.id@ == name
    }

    /// Decides how to come by a stream on the device known as `default`.
    pub fn shared(default: Option<&String>, streams: &Streams) -> (r: Join)
        ensures
            leads_to(name_in(default), streams@, r),
            default is None <==> r == Join::Missing,
            r matches Join::Reuse(i) ==> {
                &&& i < streams@.len()
                &&& streams@[i as int].id@ == default->0@
                &&& !streams@[i as int].failed
                &&& streams@[i as int].outputs > 0
            },
            r == Join::Open ==> forall|i: int|
                0 <= i < streams@.len() ==> (#[trigger] streams@[i]).id@ != default->0@
                    || streams@[i].failed || streams@[i].outputs == 0,
    {
        let id: &String = match default {
            Some(id) => id,
            None => return Join::Missing,
        };
        let mut i: usize = 0;
        while i < streams.devices.len()
            invariant
                name_in(default) == Some(id@),
                i <= streams.devices.len(),
                forall|j: int| 0 <= j < i ==> !(#[trigger] streams@[j]).serves(id@),
            decreases streams.devices.len() - i,
        {
            let device = &streams.devices[i];
            if device.outputs > 0 && !device.failed && device.id == *id {
                return Join::Reuse(i);
            }
            i = i + 1;
        }
        Join::Open
    }

    /// A new stream on the device known as `id`, for one output, and the frames
    /// that its buffer holds at `rate` frames a second.
    pub fn open(id: String, rate: u32) -> (r: (Device, u32))
        ensures
            r.0 == (Device { id, failed: false, outputs: 1 }),
            r.1 == at_most(step_count(buffer_span(), rate as nat), u32::MAX as nat),
    {
        let buffer = Span::from_millis(BUFFER_MILLIS);
        let n: u32 = frames(buffer, rate);
        (Device { id, failed: false, outputs: 1 }, n)
    }
}

impl Streams {
    /// No device has two streams that are held and healthy.
    pub open spec fn wf(self) -> bool {
        apart(self@)
    }

    /// No streams.
    pub fn new() -> (r: Streams)
        ensures
            r.wf(),
            r@ == Seq::<Device>::empty(),
    {
        Streams { devices: Vec::new() }
    }

    /// Adds a stream that was opened because there was none to join. Returns
    /// its place.
    pub fn open(&mut self, device: Device) -> (r: usize)
        requires
            old(self).wf(),
            leads_to(Some(device.id@), old(self)@, Join::Open),
        ensures
            final(self).wf(),
            final(self)@ == old(self)@.push(device),
            r == old(self)@.len(),
    {
        let place: usize = self.devices.len();
        self.devices.push(device);
        place
    }

    /// One more output holds the stream.
    pub fn join(&mut self, stream: usize)
        requires
            old(self).wf(),
            stream < old(self)@.len(),
            0 < old(self)@[stream as int].outputs < usize::MAX,
        ensures
            final(self).wf(),
            final(self)@ == joined(old(self)@, stream),
            final(self)@ == old(self)@.update(
                stream as int,
                Device {
                    outputs: (old(self)@[stream as int].outputs + 1) as usize,
                    ..old(self)@[stream as int]
                },
            ),
    {
        let n: usize = self.devices[stream].outputs;
        self.devices[stream].outputs = n + 1;
    }

    /// One output less holds the stream. Says whether it was the last, so that
    /// the stream closes.
    pub fn leave(&mut self, stream: usize) -> (r: bool)
        requires
            old(self).wf(),
            stream < old(self)@.len(),
            0 < old(self)@[stream as int].outputs,
        ensures
            final(self).wf(),
            final(self)@ == left(old(self)@, stream),
            final(self)@ == old(self)@.update(
                stream as int,
                Device {
                    outputs: (old(self)@[stream as int].outputs - 1) as usize,
                    ..old(self)@[stream as int]
                },
            ),
            r == (old(self)@[stream as int].outputs == 1),
            r == (final(self)@[stream as int].outputs == 0),
    {
        let n: usize = self.devices[stream].outputs;
        self.devices[stream].outputs = n - 1;
        n == 1
    }

    /// Hears of an error on the stream.
    pub fn report(&mut self, stream: usize, underrun: bool)
        requires
            old(self).wf(),
            stream < old(self)@.len(),
        ensures
            final(self).wf(),
            final(self)@ == reported(old(self)@, stream, underrun),
            underrun ==> final(self)@ == old(self)@,
            !underrun ==> final(self)@ == old(self)@.update(
                stream as int,
                Device { failed: true, ..old(self)@[stream as int] },
            ),
    {
        if !underrun {
            self.devices[stream].failed = true;
        }
    }
}

/// No device has two streams that are held and healthy.
pub open spec fn apart(devices: Seq<Device>) -> bool {
    forall|i: int, j: int|
        0 <= i < j < devices.len() ==> !((#[trigger] devices[i]).serves(devices[j].id@) && (
        #[trigger] devices[j]).serves(devices[j].id@))
}

/// One engine's player on the stream at a place.
pub struct Output<P> {
    pub sink: P,
    pub volume: Volume,
    pub stream: usize,
}

/// Whether an output on the device known as `id` has to move when the default
/// device is known as `default`.
pub open spec fn moved(default: Option<Seq<char>>, id: Seq<char>) -> bool {
    default is Some && default->0 != "unknown"@ && default->0 != id
}

impl<P> Output<P> {
    /// The output's stream is one of `devices`.
    pub open spec fn within(self, devices: Seq<Device>) -> bool {
        self.stream < devices.len()
    }

    /// Whether the output's stream has failed.
    pub open spec fn sees_failure(self, devices: Seq<Device>) -> bool {
        devices[self.stream as int].failed
    }

    /// Puts the player `sink` on the stream at `stream`. What it plays has gone
    /// through the equalizer of `chain`; the volume ramp comes next, at the
    /// gain of the moment, and the tap of `chain` listens at the end.
    pub fn open<I, T>(chain: Chain<I, T>, cells: &Cells, stream: usize, sink: P) -> (r: (
        Self,
        SmoothGain<I, T>,
    ))
        requires
            chain.volume.within(cells@),
        ensures
            r.0 == (Output { sink, volume: chain.volume, stream }),
            r.1.wf(),
            r.1.ramp == (Span { secs: 0, nanos: 25_000_000 }),
            r.1.current == cells@[chain.volume.cell as int],
            r.1.target == cells@[chain.volume.cell as int],
            r.1 == (SmoothGain {
                input: chain.equalizer,
                volume: chain.volume,
                tap: Some(chain.spectrum),
                current: chain.volume.gain(cells@),
                target: chain.volume.gain(cells@),
                step: 0,
                ramp: ramp_span(),
                frames_left: 0,
                ramp_frames: 1,
                channel: 0,
                channels: 0,
                rate: 0,
                phase: Phase::Sample,
            }),
    {
        let Chain { volume, equalizer, spectrum } = chain;
        let applied: u32 = volume.get(cells);
        let ramp = Span::from_millis(RAMP_MILLIS);
        let gain = SmoothGain::new(equalizer, volume, applied, ramp).with_tap(spectrum);
        (Output { sink, volume, stream }, gain)
    }

    /// The player.
    pub fn sink(&self) -> (r: &P)
        ensures
            *r == self.sink,
    {
        &self.sink
    }

    /// Asks for `gain` from now on.
    pub fn set_volume(&self, cells: &mut Cells, gain: u32)
        requires
            self.volume.within(old(cells)@),
        ensures
            final(cells)@ == self.volume.stored(old(cells)@, gain),
            final(cells)@ == old(cells)@.update(self.volume.cell as int, gain),
    {
        self.volume.set(cells, gain);
    }

    /// Whether the device stream reported an error. Every output on the stream
    /// sees it.
    pub fn failed(&self, streams: &Streams) -> (r: bool)
        requires
            self.within(streams@),
        ensures
            r == self.sees_failure(streams@),
            r == streams@[self.stream as int].failed,
    {
        streams.devices[self.stream].failed
    }

    /// Whether `default`, what the default device is known by, is no longer the
    /// device that this output plays on. A device without a name, or none at
    /// all, is no reason to leave.
    pub fn changed(&self, default: Option<&String>, streams: &Streams) -> (r: bool)
        requires
            self.within(streams@),
        ensures
            r == moved(name_in(default), streams@[self.stream as int].id@),
            r <==> default is Some && default->0@ != "unknown"@ && default->0@
                != streams@[self.stream as int].id@,
    {
        match default {
            Some(id) => *id != "unknown".to_owned() && *id != streams.devices[self.stream].id,
            None => false,
        }
    }
}

/// A device has one stream, however many join: with a healthy one held there,
/// that is the one to join, whichever streams were opened since, and with none,
/// one is opened.
pub proof fn law_one_stream_per_device(
    name: Seq<char>,
    devices: Seq<Device>,
    stream: usize,
    join: Join,
)
    requires
        apart(devices),
        stream < devices.len(),
        devices[stream as int].serves(name),
        leads_to(Some(name), devices, join),
    ensures
        join == Join::Reuse(stream),
{
    if let Join::Reuse(i) = join {
        if i < stream {
            assert(devices[i as int].serves(devices[stream as int].id@));
        } else if i > stream {
            assert(devices[stream as int].serves(devices[i as int].id@));
        }
    }
}

/// A stream that has failed, or that no output holds, is joined by nobody.
pub proof fn law_dead_stream_is_left_alone(
    default: Option<Seq<char>>,
    devices: Seq<Device>,
    stream: usize,
    join: Join,
)
    requires
        stream < devices.len(),
        devices[stream as int].failed || devices[stream as int].outputs == 0,
        leads_to(default, devices, join),
    ensures
        join != Join::Reuse(stream),
{
}

/// A stream closes when the last output on it leaves, and not before. Its other
/// outputs, and those on other streams, stay where they are.
pub proof fn law_last_output_closes(devices: Seq<Device>, stream: usize, other: usize)
    requires
        stream < devices.len(),
        other < devices.len(),
        devices[stream as int].outputs > 0,
    ensures
        left(devices, stream)[stream as int].outputs == 0 <==> devices[stream as int].outputs
            == 1,
        other != stream ==> left(devices, stream)[other as int] == devices[other as int],
        left(devices, stream)[stream as int].id == devices[stream as int].id,
        left(devices, stream)[stream as int].failed == devices[stream as int].failed,
        devices[stream as int].outputs < usize::MAX ==> left(
            joined(devices, stream),
            stream,
        ) =~= devices,
{
}

/// An output that joins the default device stays there; one that has to move
/// does not get its own stream again.
pub proof fn law_moving_changes_stream<P>(
    output: Output<P>,
    name: Seq<char>,
    devices: Seq<Device>,
    join: Join,
)
    requires
        output.within(devices),
        leads_to(Some(name), devices, join),
    ensures
        join == Join::Reuse(output.stream) ==> !moved(
            Some(name),
            devices[output.stream as int].id@,
        ),
        moved(Some(name), devices[output.stream as int].id@) ==> join != Join::Reuse(
            output.stream,
        ),
{
}

/// A gain that an output is set to is what its source aims at from the next
/// frame on, or zero where it is no number from zero up. It was stored as it is,
/// and sources with another volume go on as if nothing had happened.
pub proof fn law_set_volume_is_followed<P, I, T>(
    output: Output<P>,
    source: SmoothGain<I, T>,
    gains: Seq<u32>,
    gain: u32,
    channels: u16,
    rate: u32,
)
    requires
        source.wf(),
        source.channel == 0,
        source.phase == Phase::Sample,
        channels > 0,
        output.volume.within(gains),
        source.volume.within(gains),
    ensures
        output.volume.gain(output.volume.stored(gains, gain)) == gain,
        source.volume == output.volume ==> source.framed(
            channels,
            rate,
            output.volume.stored(gains, gain),
        ).0.target == nonnegative(gain),
        source.volume != output.volume ==> source.framed(
            channels,
            rate,
            output.volume.stored(gains, gain),
        ) == source.framed(channels, rate, gains),
{
}

/// What happens to streams.
pub enum StreamEvent {
    Opened { device: Device },
    Joined { stream: usize },
    Left { stream: usize },
    Reported { stream: usize, underrun: bool },
}

/// The streams after an event, if it is one on a stream that is there.
pub open spec fn after_event(devices: Seq<Device>, event: StreamEvent) -> Seq<Device> {
    match event {
        StreamEvent::Opened { device } => devices.push(device),
        StreamEvent::Joined { stream } => if stream < devices.len() {
            joined(devices, stream)
        } else {
            devices
        },
        StreamEvent::Left { stream } => if stream < devices.len() {
            left(devices, stream)
        } else {
            devices
        },
        StreamEvent::Reported { stream, underrun } => if stream < devices.len() {
            reported(devices, stream, underrun)
        } else {
            devices
        },
    }
}

/// The streams after some events, one after the other.
pub open spec fn after_events(devices: Seq<Device>, events: Seq<StreamEvent>) -> Seq<Device>
    decreases events.len(),
{
    if events.len() == 0 {
        devices
    } else {
        after_event(after_events(devices, events.drop_last()), events.last())
    }
}

/// Whether an error other than an underrun is among `events` on the stream at
/// `stream`.
pub open spec fn breaks(events: Seq<StreamEvent>, stream: usize) -> bool {
    events.contains(StreamEvent::Reported { stream, underrun: false })
}

/// Whatever happens, a stream has failed if and only if it had before or an
/// error other than an underrun was reported on it since, and it stays on its
/// device.
pub proof fn law_failure_is_final(devices: Seq<Device>, events: Seq<StreamEvent>, stream: usize)
    requires
        stream < devices.len(),
    ensures
        after_events(devices, events).len() >= devices.len(),
        after_events(devices, events)[stream as int].id == devices[stream as int].id,
        after_events(devices, events)[stream as int].failed == (devices[stream as int].failed
            || breaks(events, stream)),
    decreases events.len(),
{
    if events.len() > 0 {
        let before = events.drop_last();
        let last = events.last();
        let error = StreamEvent::Reported { stream, underrun: false };
        law_failure_is_final(devices, before, stream);
        assert(breaks(events, stream) == (breaks(before, stream) || last == error)) by {
            if breaks(events, stream) {
                let k = choose|k: int| 0 <= k < events.len() && events[k] == error;
                if k < before.len() {
                    assert(before[k] == error);
                }
            }
            if breaks(before, stream) {
                let k = choose|k: int| 0 <= k < before.len() && before[k] == error;
                assert(events[k] == error);
            }
            if last == error {
                assert(events[events.len() - 1] == error);
            }
        }
    }
}

/// Outputs on one stream agree on whether it has failed: it has, if it had not
/// at first, exactly when an error other than an underrun was reported on that
/// stream.
pub proof fn law_outputs_agree<P, Q>(
    one: Output<P>,
    two: Output<Q>,
    devices: Seq<Device>,
    events: Seq<StreamEvent>,
)
    requires
        one.within(devices),
        one.stream == two.stream,
        !devices[one.stream as int].failed,
    ensures
        one.sees_failure(after_events(devices, events)) == two.sees_failure(
            after_events(devices, events),
        ),
        one.sees_failure(after_events(devices, events)) == breaks(events, one.stream),
{
    law_failure_is_final(devices, events, one.stream);
}

/// A stream that is joined is one that some output holds, that has not failed,
/// and that is on the very device asked for, its whole name. One is opened only
/// where there is no such stream, and there is none to come by only where there
/// is no default device.
pub proof fn law_joined_stream_is_on_the_device(
    default: Option<Seq<char>>,
    devices: Seq<Device>,
    join: Join,
)
    requires
        leads_to(default, devices, join),
    ensures
        join == Join::Missing <==> default is None,
        join matches Join::Reuse(i) ==> {
            &&& default is Some
            &&& i < devices.len()
            &&& devices[i as int].id@ == default->0
            &&& !devices[i as int].failed
            &&& devices[i as int].outputs > 0
        },
        join == Join::Open ==> forall|i: int|
            0 <= i < devices.len() && !(#[trigger] devices[i]).failed && devices[i].outputs > 0
                ==> devices[i].id@ != default->0,
{
    if join == Join::Open {
        assert forall|i: int|
            0 <= i < devices.len() && !(#[trigger] devices[i]).failed && devices[i].outputs
                > 0 implies devices[i].id@ != default->0 by {
            assert(!devices[i].serves(default->0));
        }
    }
}

/// A stream that some output holds, that has not failed and is on the device
/// asked for is joined rather than another one opened, be it the only one or one
/// of many, and with two such on different devices each name leads to its own.
pub proof fn law_each_name_leads_to_its_own(
    devices: Seq<Device>,
    one: usize,
    two: usize,
    to_one: Join,
    to_two: Join,
)
    requires
        apart(devices),
        one < devices.len(),
        two < devices.len(),
        devices[one as int].outputs > 0,
        devices[two as int].outputs > 0,
        !devices[one as int].failed,
        !devices[two as int].failed,
        devices[one as int].id@ != devices[two as int].id@,
        leads_to(Some(devices[one as int].id@), devices, to_one),
        leads_to(Some(devices[two as int].id@), devices, to_two),
    ensures
        to_one == Join::Reuse(one),
        to_two == Join::Reuse(two),
        one != two,
{
    assert(devices[one as int].serves(devices[one as int].id@));
    assert(devices[two as int].serves(devices[two as int].id@));
    law_one_stream_per_device(devices[one as int].id@, devices, one, to_one);
    law_one_stream_per_device(devices[two as int].id@, devices, two, to_two);
}

/// The streams are in order exactly if any two that are held and healthy are on
/// devices of different names.
pub proof fn law_apart_by_name(devices: Seq<Device>)
    ensures
        apart(devices) <==> forall|i: int, j: int|
            0 <= i < j < devices.len() && (#[trigger] devices[i]).outputs > 0
                && !devices[i].failed && (#[trigger] devices[j]).outputs > 0
                && !devices[j].failed ==> devices[i].id@ != devices[j].id@,
{
    if apart(devices) {
        assert forall|i: int, j: int|
            0 <= i < j < devices.len() && (#[trigger] devices[i]).outputs > 0
                && !devices[i].failed && (#[trigger] devices[j]).outputs > 0
                && !devices[j].failed implies devices[i].id@ != devices[j].id@ by {
            if devices[i].id@ == devices[j].id@ {
                assert(devices[i].serves(devices[j].id@));
                assert(devices[j].serves(devices[j].id@));
            }
        }
    }
}

/// An output has to move exactly when the default device has a name that is
/// known and that differs anywhere from the name of the output's own: in its
/// length or at some place.
pub proof fn law_any_difference_moves(default: Option<Seq<char>>, id: Seq<char>)
    ensures
        moved(default, id) <==> default is Some && default->0 != "unknown"@ && (
        default->0.len() != id.len() || exists|i: int|
            0 <= i < id.len() && #[trigger] default->0[i] != id[i]),
        default is None ==> !moved(default, id),
        default == Some(id) ==> !moved(default, id),
{
    if default is Some && !(default->0.len() != id.len() || exists|i: int|
        0 <= i < id.len() && #[trigger] default->0[i] != id[i]) {
        assert(default->0 =~= id);
    }
}

/// Of two devices whose names are known and differ, an output on either has to
/// move when the other becomes the default.
pub proof fn law_moving_goes_both_ways(one: Seq<char>, two: Seq<char>)
    requires
        one != two,
        one != "unknown"@,
        two != "unknown"@,
    ensures
        moved(Some(one), two),
        moved(Some(two), one),
{
}

/// What becomes of each stream when an output joins one or leaves it, and when
/// an error is reported on it: the others stay as they are, none changes its
/// device, joining and leaving change the number of outputs by one and nothing
/// else, and an error changes nothing but that the stream has failed, and that
/// only if it is no underrun.
pub proof fn law_one_stream_changes(devices: Seq<Device>, stream: usize, place: int, underrun: bool)
    requires
        stream < devices.len(),
        0 <= place < devices.len(),
    ensures
        joined(devices, stream).len() == devices.len(),
        left(devices, stream).len() == devices.len(),
        reported(devices, stream, underrun).len() == devices.len(),
        place != stream ==> {
            &&& joined(devices, stream)[place] == devices[place]
            &&& left(devices, stream)[place] == devices[place]
            &&& reported(devices, stream, underrun)[place] == devices[place]
        },
        place == stream ==> {
            let device = devices[place];
            let more = joined(devices, stream)[place];
            let less = left(devices, stream)[place];
            let after = reported(devices, stream, underrun)[place];
            &&& device.outputs < usize::MAX ==> more.outputs == device.outputs + 1
            &&& device.outputs > 0 ==> less.outputs == device.outputs - 1
            &&& after.outputs == device.outputs
            &&& more.failed == device.failed
            &&& less.failed == device.failed
            &&& after.failed == (device.failed || !underrun)
            &&& more.id == device.id
            &&& less.id == device.id
            &&& after.id == device.id
        },
{
}

/// The buffer of a stream holds a twentieth of a second, to the nearest frame,
/// at every rate.
pub proof fn law_buffer_holds_a_twentieth(rate: u32)
    ensures
        20 * step_count(buffer_span(), rate as nat) <= rate + 10,
        rate <= 20 * step_count(buffer_span(), rate as nat) + 10,
        at_most(step_count(buffer_span(), rate as nat), u32::MAX as nat) == step_count(
            buffer_span(),
            rate as nat,
        ),
{
    assert(buffer_span()@ == 50_000_000);
    assert(buffer_span()@ * rate == 50_000_000 * rate);
    law_nearest_sample(buffer_span(), rate as nat);
}

/// The ramp of an output takes a fortieth of a second, to the nearest frame, and
/// one frame at least.
pub proof fn law_ramp_takes_a_fortieth(rate: u32)
    ensures
        ({
            let n = ramp_length(ramp_span(), rate);
            &&& n >= 1
            &&& n > 1 ==> 40 * n <= rate + 20
            &&& rate <= 40 * n + 20
        }),
{
    assert(ramp_span()@ == 25_000_000);
    assert(ramp_span()@ * rate == 25_000_000 * rate);
    law_nearest_sample(ramp_span(), rate as nat);
}

} // verus!
