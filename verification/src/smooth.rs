//! A volume that moves to a new gain over a few frames, and not at once.

use crate::span::{at_most, frames, law_nearest_sample, step_count, Span};
use crate::volume::{nonnegative, Cells, Volume};
use vstd::prelude::*;

verus! {

/// What the ramp waits for.
#[derive(Clone, Copy, Debug, PartialEq, Eq, Structural)]
pub enum Phase {
    /// The next sample.
    Sample,
    /// The step of a new slope.
    Slope,
    /// The sum of the gain and the step.
    Sum,
}

/// What the ramp asks for next.
#[derive(Clone, Copy, Debug, PartialEq, Eq, Structural)]
pub enum Action {
    /// Take `from` off `to`, divide by `frames`, and report the step.
    Slope { from: u32, to: u32, frames: u32 },
    /// Add `step` to `gain` and report the sum.
    Sum { gain: u32, step: u32 },
    /// Multiply the sample by `gain` and pass it on.
    Scale { gain: u32 },
}

/// A source whose samples are scaled by a gain that follows the volume.
pub struct SmoothGain<I, T> {
    pub input: I,
    pub volume: Volume,
    pub tap: Option<T>,
    pub current: u32,
    pub target: u32,
    pub step: u32,
    pub ramp: Span,
    pub frames_left: u32,
    pub ramp_frames: u32,
    pub channel: u16,
    pub channels: u16,
    pub rate: u32,
    pub phase: Phase,
}

/// The frames that a ramp of length `ramp` takes at `rate` frames a second, at
/// least one.
pub open spec fn ramp_length(ramp: Span, rate: u32) -> nat {
    let n = at_most(step_count(ramp, rate as nat), u32::MAX as nat);
    if n == 0 {
        1
    } else {
        n
    }
}

impl<I, T> SmoothGain<I, T> {
    /// A ramp has a frame or more, as many as its length has at the rate of the
    /// moment, and is never longer than it was made; the channel is one of the
    /// format's; a gain that is not on its way anywhere is on target.
    pub open spec fn wf(self) -> bool {
        &&& self.ramp.wf()
        &&& self.ramp_frames > 0
        &&& self.channels > 0 ==> self.ramp_frames == ramp_length(self.ramp, self.rate)
        &&& self.frames_left <= self.ramp_frames
        &&& self.channel < self.channels || (self.channel == 0 && self.channels == 0)
        &&& self.frames_left == 0 ==> self.current == self.target
        &&& self.phase != Phase::Sample ==> self.channel == 0 && self.channels > 0
            && self.frames_left > 0
        &&& self.phase == Phase::Slope ==> self.frames_left == self.ramp_frames
    }

    /// Whether a frame of `channels` at `rate` frames a second is in a new format.
    pub open spec fn reformats(self, channels: u16, rate: u32) -> bool {
        channels != self.channels || rate != self.rate
    }

    /// The state after the format has become `channels` at `rate`.
    pub open spec fn synced(self, channels: u16, rate: u32) -> Self {
        if !self.reformats(channels, rate) {
            self
        } else {
            let length = ramp_length(self.ramp, rate);
            SmoothGain {
                channels,
                rate,
                ramp_frames: length as u32,
                frames_left: at_most(self.frames_left as nat, length) as u32,
                ..self
            }
        }
    }

    /// The state once a sample has been scaled: the next channel's turn.
    pub open spec fn advanced(self) -> Self {
        SmoothGain {
            channel: if self.channel + 1 >= self.channels {
                0
            } else {
                (self.channel + 1) as u16
            },
            phase: Phase::Sample,
            ..self
        }
    }

    /// The state with a slope asked for that leads to `gain`.
    pub open spec fn aimed(self, gain: u32) -> Self {
        SmoothGain {
            target: gain,
            frames_left: self.ramp_frames,
            phase: Phase::Slope,
            ..self
        }
    }

    /// The state one frame further down the ramp, `sum` being the gain and the
    /// step added up. The last frame is on target whatever the sum.
    pub open spec fn stepped(self, sum: u32) -> Self {
        SmoothGain {
            current: if self.frames_left == 1 {
                self.target
            } else {
                sum
            },
            frames_left: (self.frames_left - 1) as u32,
            ..self
        }
    }

    /// How the first sample of a frame goes on, in frames of `channels` at `rate`
    /// frames a second: a volume that is not the target is aimed at, and else
    /// what is left of the ramp is followed.
    pub open spec fn framed(self, channels: u16, rate: u32, gains: Seq<u32>) -> (Self, Action) {
        let synced = self.synced(channels, rate);
        let gain = nonnegative(self.volume.gain(gains));
        if gain != synced.target {
            (
                synced.aimed(gain),
                Action::Slope { from: synced.current, to: gain, frames: synced.ramp_frames },
            )
        } else if synced.frames_left > 0 {
            (
                SmoothGain { phase: Phase::Sum, ..synced },
                Action::Sum { gain: synced.current, step: synced.step },
            )
        } else {
            (synced.advanced(), Action::Scale { gain: synced.target })
        }
    }

    /// The state once the first sample of a frame was scaled, `step` being the
    /// step of a new slope and `sum` the gain and the step added up, where they
    /// are asked for.
    pub open spec fn entered(
        self,
        channels: u16,
        rate: u32,
        gains: Seq<u32>,
        step: u32,
        sum: u32,
    ) -> Self {
        let (next, action) = self.framed(channels, rate, gains);
        match action {
            Action::Slope { .. } => (SmoothGain { step, ..next }).stepped(sum).advanced(),
            Action::Sum { .. } => next.stepped(sum).advanced(),
            Action::Scale { .. } => next,
        }
    }

    /// The state after as many whole frames as there are answers, each a step
    /// and a sum.
    pub open spec fn carried(
        self,
        channels: u16,
        rate: u32,
        gains: Seq<u32>,
        answers: Seq<(u32, u32)>,
    ) -> Self
        decreases answers.len(),
    {
        if answers.len() == 0 {
            self
        } else {
            let (step, sum) = answers.last();
            self.carried(channels, rate, gains, answers.drop_last()).entered(
                channels,
                rate,
                gains,
                step,
                sum,
            ).turned((channels - 1) as nat)
        }
    }

    /// The state after `n` samples were scaled.
    pub open spec fn turned(self, n: nat) -> Self
        decreases n,
    {
        if n == 0 {
            self
        } else {
            self.turned((n - 1) as nat).advanced()
        }
    }

    /// A source that plays `input` at `initial` until `volume` says otherwise,
    /// and then takes `ramp` to get there.
    pub fn new(input: I, volume: Volume, initial: u32, ramp: Span) -> (r: Self)
        requires
            ramp.wf(),
        ensures
            r.wf(),
            r == (SmoothGain {
                input,
                volume,
                tap: None::<T>,
                current: initial,
                target: initial,
                step: 0,
                ramp,
                frames_left: 0,
                ramp_frames: 1,
                channel: 0,
                channels: 0,
                rate: 0,
                phase: Phase::Sample,
            }),
    {
        SmoothGain {
            input,
            volume,
            tap: None,
            current: initial,
            target: initial,
            step: 0,
            ramp,
            frames_left: 0,
            ramp_frames: 1,
            channel: 0,
            channels: 0,
            rate: 0,
            phase: Phase::Sample,
        }
    }

    /// The same source, with `tap` listening to what it plays.
    pub fn with_tap(self, tap: T) -> (r: Self)
        requires
            self.wf(),
        ensures
            r.wf(),
            r == (SmoothGain { tap: Some(tap), ..self }),
    {
        let mut r = self;
        r.tap = Some(tap);
        r
    }

    /// Takes up the format of the frame that begins. Says whether the tap has
    /// to hear of a new one.
    pub fn resync(&mut self, channels: u16, rate: u32) -> (r: bool)
        requires
            old(self).ramp.wf(),
        ensures
            *final(self) == old(self).synced(channels, rate),
            final(self).channels == channels,
            final(self).rate == rate,
            channels == old(self).channels && rate == old(self).rate ==> *final(self) == *old(self),
            *final(self) == (SmoothGain {
                channels,
                rate,
                ramp_frames: final(self).ramp_frames,
                frames_left: final(self).frames_left,
                ..*old(self)
            }),
            channels != old(self).channels || rate != old(self).rate ==> {
                &&& final(self).ramp_frames == if step_count(old(self).ramp, rate as nat) == 0 {
                    1
                } else if step_count(old(self).ramp, rate as nat) <= u32::MAX {
                    step_count(old(self).ramp, rate as nat)
                } else {
                    u32::MAX as nat
                }
                &&& final(self).frames_left == if old(self).frames_left <= final(self).ramp_frames {
                    old(self).frames_left
                } else {
                    final(self).ramp_frames
                }
            },
            r == (old(self).tap is Some && old(self).reformats(channels, rate)),
            old(self).wf() && old(self).channel == 0 && old(self).phase == Phase::Sample
                && channels > 0 ==> final(self).wf(),
    {
        if channels == self.channels && rate == self.rate {
            return false;
        }
        self.channels = channels;
        self.rate = rate;
        let n: u32 = frames(self.ramp, rate);
        self.ramp_frames = if n == 0 {
            1
        } else {
            n
        };
        if self.frames_left > self.ramp_frames {
            self.frames_left = self.ramp_frames;
        }
        self.tap.is_some()
    }

    /// Takes the next sample of an input in frames of `channels` at `rate`
    /// frames a second, at the gain that the volume has in `cells`. Says whether
    /// the tap has to hear of a new format, and what to do with the sample.
    pub fn next(&mut self, channels: u16, rate: u32, cells: &Cells) -> (r: (bool, Action))
        requires
            old(self).wf(),
            old(self).phase == Phase::Sample,
            channels > 0,
            old(self).volume.within(cells@),
        ensures
            final(self).wf(),
            r.0 == (old(self).channel == 0 && old(self).tap is Some && old(self).reformats(
                channels,
                rate,
            )),
            old(self).channel != 0 ==> r.1 == (Action::Scale { gain: old(self).current })
                && *final(self) == old(self).advanced(),
            old(self).channel == 0 ==> (*final(self), r.1) == old(self).framed(
                channels,
                rate,
                cells@,
            ),
            old(self).channel == 0 ==> {
                let asked = cells@[old(self).volume.cell as int];
                let gain = if asked <= 0x7f80_0000 {
                    asked
                } else {
                    0
                };
                &&& final(self).target == gain
                &&& final(self).current == old(self).current
                &&& gain != old(self).target ==> {
                    &&& r.1 == (Action::Slope {
                        from: old(self).current,
                        to: gain,
                        frames: final(self).ramp_frames,
                    })
                    &&& final(self).phase == Phase::Slope
                    &&& final(self).frames_left == final(self).ramp_frames
                }
                &&& gain == old(self).target && old(self).frames_left > 0 ==> {
                    &&& r.1 == (Action::Sum { gain: old(self).current, step: old(self).step })
                    &&& final(self).phase == Phase::Sum
                }
                &&& gain == old(self).target && old(self).frames_left == 0 ==> {
                    &&& r.1 == (Action::Scale { gain: old(self).current })
                    &&& final(self).phase == Phase::Sample
                }
            },
    {
        if self.channel != 0 {
            return (false, self.scale());
        }
        let reformat: bool = self.resync(channels, rate);
        let gain: u32 = self.volume.requested(cells);
        if gain != self.target {
            self.target = gain;
            self.frames_left = self.ramp_frames;
            self.phase = Phase::Slope;
            (
                reformat,
                Action::Slope { from: self.current, to: gain, frames: self.ramp_frames },
            )
        } else if self.frames_left > 0 {
            self.phase = Phase::Sum;
            (reformat, Action::Sum { gain: self.current, step: self.step })
        } else {
            (reformat, self.scale())
        }
    }

    /// Takes the step of the slope that was asked for.
    pub fn sloped(&mut self, step: u32) -> (r: Action)
        requires
            old(self).wf(),
            old(self).phase == Phase::Slope,
        ensures
            final(self).wf(),
            *final(self) == (SmoothGain { step, phase: Phase::Sum, ..*old(self) }),
            r == (Action::Sum { gain: old(self).current, step }),
    {
        self.step = step;
        self.phase = Phase::Sum;
        Action::Sum { gain: self.current, step }
    }

    /// Takes the sum of the gain and the step.
    pub fn summed(&mut self, sum: u32) -> (r: Action)
        requires
            old(self).wf(),
            old(self).phase == Phase::Sum,
        ensures
            final(self).wf(),
            *final(self) == old(self).stepped(sum).advanced(),
            r == (Action::Scale { gain: old(self).stepped(sum).current }),
            r == (Action::Scale {
                gain: if old(self).frames_left == 1 {
                    old(self).target
                } else {
                    sum
                },
            }),
            *final(self) == (SmoothGain {
                current: if old(self).frames_left == 1 {
                    old(self).target
                } else {
                    sum
                },
                frames_left: (old(self).frames_left - 1) as u32,
                channel: if old(self).channels > 1 {
                    1
                } else {
                    0
                },
                phase: Phase::Sample,
                ..*old(self)
            }),
    {
        self.current = sum;
        self.frames_left = self.frames_left - 1;
        if self.frames_left == 0 {
            self.current = self.target;
        }
        self.phase = Phase::Sample;
        self.scale()
    }

    /// Has the sample scaled and moves on to the next channel.
    fn scale(&mut self) -> (r: Action)
        requires
            old(self).wf(),
            old(self).phase == Phase::Sample,
            old(self).channels > 0,
        ensures
            final(self).wf(),
            *final(self) == old(self).advanced(),
            r == (Action::Scale { gain: old(self).current }),
    {
        self.channel = if self.channel + 1 >= self.channels {
            0
        } else {
            self.channel + 1
        };
        Action::Scale { gain: self.current }
    }
}

/// The samples of a frame past its first change nothing but whose turn it is.
proof fn lemma_rest_of_frame<I, T>(gain: SmoothGain<I, T>, n: nat)
    requires
        gain.phase == Phase::Sample,
        gain.channels > 0,
        n < gain.channels,
        gain.channel == if gain.channels == 1 {
            0int
        } else {
            1
        },
    ensures
        gain.turned(n) == (SmoothGain {
            channel: if n + 1 < gain.channels && gain.channels > 1 {
                (n + 1) as u16
            } else {
                0
            },
            ..gain
        }),
    decreases n,
{
    if n > 0 {
        lemma_rest_of_frame(gain, (n - 1) as nat);
    }
}

/// Playing on at a volume, whole frame by whole frame, the gain is on target for
/// good once a ramp's frames are over: those of a new ramp where the volume was
/// another one before, or those that were left. Until then it follows the sums.
#[verifier::spinoff_prover]
pub proof fn law_volume_reached<I, T>(
    source: SmoothGain<I, T>,
    channels: u16,
    rate: u32,
    gains: Seq<u32>,
    answers: Seq<(u32, u32)>,
)
    requires
        source.wf(),
        source.channel == 0,
        source.phase == Phase::Sample,
        channels > 0,
        answers.len() > 0,
    ensures
        ({
            let gain = nonnegative(source.volume.gain(gains));
            let synced = source.synced(channels, rate);
            let ramp: nat = if gain != synced.target {
                ramp_length(source.ramp, rate)
            } else {
                synced.frames_left as nat
            };
            let n = answers.len();
            let after = source.carried(channels, rate, gains, answers);
            &&& after.wf()
            &&& after.channel == 0
            &&& after.phase == Phase::Sample
            &&& after.channels == channels
            &&& after.rate == rate
            &&& after.ramp == source.ramp
            &&& after.volume == source.volume
            &&& after.ramp_frames == ramp_length(source.ramp, rate)
            &&& after.step == if gain != synced.target {
                answers[0].0
            } else {
                source.step
            }
            &&& after.target == gain
            &&& after.frames_left == if n < ramp {
                ramp - n
            } else {
                0
            }
            &&& after.current == if n < ramp {
                answers.last().1
            } else {
                gain
            }
        }),
    decreases answers.len(),
{
    let (step, sum) = answers.last();
    let before = answers.drop_last();
    let prior = source.carried(channels, rate, gains, before);
    if before.len() > 0 {
        law_volume_reached(source, channels, rate, gains, before);
    }
    let entered = prior.entered(channels, rate, gains, step, sum);
    lemma_rest_of_frame(entered, (channels - 1) as nat);
}

/// The samples of one frame are all scaled by the same gain, and after them it
/// is the first channel's turn again. Nothing else changes on the way.
pub proof fn law_frame_shares_gain<I, T>(gain: SmoothGain<I, T>, n: nat)
    requires
        gain.wf(),
        gain.channel == 0,
        0 < n <= gain.channels,
    ensures
        gain.turned(n).current == gain.current,
        gain.turned(n).frames_left == gain.frames_left,
        gain.turned(n).channels == gain.channels,
        gain.turned(n).channel == if n < gain.channels {
            n
        } else {
            0
        },
        gain.turned(n) == (SmoothGain {
            channel: gain.turned(n).channel,
            phase: Phase::Sample,
            ..gain
        }),
    decreases n,
{
    if n > 1 {
        law_frame_shares_gain(gain, (n - 1) as nat);
    } else {
        assert(gain.turned(0) == gain);
    }
}

/// A new format neither starts a ramp nor ends one, and lengthens none.
pub proof fn law_format_keeps_course<I, T>(gain: SmoothGain<I, T>, channels: u16, rate: u32)
    requires
        gain.wf(),
        gain.channel == 0,
        gain.phase == Phase::Sample,
        channels > 0,
    ensures
        gain.synced(channels, rate).wf(),
        gain.synced(channels, rate).current == gain.current,
        gain.synced(channels, rate).target == gain.target,
        gain.synced(channels, rate).frames_left <= gain.frames_left,
        gain.synced(channels, rate).frames_left == 0 <==> gain.frames_left == 0,
{
}

/// In any state, taking up a format that is not new changes nothing. Taking up a
/// new one records it, and taking it up again right after changes nothing and is
/// nothing new to the tap.
pub proof fn law_format_is_taken_up_once<I, T>(
    gain: SmoothGain<I, T>,
    channels: u16,
    rate: u32,
)
    ensures
        !gain.reformats(channels, rate) ==> gain.synced(channels, rate) == gain,
        gain.synced(channels, rate).channels == channels,
        gain.synced(channels, rate).rate == rate,
        gain.synced(channels, rate).tap == gain.tap,
        !gain.synced(channels, rate).reformats(channels, rate),
        gain.synced(channels, rate).synced(channels, rate) == gain.synced(channels, rate),
{
}

/// What the first sample of a frame leads to, in any format, whether or not a
/// ramp is under way. A requested gain that is not the target calls for a slope
/// from the gain that the frame before was scaled by, over the frames of a ramp,
/// all of which are to come. Else the ramp goes on from that gain by the step it
/// has, or there is none and that gain stays. The request is the gain in the
/// volume's cell, or zero for one below zero or no number.
pub proof fn law_slope_starts_where_the_gain_is<I, T>(
    source: SmoothGain<I, T>,
    channels: u16,
    rate: u32,
    gains: Seq<u32>,
)
    requires
        source.wf(),
        source.channel == 0,
        source.phase == Phase::Sample,
        channels > 0,
        source.volume.cell < gains.len(),
    ensures
        ({
            let asked = gains[source.volume.cell as int];
            let gain: u32 = if asked <= 0x7f80_0000 {
                asked
            } else {
                0
            };
            let (next, action) = source.framed(channels, rate, gains);
            &&& next.ramp_frames == ramp_length(source.ramp, rate)
            &&& action == if gain != source.target {
                Action::Slope { from: source.current, to: gain, frames: next.ramp_frames }
            } else if source.frames_left > 0 {
                Action::Sum { gain: source.current, step: source.step }
            } else {
                Action::Scale { gain: source.current }
            }
            &&& next == SmoothGain {
                target: gain,
                frames_left: if gain != source.target {
                    next.ramp_frames
                } else if source.frames_left <= next.ramp_frames {
                    source.frames_left
                } else {
                    next.ramp_frames
                },
                ramp_frames: next.ramp_frames,
                channels,
                rate,
                channel: if action is Scale && channels > 1 {
                    1
                } else {
                    0
                },
                phase: if action is Slope {
                    Phase::Slope
                } else if action is Sum {
                    Phase::Sum
                } else {
                    Phase::Sample
                },
                ..source
            }
        }),
{
}

/// A frame of a ramp ends on the sum that was asked for, and the last one on the
/// target; nothing else of the ramp changes but the frames that are left of it.
pub proof fn law_frame_takes_the_sum<I, T>(source: SmoothGain<I, T>, sum: u32)
    requires
        source.frames_left > 0,
    ensures
        source.stepped(sum) == (SmoothGain {
            current: source.stepped(sum).current,
            frames_left: source.stepped(sum).frames_left,
            ..source
        }),
        source.stepped(sum).frames_left + 1 == source.frames_left,
        source.stepped(sum).frames_left == 0 ==> source.stepped(sum).current == source.target,
        source.stepped(sum).frames_left > 0 ==> source.stepped(sum).current == sum,
{
}

impl<I, T> SmoothGain<I, T> {
    /// Whether `step` and `sum` are exact answers to what the first sample of a
    /// frame asks for, the gains standing for the numbers that `value` gives
    /// them. A slope is asked for first, then the sum of the gain of the moment
    /// and the slope's step.
    pub open spec fn is_exact(
        self,
        channels: u16,
        rate: u32,
        gains: Seq<u32>,
        value: spec_fn(u32) -> int,
        step: u32,
        sum: u32,
    ) -> bool {
        match self.framed(channels, rate, gains).1 {
            Action::Slope { from, to, frames } => frames * value(step) == value(to) - value(from)
                && value(sum) == value(self.current) + value(step),
            Action::Sum { gain, step } => value(sum) == value(gain) + value(step),
            Action::Scale { .. } => true,
        }
    }
}

/// With exact arithmetic a ramp is a straight line from the gain of the moment
/// to the new one: `k` of its `n` frames in, the gain has gone `k` parts of `n`
/// of the way. So it never goes past the new gain and never jumps, also where an
/// earlier ramp was under way.
#[verifier::spinoff_prover]
pub proof fn law_ramp_is_straight<I, T>(
    source: SmoothGain<I, T>,
    channels: u16,
    rate: u32,
    gains: Seq<u32>,
    answers: Seq<(u32, u32)>,
    value: spec_fn(u32) -> int,
)
    requires
        source.wf(),
        source.channel == 0,
        source.phase == Phase::Sample,
        channels > 0,
        nonnegative(source.volume.gain(gains)) != source.target,
        answers.len() <= ramp_length(source.ramp, rate),
        forall|k: int|
            0 <= k < answers.len() ==> #[trigger] source.carried(
                channels,
                rate,
                gains,
                answers.take(k),
            ).is_exact(channels, rate, gains, value, answers[k].0, answers[k].1),
    ensures
        ({
            let n = ramp_length(source.ramp, rate) as int;
            let k = answers.len() as int;
            let from = value(source.current);
            let to = value(nonnegative(source.volume.gain(gains)));
            let now = value(source.carried(channels, rate, gains, answers).current);
            n * now == n * from + k * (to - from)
        }),
    decreases answers.len(),
{
    let n = ramp_length(source.ramp, rate) as int;
    let k = answers.len() as int;
    let from = value(source.current);
    let gain = nonnegative(source.volume.gain(gains));
    let to = value(gain);
    if k == 0 {
        assert(n * from + 0 * (to - from) == n * from) by (nonlinear_arith);
    } else {
        let before = answers.drop_last();
        let (step, sum) = answers.last();
        assert(answers.take(k - 1) =~= before);
        assert forall|j: int| 0 <= j < before.len() implies #[trigger] source.carried(
            channels,
            rate,
            gains,
            before.take(j),
        ).is_exact(channels, rate, gains, value, before[j].0, before[j].1) by {
            assert(before.take(j) =~= answers.take(j));
        }
        law_ramp_is_straight(source, channels, rate, gains, before, value);
        law_volume_reached(source, channels, rate, gains, answers);
        let prior = source.carried(channels, rate, gains, before);
        let was = value(prior.current);
        assert(answers.take(0) =~= Seq::<(u32, u32)>::empty());
        assert(source.carried(channels, rate, gains, answers.take(0)) == source);
        assert(source.is_exact(channels, rate, gains, value, answers[0].0, answers[0].1));
        let slope = value(answers[0].0);
        assert(n * slope == to - from);
        if before.len() > 0 {
            law_volume_reached(source, channels, rate, gains, before);
            assert(before[0] == answers[0]);
        }
        assert(prior.is_exact(channels, rate, gains, value, step, sum));
        assert(value(sum) == was + slope);
        if k < n {
            assert(n * (was + slope) == n * from + k * (to - from)) by (nonlinear_arith)
                requires
                    n * was == n * from + (k - 1) * (to - from),
                    n * slope == to - from,
            ;
        } else {
            assert(n * to == n * from + n * (to - from)) by (nonlinear_arith);
        }
    }
}

/// A ramp takes its length to the nearest frame, one frame at least, as long as
/// that is no more frames than can be counted.
pub proof fn law_ramp_takes_its_length(ramp: Span, rate: u32)
    requires
        ramp.wf(),
        ramp@ * rate < 0xffff_ffff * 1_000_000_000,
    ensures
        ({
            let n = ramp_length(ramp, rate);
            &&& n >= 1
            &&& n > 1 ==> 2048 * (n * 1_000_000_000) <= 2048 * (ramp@ * rate) + 1025
                * 1_000_000_000
            &&& 2048 * (ramp@ * rate) <= 2048 * (n * 1_000_000_000) + 1025 * 1_000_000_000
        }),
{
    law_nearest_sample(ramp, rate as nat);
}

/// A new format is all that taking it up changes, but for the frames of a ramp:
/// a ramp has as many as the new rate gives it, and one that is under way has
/// no more than that left, and else as many as before.
pub proof fn law_format_changes_the_format<I, T>(
    gain: SmoothGain<I, T>,
    channels: u16,
    rate: u32,
)
    ensures
        ({
            let after = gain.synced(channels, rate);
            let new = channels != gain.channels || rate != gain.rate;
            &&& gain.reformats(channels, rate) == new
            &&& after == SmoothGain {
                channels,
                rate,
                ramp_frames: after.ramp_frames,
                frames_left: after.frames_left,
                ..gain
            }
            &&& new ==> after.ramp_frames == ramp_length(gain.ramp, rate)
            &&& !new ==> after.ramp_frames == gain.ramp_frames
            &&& new && gain.frames_left > after.ramp_frames ==> after.frames_left
                == after.ramp_frames
            &&& !new || gain.frames_left <= after.ramp_frames ==> after.frames_left
                == gain.frames_left
        }),
{
}

} // verus!
