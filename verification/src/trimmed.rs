//! A source of samples with its head cut off and its length bounded.

use crate::span::{
    at_most, has_playtime, law_longer_takes_more, law_nearest_sample,
    law_playtime_within_a_nanosecond, law_there_and_back, law_times_add_up, law_whole_seconds,
    playtime, playtime_nanos, samples, sharp, span_limit, step_count, Span,
};
use vstd::prelude::*;
use vstd::std_specs::iter::IteratorSpec;

verus! {

/// A source that drops its first `head` samples and ends after `body` more.
pub struct Trimmed<I> {
    pub input: I,
    pub head: u64,
    pub body: Option<u64>,
    pub emitted: u64,
    pub primed: bool,
    pub lane: u64,
}

/// How a call for the next sample goes on.
#[derive(Debug, PartialEq, Eq)]
pub enum Turn<A> {
    /// Read the input, with this many samples of the head still to drop.
    Read(u64),
    /// Give this out.
    Give(Option<A>),
}

/// What an input with `left` left to give gives at each read, nothing once that
/// is used up.
pub open spec fn offered<A>(left: Seq<A>) -> spec_fn(nat) -> Option<A> {
    |i: nat|
        if i < left.len() {
            Some(left[i as int])
        } else {
            None
        }
}

/// What an input that gave `given` gave at each read.
pub open spec fn replayed<A>(given: Seq<Option<A>>) -> spec_fn(nat) -> Option<A> {
    |i: nat| given[i as int]
}

impl<I> Trimmed<I> {
    /// The lane is that of some format: the samples a second over all channels.
    pub open spec fn wf(self) -> bool {
        0 < self.lane < 0x1_0000_0000_0000
    }

    /// The next sample can be counted.
    pub open spec fn countable(self) -> bool {
        self.body is None ==> self.emitted < u64::MAX
    }

    /// All of the body was given out.
    pub open spec fn full(self) -> bool {
        self.body is Some && self.emitted >= self.body->0
    }

    /// What comes once the head is behind.
    pub open spec fn due<A>(self) -> Turn<A> {
        if self.full() {
            Turn::Give(None)
        } else {
            Turn::Read(0)
        }
    }

    /// How a call begins. The head is dropped in the first call, and never
    /// again, however far that call got.
    pub open spec fn started<A>(self) -> (Self, Turn<A>) {
        let source = Trimmed { primed: true, ..self };
        let turn = if !self.primed && self.head > 0 {
            Turn::Read(self.head)
        } else {
            source.due()
        };
        (source, turn)
    }

    /// How a call goes on that had `dropping` samples of the head to drop and
    /// read `given` off the input.
    pub open spec fn took<A>(self, dropping: u64, given: Option<A>) -> (Self, Turn<A>) {
        if given is None {
            (self, Turn::Give(None))
        } else if dropping == 0 {
            (Trimmed { emitted: (self.emitted + 1) as u64, ..self }, Turn::Give(given))
        } else if dropping == 1 {
            (self, self.due())
        } else {
            (self, Turn::Read((dropping - 1) as u64))
        }
    }

    /// How a call ends that is at `turn` after `reads` reads of an input that
    /// gives `given(0)`, `given(1)` and so on, nothing now and then if it likes:
    /// the state, what is given out, and the reads it took in all.
    pub open spec fn played<A>(
        self,
        turn: Turn<A>,
        given: spec_fn(nat) -> Option<A>,
        reads: nat,
    ) -> (Self, Option<A>, nat)
        decreases
                match turn {
                    Turn::Read(dropping) => dropping + 1,
                    Turn::Give(_) => 0,
                },
    {
        match turn {
            Turn::Read(dropping) => {
                let (source, next) = self.took(dropping, given(reads));
                source.played(next, given, reads + 1)
            },
            Turn::Give(sample) => (self, sample, reads),
        }
    }

    /// A whole call for the next sample on such an input.
    pub open spec fn called<A>(self, given: spec_fn(nat) -> Option<A>) -> (Self, Option<A>, nat) {
        let (source, turn) = self.started();
        source.played(turn, given, 0)
    }

    /// The state after `n` calls on such an input, and the reads they took.
    pub open spec fn called_often<A>(
        self,
        given: spec_fn(nat) -> Option<A>,
        n: nat,
    ) -> (Self, nat)
        decreases n,
    {
        if n == 0 {
            (self, 0)
        } else {
            let (source, reads) = self.called_often(given, (n - 1) as nat);
            let (after, _, more) = source.called(|i: nat| given(reads + i));
            (after, reads + more)
        }
    }

    /// The samples that a call takes off an input that has `left` of them.
    pub open spec fn consumed(self, left: nat) -> nat {
        let head: nat = if self.primed {
            0
        } else {
            self.head as nat
        };
        let sample: nat = if self.full() {
            0
        } else {
            1
        };
        at_most(head + sample, left)
    }

    /// The samples still to come when the input has `input` left to give.
    pub open spec fn pending<A>(self, input: Seq<A>) -> Seq<A> {
        let kept = if self.primed {
            input
        } else {
            input.skip(at_most(self.head as nat, input.len()) as int)
        };
        match self.body {
            None => kept,
            Some(body) => {
                let left = if self.emitted >= body {
                    0
                } else {
                    (body - self.emitted) as nat
                };
                kept.take(at_most(left, kept.len()) as int)
            },
        }
    }

    /// The state after the input was moved so that `position` comes next: the
    /// head is behind, and the samples before `position` count as given out.
    pub open spec fn sought(self, position: Span) -> Self {
        Trimmed {
            primed: true,
            emitted: at_most(step_count(position, self.lane as nat), u64::MAX as nat) as u64,
            ..self
        }
    }

    /// A new source with `skip` cut off `input` and `take` kept behind it, all of
    /// it if that is not given.
    pub open spec fn made(
        input: I,
        rate: u32,
        channels: u16,
        skip: Span,
        take: Option<Span>,
    ) -> Self {
        let lane = (rate * channels) as nat;
        Trimmed {
            input,
            head: at_most(step_count(skip, lane), u64::MAX as nat) as u64,
            body: match take {
                Some(span) => Some(at_most(step_count(span, lane), u64::MAX as nat) as u64),
                None => None,
            },
            emitted: 0,
            primed: false,
            lane: lane as u64,
        }
    }

    /// The nanoseconds that the source lasts, given those of the whole input.
    pub open spec fn lasting(self, whole: Option<nat>) -> Option<nat> {
        match self.body {
            Some(body) => Some(playtime_nanos(body as nat, self.lane as nat)),
            None => match whole {
                Some(nanos) => Some(
                    if nanos >= self.offset_nanos() {
                        (nanos - self.offset_nanos()) as nat
                    } else {
                        0
                    },
                ),
                None => None,
            },
        }
    }

    /// Whether the head that is cut off is short enough to be a span of time.
    pub open spec fn has_offset(self) -> bool {
        has_playtime(self.head as nat, self.lane as nat)
    }

    /// The length of the head that is cut off, in nanoseconds.
    pub open spec fn offset_nanos(self) -> nat {
        playtime_nanos(self.head as nat, self.lane as nat)
    }

    /// Cuts `skip` off `input`, whose samples come in frames of `channels` at
    /// `rate` frames a second, and ends it after `take`, if that is given.
    pub fn new(input: I, rate: u32, channels: u16, skip: Span, take: Option<Span>) -> (r: Self)
        requires
            rate > 0,
            channels > 0,
            skip.wf(),
            take matches Some(span) ==> span.wf(),
        ensures
            r.wf(),
            r.countable(),
            r.input == input,
            r.lane == rate * channels,
            r.head == at_most(step_count(skip, (rate * channels) as nat), u64::MAX as nat),
            r.body is Some <==> take is Some,
            take matches Some(span) ==> r.body->0 == at_most(
                step_count(span, (rate * channels) as nat),
                u64::MAX as nat,
            ),
            r.emitted == 0,
            !r.primed,
            r == Self::made(input, rate, channels, skip, take),
    {
        proof {
            assert(0 < rate * channels < 0x1_0000_0000_0000) by (nonlinear_arith)
                requires
                    0 < rate <= 0xffff_ffff,
                    0 < channels <= 0xffff,
            ;
        }
        let lane: u64 = (rate as u64) * (channels as u64);
        let head: u64 = samples(skip, lane);
        let body: Option<u64> = match take {
            Some(span) => Some(samples(span, lane)),
            None => None,
        };
        Trimmed { input, head, body, emitted: 0, primed: false, lane }
    }

    /// What comes once the head is behind.
    fn after_head<A>(&self) -> (r: Turn<A>)
        ensures
            r == self.due::<A>(),
    {
        match self.body {
            Some(body) => if self.emitted >= body {
                Turn::Give(None)
            } else {
                Turn::Read(0)
            },
            None => Turn::Read(0),
        }
    }

    /// Begins a call for the next sample.
    pub fn start<A>(&mut self) -> (r: Turn<A>)
        ensures
            (*final(self), r) == old(self).started::<A>(),
            *final(self) == (Trimmed { primed: true, ..*old(self) }),
            !old(self).primed && old(self).head > 0 ==> r == Turn::<A>::Read(old(self).head),
            old(self).primed || old(self).head == 0 ==> r == if old(self).body is Some
                && old(self).emitted >= old(self).body->0 {
                Turn::<A>::Give(None)
            } else {
                Turn::<A>::Read(0)
            },
    {
        if !self.primed {
            self.primed = true;
            if self.head > 0 {
                return Turn::Read(self.head);
            }
        }
        self.after_head()
    }

    /// Goes on with a call that had `dropping` samples of the head to drop, now
    /// that the input has given `given`.
    pub fn take<A>(&mut self, dropping: u64, given: Option<A>) -> (r: Turn<A>)
        requires
            dropping == 0 && given is Some ==> old(self).emitted < u64::MAX,
        ensures
            (*final(self), r) == old(self).took(dropping, given),
            given is None ==> r == Turn::<A>::Give(None) && *final(self) == *old(self),
            given is Some && dropping == 0 ==> r == Turn::Give(given) && *final(self) == (Trimmed {
                emitted: (old(self).emitted + 1) as u64,
                ..*old(self)
            }),
            given is Some && dropping > 1 ==> r == Turn::<A>::Read((dropping - 1) as u64)
                && *final(self) == *old(self),
            given is Some && dropping == 1 ==> *final(self) == *old(self) && r == if old(self).body
                is Some && old(self).emitted >= old(self).body->0 {
                Turn::<A>::Give(None)
            } else {
                Turn::<A>::Read(0)
            },
    {
        match given {
            None => Turn::Give(None),
            Some(sample) => if dropping == 0 {
                self.emitted = self.emitted + 1;
                Turn::Give(Some(sample))
            } else if dropping == 1 {
                self.after_head()
            } else {
                Turn::Read(dropping - 1)
            },
        }
    }

    /// The length of the head that is cut off.
    pub fn offset(&self) -> (r: Span)
        requires
            self.wf(),
            self.has_offset(),
        ensures
            r.wf(),
            r@ == self.offset_nanos(),
            r@ == playtime_nanos(self.head as nat, self.lane as nat),
    {
        playtime(self.head, self.lane).unwrap()
    }

    /// The length of what is left, given the length of the whole input.
    pub fn total_duration(&self, whole: Option<Span>) -> (r: Option<Span>)
        requires
            self.wf(),
            self.body matches Some(body) ==> has_playtime(body as nat, self.lane as nat),
            self.body is None && whole is Some ==> self.has_offset(),
            whole matches Some(span) ==> span.wf(),
        ensures
            r matches Some(span) ==> span.wf(),
            match self.body {
                Some(body) => r is Some && r->0@ == playtime_nanos(body as nat, self.lane as nat),
                None => match whole {
                    Some(span) => r is Some && r->0@ == if span@ >= self.offset_nanos() {
                        (span@ - self.offset_nanos()) as nat
                    } else {
                        0
                    },
                    None => r is None,
                },
            },
            r is Some <==> self.lasting(if whole is Some { Some(whole->0@) } else { None })
                is Some,
            r is Some ==> self.lasting(if whole is Some { Some(whole->0@) } else { None })
                == Some(r->0@),
    {
        match self.body {
            Some(body) => playtime(body, self.lane),
            None => match whole {
                Some(span) => Some(span.saturating_sub(self.offset())),
                None => None,
            },
        }
    }

    /// Where the input has to go so that `position` of what is left comes next.
    pub fn seek_target(&self, position: Span) -> (r: Span)
        requires
            self.wf(),
            position.wf(),
            self.has_offset(),
            position@ + self.offset_nanos() < span_limit(),
        ensures
            r.wf(),
            r@ == position@ + self.offset_nanos(),
            r@ == position@ + playtime_nanos(self.head as nat, self.lane as nat),
    {
        position.plus(self.offset())
    }

    /// Takes note of `outcome`, what came of moving the input to the target of
    /// `position`. A move that failed leaves everything as it was.
    pub fn try_seek<E>(&mut self, position: Span, outcome: Result<(), E>) -> (r: Result<(), E>)
        requires
            old(self).wf(),
            position.wf(),
        ensures
            final(self).wf(),
            r == outcome,
            outcome is Err ==> *final(self) == *old(self),
            outcome is Ok ==> *final(self) == old(self).sought(position),
            final(self).input == old(self).input,
            final(self).head == old(self).head,
            final(self).body == old(self).body,
            final(self).lane == old(self).lane,
            outcome is Ok ==> final(self).primed,
            outcome is Ok ==> final(self).emitted == if step_count(
                position,
                old(self).lane as nat,
            ) <= u64::MAX {
                step_count(position, old(self).lane as nat)
            } else {
                u64::MAX as nat
            },
    {
        match outcome {
            Ok(done) => {
                self.primed = true;
                self.emitted = samples(position, self.lane);
                Ok(done)
            },
            Err(error) => Err(error),
        }
    }
}

impl<I: Iterator> Trimmed<I> {
    /// The next sample of what is left. Whatever the input is, the call is a
    /// row of reads, each of the input as the one before left it, and what it
    /// gives out, and how many reads it takes, is what `called` says of what
    /// they gave.
    #[verifier::spinoff_prover]
    pub fn next(&mut self) -> (r: Option<I::Item>)
        requires
            old(self).wf(),
            old(self).countable(),
        ensures
            final(self).wf(),
            final(self).head == old(self).head,
            final(self).body == old(self).body,
            final(self).lane == old(self).lane,
            final(self).primed,
            final(self).emitted == old(self).emitted + if r is Some {
                1int
            } else {
                0
            },
            old(self).full() ==> r is None,
            old(self).primed && old(self).full() ==> *final(self) == *old(self),
            exists|states: Seq<I>, given: Seq<Option<I::Item>>|
                #![trigger states.len(), given.len()]
                {
                    let (source, sample, reads) = old(self).called(replayed(given));
                    &&& r == sample
                    &&& *final(self) == (Trimmed { input: final(self).input, ..source })
                    &&& reads == given.len()
                    &&& states.len() == reads + 1
                    &&& states[0] == old(self).input
                    &&& states[reads as int] == final(self).input
                    &&& forall|i: int|
                        #![trigger given[i]]
                        0 <= i < reads ==> exists|read: &mut I|
                            call_ensures(I::next, (read,), given[i]) && *read == states[i]
                                && *final(read) == states[i + 1]
                },
            old(self).input.obeys_prophetic_iter_laws() ==> ({
                let left = old(self).input.remaining();
                let before = old(self).pending(left);
                let after = final(self).pending(final(self).input.remaining());
                let (source, sample, _) = old(self).called(offered(left));
                &&& r == sample
                &&& *final(self) == (Trimmed { input: final(self).input, ..source })
                &&& final(self).input.obeys_prophetic_iter_laws()
                &&& final(self).input.remaining() == left.skip(
                    old(self).consumed(left.len()) as int,
                )
                &&& before.len() > 0 ==> r == Some(before[0]) && after == before.drop_first()
                &&& before.len() == 0 ==> r is None && after.len() == 0
            }),
    {
        let ghost mut states: Seq<I> = seq![self.input];
        let ghost mut gifts: Seq<Option<I::Item>> = Seq::empty();
        let begun: Turn<I::Item> = self.start();
        let mut dropping: u64 = match begun {
            Turn::Read(n) => n,
            Turn::Give(sample) => {
                assert(states.len() == gifts.len() + 1);
                return sample;
            },
        };
        let ghost first = dropping;
        loop
            invariant
                old(self).wf(),
                old(self).countable(),
                old(self).started::<I::Item>().1 == Turn::<I::Item>::Read(first),
                dropping <= first,
                dropping == 0 ==> !old(self).full(),
                *self == (Trimmed { input: self.input, primed: true, ..*old(self) }),
                gifts.len() == first - dropping,
                states.len() == gifts.len() + 1,
                states[0] == old(self).input,
                states.last() == self.input,
                forall|i: int|
                    #![trigger gifts[i]]
                    0 <= i < gifts.len() ==> exists|read: &mut I|
                        call_ensures(I::next, (read,), gifts[i]) && *read == states[i]
                            && *final(read) == states[i + 1],
                forall|given: spec_fn(nat) -> Option<I::Item>|
                    (forall|i: nat| i < gifts.len() ==> #[trigger] given(i) == gifts[i as int])
                        ==> #[trigger] old(self).called(given) == (Trimmed {
                        primed: true,
                        ..*old(self)
                    }).played(Turn::Read(dropping), given, gifts.len()),
                old(self).input.obeys_prophetic_iter_laws() ==> {
                    let left = old(self).input.remaining();
                    &&& self.input.obeys_prophetic_iter_laws()
                    &&& first - dropping <= left.len()
                    &&& self.input.remaining() == left.skip(first - dropping)
                    &&& old(self).called(offered(left)) == (Trimmed {
                        primed: true,
                        ..*old(self)
                    }).played(Turn::Read(dropping), offered(left), (first - dropping) as nat)
                },
            decreases dropping,
        {
            let ghost earlier = gifts;
            let given = self.input.next();
            proof {
                gifts = gifts.push(given);
                states = states.push(self.input);
                reveal_with_fuel(Trimmed::played, 2);
                let replay = replayed(gifts);
                assert forall|i: nat| i < earlier.len() implies #[trigger] replay(i)
                    == earlier[i as int] by {
                    assert(gifts[i as int] == earlier[i as int]);
                }
                assert(old(self).called(replay) == (Trimmed {
                    primed: true,
                    ..*old(self)
                }).played(Turn::Read(dropping), replay, earlier.len()));
                assert(replay(earlier.len()) == given);
                assert(states.len() == gifts.len() + 1);
            }
            match self.take(dropping, given) {
                Turn::Read(n) => {
                    dropping = n;
                },
                Turn::Give(sample) => {
                    return sample;
                },
            }
        }
    }
}

/// A call changes nothing but what it counts.
proof fn lemma_call_keeps<I, A>(
    source: Trimmed<I>,
    turn: Turn<A>,
    given: spec_fn(nat) -> Option<A>,
    reads: nat,
)
    ensures
        ({
            let after = source.played(turn, given, reads).0;
            after == Trimmed { emitted: after.emitted, ..source }
        }),
    decreases
            match turn {
                Turn::Read(dropping) => dropping + 1,
                Turn::Give(_) => 0,
            },
{
    if let Turn::Read(dropping) = turn {
        let (next, then_turn) = source.took(dropping, given(reads));
        lemma_call_keeps(next, then_turn, given, reads + 1);
    }
}

/// Reading the rest of the head off an input that has it leads to the body.
proof fn lemma_head_drops<I, A>(
    source: Trimmed<I>,
    dropping: u64,
    given: spec_fn(nat) -> Option<A>,
    reads: nat,
)
    requires
        dropping > 0,
        forall|i: nat| reads <= i < reads + dropping ==> #[trigger] given(i) is Some,
    ensures
        source.played(Turn::Read(dropping), given, reads) == source.played(
            source.due::<A>(),
            given,
            reads + dropping as nat,
        ),
    decreases dropping,
{
    assert(given(reads) is Some);
    if dropping > 1 {
        lemma_head_drops(source, (dropping - 1) as u64, given, reads + 1);
    }
}

/// A head that the input does not have whole ends the call.
proof fn lemma_head_ends<I, A>(
    source: Trimmed<I>,
    dropping: u64,
    given: spec_fn(nat) -> Option<A>,
    reads: nat,
    k: nat,
)
    requires
        reads <= k < reads + dropping,
        forall|i: nat| reads <= i < k ==> #[trigger] given(i) is Some,
        given(k) is None,
    ensures
        source.played(Turn::Read(dropping), given, reads) == (source, None::<A>, k + 1),
    decreases dropping,
{
    reveal_with_fuel(Trimmed::played, 2);
    if reads < k {
        assert(given(reads) is Some);
        lemma_head_ends(source, (dropping - 1) as u64, given, reads + 1, k);
    }
}

/// What the first call does on an input that has the head.
proof fn lemma_first_call<I, A>(source: Trimmed<I>, given: spec_fn(nat) -> Option<A>)
    requires
        !source.primed,
        forall|i: nat| i < source.head ==> #[trigger] given(i) is Some,
    ensures
        ({
            let begun = Trimmed { primed: true, ..source };
            let head = source.head as nat;
            &&& source.full() ==> source.called(given) == (begun, None::<A>, head)
            &&& !source.full() ==> source.called(given) == (
                Trimmed {
                    emitted: if given(head) is Some {
                        (source.emitted + 1) as u64
                    } else {
                        source.emitted
                    },
                    ..begun
                },
                given(head),
                head + 1,
            )
        }),
{
    let begun = Trimmed { primed: true, ..source };
    if source.head > 0 {
        lemma_head_drops(begun, source.head, given, 0);
    }
    reveal_with_fuel(Trimmed::played, 2);
}

/// A new source gives out what its input has past the head, in order, and stops
/// at the length of the body or at the end of the input.
pub proof fn law_trims<I, A>(source: Trimmed<I>, input: Seq<A>)
    requires
        !source.primed,
        source.emitted == 0,
    ensures
        ({
            let left = source.pending(input);
            let past: nat = if source.head < input.len() {
                (input.len() - source.head) as nat
            } else {
                0
            };
            &&& left.len() == match source.body {
                Some(body) => at_most(body as nat, past),
                None => past,
            }
            &&& forall|i: int|
                0 <= i < left.len() ==> #[trigger] left[i] == input[source.head + i]
        }),
{
}

/// A source that is sent back to its start gives out what it did when new.
pub proof fn law_seek_to_start<I, A>(source: Trimmed<I>, start: Span, input: Seq<A>)
    requires
        source.wf(),
        !source.primed,
        source.emitted == 0,
        start.wf(),
        start@ == 0,
    ensures
        source.sought(start).pending(
            input.skip(at_most(source.head as nat, input.len()) as int),
        ) == source.pending(input),
{
    law_whole_seconds(0, source.lane as nat);
    assert(start == (Span { secs: 0, nanos: 0 }));
}

/// After a move, what is left is the input from there on, up to the length of
/// the body less the samples before the position.
pub proof fn law_seek_counts<I, A>(source: Trimmed<I>, position: Span, input: Seq<A>)
    requires
        source.wf(),
        position.wf(),
    ensures
        ({
            let left = source.sought(position).pending(input);
            let before = at_most(step_count(position, source.lane as nat), u64::MAX as nat);
            &&& left == input.take(left.len() as int)
            &&& left.len() == match source.body {
                Some(body) => at_most(
                    if before < body {
                        (body - before) as nat
                    } else {
                        0
                    },
                    input.len(),
                ),
                None => input.len(),
            }
        }),
{
    assert(input.take(input.len() as int) == input);
}

/// A move further on leaves no more of the body than a move less far.
pub proof fn law_seek_further_leaves_less<I, A>(
    source: Trimmed<I>,
    near: Span,
    far: Span,
    input: Seq<A>,
)
    requires
        source.wf(),
        near.wf(),
        far.wf(),
        near@ <= far@,
    ensures
        source.sought(far).pending(input).len() <= source.sought(near).pending(input).len(),
{
    law_longer_takes_more(near, far, source.lane as nat);
}

/// A head of whole seconds is as long as it was asked to be.
pub proof fn law_whole_offset<I>(source: Trimmed<I>, secs: u64)
    requires
        source.wf(),
        source.head == at_most(
            step_count((Span { secs, nanos: 0 }), source.lane as nat),
            u64::MAX as nat,
        ),
        secs * source.lane <= 0x20_0000_0000_0000,
    ensures
        source.has_offset(),
        source.offset_nanos() == secs * 1_000_000_000,
{
    law_whole_seconds(secs, source.lane as nat);
}

/// Up to 2^15 seconds, at every lane, the head is as long as it was asked to be,
/// give or take half a sample and a nanosecond.
pub proof fn law_offset_near_skip<I>(source: Trimmed<I>, skip: Span)
    requires
        source.wf(),
        skip.wf(),
        source.head == at_most(step_count(skip, source.lane as nat), u64::MAX as nat),
        skip@ <= 0x8000 * 1_000_000_000,
    ensures
        source.has_offset(),
        2 * (source.offset_nanos() * source.lane) <= 2 * (skip@ * source.lane) + 1_000_000_000
            + 2 * source.lane,
        2 * (skip@ * source.lane) <= 2 * (source.offset_nanos() * source.lane) + 1_000_000_000
            + 2 * source.lane,
{
    law_there_and_back(skip, source.lane as nat);
}

/// The head is as long all the time, whatever was read and wherever the source
/// was sent, and however much is kept behind it.
pub proof fn law_offset_stays<I, A>(
    source: Trimmed<I>,
    given: spec_fn(nat) -> Option<A>,
    position: Span,
    body: Option<u64>,
)
    ensures
        source.called(given).0.offset_nanos() == source.offset_nanos(),
        source.sought(position).offset_nanos() == source.offset_nanos(),
        (Trimmed { body, ..source }).offset_nanos() == source.offset_nanos(),
{
    let (begun, turn) = source.started::<A>();
    lemma_call_keeps(begun, turn, given, 0);
}

/// A source that was sent to a position `n` samples in, from wherever it was,
/// gives out what it gave out when new, from the `n`th sample on. The input is
/// taken to go to the sample nearest to the time it is sent to, which is the
/// right one where the times are counted right.
pub proof fn law_seek_lands<I, A>(
    source: Trimmed<I>,
    position: Span,
    target: Span,
    n: u64,
    input: Seq<A>,
)
    requires
        step_count(position, source.lane as nat) == n,
        step_count(target, source.lane as nat) == source.head + n,
    ensures
        ({
            let landed = at_most(step_count(target, source.lane as nat), input.len());
            let all = (Trimmed { primed: false, emitted: 0, ..source }).pending(input);
            source.sought(position).pending(input.skip(landed as int)) == all.skip(
                at_most(n as nat, all.len()) as int,
            )
        }),
{
}

/// That is so of every position that is a whole number of samples, however far
/// in, where binary64 numbers and nanoseconds tell that sample from the next.
#[verifier::spinoff_prover]
pub proof fn law_seek_to_sample<I, A>(
    source: Trimmed<I>,
    position: Span,
    target: Span,
    n: u64,
    input: Seq<A>,
)
    requires
        source.wf(),
        sharp(source.head as nat, n as nat, source.lane as nat),
        position.wf(),
        position@ * source.lane == n * 1_000_000_000,
        target.wf(),
        target@ == position@ + source.offset_nanos(),
    ensures
        ({
            let landed = at_most(step_count(target, source.lane as nat), input.len());
            let all = (Trimmed { primed: false, emitted: 0, ..source }).pending(input);
            source.sought(position).pending(input.skip(landed as int)) == all.skip(
                at_most(n as nat, all.len()) as int,
            )
        }),
{
    law_times_add_up(position, target, source.head as nat, n as nat, source.lane as nat);
    law_seek_lands(source, position, target, n, input);
}

/// An input that pauses after `k` samples of the head ends the first call there,
/// after `k + 1` reads, and the head counts as dropped from then on.
pub proof fn law_pause_in_head<I, A>(
    source: Trimmed<I>,
    given: spec_fn(nat) -> Option<A>,
    k: nat,
)
    requires
        !source.primed,
        k < source.head,
        forall|i: nat| i < k ==> #[trigger] given(i) is Some,
        given(k) is None,
    ensures
        source.called(given) == (Trimmed { primed: true, ..source }, None::<A>, k + 1),
{
    lemma_head_ends(Trimmed { primed: true, ..source }, source.head, given, 0, k);
}

/// Once the first call is over, a call reads the input once and gives out what
/// it got, be it nothing, until all of the body was given out. From then on the
/// input is left alone.
pub proof fn law_one_read_a_call<I, A>(source: Trimmed<I>, given: spec_fn(nat) -> Option<A>)
    requires
        source.primed,
    ensures
        source.full() ==> source.called(given) == (source, None::<A>, 0nat),
        !source.full() ==> source.called(given) == (
            Trimmed {
                emitted: if given(0) is Some {
                    (source.emitted + 1) as u64
                } else {
                    source.emitted
                },
                ..source
            },
            given(0),
            1nat,
        ),
{
    reveal_with_fuel(Trimmed::played, 2);
}

/// A source on an input that has enough reads it exactly once for every sample
/// of the head and of the body, however often it is called, and gives out the
/// samples of the body in their order, and then nothing.
#[verifier::spinoff_prover]
pub proof fn law_reads_head_and_body<I, A>(
    source: Trimmed<I>,
    given: spec_fn(nat) -> Option<A>,
    body: u64,
    n: nat,
)
    requires
        !source.primed,
        source.emitted == 0,
        source.body == Some(body),
        forall|i: nat| i < source.head + body ==> #[trigger] given(i) is Some,
    ensures
        ({
            let (now, reads) = source.called_often(given, n);
            &&& reads == if n == 0 {
                0
            } else {
                source.head + at_most(n, body as nat)
            }
            &&& now == Trimmed {
                primed: n > 0,
                emitted: at_most(n, body as nat) as u64,
                ..source
            }
            &&& now.called(|i: nat| given(reads + i)).1 == if n < body {
                given((source.head + n) as nat)
            } else {
                None
            }
        }),
    decreases n,
{
    if n > 0 {
        law_reads_head_and_body(source, given, body, (n - 1) as nat);
    }
    let (now, reads) = source.called_often(given, n);
    let rest = |i: nat| given(reads + i);
    if n == 0 {
        lemma_first_call(source, rest);
        if body > 0 {
            assert(given(source.head as nat) is Some);
        }
    } else {
        let (before, already) = source.called_often(given, (n - 1) as nat);
        let then_given = |i: nat| given(already + i);
        if n == 1 {
            lemma_first_call(before, then_given);
        } else {
            law_one_read_a_call(before, then_given);
        }
        if n <= body {
            assert(given((source.head + n - 1) as nat) is Some);
        }
        law_one_read_a_call(now, rest);
    }
}

/// What is left to give out, in any state: the input, without the head unless
/// that was dropped before, and no more of it than the body still lacks.
pub proof fn law_what_is_left<I, A>(source: Trimmed<I>, input: Seq<A>)
    ensures
        ({
            let left = source.pending(input);
            let from: int = if source.primed {
                0
            } else if source.head < input.len() {
                source.head as int
            } else {
                input.len() as int
            };
            let past = input.len() - from;
            let lacking = source.body->0 - source.emitted;
            &&& left.len() == if source.body is None || past <= lacking {
                past
            } else if lacking >= 0 {
                lacking
            } else {
                0
            }
            &&& forall|i: int| 0 <= i < left.len() ==> #[trigger] left[i] == input[from + i]
        }),
{
}

/// A seek changes neither what is cut off nor what is kept, so that the source
/// is as long after it as it was before: it only counts the samples before the
/// position as given out, and the head as dropped.
pub proof fn law_seek_keeps_the_trim<I>(source: Trimmed<I>, position: Span)
    ensures
        source.sought(position).head == source.head,
        source.sought(position).body == source.body,
        source.sought(position).lane == source.lane,
        source.sought(position).input == source.input,
        source.sought(position).primed,
        source.sought(position).emitted <= step_count(position, source.lane as nat),
        source.sought(position).emitted < u64::MAX ==> source.sought(position).emitted
            == step_count(position, source.lane as nat),
{
}

/// Only the last of some seeks counts. Whatever was played before, and wherever
/// the source was sent before, it is as if it had been new when it was sent
/// there: what is left is the body less the samples before the last position.
pub proof fn law_last_seek_decides<I, A>(
    source: Trimmed<I>,
    first: Span,
    last: Span,
    given: spec_fn(nat) -> Option<A>,
    input: Seq<A>,
)
    ensures
        ({
            let new = Trimmed { primed: false, emitted: 0, ..source };
            let alone = new.sought(last);
            let before = step_count(last, source.lane as nat);
            let left = source.sought(first).sought(last).pending(input);
            &&& source.sought(last) == alone
            &&& source.sought(first).sought(last) == alone
            &&& source.called(given).0.sought(last) == alone
            &&& source.sought(first).called(given).0.sought(last) == alone
            &&& left =~= input.take(left.len() as int)
            &&& source.body is None ==> left.len() == input.len()
            &&& source.body is Some && before <= u64::MAX ==> left.len() == if before
                >= source.body->0 {
                0
            } else if source.body->0 - before <= input.len() {
                source.body->0 - before
            } else {
                input.len() as int
            }
        }),
{
    let (begun, turn) = source.started::<A>();
    lemma_call_keeps(begun, turn, given, 0);
    let (again, turn) = source.sought(first).started::<A>();
    lemma_call_keeps(again, turn, given, 0);
}

/// The samples that a seek counts as given out are those nearest to the
/// position, to half a sample and 2^-11 of one for the arithmetic.
pub proof fn law_seek_counts_the_time<I>(source: Trimmed<I>, position: Span)
    requires
        source.wf(),
        source.lane <= 0x1_0000_0000,
        position.wf(),
        position@ * source.lane < 0x100_0000_0000 * 1_000_000_000,
    ensures
        ({
            let n = source.sought(position).emitted;
            &&& 2048 * (n * 1_000_000_000) <= 2048 * (position@ * source.lane) + 1025
                * 1_000_000_000
            &&& 2048 * (position@ * source.lane) <= 2048 * (n * 1_000_000_000) + 1025
                * 1_000_000_000
        }),
{
    law_nearest_sample(position, source.lane as nat);
}

/// What the first call does on an input that has the head: it reads that and
/// drops it, and then, unless there is no body to give out, reads once more and
/// gives out what it got.
pub proof fn law_first_call<I, A>(source: Trimmed<I>, given: spec_fn(nat) -> Option<A>)
    requires
        !source.primed,
        forall|i: nat| i < source.head ==> #[trigger] given(i) is Some,
    ensures
        ({
            let (after, sample, reads) = source.called(given);
            let head = source.head as nat;
            if source.body is Some && source.emitted >= source.body->0 {
                &&& reads == head
                &&& sample is None
                &&& after == Trimmed { primed: true, ..source }
            } else {
                &&& reads == head + 1
                &&& sample == given(head)
                &&& after == Trimmed {
                    primed: true,
                    emitted: if sample is Some {
                        (source.emitted + 1) as u64
                    } else {
                        source.emitted
                    },
                    ..source
                }
            }
        }),
{
    lemma_first_call(source, given);
}

/// What a later call does: with all of the body given out, nothing at all, and
/// else it reads once and gives out what it got.
pub proof fn law_later_call<I, A>(source: Trimmed<I>, given: spec_fn(nat) -> Option<A>)
    requires
        source.primed,
    ensures
        ({
            let (after, sample, reads) = source.called(given);
            if source.body is Some && source.emitted >= source.body->0 {
                &&& reads == 0
                &&& sample is None
                &&& after == source
            } else {
                &&& reads == 1
                &&& sample == given(0)
                &&& after == Trimmed {
                    emitted: if sample is Some {
                        (source.emitted + 1) as u64
                    } else {
                        source.emitted
                    },
                    ..source
                }
            }
        }),
{
    law_one_read_a_call(source, given);
}

/// A call takes off an input with `left` samples what it reads of them, the head
/// where that is still to be dropped and one sample where the body lacks one.
pub proof fn law_call_takes_what_it_reads<I>(source: Trimmed<I>, left: nat)
    ensures
        ({
            let head: nat = if source.primed {
                0
            } else {
                source.head as nat
            };
            let lacks = source.body is None || source.emitted < source.body->0;
            &&& source.consumed(left) <= left
            &&& left > head ==> source.consumed(left) == head + if lacks {
                1int
            } else {
                0
            }
            &&& left <= head ==> source.consumed(left) == left
        }),
{
}

/// The head that is cut off takes the time of its samples, to the nanosecond,
/// up to 2^20 seconds.
pub proof fn law_offset_is_the_time_of_the_head<I>(source: Trimmed<I>)
    requires
        source.wf(),
        source.head <= 0x20_0000_0000_0000,
        source.head < 0x10_0000 * source.lane,
    ensures
        source.offset_nanos() * source.lane < source.head * 1_000_000_000 + source.lane,
        source.head * 1_000_000_000 < source.offset_nanos() * source.lane + source.lane,
{
    law_playtime_within_a_nanosecond(source.head as nat, source.lane as nat);
}

/// A body is as long as it was asked to be, give or take half a sample and a
/// nanosecond, up to 2^15 seconds.
pub proof fn law_duration_near_take<I>(source: Trimmed<I>, body: u64, take: Span)
    requires
        source.wf(),
        take.wf(),
        body == step_count(take, source.lane as nat),
        take@ <= 0x8000 * 1_000_000_000,
    ensures
        ({
            let nanos = playtime_nanos(body as nat, source.lane as nat);
            &&& has_playtime(body as nat, source.lane as nat)
            &&& 2 * (nanos * source.lane) <= 2 * (take@ * source.lane) + 1_000_000_000 + 2
                * source.lane
            &&& 2 * (take@ * source.lane) <= 2 * (nanos * source.lane) + 1_000_000_000 + 2
                * source.lane
        }),
{
    law_there_and_back(take, source.lane as nat);
}

/// What is read off an input is what it has, in order, and nothing past its end;
/// and what was read is what was given, in order.
pub proof fn law_reads_are_in_order<A>(left: Seq<A>, given: Seq<Option<A>>, i: nat)
    ensures
        i < left.len() ==> offered(left)(i) == Some(left[i as int]),
        i >= left.len() ==> offered(left)(i) is None,
        i < given.len() ==> replayed(given)(i) == given[i as int],
{
}

/// A new source has as many samples a second as its input has over all channels,
/// and cuts off and keeps the samples nearest to the times asked for, to half a
/// sample and 2^-11 of one for the arithmetic. It has given out nothing and
/// keeps everything exactly if no time is asked for.
pub proof fn law_new_source_is_cut_to_time<I>(
    input: I,
    rate: u32,
    channels: u16,
    skip: Span,
    take: Option<Span>,
)
    requires
        rate * channels <= 0x1_0000_0000,
        skip.wf(),
        skip@ * (rate * channels) < 0x100_0000_0000 * 1_000_000_000,
        take is Some ==> take->0.wf() && take->0@ * (rate * channels) < 0x100_0000_0000
            * 1_000_000_000,
    ensures
        ({
            let source = Trimmed::made(input, rate, channels, skip, take);
            let lane = rate * channels;
            &&& source.input == input
            &&& source.lane == lane
            &&& source.emitted == 0
            &&& !source.primed
            &&& 2048 * (source.head * 1_000_000_000) <= 2048 * (skip@ * lane) + 1025
                * 1_000_000_000
            &&& 2048 * (skip@ * lane) <= 2048 * (source.head * 1_000_000_000) + 1025
                * 1_000_000_000
            &&& source.body is Some <==> take is Some
            &&& take is Some ==> {
                let body = source.body->0;
                &&& 2048 * (body * 1_000_000_000) <= 2048 * (take->0@ * lane) + 1025
                    * 1_000_000_000
                &&& 2048 * (take->0@ * lane) <= 2048 * (body * 1_000_000_000) + 1025
                    * 1_000_000_000
            }
        }),
{
    let lane = (rate * channels) as nat;
    assert(lane == rate * channels) by (nonlinear_arith)
        requires
            rate >= 0,
            channels >= 0,
            lane == (rate * channels) as nat,
    ;
    law_nearest_sample(skip, lane);
    if let Some(span) = take {
        law_nearest_sample(span, lane);
    }
}

/// A source lasts as long at any time: what was played, and where it was sent,
/// makes no difference.
pub proof fn law_duration_stays<I, A>(
    source: Trimmed<I>,
    given: spec_fn(nat) -> Option<A>,
    position: Span,
    whole: Option<nat>,
)
    ensures
        source.sought(position).lasting(whole) == source.lasting(whole),
        source.called(given).0.lasting(whole) == source.lasting(whole),
{
    let (begun, turn) = source.started::<A>();
    lemma_call_keeps(begun, turn, given, 0);
}

/// A source with a body lasts as long as the body's samples take, to the
/// nanosecond and up to 2^20 seconds, however long its input is. One without
/// lasts, together with its head, as long as its input, if that is longer than
/// the head, and not at all if it is not; and nobody knows how long if nobody
/// knows that of the input.
pub proof fn law_duration_is_what_is_left<I>(source: Trimmed<I>, whole: nat)
    requires
        source.wf(),
    ensures
        source.body is Some ==> source.lasting(None) == source.lasting(Some(whole)),
        source.body is Some && source.body->0 <= 0x20_0000_0000_0000 && source.body->0 < 0x10_0000
            * source.lane ==> {
            let nanos = source.lasting(None)->0;
            &&& source.lasting(None) is Some
            &&& nanos * source.lane < source.body->0 * 1_000_000_000 + source.lane
            &&& source.body->0 * 1_000_000_000 < nanos * source.lane + source.lane
        },
        source.body is None ==> {
            &&& source.lasting(None) is None
            &&& source.lasting(Some(whole)) is Some
            &&& whole >= source.offset_nanos() ==> source.lasting(Some(whole))->0
                + source.offset_nanos() == whole
            &&& whole < source.offset_nanos() ==> source.lasting(Some(whole))->0 == 0
        },
{
    if let Some(body) = source.body {
        if body <= 0x20_0000_0000_0000 && body < 0x10_0000 * source.lane {
            law_playtime_within_a_nanosecond(body as nat, source.lane as nat);
        }
    }
}

} // verus!
