//! The request that keeps a desktop session awake.

use crate::wake::Want;
use ashpd::desktop::inhibit::InhibitFlags;
use ashpd::enumflags2::{BitFlag, BitFlags};
use vstd::prelude::*;

verus! {

/// `ashpd::desktop::inhibit::InhibitFlags`: what a request can keep the session
/// from doing.
#[verifier::external_type_specification]
pub struct ExInhibitFlags(ashpd::desktop::inhibit::InhibitFlags);

/// `ashpd::enumflags2::BitFlags`: a set of flags.
#[verifier::external_type_specification]
#[verifier::external_body]
#[verifier::reject_recursive_types(T)]
#[verifier::reject_recursive_types(N)]
pub struct ExBitFlags<T, N>(ashpd::enumflags2::BitFlags<T, N>);

/// The flags that are in a set of flags.
pub uninterp spec fn flags_in(flags: BitFlags<InhibitFlags, u32>) -> Set<InhibitFlags>;

/// `InhibitFlags::empty`, from `ashpd::enumflags2::BitFlag`: the set without any
/// flag.
#[verifier::external_body]
fn no_flags() -> (r: BitFlags<InhibitFlags, u32>)
    ensures
        flags_in(r) == Set::<InhibitFlags>::empty(),
{
    InhibitFlags::empty()
}

/// `ashpd::enumflags2::BitFlags::insert`: adds a flag to the set and leaves the
/// others as they are.
#[verifier::external_body]
fn insert_flag(flags: &mut BitFlags<InhibitFlags, u32>, flag: InhibitFlags)
    ensures
        flags_in(*final(flags)) == flags_in(*old(flags)).insert(flag),
{
    flags.insert(flag)
}

/// The flags of the request that `want` calls for: no suspending for the sake
/// of the system, no idling for the sake of the display.
pub fn inhibit_flags(want: Want) -> (r: BitFlags<InhibitFlags, u32>)
    ensures
        forall|flag: InhibitFlags| #[trigger]
            flags_in(r).contains(flag) <==> (flag is Suspend && want.system) || (flag is Idle
                && want.display),
{
    let mut flags = no_flags();
    if want.system {
        insert_flag(&mut flags, InhibitFlags::Suspend);
    }
    if want.display {
        insert_flag(&mut flags, InhibitFlags::Idle);
    }
    flags
}

/// What the inhibitor waits for.
#[derive(Clone, Copy, Debug, PartialEq, Eq, Structural)]
pub enum Stage {
    /// Another want, or the end of them.
    Waiting,
    /// The end of the request held so far, before this want is met.
    Closing(Want),
    /// An answer to the request for this want.
    Acquiring(Want),
    /// The end of the last request.
    Finishing,
    /// Nothing more.
    Done,
}

/// What the inhibitor asks for next.
#[derive(Clone, Copy, Debug, PartialEq, Eq, Structural)]
pub enum Task {
    /// Wait for another want.
    Wait,
    /// Close the request that is held.
    Close,
    /// Make a request for this want.
    Acquire(Want),
    /// End.
    Stop,
}

/// Keeps one request at most open, for the want that was last heard of.
#[derive(Clone, Copy, Debug, PartialEq, Eq, Structural)]
pub struct Inhibitor {
    pub held: bool,
    pub applied: Want,
    pub stage: Stage,
}

/// Whether there is anything to make a request for.
pub open spec fn is_something(want: Want) -> bool {
    want.system || want.display
}

impl Inhibitor {
    /// A request is held, and made, for something that is wanted, and none is
    /// held while something is being done about another.
    pub open spec fn wf(self) -> bool {
        &&& self.held ==> self.stage == Stage::Waiting && is_something(self.applied)
        &&& self.stage matches Stage::Acquiring(want) ==> is_something(want)
    }

    /// The state and the task with nothing held and `want` to be met.
    pub open spec fn begun(self, want: Want) -> (Inhibitor, Task) {
        if is_something(want) {
            (Inhibitor { stage: Stage::Acquiring(want), ..self }, Task::Acquire(want))
        } else {
            (Inhibitor { applied: want, stage: Stage::Waiting, ..self }, Task::Wait)
        }
    }

    /// The state and the task once `want` was heard of.
    pub open spec fn heard(self, want: Want) -> (Inhibitor, Task) {
        if want == self.applied {
            (self, Task::Wait)
        } else if self.held {
            (Inhibitor { held: false, stage: Stage::Closing(want), ..self }, Task::Close)
        } else {
            self.begun(want)
        }
    }

    /// The state and the task once a request was closed.
    pub open spec fn released(self) -> (Inhibitor, Task) {
        match self.stage {
            Stage::Closing(want) => self.begun(want),
            _ => (Inhibitor { stage: Stage::Done, ..self }, Task::Stop),
        }
    }

    /// The state once a request was answered, `granted` or not.
    pub open spec fn answered(self, granted: bool) -> Inhibitor {
        match self.stage {
            Stage::Acquiring(want) => Inhibitor {
                held: granted,
                applied: want,
                stage: Stage::Waiting,
            },
            _ => self,
        }
    }

    /// The state and the task once no more wants will come.
    pub open spec fn ended(self) -> (Inhibitor, Task) {
        if self.held {
            (Inhibitor { held: false, stage: Stage::Finishing, ..self }, Task::Close)
        } else {
            (Inhibitor { stage: Stage::Done, ..self }, Task::Stop)
        }
    }

    /// The state once `want` was heard of and all that follows from it was
    /// done, the request for it, if there is one, being `granted` or not.
    pub open spec fn met(self, want: Want, granted: bool) -> Inhibitor {
        let (heard, first) = self.heard(want);
        let (begun, second) = if first is Close {
            heard.released()
        } else {
            (heard, first)
        };
        if second is Acquire {
            begun.answered(granted)
        } else {
            begun
        }
    }

    /// Nothing is held and nothing is wanted.
    pub fn new() -> (r: Inhibitor)
        ensures
            r.wf(),
            r == (Inhibitor {
                held: false,
                applied: Want { system: false, display: false },
                stage: Stage::Waiting,
            }),
    {
        Inhibitor { held: false, applied: Want::default(), stage: Stage::Waiting }
    }

    /// Sets about meeting `want`, with nothing held.
    fn begin(&mut self, want: Want) -> (r: Task)
        requires
            !old(self).held,
        ensures
            final(self).wf(),
            (*final(self), r) == old(self).begun(want),
            want.system || want.display ==> r == Task::Acquire(want) && *final(self) == (Inhibitor {
                stage: Stage::Acquiring(want),
                ..*old(self)
            }),
            !want.system && !want.display ==> r == Task::Wait && *final(self) == (Inhibitor {
                applied: want,
                stage: Stage::Waiting,
                ..*old(self)
            }),
    {
        if want.system || want.display {
            self.stage = Stage::Acquiring(want);
            Task::Acquire(want)
        } else {
            self.applied = want;
            self.stage = Stage::Waiting;
            Task::Wait
        }
    }

    /// Hears of a want.
    pub fn changed(&mut self, want: Want) -> (r: Task)
        requires
            old(self).wf(),
            old(self).stage == Stage::Waiting,
        ensures
            final(self).wf(),
            (*final(self), r) == old(self).heard(want),
            want == old(self).applied ==> r == Task::Wait && *final(self) == *old(self),
            want != old(self).applied && old(self).held ==> r == Task::Close && *final(self) == (
            Inhibitor { held: false, applied: old(self).applied, stage: Stage::Closing(want) }),
            want != old(self).applied && !old(self).held && (want.system || want.display) ==> r
                == Task::Acquire(want) && *final(self) == (Inhibitor {
                held: false,
                applied: old(self).applied,
                stage: Stage::Acquiring(want),
            }),
            want != old(self).applied && !old(self).held && !want.system && !want.display ==> r
                == Task::Wait && *final(self) == (Inhibitor {
                held: false,
                applied: want,
                stage: Stage::Waiting,
            }),
    {
        if want == self.applied {
            return Task::Wait;
        }
        if self.held {
            self.held = false;
            self.stage = Stage::Closing(want);
            return Task::Close;
        }
        self.begin(want)
    }

    /// Hears that a request was closed, or that closing it failed.
    pub fn closed(&mut self) -> (r: Task)
        requires
            old(self).wf(),
            old(self).stage is Closing || old(self).stage == Stage::Finishing,
        ensures
            final(self).wf(),
            (*final(self), r) == old(self).released(),
            match old(self).stage {
                Stage::Closing(want) => if want.system || want.display {
                    r == Task::Acquire(want) && *final(self) == (Inhibitor {
                        held: false,
                        applied: old(self).applied,
                        stage: Stage::Acquiring(want),
                    })
                } else {
                    r == Task::Wait && *final(self) == (Inhibitor {
                        held: false,
                        applied: want,
                        stage: Stage::Waiting,
                    })
                },
                _ => r == Task::Stop && *final(self) == (Inhibitor {
                    held: false,
                    applied: old(self).applied,
                    stage: Stage::Done,
                }),
            },
    {
        match self.stage {
            Stage::Closing(want) => self.begin(want),
            _ => {
                self.stage = Stage::Done;
                Task::Stop
            },
        }
    }

    /// Hears whether a request was granted. One that was not is made again only
    /// for another want.
    pub fn acquired(&mut self, granted: bool) -> (r: Task)
        requires
            old(self).wf(),
            old(self).stage is Acquiring,
        ensures
            final(self).wf(),
            *final(self) == old(self).answered(granted),
            r == Task::Wait,
            final(self).held == granted,
            old(self).stage == Stage::Acquiring(final(self).applied),
            final(self).stage == Stage::Waiting,
    {
        if let Stage::Acquiring(want) = self.stage {
            self.held = granted;
            self.applied = want;
            self.stage = Stage::Waiting;
        }
        Task::Wait
    }

    /// Hears that no more wants will come.
    pub fn gone(&mut self) -> (r: Task)
        requires
            old(self).wf(),
            old(self).stage == Stage::Waiting,
        ensures
            final(self).wf(),
            (*final(self), r) == old(self).ended(),
            !final(self).held,
            final(self).applied == old(self).applied,
            old(self).held ==> r == Task::Close && final(self).stage == Stage::Finishing,
            !old(self).held ==> r == Task::Stop && final(self).stage == Stage::Done,
    {
        if self.held {
            self.held = false;
            self.stage = Stage::Finishing;
            Task::Close
        } else {
            self.stage = Stage::Done;
            Task::Stop
        }
    }
}

/// A want that was heard of is applied in the end. Another one than before has a
/// request held for it exactly if there is something to request and that was
/// granted.
pub proof fn law_want_is_met(inhibitor: Inhibitor, want: Want, granted: bool)
    requires
        inhibitor.wf(),
        inhibitor.stage == Stage::Waiting,
    ensures
        ({
            let met = inhibitor.met(want, granted);
            &&& met.wf()
            &&& met.stage == Stage::Waiting
            &&& met.applied == want
            &&& met.held == if want == inhibitor.applied {
                inhibitor.held
            } else {
                is_something(want) && granted
            }
        }),
{
}

/// The state after some wants, each one met, its request granted or not.
pub open spec fn after_wants(wants: Seq<(Want, bool)>) -> Inhibitor
    decreases wants.len(),
{
    if wants.len() == 0 {
        Inhibitor {
            held: false,
            applied: Want { system: false, display: false },
            stage: Stage::Waiting,
        }
    } else {
        after_wants(wants.drop_last()).met(wants.last().0, wants.last().1)
    }
}

/// Whatever was wanted, the last want is the one applied, and a request is held
/// only if that wants something.
pub proof fn law_last_want_is_applied(wants: Seq<(Want, bool)>)
    ensures
        ({
            let inhibitor = after_wants(wants);
            &&& inhibitor.wf()
            &&& inhibitor.stage == Stage::Waiting
            &&& wants.len() > 0 ==> inhibitor.applied == wants.last().0
            &&& inhibitor.held ==> wants.len() > 0 && is_something(wants.last().0)
        }),
    decreases wants.len(),
{
    if wants.len() > 0 {
        law_last_want_is_applied(wants.drop_last());
        law_want_is_met(after_wants(wants.drop_last()), wants.last().0, wants.last().1);
    }
}

/// No request is made while another is held, and one that is held is given up
/// only by closing it.
pub proof fn law_one_request(inhibitor: Inhibitor, want: Want)
    requires
        inhibitor.wf(),
        inhibitor.stage == Stage::Waiting,
    ensures
        inhibitor.heard(want).1 is Acquire ==> !inhibitor.held,
        inhibitor.held && !inhibitor.heard(want).0.held ==> inhibitor.heard(want).1 is Close,
        inhibitor.heard(want).1 is Close ==> inhibitor.held,
        inhibitor.held && !inhibitor.ended().0.held ==> inhibitor.ended().1 is Close,
{
}

/// Nothing is held once there is nothing more to come.
pub proof fn law_end_holds_nothing(inhibitor: Inhibitor)
    requires
        inhibitor.wf(),
        inhibitor.stage == Stage::Waiting,
    ensures
        ({
            let (ended, task) = inhibitor.ended();
            let (done, last) = if task is Close {
                ended.released()
            } else {
                (ended, task)
            };
            &&& last is Stop
            &&& done.stage == Stage::Done
            &&& !done.held
        }),
{
}

/// A request that was refused is not made again for the same want.
pub proof fn law_no_retry(inhibitor: Inhibitor, want: Want)
    requires
        inhibitor.wf(),
        inhibitor.stage == Stage::Waiting,
    ensures
        inhibitor.met(want, false).heard(want) == (inhibitor.met(want, false), Task::Wait),
{
}

/// A request that follows from hearing of a want, at once or once the request
/// held so far was closed, is one for that very want. It is made exactly where
/// the want is a new one and wants something, and the answer to it decides
/// whether it is held, with that want applied.
pub proof fn law_request_is_for_the_want(inhibitor: Inhibitor, want: Want, granted: bool)
    requires
        !inhibitor.held || inhibitor.applied.system || inhibitor.applied.display,
        inhibitor.stage == Stage::Waiting,
    ensures
        ({
            let (heard, first) = inhibitor.heard(want);
            let (next, second) = if first == Task::Close {
                heard.released()
            } else {
                (heard, first)
            };
            &&& first == Task::Close <==> want != inhibitor.applied && inhibitor.held
            &&& second == Task::Acquire(want) <==> want != inhibitor.applied && (want.system
                || want.display)
            &&& second == Task::Acquire(want) || second == Task::Wait
            &&& second == Task::Acquire(want) ==> {
                let answered = next.answered(granted);
                &&& !next.held
                &&& answered.held == granted
                &&& answered.applied == want
                &&& answered.stage == Stage::Waiting
            }
            &&& second == Task::Wait ==> next == Inhibitor {
                held: want == inhibitor.applied && inhibitor.held,
                applied: want,
                stage: Stage::Waiting,
            }
        }),
{
}

/// What a portal has open after it was given `task`, with `open` open before:
/// the want that the request was made for. A request that comes while another
/// is open leaves that one behind, and `stray` says so.
pub open spec fn obeyed(
    open: Option<Want>,
    stray: bool,
    task: Task,
    granted: bool,
) -> (Option<Want>, bool) {
    match task {
        Task::Close => (None, stray),
        Task::Acquire(want) => (
            if granted {
                Some(want)
            } else {
                None
            },
            stray || open is Some,
        ),
        _ => (open, stray),
    }
}

/// The inhibitor and the portal after some wants, each with the portal's answer
/// to the request that it leads to, if it leads to one.
pub open spec fn session(wants: Seq<(Want, bool)>) -> (Inhibitor, Option<Want>, bool)
    decreases wants.len(),
{
    if wants.len() == 0 {
        let nothing = Want { system: false, display: false };
        (Inhibitor { held: false, applied: nothing, stage: Stage::Waiting }, None, false)
    } else {
        let (inhibitor, open, stray) = session(wants.drop_last());
        let (want, granted) = wants.last();
        let (heard, first) = inhibitor.heard(want);
        let (open, stray) = obeyed(open, stray, first, granted);
        let (next, second) = if first == Task::Close {
            heard.released()
        } else {
            (heard, Task::Wait)
        };
        let (open, stray) = obeyed(open, stray, second, granted);
        if first is Acquire || second is Acquire {
            (next.answered(granted), open, stray)
        } else {
            (next, open, stray)
        }
    }
}

/// Whatever is wanted and however the portal answers, one request at most is
/// open, the inhibitor knows whether one is, and it was made for the last want.
/// With a new want that wants something, one is open exactly if the portal
/// granted it; with a want as before, what was open stays.
pub proof fn law_open_request_is_for_the_last_want(wants: Seq<(Want, bool)>)
    ensures
        ({
            let (inhibitor, open, stray) = session(wants);
            let last = if wants.len() > 0 {
                wants.last().0
            } else {
                Want { system: false, display: false }
            };
            &&& inhibitor == Inhibitor {
                held: open is Some,
                applied: last,
                stage: Stage::Waiting,
            }
            &&& !stray
            &&& open is Some ==> open == Some(last) && (last.system || last.display)
            &&& wants.len() > 0 ==> {
                let before = wants.drop_last();
                let was = if before.len() > 0 {
                    before.last().0
                } else {
                    Want { system: false, display: false }
                };
                open == if last == was {
                    session(before).1
                } else if (last.system || last.display) && wants.last().1 {
                    Some(last)
                } else {
                    None
                }
            }
        }),
    decreases wants.len(),
{
    if wants.len() > 0 {
        law_open_request_is_for_the_last_want(wants.drop_last());
    }
}

/// When no more wants come, an open request is closed, once, and that is all.
pub proof fn law_end_closes_what_is_open(inhibitor: Inhibitor)
    requires
        inhibitor.stage == Stage::Waiting,
    ensures
        inhibitor.held ==> inhibitor.ended().1 == Task::Close && inhibitor.ended().0.released().1
            == Task::Stop && inhibitor.ended().0.released().0.stage == Stage::Done
            && !inhibitor.ended().0.released().0.held,
        !inhibitor.held ==> inhibitor.ended().1 == Task::Stop && inhibitor.ended().0.stage
            == Stage::Done && !inhibitor.ended().0.held,
{
}

} // verus!
