//! The power assertions that keep a macOS machine awake.

use crate::wake::Want;
use vstd::prelude::*;

verus! {

/// The kinds of assertions.
#[derive(Clone, Copy, Debug, PartialEq, Eq, Structural)]
pub enum Kind {
    /// The system does not sleep while nobody uses it.
    System,
    /// Nor does the display.
    Display,
}

impl Kind {
    /// What the system calls the kind.
    pub open spec fn label(self) -> Seq<char> {
        match self {
            Kind::System => "PreventUserIdleSystemSleep"@,
            Kind::Display => "PreventUserIdleDisplaySleep"@,
        }
    }

    /// What the system calls the kind.
    pub fn name(self) -> (r: &'static str)
        ensures
            r@ == self.label(),
            r@ == match self {
                Kind::System => "PreventUserIdleSystemSleep"@,
                Kind::Display => "PreventUserIdleDisplaySleep"@,
            },
    {
        match self {
            Kind::System => "PreventUserIdleSystemSleep",
            Kind::Display => "PreventUserIdleDisplaySleep",
        }
    }
}

/// What to do about an assertion.
#[derive(Clone, Copy, Debug, PartialEq, Eq, Structural)]
pub enum Power {
    /// Leave it as it is.
    Keep,
    /// Create one of this kind.
    Create(Kind),
    /// Release the one with this id.
    Release(u32),
}

/// The two assertions, one of each kind, held by id once created.
#[derive(Clone, Copy, Debug, PartialEq, Eq, Structural)]
pub struct Assertions {
    pub system: Option<u32>,
    pub display: Option<u32>,
}

impl Default for Assertions {
    /// None is held.
    fn default() -> (r: Self)
        ensures
            r == (Assertions { system: None, display: None }),
    {
        Assertions { system: None, display: None }
    }
}

/// What has to be done so that an assertion of `kind` is held if and only if
/// `on`.
pub open spec fn power_for(held: Option<u32>, on: bool, kind: Kind) -> Power {
    match held {
        Some(id) => if on {
            Power::Keep
        } else {
            Power::Release(id)
        },
        None => if on {
            Power::Create(kind)
        } else {
            Power::Keep
        },
    }
}

/// What is still held when that is about to be done: an assertion that is being
/// released counts no longer.
pub open spec fn kept(held: Option<u32>, on: bool) -> Option<u32> {
    if on {
        held
    } else {
        None
    }
}

/// What is held after an attempt to create an assertion, with the id that came
/// of it if it was created.
pub open spec fn attempted(held: Option<u32>, answer: Option<u32>) -> Option<u32> {
    match answer {
        Some(id) => Some(id),
        None => held,
    }
}

/// Decides what to do about the assertion of `kind`.
pub fn hold_one(held: &mut Option<u32>, on: bool, kind: Kind) -> (r: Power)
    ensures
        r == power_for(*old(held), on, kind),
        *final(held) == kept(*old(held), on),
        *old(held) is None && on ==> r == Power::Create(kind) && *final(held) is None,
        *old(held) is Some && !on ==> r == Power::Release((*old(held))->0) && *final(held) is None,
        on == (*old(held) is Some) ==> r == Power::Keep && *final(held) == *old(held),
{
    if on == held.is_some() {
        return Power::Keep;
    }
    if on {
        Power::Create(kind)
    } else {
        match held.take() {
            Some(id) => Power::Release(id),
            None => Power::Keep,
        }
    }
}

impl Assertions {
    /// The assertion of `kind` that is held, if one is.
    pub open spec fn slot(self, kind: Kind) -> Option<u32> {
        match kind {
            Kind::System => self.system,
            Kind::Display => self.display,
        }
    }

    /// The assertions with another one, or none, of `kind`.
    pub open spec fn with_slot(self, kind: Kind, held: Option<u32>) -> Assertions {
        match kind {
            Kind::System => Assertions { system: held, ..self },
            Kind::Display => Assertions { display: held, ..self },
        }
    }

    /// The state once the one of `kind` was asked to be held or not, and what
    /// came of a request to create it was noted: its id, if it was created.
    pub open spec fn followed(self, kind: Kind, on: bool, answer: Option<u32>) -> Assertions {
        let asked = self.with_slot(kind, kept(self.slot(kind), on));
        if power_for(self.slot(kind), on, kind) is Create {
            asked.with_slot(kind, attempted(asked.slot(kind), answer))
        } else {
            asked
        }
    }

    /// Decides what to do about the assertion for the system and about the one
    /// for the display.
    pub fn set(&mut self, want: Want) -> (r: (Power, Power))
        ensures
            r.0 == power_for(old(self).system, want.system, Kind::System),
            r.1 == power_for(old(self).display, want.display, Kind::Display),
            final(self).system == kept(old(self).system, want.system),
            final(self).display == kept(old(self).display, want.display),
            old(self).system is None && want.system ==> {
                &&& r.0 == Power::Create(Kind::System)
                &&& final(self).system is None
            },
            old(self).system is Some && !want.system ==> {
                &&& r.0 == Power::Release(old(self).system->0)
                &&& final(self).system is None
            },
            want.system == (old(self).system is Some) ==> {
                &&& r.0 == Power::Keep
                &&& final(self).system == old(self).system
            },
            old(self).display is None && want.display ==> {
                &&& r.1 == Power::Create(Kind::Display)
                &&& final(self).display is None
            },
            old(self).display is Some && !want.display ==> {
                &&& r.1 == Power::Release(old(self).display->0)
                &&& final(self).display is None
            },
            want.display == (old(self).display is Some) ==> {
                &&& r.1 == Power::Keep
                &&& final(self).display == old(self).display
            },
    {
        let system = hold_one(&mut self.system, want.system, Kind::System);
        let display = hold_one(&mut self.display, want.display, Kind::Display);
        (system, display)
    }

    /// Takes note of an attempt to create an assertion of `kind`: its id, if it
    /// was created.
    pub fn created(&mut self, kind: Kind, answer: Option<u32>)
        ensures
            *final(self) == old(self).with_slot(kind, attempted(old(self).slot(kind), answer)),
            final(self).system == if kind == Kind::System && answer is Some {
                answer
            } else {
                old(self).system
            },
            final(self).display == if kind == Kind::Display && answer is Some {
                answer
            } else {
                old(self).display
            },
    {
        if let Some(id) = answer {
            match kind {
                Kind::System => {
                    self.system = Some(id);
                },
                Kind::Display => {
                    self.display = Some(id);
                },
            }
        }
    }
}

/// Where the system creates what it is asked to, each assertion is held exactly
/// when it is wanted, and one that was held as wanted keeps its id. Where it
/// does not, none is held in its place, and the other is held as wanted all the
/// same.
pub proof fn law_held_as_wanted(
    assertions: Assertions,
    want: Want,
    system: Option<u32>,
    display: Option<u32>,
)
    ensures
        ({
            let after = assertions.followed(Kind::System, want.system, system).followed(
                Kind::Display,
                want.display,
                display,
            );
            &&& system is Some || assertions.system is Some ==> (after.system is Some
                <==> want.system)
            &&& display is Some || assertions.display is Some ==> (after.display is Some
                <==> want.display)
            &&& after.system is Some ==> want.system
            &&& after.display is Some ==> want.display
            &&& assertions.system is Some && want.system ==> after.system == assertions.system
            &&& assertions.display is Some && want.display ==> after.display
                == assertions.display
        }),
{
}

/// An assertion is created for a place only of the kind that belongs there, and
/// the two kinds have different names.
pub proof fn law_kinds_stay_apart(held: Option<u32>, on: bool, kind: Kind)
    ensures
        power_for(held, on, kind) matches Power::Create(made) ==> made == kind,
        Kind::System.label() != Kind::Display.label(),
{
    reveal_strlit("PreventUserIdleSystemSleep");
    reveal_strlit("PreventUserIdleDisplaySleep");
    assert(Kind::System.label().len() != Kind::Display.label().len());
}

/// No assertion is lost: one is created only where none is held, and one that
/// is dropped is released.
pub proof fn law_none_leaks(held: Option<u32>, on: bool, kind: Kind)
    ensures
        power_for(held, on, kind) is Create ==> held is None,
        held is Some && kept(held, on) is None ==> power_for(held, on, kind) == Power::Release(
            held->0,
        ),
        power_for(held, on, kind) matches Power::Release(id) ==> held == Some(id) && kept(
            held,
            on,
        ) is None,
{
}

/// An assertion is held under the very id that it was created with, whatever the
/// id, and what is released later is that id. The one of the other kind is not
/// touched by any of this.
pub proof fn law_created_is_released(assertions: Assertions, kind: Kind, id: u32)
    requires
        kind == Kind::System ==> assertions.system is None,
        kind == Kind::Display ==> assertions.display is None,
    ensures
        ({
            let asked = assertions.with_slot(kind, kept(assertions.slot(kind), true));
            let made = asked.with_slot(kind, attempted(asked.slot(kind), Some(id)));
            let dropped = made.with_slot(kind, kept(made.slot(kind), false));
            &&& power_for(assertions.slot(kind), true, kind) == Power::Create(kind)
            &&& made == if kind == Kind::System {
                Assertions { system: Some(id), ..assertions }
            } else {
                Assertions { display: Some(id), ..assertions }
            }
            &&& power_for(made.slot(kind), true, kind) == Power::Keep
            &&& kept(made.slot(kind), true) == Some(id)
            &&& power_for(made.slot(kind), false, kind) == Power::Release(id)
            &&& dropped == assertions
            &&& power_for(dropped.slot(kind), false, kind) == Power::Keep
        }),
{
}

/// The names by which the system tells the two kinds apart.
pub proof fn law_kinds_have_their_names()
    ensures
        Kind::System.label() == "PreventUserIdleSystemSleep"@,
        Kind::Display.label() == "PreventUserIdleDisplaySleep"@,
{
}

/// The assertion of one kind that the system has after it was asked for
/// `power`, with `live` before, `answer` being what comes of a creation. One
/// that is created while another is there leaves that one behind, and one is
/// only gone if it is released by its own id.
pub open spec fn served(
    live: Seq<u32>,
    power: Power,
    kind: Kind,
    answer: Option<u32>,
) -> Seq<u32> {
    match power {
        Power::Keep => live,
        Power::Create(made) => if made == kind && answer is Some {
            live.push(answer->0)
        } else {
            live
        },
        Power::Release(id) => if live.len() > 0 && live.last() == id {
            live.drop_last()
        } else {
            live
        },
    }
}

/// The assertions, and those that the system has for the system and for the
/// display, after some wants, each with what comes of the creations that it
/// leads to, if it leads to any.
pub open spec fn history(asks: Seq<(Want, Option<u32>, Option<u32>)>) -> (
    Assertions,
    Seq<u32>,
    Seq<u32>,
)
    decreases asks.len(),
{
    if asks.len() == 0 {
        (Assertions { system: None, display: None }, Seq::empty(), Seq::empty())
    } else {
        let (before, system, display) = history(asks.drop_last());
        let (want, for_system, for_display) = asks.last();
        (
            before.followed(Kind::System, want.system, for_system).followed(
                Kind::Display,
                want.display,
                for_display,
            ),
            served(
                system,
                power_for(before.system, want.system, Kind::System),
                Kind::System,
                for_system,
            ),
            served(
                display,
                power_for(before.display, want.display, Kind::Display),
                Kind::Display,
                for_display,
            ),
        )
    }
}

/// Whatever was wanted and whatever came of it, the system has at most one
/// assertion of each kind, the one that is held by its id. One is there only
/// while it is wanted; it is there if it is wanted and its creation succeeded,
/// or if it was there before.
pub proof fn law_held_ids_are_live(asks: Seq<(Want, Option<u32>, Option<u32>)>)
    ensures
        ({
            let (held, system, display) = history(asks);
            &&& system == if held.system is Some {
                seq![held.system->0]
            } else {
                Seq::empty()
            }
            &&& display == if held.display is Some {
                seq![held.display->0]
            } else {
                Seq::empty()
            }
            &&& asks.len() == 0 ==> system.len() == 0 && display.len() == 0
            &&& asks.len() > 0 ==> {
                let (want, for_system, for_display) = asks.last();
                let (_, had_system, had_display) = history(asks.drop_last());
                &&& system == if !want.system {
                    Seq::empty()
                } else if had_system.len() > 0 {
                    had_system
                } else if for_system is Some {
                    seq![for_system->0]
                } else {
                    Seq::empty()
                }
                &&& display == if !want.display {
                    Seq::empty()
                } else if had_display.len() > 0 {
                    had_display
                } else if for_display is Some {
                    seq![for_display->0]
                } else {
                    Seq::empty()
                }
            }
        }),
    decreases asks.len(),
{
    if asks.len() > 0 {
        law_held_ids_are_live(asks.drop_last());
        let (before, system, display) = history(asks.drop_last());
        if before.system is Some {
            assert(seq![before.system->0].drop_last() =~= Seq::<u32>::empty());
        }
        if before.display is Some {
            assert(seq![before.display->0].drop_last() =~= Seq::<u32>::empty());
        }
        let (want, for_system, for_display) = asks.last();
        if for_system is Some {
            assert(Seq::<u32>::empty().push(for_system->0) =~= seq![for_system->0]);
        }
        if for_display is Some {
            assert(Seq::<u32>::empty().push(for_display->0) =~= seq![for_display->0]);
        }
    }
}

} // verus!
