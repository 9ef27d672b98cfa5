//! What to keep awake while music plays.

use vstd::prelude::*;

verus! {

/// What is kept awake: the system, and its display.
#[derive(Clone, Copy, Debug, PartialEq, Eq, Structural)]
pub struct Want {
    pub system: bool,
    pub display: bool,
}

impl Default for Want {
    /// Nothing.
    fn default() -> (r: Self)
        ensures
            r == (Want { system: false, display: false }),
    {
        Want { system: false, display: false }
    }
}

/// What has to be awake: the system while music plays, and the display too
/// while that is watched, in a window that fills the screen and has the focus.
pub open spec fn wanted(playing: bool, fullscreen: bool, focused: bool) -> Want {
    Want { system: playing, display: playing && fullscreen && focused }
}

/// The part of the player that keeps the machine awake.
#[derive(Clone, Copy, Debug, PartialEq, Eq, Structural)]
pub struct Wake {
    pub fullscreen: bool,
    pub focused: bool,
    pub applied: Want,
}

impl Wake {
    /// What has to be awake with the window as it is.
    pub open spec fn wants(self, playing: bool) -> Want {
        wanted(playing, self.fullscreen, self.focused)
    }

    /// The state once what has to be awake is.
    pub open spec fn settled(self, playing: bool) -> Wake {
        Wake { applied: self.wants(playing), ..self }
    }

    /// What to hold from now on, where that is something else than before.
    pub open spec fn request(self, playing: bool) -> Option<Want> {
        if self.wants(playing) == self.applied {
            None
        } else {
            Some(self.wants(playing))
        }
    }

    /// No window fills the screen or has the focus, and nothing is kept awake.
    pub fn new() -> (r: Wake)
        ensures
            r == (Wake {
                fullscreen: false,
                focused: false,
                applied: Want { system: false, display: false },
            }),
    {
        Wake { fullscreen: false, focused: false, applied: Want::default() }
    }

    /// The window fills the screen from now on, or does not.
    pub fn set_fullscreen(&mut self, on: bool, playing: bool) -> (r: Option<Want>)
        ensures
            *final(self) == (Wake { fullscreen: on, ..*old(self) }).settled(playing),
            r == (Wake { fullscreen: on, ..*old(self) }).request(playing),
            final(self).fullscreen == on,
            final(self).focused == old(self).focused,
            final(self).applied.system == playing,
            final(self).applied.display == (playing && final(self).fullscreen
                && final(self).focused),
            r is Some <==> final(self).applied != old(self).applied,
            r is Some ==> r->0 == final(self).applied,
    {
        self.fullscreen = on;
        self.apply(playing)
    }

    /// The window has the focus from now on, or does not.
    pub fn set_focused(&mut self, on: bool, playing: bool) -> (r: Option<Want>)
        ensures
            *final(self) == (Wake { focused: on, ..*old(self) }).settled(playing),
            r == (Wake { focused: on, ..*old(self) }).request(playing),
            final(self).fullscreen == old(self).fullscreen,
            final(self).focused == on,
            final(self).applied.system == playing,
            final(self).applied.display == (playing && final(self).fullscreen
                && final(self).focused),
            r is Some <==> final(self).applied != old(self).applied,
            r is Some ==> r->0 == final(self).applied,
    {
        self.focused = on;
        self.apply(playing)
    }

    /// Music plays from now on, or does not. Returns what to hold, if that has
    /// changed.
    pub fn apply(&mut self, playing: bool) -> (r: Option<Want>)
        ensures
            *final(self) == old(self).settled(playing),
            r == old(self).request(playing),
            final(self).fullscreen == old(self).fullscreen,
            final(self).focused == old(self).focused,
            final(self).applied.system == playing,
            final(self).applied.display == (playing && final(self).fullscreen
                && final(self).focused),
            r is Some <==> final(self).applied != old(self).applied,
            r is Some ==> r->0 == final(self).applied,
    {
        let want = Want { system: playing, display: playing && self.fullscreen && self.focused };
        if want == self.applied {
            return None;
        }
        self.applied = want;
        Some(want)
    }
}

/// Puts `want` in place of `current`. Says whether that is a change.
pub fn replace(current: &mut Want, want: Want) -> (r: bool)
    ensures
        *final(current) == want,
        r == (want != *old(current)),
{
    if *current == want {
        return false;
    }
    *current = want;
    true
}

/// The display is kept awake only where the system is.
pub proof fn law_display_needs_system(wake: Wake, playing: bool)
    ensures
        wake.wants(playing).display ==> wake.wants(playing).system,
{
}

/// Nothing is kept awake while no music plays.
pub proof fn law_silence_wants_nothing(wake: Wake)
    ensures
        wake.wants(false) == (Want { system: false, display: false }),
{
}

/// A change that is reported.
pub enum Report {
    Fullscreen { on: bool, playing: bool },
    Focused { on: bool, playing: bool },
    Playback { playing: bool },
}

impl Report {
    /// Whether music plays at the time of the report.
    pub open spec fn playing(self) -> bool {
        match self {
            Report::Fullscreen { playing, .. } => playing,
            Report::Focused { playing, .. } => playing,
            Report::Playback { playing } => playing,
        }
    }

    /// The state with the report taken in, before anything is done about it.
    pub open spec fn taken(self, wake: Wake) -> Wake {
        match self {
            Report::Fullscreen { on, .. } => Wake { fullscreen: on, ..wake },
            Report::Focused { on, .. } => Wake { focused: on, ..wake },
            Report::Playback { .. } => wake,
        }
    }
}

/// The state after some reports, and what is held if each request is granted.
pub open spec fn after_reports(reports: Seq<Report>) -> (Wake, Want)
    decreases reports.len(),
{
    if reports.len() == 0 {
        let nothing = Want { system: false, display: false };
        (Wake { fullscreen: false, focused: false, applied: nothing }, nothing)
    } else {
        let (wake, held) = after_reports(reports.drop_last());
        let playing = reports.last().playing();
        let taken = reports.last().taken(wake);
        (
            taken.settled(playing),
            match taken.request(playing) {
                Some(want) => want,
                None => held,
            },
        )
    }
}

/// Whatever was reported, what is held is what the last report calls for, and
/// nothing before the first.
pub proof fn law_holds_what_is_wanted(reports: Seq<Report>)
    ensures
        ({
            let (wake, held) = after_reports(reports);
            &&& held == wake.applied
            &&& held == if reports.len() == 0 {
                Want { system: false, display: false }
            } else {
                wake.wants(reports.last().playing())
            }
        }),
    decreases reports.len(),
{
    if reports.len() > 0 {
        law_holds_what_is_wanted(reports.drop_last());
    }
}

/// Nothing is requested twice: with nothing changed in between, a second look
/// asks for nothing and changes nothing.
pub proof fn law_settled_stays(wake: Wake, playing: bool)
    ensures
        wake.settled(playing).request(playing) is None,
        wake.settled(playing).settled(playing) == wake.settled(playing),
{
}

/// It makes no difference which of focus and fullscreen is reported first.
pub proof fn law_reports_commute(wake: Wake, fullscreen: bool, focused: bool, playing: bool)
    ensures
        ({
            let by_screen = (Wake {
                focused,
                ..(Wake { fullscreen, ..wake }).settled(playing)
            }).settled(playing);
            let by_focus = (Wake {
                fullscreen,
                ..(Wake { focused, ..wake }).settled(playing)
            }).settled(playing);
            by_screen == by_focus
        }),
{
}

/// The system is kept awake exactly while music plays, and the display exactly
/// while it plays in a window that fills the screen and has the focus. What is
/// requested is what is applied then, and only where that is a change.
pub proof fn law_applied_as_wanted(wake: Wake, playing: bool)
    ensures
        wake.settled(playing).fullscreen == wake.fullscreen,
        wake.settled(playing).focused == wake.focused,
        wake.settled(playing).applied.system <==> playing,
        wake.settled(playing).applied.display <==> playing && wake.fullscreen && wake.focused,
        wake.request(playing) is None <==> wake.settled(playing).applied == wake.applied,
        wake.request(playing) is Some ==> wake.request(playing)->0 == wake.settled(
            playing,
        ).applied,
{
}

/// What a report that the window fills the screen, or does not, leaves of the
/// state is what was last reported of that, and the same goes for the focus.
proof fn lemma_last_word(reports: Seq<Report>, screen: int, focus: int)
    requires
        -1 <= screen < reports.len(),
        -1 <= focus < reports.len(),
        screen >= 0 ==> reports[screen] is Fullscreen,
        focus >= 0 ==> reports[focus] is Focused,
        forall|i: int| screen < i < reports.len() ==> !(#[trigger] reports[i] is Fullscreen),
        forall|i: int| focus < i < reports.len() ==> !(#[trigger] reports[i] is Focused),
    ensures
        after_reports(reports).0.fullscreen == (screen >= 0
            && reports[screen]->Fullscreen_on),
        after_reports(reports).0.focused == (focus >= 0 && reports[focus]->Focused_on),
    decreases reports.len(),
{
    if reports.len() > 0 {
        let before = reports.drop_last();
        let last = reports.len() - 1;
        let earlier_screen = if screen == last {
            lemma_last_place(before, true)
        } else {
            screen
        };
        let earlier_focus = if focus == last {
            lemma_last_place(before, false)
        } else {
            focus
        };
        assert forall|i: int| earlier_screen < i < before.len() implies !(#[trigger] before[i]
            is Fullscreen) by {
            assert(before[i] == reports[i]);
        }
        assert forall|i: int| earlier_focus < i < before.len() implies !(#[trigger] before[i]
            is Focused) by {
            assert(before[i] == reports[i]);
        }
        lemma_last_word(before, earlier_screen, earlier_focus);
        assert(reports[last] == reports.last());
    }
}

/// Where the last report of a kind stands, if there is one.
proof fn lemma_last_place(reports: Seq<Report>, screen: bool) -> (r: int)
    ensures
        -1 <= r < reports.len(),
        screen && r >= 0 ==> reports[r] is Fullscreen,
        !screen && r >= 0 ==> reports[r] is Focused,
        screen ==> forall|i: int|
            r < i < reports.len() ==> !(#[trigger] reports[i] is Fullscreen),
        !screen ==> forall|i: int|
            r < i < reports.len() ==> !(#[trigger] reports[i] is Focused),
    decreases reports.len(),
{
    if reports.len() == 0 {
        -1
    } else {
        let last = reports.len() - 1;
        if screen && reports[last] is Fullscreen || !screen && reports[last] is Focused {
            last
        } else {
            let r = lemma_last_place(reports.drop_last(), screen);
            assert forall|i: int| r < i < last implies reports.drop_last()[i]
                == #[trigger] reports[i] by {}
            r
        }
    }
}

/// The last word on each thing decides, however it came about: what is held
/// after some reports is the system if music plays at the last of them, and the
/// display too if the last report on the screen says that the window fills it
/// and the last report on the focus that the window has it.
pub proof fn law_last_word_decides(reports: Seq<Report>, screen: int, focus: int)
    requires
        0 <= screen < reports.len(),
        0 <= focus < reports.len(),
        reports[screen] is Fullscreen,
        reports[focus] is Focused,
        forall|i: int| screen < i < reports.len() ==> !(#[trigger] reports[i] is Fullscreen),
        forall|i: int| focus < i < reports.len() ==> !(#[trigger] reports[i] is Focused),
    ensures
        ({
            let playing = match reports.last() {
                Report::Fullscreen { playing, .. } => playing,
                Report::Focused { playing, .. } => playing,
                Report::Playback { playing } => playing,
            };
            let held = after_reports(reports).1;
            &&& held.system <==> playing
            &&& held.display <==> playing && reports[screen]->Fullscreen_on
                && reports[focus]->Focused_on
        }),
{
    lemma_last_word(reports, screen, focus);
    law_holds_what_is_wanted(reports);
}

/// As long as nothing was reported of the screen, or nothing of the focus, the
/// display is not kept awake.
pub proof fn law_display_waits_for_both(reports: Seq<Report>)
    requires
        (forall|i: int| 0 <= i < reports.len() ==> !(#[trigger] reports[i] is Fullscreen)) || (
        forall|i: int| 0 <= i < reports.len() ==> !(#[trigger] reports[i] is Focused)),
    ensures
        !after_reports(reports).1.display,
{
    let screen = lemma_last_place(reports, true);
    let focus = lemma_last_place(reports, false);
    lemma_last_word(reports, screen, focus);
    law_holds_what_is_wanted(reports);
}

} // verus!
