use ashpd::desktop::inhibit::InhibitFlags;
use ashpd::enumflags2::BitFlags;
use sonora::{
    execution_state, hold_one, inhibit_flags, replace, Assertions, Inhibitor, Kind, Power, Stage,
    Task, Wake, Want,
};

const NOTHING: Want = Want { system: false, display: false };
const SYSTEM: Want = Want { system: true, display: false };
const BOTH: Want = Want { system: true, display: true };

#[test]
fn nothing_is_wanted_at_first() {
    let wake = Wake::new();
    assert_eq!(wake.applied, NOTHING);
    assert_eq!(Want::default(), NOTHING);
    assert!(!wake.fullscreen && !wake.focused);
}

#[test]
fn playing_keeps_the_system_awake() {
    let mut wake = Wake::new();
    assert_eq!(wake.apply(true), Some(SYSTEM));
    assert_eq!(wake.apply(true), None);
    assert_eq!(wake.apply(false), Some(NOTHING));
    assert_eq!(wake.apply(false), None);
}

#[test]
fn watching_keeps_the_display_awake() {
    let mut wake = Wake::new();
    assert_eq!(wake.set_fullscreen(true, true), Some(SYSTEM));
    assert_eq!(wake.set_focused(true, true), Some(BOTH));
    assert_eq!(wake.set_focused(false, true), Some(SYSTEM));
    assert_eq!(wake.set_fullscreen(false, true), None);
    assert_eq!(wake.set_focused(true, true), None);
}

#[test]
fn watching_silence_keeps_nothing_awake() {
    let mut wake = Wake::new();
    assert_eq!(wake.set_fullscreen(true, false), None);
    assert_eq!(wake.set_focused(true, false), None);
    assert_eq!(wake.apply(true), Some(BOTH));
    assert_eq!(wake.apply(false), Some(NOTHING));
}

#[test]
fn holds_follow_what_is_applied() {
    let mut wake = Wake::new();
    let mut held = Want::default();
    for n in 0..64u32 {
        let playing = n & 1 != 0;
        let request = match n % 3 {
            0 => wake.set_fullscreen(n & 2 != 0, playing),
            1 => wake.set_focused(n & 4 != 0, playing),
            _ => wake.apply(playing),
        };
        if let Some(want) = request {
            assert_ne!(want, held);
            held = want;
        }
        assert_eq!(held, wake.applied);
        assert!(held.system || !held.display);
    }
}

#[test]
fn reports_commute() {
    for n in 0..8u32 {
        let (fullscreen, focused, playing) = (n & 1 != 0, n & 2 != 0, n & 4 != 0);
        let (mut a, mut b) = (Wake::new(), Wake::new());
        a.set_fullscreen(fullscreen, playing);
        a.set_focused(focused, playing);
        b.set_focused(focused, playing);
        b.set_fullscreen(fullscreen, playing);
        assert_eq!(a, b);
    }
}

#[test]
fn replacing_says_what_changed() {
    let mut current = NOTHING;
    assert!(!replace(&mut current, NOTHING));
    assert!(replace(&mut current, BOTH));
    assert_eq!(current, BOTH);
    assert!(!replace(&mut current, BOTH));
}

#[test]
fn execution_state_flags() {
    assert_eq!(execution_state(NOTHING), 0x8000_0000);
    assert_eq!(execution_state(SYSTEM), 0x8000_0001);
    assert_eq!(execution_state(Want { system: false, display: true }), 0x8000_0002);
    assert_eq!(execution_state(BOTH), 0x8000_0003);
}

#[test]
fn portal_flags() {
    let none: BitFlags<InhibitFlags> = BitFlags::empty();
    assert_eq!(inhibit_flags(NOTHING), none);
    assert_eq!(inhibit_flags(SYSTEM), InhibitFlags::Suspend);
    assert_eq!(inhibit_flags(Want { system: false, display: true }), InhibitFlags::Idle);
    assert_eq!(inhibit_flags(BOTH), InhibitFlags::Suspend | InhibitFlags::Idle);
    assert_eq!(inhibit_flags(BOTH).bits(), 12);
}

#[test]
fn one_assertion() {
    let mut held = None;
    assert_eq!(hold_one(&mut held, false, Kind::Display), Power::Keep);
    assert_eq!(hold_one(&mut held, true, Kind::Display), Power::Create(Kind::Display));
    assert_eq!(held, None);
    held = Some(5);
    assert_eq!(hold_one(&mut held, true, Kind::Display), Power::Keep);
    assert_eq!(held, Some(5));
    assert_eq!(hold_one(&mut held, false, Kind::Display), Power::Release(5));
    assert_eq!(held, None);
}

#[test]
fn kinds_of_assertions() {
    assert_eq!(Kind::System.name(), "PreventUserIdleSystemSleep");
    assert_eq!(Kind::Display.name(), "PreventUserIdleDisplaySleep");
}

#[test]
fn assertion_that_cannot_be_created() {
    let mut assertions = Assertions::default();
    let both = (Power::Create(Kind::System), Power::Create(Kind::Display));
    assert_eq!(assertions.set(BOTH), both);
    assertions.created(Kind::System, None);
    assertions.created(Kind::Display, Some(5));
    assert_eq!(assertions, Assertions { system: None, display: Some(5) });
    // The next time it is tried again, and the other keeps its id.
    assert_eq!(assertions.set(BOTH), (Power::Create(Kind::System), Power::Keep));
    assert_eq!(assertions, Assertions { system: None, display: Some(5) });
}

#[test]
fn both_assertions() {
    let mut assertions = Assertions::default();
    assert_eq!(assertions, Assertions { system: None, display: None });
    assert_eq!(assertions.set(SYSTEM), (Power::Create(Kind::System), Power::Keep));
    assertions.created(Kind::System, Some(1));
    assert_eq!(assertions, Assertions { system: Some(1), display: None });
    assert_eq!(assertions.set(BOTH), (Power::Keep, Power::Create(Kind::Display)));
    assertions.created(Kind::Display, Some(2));
    assert_eq!(assertions, Assertions { system: Some(1), display: Some(2) });
    assert_eq!(assertions.set(SYSTEM), (Power::Keep, Power::Release(2)));
    assert_eq!(assertions, Assertions { system: Some(1), display: None });
    assert_eq!(assertions.set(NOTHING), (Power::Release(1), Power::Keep));
    assert_eq!(assertions, Assertions::default());
}

#[test]
fn inhibitor_meets_a_want() {
    let mut inhibitor = Inhibitor::new();
    assert_eq!(inhibitor.changed(NOTHING), Task::Wait);
    assert_eq!(inhibitor.changed(SYSTEM), Task::Acquire(SYSTEM));
    assert_eq!(inhibitor.stage, Stage::Acquiring(SYSTEM));
    assert_eq!(inhibitor.acquired(true), Task::Wait);
    assert!(inhibitor.held);
    assert_eq!(inhibitor.applied, SYSTEM);
    assert_eq!(inhibitor.changed(SYSTEM), Task::Wait);
}

#[test]
fn inhibitor_closes_before_it_acquires() {
    let mut inhibitor = Inhibitor { held: true, applied: SYSTEM, stage: Stage::Waiting };
    assert_eq!(inhibitor.changed(BOTH), Task::Close);
    assert!(!inhibitor.held);
    assert_eq!(inhibitor.closed(), Task::Acquire(BOTH));
    assert_eq!(inhibitor.acquired(true), Task::Wait);
    assert_eq!(inhibitor, Inhibitor { held: true, applied: BOTH, stage: Stage::Waiting });
    assert_eq!(inhibitor.changed(NOTHING), Task::Close);
    assert_eq!(inhibitor.closed(), Task::Wait);
    assert_eq!(inhibitor, Inhibitor::new());
}

#[test]
fn inhibitor_does_not_repeat_a_refused_request() {
    let mut inhibitor = Inhibitor::new();
    assert_eq!(inhibitor.changed(BOTH), Task::Acquire(BOTH));
    assert_eq!(inhibitor.acquired(false), Task::Wait);
    assert!(!inhibitor.held);
    assert_eq!(inhibitor.changed(BOTH), Task::Wait);
    assert_eq!(inhibitor.changed(SYSTEM), Task::Acquire(SYSTEM));
}

#[test]
fn inhibitor_ends_with_nothing_held() {
    let mut inhibitor = Inhibitor { held: true, applied: SYSTEM, stage: Stage::Waiting };
    assert_eq!(inhibitor.gone(), Task::Close);
    assert_eq!(inhibitor.stage, Stage::Finishing);
    assert_eq!(inhibitor.closed(), Task::Stop);
    assert_eq!(inhibitor.stage, Stage::Done);
    assert!(!inhibitor.held);

    let mut inhibitor = Inhibitor::new();
    assert_eq!(inhibitor.gone(), Task::Stop);
    assert_eq!(inhibitor.stage, Stage::Done);
}
