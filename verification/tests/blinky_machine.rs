// The library's own Blinky machine: its states, its first transitions and its blink period.

use moku::blinky::{
    blinky_tree, period_elapsed, BlinkyMachineBuilder, BlinkyState, Enabled, EnabledSuperstates,
    LedOn, Top, TopSuperstates,
};
use moku::metadata::state_chart;
use moku::{NoSuperstates, StateMachine, StateMachineBuilder, StateRef};

#[test]
fn blinky_starts_disabled() {
    let machine = BlinkyMachineBuilder::new(Top).build();
    assert_eq!(machine.state(), BlinkyState::Disabled);
    assert_eq!(machine.state_list(), vec![BlinkyState::Top, BlinkyState::Disabled]);
    assert_eq!(machine.name(), "Blinky");
}

#[test]
fn blinky_enabled_starts_with_led_on() {
    let mut machine = BlinkyMachineBuilder::new(Top).name("Led".to_owned()).build();
    assert_eq!(machine.name(), "Led");

    machine.transition(BlinkyState::Enabled);
    assert_eq!(machine.state(), BlinkyState::LedOn);
    assert_eq!(
        machine.state_list(),
        vec![BlinkyState::Top, BlinkyState::Enabled, BlinkyState::LedOn]
    );
    assert!(machine.state_matches(BlinkyState::Enabled));
    assert!(!machine.state_matches(BlinkyState::Disabled));

    let enabled: &Enabled = machine.state_ref().unwrap();
    assert_eq!(enabled.blink_period_ms, 2000);
    let led_on: Option<&LedOn> = machine.state_ref();
    assert!(led_on.is_some());

    // the period has not passed yet
    machine.update();
    assert_eq!(machine.state(), BlinkyState::LedOn);

    machine.transition(BlinkyState::Disabled);
    assert_eq!(machine.state(), BlinkyState::Disabled);
    let enabled: Option<&Enabled> = machine.state_ref();
    assert!(enabled.is_none());
}

#[test]
fn blinky_period() {
    assert!(!period_elapsed(1_999_999_999, 2000));
    assert!(period_elapsed(2_000_000_000, 2000));
    assert!(period_elapsed(2_000_000_001, 2000));
    assert!(period_elapsed(0, 0));
    assert!(!period_elapsed(999_999, 1));
}

#[test]
fn blinky_chart() {
    assert_eq!(
        state_chart(&blinky_tree()),
        "Top
├─ Disabled
└─ Enabled
   ├─ LedOn
   └─ LedOff"
    );
}

#[test]
fn blinky_superstates() {
    let mut top = Top;
    let mut none = NoSuperstates(std::marker::PhantomData);
    let mut sup = TopSuperstates::new(&mut top, &mut none);
    let mut enabled = Enabled { blink_period_ms: 500 };
    let inner = EnabledSuperstates::new(&mut enabled, &mut sup);
    assert_eq!(inner.enabled.blink_period_ms, 500);
}

#[test]
fn blinky_passes_events_on() {
    let mut machine = BlinkyMachineBuilder::new(Top).build();
    machine.transition(BlinkyState::Enabled);

    // no state of Blinky handles events: they pass through and nothing changes
    machine.handle_event(&());
    assert_eq!(machine.state(), BlinkyState::LedOn);
    assert_eq!(
        machine.state_list(),
        vec![BlinkyState::Top, BlinkyState::Enabled, BlinkyState::LedOn]
    );
}
