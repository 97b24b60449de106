// The blinky machine, written out the way the state machine
// attribute lays it out, over the library's machinery.
use std::time::{Duration, Instant};

use moku::internal::{SubstateEnum, Next, Response, StateEntry};
use moku::machine::{Builder, Definition, Machine};
use moku::tree::StateTree;
use moku::{StateEnum, StateMachine, StateMachineBuilder, StateRef};

pub struct Top;

pub struct Disabled;

pub struct Enabled {
    blink_period: Duration,
}

pub struct LedOn {
    entry_time: Instant,
}

pub struct LedOff {
    entry_time: Instant,
}

#[derive(Debug, Clone, Copy, PartialEq, Eq)]
pub enum BlinkyState {
    Top,
    Disabled,
    Enabled,
    LedOn,
    LedOff,
}

impl StateEnum for BlinkyState {
    fn spec_id(self) -> usize {
        self.id()
    }

    fn spec_count() -> usize {
        Self::count()
    }

    fn id(self) -> usize {
        self as usize
    }

    fn from_id(id: usize) -> Option<Self> {
        [
            BlinkyState::Top,
            BlinkyState::Disabled,
            BlinkyState::Enabled,
            BlinkyState::LedOn,
            BlinkyState::LedOff,
        ]
        .get(id)
        .copied()
    }

    fn count() -> usize {
        5
    }
}

pub enum Data {
    Disabled(Disabled),
    Enabled(Enabled),
    LedOn(LedOn),
    LedOff(LedOff),
}

pub struct BlinkyHooks;

impl SubstateEnum<Top, Data, ()> for BlinkyHooks {
    fn enter_answers(_state: usize, _answer: moku::internal::Next<usize>) -> bool {
        true
    }

    fn init_answers(_state: usize, _answer: moku::internal::Next<usize>) -> bool {
        true
    }

    fn update_answers(_state: usize, _level: usize, _answer: moku::internal::Next<usize>) -> bool {
        true
    }

    fn top_down_answers(_state: usize, _level: usize, _answer: moku::internal::Next<usize>) -> bool {
        true
    }

    fn exit_answers(_state: usize, _answer: moku::internal::Next<usize>) -> bool {
        true
    }

    fn event_answers(_state: usize, _level: usize, _answer: moku::internal::Response<usize>) -> bool {
        true
    }

    fn data_fits(_state: usize, _data: Data) -> bool {
        true
    }

    fn enter(state: usize, _top: &mut Top, _stack: &mut Vec<Data>) -> StateEntry<Data, usize> {
        StateEntry::State(match state {
            1 => Data::Disabled(Disabled),
            2 => Data::Enabled(Enabled {
                blink_period: Duration::from_secs(0),
            }),
            3 => Data::LedOn(LedOn {
                entry_time: Instant::now(),
            }),
            _ => Data::LedOff(LedOff {
                entry_time: Instant::now(),
            }),
        })
    }

    fn init(_state: usize, _top: &mut Top, _stack: &mut Vec<Data>) -> Next<usize> {
        Next::Stay
    }

    fn update(_state: usize, level: usize, _top: &mut Top, stack: &mut Vec<Data>) -> Next<usize> {
        if level == 2 {
            let period = match &stack[0] {
                Data::Enabled(e) => e.blink_period,
                _ => unreachable!(),
            };
            match &stack[1] {
                Data::LedOn(s) if s.entry_time.elapsed() >= period => Next::Target(4),
                Data::LedOff(s) if s.entry_time.elapsed() >= period => Next::Target(3),
                _ => Next::Stay,
            }
        } else {
            Next::Stay
        }
    }

    fn top_down_update(_state: usize, _level: usize, _top: &mut Top, _stack: &mut Vec<Data>) -> Next<usize> {
        Next::Stay
    }

    fn exit(_state: usize, _data: Data, _top: &mut Top, _stack: &mut Vec<Data>) -> Next<usize> {
        Next::Stay
    }

    fn handle_event(
        _state: usize,
        _level: usize,
        _event: &(),
        _top: &mut Top,
        _stack: &mut Vec<Data>,
    ) -> Response<usize> {
        Response::Next(Next::Stay)
    }
}

impl Definition<BlinkyState> for BlinkyHooks {
    fn tree() -> StateTree {
        let names = ["Top", "Disabled", "Enabled", "LedOn", "LedOff"]
            .iter()
            .map(|s| s.to_string())
            .collect();
        StateTree::new(names, vec![0, 0, 0, 2, 2]).unwrap()
    }

    fn default_name_spec() -> String {
        String::from("Blinky")
    }

    fn default_name() -> String {
        String::from("Blinky")
    }
}

type BlinkyMachine = Machine<BlinkyState, (), Top, Data, BlinkyHooks>;
type BlinkyMachineBuilder = Builder<BlinkyState, (), Top, Data, BlinkyHooks>;

impl StateRef<BlinkyState, Top> for BlinkyMachine {
    fn ref_ready(&self) -> bool {
        true
    }

    fn ref_data(&self) -> Option<&Top> {
        StateRef::<BlinkyState, Top>::state_ref(self)
    }

    fn state_ref(&self) -> Option<&Top> {
        Some(self.top_ref())
    }

    fn state_mut(&mut self) -> Option<&mut Top> {
        Some(self.top_mut())
    }
}

impl StateRef<BlinkyState, Disabled> for BlinkyMachine {
    fn ref_ready(&self) -> bool {
        true
    }

    fn ref_data(&self) -> Option<&Disabled> {
        StateRef::<BlinkyState, Disabled>::state_ref(self)
    }

    fn state_ref(&self) -> Option<&Disabled> {
        match self.state_data(1) {
            Some(Data::Disabled(x)) => Some(x),
            _ => None,
        }
    }

    fn state_mut(&mut self) -> Option<&mut Disabled> {
        match self.state_data_mut(1) {
            Some(Data::Disabled(x)) => Some(x),
            _ => None,
        }
    }
}

impl StateRef<BlinkyState, Enabled> for BlinkyMachine {
    fn ref_ready(&self) -> bool {
        true
    }

    fn ref_data(&self) -> Option<&Enabled> {
        StateRef::<BlinkyState, Enabled>::state_ref(self)
    }

    fn state_ref(&self) -> Option<&Enabled> {
        match self.state_data(2) {
            Some(Data::Enabled(x)) => Some(x),
            _ => None,
        }
    }

    fn state_mut(&mut self) -> Option<&mut Enabled> {
        match self.state_data_mut(2) {
            Some(Data::Enabled(x)) => Some(x),
            _ => None,
        }
    }
}

impl StateRef<BlinkyState, LedOn> for BlinkyMachine {
    fn ref_ready(&self) -> bool {
        true
    }

    fn ref_data(&self) -> Option<&LedOn> {
        StateRef::<BlinkyState, LedOn>::state_ref(self)
    }

    fn state_ref(&self) -> Option<&LedOn> {
        match self.state_data(3) {
            Some(Data::LedOn(x)) => Some(x),
            _ => None,
        }
    }

    fn state_mut(&mut self) -> Option<&mut LedOn> {
        match self.state_data_mut(3) {
            Some(Data::LedOn(x)) => Some(x),
            _ => None,
        }
    }
}

impl StateRef<BlinkyState, LedOff> for BlinkyMachine {
    fn ref_ready(&self) -> bool {
        true
    }

    fn ref_data(&self) -> Option<&LedOff> {
        StateRef::<BlinkyState, LedOff>::state_ref(self)
    }

    fn state_ref(&self) -> Option<&LedOff> {
        match self.state_data(4) {
            Some(Data::LedOff(x)) => Some(x),
            _ => None,
        }
    }

    fn state_mut(&mut self) -> Option<&mut LedOff> {
        match self.state_data_mut(4) {
            Some(Data::LedOff(x)) => Some(x),
            _ => None,
        }
    }
}

#[test]
fn blinky_basic() {
    let mut machine = BlinkyMachineBuilder::new(Top {}).build();

    let _top: &Top = machine.top_ref();

    let state: Option<&Top> = machine.state_ref();
    assert!(state.is_some());
    let state: Option<&Disabled> = machine.state_ref();
    assert!(state.is_none());
    let state: Option<&Enabled> = machine.state_ref();
    assert!(state.is_none());
    let state: Option<&LedOn> = machine.state_ref();
    assert!(state.is_none());
    let state: Option<&LedOff> = machine.state_ref();
    assert!(state.is_none());

    machine.transition(BlinkyState::Disabled);
    let state: Option<&Top> = machine.state_ref();
    assert!(state.is_some());
    let state: Option<&Disabled> = machine.state_ref();
    assert!(state.is_some());
    let state: Option<&Enabled> = machine.state_ref();
    assert!(state.is_none());
    let state: Option<&LedOn> = machine.state_ref();
    assert!(state.is_none());
    let state: Option<&LedOff> = machine.state_ref();
    assert!(state.is_none());

    machine.transition(BlinkyState::Enabled);
    let state: Option<&Top> = machine.state_ref();
    assert!(state.is_some());
    let state: Option<&Disabled> = machine.state_ref();
    assert!(state.is_none());
    let state: Option<&Enabled> = machine.state_ref();
    assert!(state.is_some());
    let state: Option<&LedOn> = machine.state_ref();
    assert!(state.is_none());
    let state: Option<&LedOff> = machine.state_ref();
    assert!(state.is_none());

    machine.transition(BlinkyState::LedOn);
    let state: Option<&Top> = machine.state_ref();
    assert!(state.is_some());
    let state: Option<&Disabled> = machine.state_ref();
    assert!(state.is_none());
    let state: Option<&Enabled> = machine.state_ref();
    assert!(state.is_some());
    let state: Option<&LedOn> = machine.state_ref();
    assert!(state.is_some());
    let state: Option<&LedOff> = machine.state_ref();
    assert!(state.is_none());

    machine.transition(BlinkyState::LedOff);
    let state: Option<&Top> = machine.state_ref();
    assert!(state.is_some());
    let state: Option<&Disabled> = machine.state_ref();
    assert!(state.is_none());
    let state: Option<&Enabled> = machine.state_ref();
    assert!(state.is_some());
    let state: Option<&LedOn> = machine.state_ref();
    assert!(state.is_none());
    let state: Option<&LedOff> = machine.state_ref();
    assert!(state.is_some());
}

#[test]
fn blinky_update_toggles_led() {
    let mut machine = BlinkyMachineBuilder::new(Top {}).build();
    machine.transition(BlinkyState::LedOn);
    machine.update();
    assert_eq!(machine.state(), BlinkyState::LedOff);
    machine.update();
    assert_eq!(machine.state(), BlinkyState::LedOn);
    assert!(machine.state_matches(BlinkyState::Enabled));
    assert!(!machine.state_matches(BlinkyState::Disabled));
}
