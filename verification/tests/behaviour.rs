// Behaviour tests: machines written as lists of states with their
// superstates and the actions that differ from the defaults, run by the library's machinery.
#![allow(clippy::upper_case_acronyms)]

use std::cell::Cell;
use std::fmt;
use std::marker::PhantomData;
use std::rc::Rc;

use moku::internal::{SubstateEnum, Next, Response, StateEntry};
use moku::machine::{Builder, Definition, Machine};
use moku::metadata::{build_tree, machine_name, state_chart, StateDecl};
use moku::tree::StateTree;
use moku::{StateEnum, StateMachine, StateMachineBuilder};

// ---------------------------------------------------------------------------------------------
// The harness
// ---------------------------------------------------------------------------------------------

/// A machine: its states below the top state, each with its superstate, and what they do.
trait Spec: Sized + 'static {
    type Top;
    type Data;
    type Event;
    const MODULE: &'static str;
    const NAME: Option<&'static str> = None;
    const STATES: &'static [(&'static str, &'static str)];

    /// The data of `state` when its entry does nothing else.
    fn fresh(state: &str) -> Self::Data;

    fn enter(state: &str, _top: &mut Self::Top, _stack: &mut Vec<Self::Data>) -> StateEntry<Self::Data, usize> {
        StateEntry::State(Self::fresh(state))
    }

    fn init(_state: &str, _top: &mut Self::Top, _stack: &mut Vec<Self::Data>) -> Next<usize> {
        Next::Stay
    }

    fn update(_state: &str, _level: usize, _top: &mut Self::Top, _stack: &mut Vec<Self::Data>) -> Next<usize> {
        Next::Stay
    }

    fn top_down_update(
        _state: &str,
        _level: usize,
        _top: &mut Self::Top,
        _stack: &mut Vec<Self::Data>,
    ) -> Next<usize> {
        Next::Stay
    }

    fn exit(_state: &str, _data: Self::Data, _top: &mut Self::Top, _stack: &mut Vec<Self::Data>) -> Next<usize> {
        Next::Stay
    }

    fn handle_event(
        _state: &str,
        _level: usize,
        _event: &Self::Event,
        _top: &mut Self::Top,
        _stack: &mut Vec<Self::Data>,
    ) -> Response<usize> {
        Response::Next(Next::Stay)
    }
}

fn names<S: Spec>() -> Vec<&'static str> {
    std::iter::once("Top").chain(S::STATES.iter().map(|(n, _)| *n)).collect()
}

fn id<S: Spec>(name: &str) -> usize {
    names::<S>().iter().position(|n| *n == name).unwrap()
}

fn to<S: Spec>(name: &str) -> Next<usize> {
    Next::Target(id::<S>(name))
}

fn exactly<S: Spec>(name: &str) -> Next<usize> {
    Next::ExactTarget(id::<S>(name))
}

/// A state of machine `S`, by id.
struct St<S>(usize, PhantomData<S>);

impl<S> Clone for St<S> {
    fn clone(&self) -> Self {
        *self
    }
}

impl<S> Copy for St<S> {}

impl<S> PartialEq for St<S> {
    fn eq(&self, other: &Self) -> bool {
        self.0 == other.0
    }
}

impl<S> Eq for St<S> {}

impl<S: Spec> fmt::Debug for St<S> {
    fn fmt(&self, f: &mut fmt::Formatter<'_>) -> fmt::Result {
        f.write_str(names::<S>()[self.0])
    }
}

impl<S: Spec> StateEnum for St<S> {
    fn spec_id(self) -> usize {
        self.0
    }

    fn spec_count() -> usize {
        S::STATES.len() + 1
    }

    fn id(self) -> usize {
        self.0
    }

    fn from_id(id: usize) -> Option<Self> {
        if id < Self::count() {
            Some(St(id, PhantomData))
        } else {
            None
        }
    }

    fn count() -> usize {
        S::STATES.len() + 1
    }
}

fn st<S: Spec>(name: &str) -> St<S> {
    St(id::<S>(name), PhantomData)
}

/// The actions and definition of machine `S`.
struct Run<S>(PhantomData<S>);

impl<S: Spec> SubstateEnum<S::Top, S::Data, S::Event> for Run<S> {
    fn enter_answers(_state: usize, _answer: moku::internal::Next<usize>) -> bool {
        true
    }

    fn init_answers(_state: usize, _answer: moku::internal::Next<usize>) -> bool {
        true
    }

    fn update_answers(_state: usize, _level: usize, _answer: moku::internal::Next<usize>) -> bool {
        true
    }

    fn top_down_answers(_state: usize, _level: usize, _answer: moku::internal::Next<usize>) -> bool {
        true
    }

    fn exit_answers(_state: usize, _answer: moku::internal::Next<usize>) -> bool {
        true
    }

    fn event_answers(_state: usize, _level: usize, _answer: moku::internal::Response<usize>) -> bool {
        true
    }

    fn data_fits(_state: usize, _data: S::Data) -> bool {
        true
    }

    fn enter(state: usize, top: &mut S::Top, stack: &mut Vec<S::Data>) -> StateEntry<S::Data, usize> {
        S::enter(names::<S>()[state], top, stack)
    }

    fn init(state: usize, top: &mut S::Top, stack: &mut Vec<S::Data>) -> Next<usize> {
        S::init(names::<S>()[state], top, stack)
    }

    fn update(state: usize, level: usize, top: &mut S::Top, stack: &mut Vec<S::Data>) -> Next<usize> {
        S::update(names::<S>()[state], level, top, stack)
    }

    fn top_down_update(state: usize, level: usize, top: &mut S::Top, stack: &mut Vec<S::Data>) -> Next<usize> {
        S::top_down_update(names::<S>()[state], level, top, stack)
    }

    fn exit(state: usize, data: S::Data, top: &mut S::Top, stack: &mut Vec<S::Data>) -> Next<usize> {
        S::exit(names::<S>()[state], data, top, stack)
    }

    fn handle_event(
        state: usize,
        level: usize,
        event: &S::Event,
        top: &mut S::Top,
        stack: &mut Vec<S::Data>,
    ) -> Response<usize> {
        S::handle_event(names::<S>()[state], level, event, top, stack)
    }
}

impl<S: Spec> Definition<St<S>> for Run<S> {
    fn tree() -> StateTree {
        let decls: Vec<StateDecl> = S::STATES
            .iter()
            .map(|(name, superstate)| StateDecl {
                name: name.to_string(),
                superstate: superstate.to_string(),
            })
            .collect();
        build_tree("Top", &decls).unwrap()
    }

    fn default_name_spec() -> String {
        machine_name(S::MODULE, S::NAME)
    }

    fn default_name() -> String {
        machine_name(S::MODULE, S::NAME)
    }
}

type M<S> = Machine<St<S>, <S as Spec>::Event, <S as Spec>::Top, <S as Spec>::Data, Run<S>>;

fn build<S: Spec>(top: S::Top) -> M<S> {
    Builder::<St<S>, S::Event, S::Top, S::Data, Run<S>>::new(top).build()
}

fn chart<S: Spec>() -> String {
    state_chart(&<Run<S> as Definition<St<S>>>::tree())
}

fn current<S: Spec>(machine: &M<S>) -> &'static str {
    names::<S>()[machine.state().id()]
}

fn go<S: Spec>(machine: &mut M<S>, name: &str) {
    machine.transition(st::<S>(name));
}

fn go_exactly<S: Spec>(machine: &mut M<S>, name: &str) {
    machine.exact_transition(st::<S>(name));
}

fn data<'a, S: Spec>(machine: &'a M<S>, name: &str) -> Option<&'a S::Data> {
    machine.state_data(id::<S>(name))
}

fn active<S: Spec>(machine: &M<S>, name: &str) -> bool {
    machine.state_matches(st::<S>(name))
}

// ---------------------------------------------------------------------------------------------
// Deep nesting
// ---------------------------------------------------------------------------------------------

struct Deep;

struct DeepTop {
    depth_visited: Vec<u8>,
}

enum DeepData {
    L1 { entered: bool },
    Level,
}

fn depth(state: &str) -> u8 {
    if state == "Top" {
        0
    } else {
        state[1..].parse().unwrap()
    }
}

impl Spec for Deep {
    type Top = DeepTop;
    type Data = DeepData;
    type Event = ();
    const MODULE: &'static str = "deep";
    const STATES: &'static [(&'static str, &'static str)] =
        &[("L1", "Top"), ("L2", "L1"), ("L3", "L2"), ("L4", "L3"), ("L5", "L4")];

    fn fresh(_state: &str) -> DeepData {
        DeepData::Level
    }

    fn enter(state: &str, top: &mut DeepTop, _stack: &mut Vec<DeepData>) -> StateEntry<DeepData, usize> {
        top.depth_visited.push(depth(state));
        if state == "L1" {
            StateEntry::State(DeepData::L1 { entered: true })
        } else {
            StateEntry::State(DeepData::Level)
        }
    }

    fn update(state: &str, _level: usize, top: &mut DeepTop, _stack: &mut Vec<DeepData>) -> Next<usize> {
        top.depth_visited.push(depth(state));
        Next::Stay
    }
}

#[test]
fn comprehensive_state_chart() {
    assert_eq!(
        chart::<Deep>(),
        "Top
└─ L1
   └─ L2
      └─ L3
         └─ L4
            └─ L5"
    );
    assert_eq!(
        chart::<Complex>(),
        "Top
├─ A
│  ├─ A1
│  └─ A2
└─ B
   ├─ B1
   └─ B2"
    );
}

#[test]
fn deep_transition_enters_all_levels() {
    let mut machine = build::<Deep>(DeepTop { depth_visited: vec![] });

    go(&mut machine, "L5");
    assert_eq!(current(&machine), "L5");

    assert_eq!(machine.top_ref().depth_visited, vec![1, 2, 3, 4, 5]);
}

#[test]
fn deep_update_order() {
    let mut machine = build::<Deep>(DeepTop { depth_visited: vec![] });

    go(&mut machine, "L5");
    machine.top_mut().depth_visited.clear();

    machine.update();

    assert_eq!(machine.top_ref().depth_visited, vec![5, 4, 3, 2, 1, 0]);
}

#[test]
fn deep_state_matches() {
    let mut machine = build::<Deep>(DeepTop { depth_visited: vec![] });

    go(&mut machine, "L5");

    assert!(active(&machine, "Top"));
    assert!(active(&machine, "L1"));
    assert!(active(&machine, "L2"));
    assert!(active(&machine, "L3"));
    assert!(active(&machine, "L4"));
    assert!(active(&machine, "L5"));
}

#[test]
fn deep_state_refs() {
    let mut machine = build::<Deep>(DeepTop { depth_visited: vec![] });

    go(&mut machine, "L5");

    assert!(matches!(data(&machine, "L1"), Some(DeepData::L1 { entered: true })));

    assert!(data(&machine, "L2").is_some());
    assert!(data(&machine, "L3").is_some());
    assert!(data(&machine, "L4").is_some());
    assert!(data(&machine, "L5").is_some());
}

// ---------------------------------------------------------------------------------------------
// Sibling and cousin transitions
// ---------------------------------------------------------------------------------------------

struct Complex;

struct LogTop {
    log: Vec<String>,
}

impl Spec for Complex {
    type Top = LogTop;
    type Data = ();
    type Event = ();
    const MODULE: &'static str = "complex";
    const STATES: &'static [(&'static str, &'static str)] =
        &[("A", "Top"), ("A1", "A"), ("A2", "A"), ("B", "Top"), ("B1", "B"), ("B2", "B")];

    fn fresh(_state: &str) {}

    fn enter(state: &str, top: &mut LogTop, _stack: &mut Vec<()>) -> StateEntry<(), usize> {
        top.log.push(format!("enter {state}"));
        StateEntry::State(())
    }

    fn exit(state: &str, _data: (), top: &mut LogTop, _stack: &mut Vec<()>) -> Next<usize> {
        top.log.push(format!("exit {state}"));
        Next::Stay
    }
}

#[test]
fn sibling_transition() {
    let mut machine = build::<Complex>(LogTop { log: vec![] });

    go(&mut machine, "A1");
    machine.top_mut().log.clear();

    go(&mut machine, "A2");

    assert_eq!(machine.top_ref().log, vec!["exit A1", "enter A2"]);
}

#[test]
fn cousin_transition() {
    let mut machine = build::<Complex>(LogTop { log: vec![] });

    go(&mut machine, "A1");
    machine.top_mut().log.clear();

    go(&mut machine, "B1");

    assert_eq!(
        machine.top_ref().log,
        vec!["exit A1", "exit A", "enter B", "enter B1"]
    );
}

#[test]
fn deep_to_shallow_transition() {
    let mut machine = build::<Complex>(LogTop { log: vec![] });

    go(&mut machine, "A1");
    machine.top_mut().log.clear();

    go(&mut machine, "B");

    assert_eq!(machine.top_ref().log, vec!["exit A1", "exit A", "enter B"]);
}

#[test]
fn shallow_to_deep_transition() {
    let mut machine = build::<Complex>(LogTop { log: vec![] });

    go(&mut machine, "A");
    machine.top_mut().log.clear();

    go(&mut machine, "B2");

    assert_eq!(machine.top_ref().log, vec!["exit A", "enter B", "enter B2"]);
}

// ---------------------------------------------------------------------------------------------
// Superstate data
// ---------------------------------------------------------------------------------------------

struct DataMachine;

struct CounterTop {
    counter: u32,
}

enum Family {
    Parent { multiplier: u32 },
    Child,
}

fn multiplier(machine: &M<DataMachine>) -> u32 {
    match data(machine, "Parent") {
        Some(Family::Parent { multiplier }) => *multiplier,
        _ => panic!("Parent is not active"),
    }
}

impl Spec for DataMachine {
    type Top = CounterTop;
    type Data = Family;
    type Event = ();
    const MODULE: &'static str = "data";
    const STATES: &'static [(&'static str, &'static str)] =
        &[("Parent", "Top"), ("Child", "Parent"), ("Sibling", "Parent")];

    fn fresh(_state: &str) -> Family {
        Family::Child
    }

    fn enter(state: &str, top: &mut CounterTop, _stack: &mut Vec<Family>) -> StateEntry<Family, usize> {
        if state == "Parent" {
            StateEntry::State(Family::Parent {
                multiplier: top.counter * 2,
            })
        } else {
            StateEntry::State(Family::Child)
        }
    }

    fn update(state: &str, level: usize, top: &mut CounterTop, stack: &mut Vec<Family>) -> Next<usize> {
        let parent = if level >= 2 { stack.get_mut(level - 2) } else { None };
        match (state, parent) {
            ("Child", Some(Family::Parent { multiplier })) => {
                top.counter += 1;
                *multiplier *= 2;
            }
            ("Sibling", Some(Family::Parent { multiplier })) => {
                top.counter += 10;
                *multiplier += 1;
            }
            _ => {}
        }
        Next::Stay
    }
}

#[test]
fn superstate_access_in_enter() {
    let mut machine = build::<DataMachine>(CounterTop { counter: 5 });

    go(&mut machine, "Parent");

    assert_eq!(multiplier(&machine), 10);
}

#[test]
fn superstate_mutation_in_update() {
    let mut machine = build::<DataMachine>(CounterTop { counter: 5 });

    go(&mut machine, "Child");

    assert_eq!(multiplier(&machine), 10);

    machine.update();

    assert_eq!(machine.top_ref().counter, 6);
    assert_eq!(multiplier(&machine), 20);
}

#[test]
fn sibling_keeps_parent_state() {
    let mut machine = build::<DataMachine>(CounterTop { counter: 5 });

    go(&mut machine, "Child");
    machine.update();

    go(&mut machine, "Sibling");

    assert_eq!(multiplier(&machine), 20);

    machine.update();
    assert_eq!(machine.top_ref().counter, 16);
    assert_eq!(multiplier(&machine), 21);
}

// ---------------------------------------------------------------------------------------------
// Initial transition chains
// ---------------------------------------------------------------------------------------------

struct Chains;

impl Spec for Chains {
    type Top = ();
    type Data = ();
    type Event = ();
    const MODULE: &'static str = "chains";
    const STATES: &'static [(&'static str, &'static str)] =
        &[("A", "Top"), ("AA", "A"), ("AAA", "AA"), ("B", "Top")];

    fn fresh(_state: &str) {}

    fn init(state: &str, _top: &mut (), _stack: &mut Vec<()>) -> Next<usize> {
        match state {
            "Top" => to::<Self>("A"),
            "A" => to::<Self>("AA"),
            "AA" => to::<Self>("AAA"),
            "B" => to::<Self>("A"),
            _ => Next::Stay,
        }
    }
}

#[test]
fn chained_init_transitions() {
    let machine = build::<Chains>(());

    assert_eq!(current(&machine), "AAA");
}

#[test]
fn init_to_different_branch() {
    let mut machine = build::<Chains>(());

    go(&mut machine, "B");

    assert_eq!(current(&machine), "AAA");
}

// ---------------------------------------------------------------------------------------------
// Short-circuit transitions
// ---------------------------------------------------------------------------------------------

struct Circuit;

impl Spec for Circuit {
    type Top = LogTop;
    type Data = ();
    type Event = ();
    const MODULE: &'static str = "circuit";
    const STATES: &'static [(&'static str, &'static str)] = &[
        ("Normal", "Top"),
        ("EnterShortCircuit", "Top"),
        ("ExitShortCircuit", "Top"),
        ("Target", "Top"),
        ("Chain1", "Top"),
        ("Chain2", "Top"),
        ("Chain3", "Top"),
    ];

    fn fresh(_state: &str) {}

    fn enter(state: &str, top: &mut LogTop, _stack: &mut Vec<()>) -> StateEntry<(), usize> {
        match state {
            "EnterShortCircuit" => {
                top.log.push("enter EnterShortCircuit".to_string());
                StateEntry::Transition(id::<Self>("Normal"))
            }
            "ExitShortCircuit" => {
                top.log.push("enter ExitShortCircuit".to_string());
                StateEntry::State(())
            }
            "Target" => {
                top.log.push("enter Target".to_string());
                StateEntry::State(())
            }
            "Chain1" => StateEntry::Transition(id::<Self>("Chain2")),
            "Chain2" => StateEntry::Transition(id::<Self>("Chain3")),
            _ => StateEntry::State(()),
        }
    }

    fn exit(state: &str, _data: (), top: &mut LogTop, _stack: &mut Vec<()>) -> Next<usize> {
        if state == "ExitShortCircuit" {
            top.log.push("exit ExitShortCircuit".to_string());
            to::<Self>("Normal")
        } else {
            Next::Stay
        }
    }
}

#[test]
fn enter_short_circuit() {
    let mut machine = build::<Circuit>(LogTop { log: vec![] });

    go(&mut machine, "EnterShortCircuit");

    assert_eq!(current(&machine), "Normal");
    assert!(machine
        .top_ref()
        .log
        .contains(&"enter EnterShortCircuit".to_string()));
}

#[test]
fn exit_short_circuit() {
    let mut machine = build::<Circuit>(LogTop { log: vec![] });

    go(&mut machine, "ExitShortCircuit");
    assert_eq!(current(&machine), "ExitShortCircuit");

    machine.top_mut().log.clear();
    go(&mut machine, "Target");

    assert_eq!(current(&machine), "Normal");
    assert!(machine
        .top_ref()
        .log
        .contains(&"exit ExitShortCircuit".to_string()));
}

#[test]
fn chained_short_circuits() {
    let mut machine = build::<Circuit>(LogTop { log: vec![] });

    go(&mut machine, "Chain1");

    assert_eq!(current(&machine), "Chain3");
}

// ---------------------------------------------------------------------------------------------
// Events in a hierarchy
// ---------------------------------------------------------------------------------------------

struct Evt;

#[derive(Debug, Clone, PartialEq)]
enum EvtEvent {
    GoToA,
    GoToB,
    GoToDeep,
    Handled,
    Unhandled,
}

struct EvtTop {
    handled_by: Option<String>,
}

impl Spec for Evt {
    type Top = EvtTop;
    type Data = ();
    type Event = EvtEvent;
    const MODULE: &'static str = "evt";
    const STATES: &'static [(&'static str, &'static str)] =
        &[("A", "Top"), ("AA", "A"), ("B", "Top"), ("BB", "B")];

    fn fresh(_state: &str) {}

    fn handle_event(
        state: &str,
        _level: usize,
        event: &EvtEvent,
        top: &mut EvtTop,
        _stack: &mut Vec<()>,
    ) -> Response<usize> {
        match (state, event) {
            ("Top", _) => {
                top.handled_by = Some("Top".to_string());
                match event {
                    EvtEvent::GoToA => Response::Next(to::<Self>("A")),
                    EvtEvent::GoToB => Response::Next(to::<Self>("B")),
                    _ => Response::Next(Next::Stay),
                }
            }
            ("AA", EvtEvent::Handled) => {
                top.handled_by = Some("AA".to_string());
                Response::Drop
            }
            ("AA", EvtEvent::GoToDeep) => {
                top.handled_by = Some("AA".to_string());
                Response::Next(to::<Self>("BB"))
            }
            ("BB", EvtEvent::Handled) => {
                top.handled_by = Some("BB".to_string());
                Response::Drop
            }
            _ => Response::Next(Next::Stay),
        }
    }
}

#[test]
fn event_bubbles_to_top() {
    let mut machine = build::<Evt>(EvtTop { handled_by: None });

    go(&mut machine, "AA");
    machine.handle_event(&EvtEvent::Unhandled);

    assert_eq!(machine.top_ref().handled_by, Some("Top".to_string()));
}

#[test]
fn event_handled_by_deep_state() {
    let mut machine = build::<Evt>(EvtTop { handled_by: None });

    go(&mut machine, "AA");
    machine.handle_event(&EvtEvent::Handled);

    assert_eq!(machine.top_ref().handled_by, Some("AA".to_string()));
}

#[test]
fn event_triggers_cross_branch_transition() {
    let mut machine = build::<Evt>(EvtTop { handled_by: None });

    go(&mut machine, "AA");
    machine.handle_event(&EvtEvent::GoToDeep);

    assert_eq!(current(&machine), "BB");
    assert_eq!(machine.top_ref().handled_by, Some("AA".to_string()));
}

#[test]
fn event_handled_at_top_causes_transition() {
    let mut machine = build::<Evt>(EvtTop { handled_by: None });

    go(&mut machine, "BB");
    machine.handle_event(&EvtEvent::GoToA);

    assert_eq!(current(&machine), "A");
}

// ---------------------------------------------------------------------------------------------
// The state type and conversions into transition requests
// ---------------------------------------------------------------------------------------------

struct Traits;

impl Spec for Traits {
    type Top = ();
    type Data = ();
    type Event = ();
    const MODULE: &'static str = "traits";
    const STATES: &'static [(&'static str, &'static str)] = &[("A", "Top"), ("B", "Top")];

    fn fresh(_state: &str) {}
}

#[test]
fn state_enum_debug() {
    let state = st::<Traits>("A");
    let debug_str = format!("{:?}", state);
    assert_eq!(debug_str, "A");
}

#[test]
fn state_enum_clone() {
    let state = st::<Traits>("A");
    #[allow(clippy::clone_on_copy)]
    let cloned = state.clone();
    assert_eq!(state, cloned);
}

#[test]
fn state_enum_copy() {
    let state = st::<Traits>("A");
    let copied: St<Traits> = state;
    assert_eq!(state, copied);
}

#[test]
fn state_enum_eq() {
    assert_eq!(st::<Traits>("A"), st::<Traits>("A"));
    assert_ne!(st::<Traits>("A"), st::<Traits>("B"));
    assert_ne!(st::<Traits>("A"), st::<Traits>("Top"));
}

#[test]
fn next_from_state_enum() {
    let next: Next<St<Traits>> = st::<Traits>("A").into();
    assert!(matches!(next, Next::Target(s) if s == st::<Traits>("A")));
}

#[test]
fn next_from_some() {
    let next: Next<St<Traits>> = Some(st::<Traits>("A")).into();
    assert!(matches!(next, Next::Target(s) if s == st::<Traits>("A")));
}

#[test]
fn next_from_none() {
    let next: Next<St<Traits>> = None.into();
    assert!(matches!(next, Next::Stay));
}

#[test]
fn event_response_from_state_enum() {
    let resp: Response<St<Traits>> = st::<Traits>("A").into();
    assert!(matches!(resp, Response::Next(Next::Target(s)) if s == st::<Traits>("A")));
}

#[test]
fn event_response_from_some() {
    let resp: Response<St<Traits>> = Some(st::<Traits>("A")).into();
    assert!(matches!(resp, Response::Next(Next::Target(s)) if s == st::<Traits>("A")));
}

#[test]
fn event_response_from_none() {
    let resp: Response<St<Traits>> = None.into();
    assert!(matches!(resp, Response::Next(Next::Stay)));
}

#[test]
fn event_response_from_next() {
    let next = Next::Target(st::<Traits>("A"));
    let resp: Response<St<Traits>> = next.into();
    assert!(matches!(resp, Response::Next(Next::Target(s)) if s == st::<Traits>("A")));

    let next = Next::ExactTarget(st::<Traits>("A"));
    let resp: Response<St<Traits>> = next.into();
    assert!(matches!(resp, Response::Next(Next::ExactTarget(s)) if s == st::<Traits>("A")));
}

// ---------------------------------------------------------------------------------------------
// Many siblings
// ---------------------------------------------------------------------------------------------

struct Wide;

struct VisitTop {
    visit_count: u32,
}

impl Spec for Wide {
    type Top = VisitTop;
    type Data = ();
    type Event = ();
    const MODULE: &'static str = "wide";
    const STATES: &'static [(&'static str, &'static str)] = &[
        ("S1", "Top"),
        ("S2", "Top"),
        ("S3", "Top"),
        ("S4", "Top"),
        ("S5", "Top"),
        ("S6", "Top"),
        ("S7", "Top"),
        ("S8", "Top"),
    ];

    fn fresh(_state: &str) {}
}

#[test]
fn wide_state_chart() {
    assert_eq!(
        chart::<Wide>(),
        "Top
├─ S1
├─ S2
├─ S3
├─ S4
├─ S5
├─ S6
├─ S7
└─ S8"
    );
}

#[test]
fn cycle_through_all_states() {
    let mut machine = build::<Wide>(VisitTop { visit_count: 0 });

    let states = ["S1", "S2", "S3", "S4", "S5", "S6", "S7", "S8"];

    for state in states {
        go(&mut machine, state);
        assert_eq!(machine.state(), st::<Wide>(state));
        machine.top_mut().visit_count += 1;
    }

    assert_eq!(machine.top_ref().visit_count, 8);
}

// ---------------------------------------------------------------------------------------------
// Updates after a transition in the middle of an update
// ---------------------------------------------------------------------------------------------

struct Cont;

impl Spec for Cont {
    type Top = LogTop;
    type Data = ();
    type Event = ();
    const MODULE: &'static str = "cont";
    const STATES: &'static [(&'static str, &'static str)] = &[("A", "Top"), ("AA", "A"), ("B", "Top")];

    fn fresh(_state: &str) {}

    fn update(state: &str, _level: usize, top: &mut LogTop, _stack: &mut Vec<()>) -> Next<usize> {
        top.log.push(format!("{state} update"));
        if state == "AA" {
            to::<Self>("B")
        } else {
            Next::Stay
        }
    }
}

#[test]
fn update_continues_from_common_ancestor() {
    let mut machine = build::<Cont>(LogTop { log: vec![] });

    go(&mut machine, "AA");
    machine.top_mut().log.clear();

    machine.update();

    let log = &machine.top_ref().log;
    assert!(log.contains(&"AA update".to_string()));
    assert!(log.contains(&"Top update".to_string()));
    assert!(!log.contains(&"A update".to_string()));
}

// ---------------------------------------------------------------------------------------------
// Exact transitions
// ---------------------------------------------------------------------------------------------

struct Exact;

struct InitTop {
    init_count: u32,
}

enum Counts {
    A { init_count: u32, enter_count: u32 },
    AA { enter_count: u32 },
}

impl Spec for Exact {
    type Top = InitTop;
    type Data = Counts;
    type Event = ();
    const MODULE: &'static str = "exact";
    const STATES: &'static [(&'static str, &'static str)] = &[("A", "Top"), ("AA", "A")];

    fn fresh(state: &str) -> Counts {
        if state == "A" {
            Counts::A {
                init_count: 0,
                enter_count: 1,
            }
        } else {
            Counts::AA { enter_count: 1 }
        }
    }

    fn init(state: &str, top: &mut InitTop, stack: &mut Vec<Counts>) -> Next<usize> {
        match (state, stack.last_mut()) {
            ("Top", _) => top.init_count += 1,
            ("A", Some(Counts::A { init_count, .. })) => *init_count += 1,
            _ => {}
        }
        Next::Stay
    }
}

fn counts_of_a(machine: &M<Exact>) -> (u32, u32) {
    match data(machine, "A") {
        Some(Counts::A {
            init_count,
            enter_count,
        }) => (*init_count, *enter_count),
        _ => panic!("A is not active"),
    }
}

#[test]
fn exact_transition_to_active_superstate() {
    let mut machine = build::<Exact>(InitTop { init_count: 0 });

    go(&mut machine, "AA");

    let (init_count, enter_count) = counts_of_a(&machine);
    assert_eq!(enter_count, 1);
    assert_eq!(init_count, 0);

    assert!(matches!(data(&machine, "AA"), Some(Counts::AA { enter_count: 1 })));

    go(&mut machine, "A");
    assert_eq!(current(&machine), "AA");

    let (_, enter_count) = counts_of_a(&machine);
    assert_eq!(enter_count, 1);

    go_exactly(&mut machine, "A");
    assert_eq!(current(&machine), "A");

    let (init_count, enter_count) = counts_of_a(&machine);
    assert_eq!(enter_count, 1);
    assert_eq!(init_count, 1);
}

#[test]
fn exact_transition_to_top() {
    let mut machine = build::<Exact>(InitTop { init_count: 0 });
    assert_eq!(machine.top_ref().init_count, 1);

    go(&mut machine, "A");

    go(&mut machine, "Top");
    assert_eq!(current(&machine), "A");
    assert_eq!(machine.top_ref().init_count, 1);

    go_exactly(&mut machine, "Top");
    assert_eq!(current(&machine), "Top");
    assert_eq!(machine.top_ref().init_count, 2);
}

// ---------------------------------------------------------------------------------------------
// The results of entering a state
// ---------------------------------------------------------------------------------------------

struct Entry;

impl Spec for Entry {
    type Top = ();
    type Data = u32;
    type Event = ();
    const MODULE: &'static str = "entry";
    const STATES: &'static [(&'static str, &'static str)] = &[
        ("Normal", "Top"),
        ("RedirectOnEnter", "Top"),
        ("ExactRedirectOnEnter", "Top"),
        ("Counter", "Top"),
    ];

    fn fresh(_state: &str) -> u32 {
        0
    }

    fn enter(state: &str, _top: &mut (), _stack: &mut Vec<u32>) -> StateEntry<u32, usize> {
        match state {
            "RedirectOnEnter" => StateEntry::Transition(id::<Self>("Normal")),
            "ExactRedirectOnEnter" => StateEntry::ExactTransition(id::<Self>("Top")),
            "Counter" => StateEntry::State(42),
            _ => StateEntry::State(0),
        }
    }
}

#[test]
fn state_entry_state() {
    let mut machine = build::<Entry>(());

    go(&mut machine, "Counter");
    assert_eq!(data(&machine, "Counter"), Some(&42));
}

#[test]
fn state_entry_target() {
    let mut machine = build::<Entry>(());

    go(&mut machine, "RedirectOnEnter");
    assert_eq!(current(&machine), "Normal");
}

#[test]
fn state_entry_exact_target() {
    let mut machine = build::<Entry>(());

    go(&mut machine, "Normal");
    go(&mut machine, "ExactRedirectOnEnter");

    assert_eq!(current(&machine), "Top");
}

// ---------------------------------------------------------------------------------------------
// Independent machines
// ---------------------------------------------------------------------------------------------

struct MachineA;

struct ValueTop<V> {
    value: V,
}

impl Spec for MachineA {
    type Top = ValueTop<u32>;
    type Data = ();
    type Event = ();
    const MODULE: &'static str = "machine_a";
    const NAME: Option<&'static str> = Some("MachineA");
    const STATES: &'static [(&'static str, &'static str)] = &[("StateA", "Top")];

    fn fresh(_state: &str) {}
}

struct MachineB;

impl Spec for MachineB {
    type Top = ValueTop<String>;
    type Data = ();
    type Event = ();
    const MODULE: &'static str = "machine_b";
    const NAME: Option<&'static str> = Some("MachineB");
    const STATES: &'static [(&'static str, &'static str)] = &[("StateB", "Top")];

    fn fresh(_state: &str) {}
}

#[test]
fn machines_are_independent() {
    let mut machine_a = build::<MachineA>(ValueTop { value: 100 });
    let mut machine_b = build::<MachineB>(ValueTop {
        value: "hello".to_string(),
    });

    go(&mut machine_a, "StateA");
    go(&mut machine_b, "StateB");

    assert_eq!(current(&machine_a), "StateA");
    assert_eq!(current(&machine_b), "StateB");

    assert_eq!(machine_a.top_ref().value, 100);
    assert_eq!(machine_b.top_ref().value, "hello");

    machine_a.top_mut().value = 200;
    assert_eq!(machine_a.top_ref().value, 200);
    assert_eq!(machine_b.top_ref().value, "hello");
}

// ---------------------------------------------------------------------------------------------
// Unit events
// ---------------------------------------------------------------------------------------------

struct Unit;

struct EventTop {
    event_count: u32,
}

impl Spec for Unit {
    type Top = EventTop;
    type Data = ();
    type Event = ();
    const MODULE: &'static str = "unit";
    const STATES: &'static [(&'static str, &'static str)] = &[("A", "Top")];

    fn fresh(_state: &str) {}

    fn handle_event(
        state: &str,
        _level: usize,
        _event: &(),
        top: &mut EventTop,
        _stack: &mut Vec<()>,
    ) -> Response<usize> {
        if state == "Top" {
            top.event_count += 1;
        }
        Response::Next(Next::Stay)
    }
}

#[test]
fn unit_event_handling() {
    let mut machine = build::<Unit>(EventTop { event_count: 0 });

    machine.handle_event(&());
    machine.handle_event(&());
    machine.handle_event(&());

    assert_eq!(machine.top_ref().event_count, 3);
}

// ---------------------------------------------------------------------------------------------
// Transitions to the current state
// ---------------------------------------------------------------------------------------------

struct Same;

struct Counters {
    enter_count: Rc<Cell<u32>>,
    exit_count: Rc<Cell<u32>>,
}

impl Spec for Same {
    type Top = ();
    type Data = Counters;
    type Event = ();
    const MODULE: &'static str = "same";
    const STATES: &'static [(&'static str, &'static str)] = &[("Counter", "Top")];

    fn fresh(_state: &str) -> Counters {
        Counters {
            enter_count: Rc::new(Cell::new(1)),
            exit_count: Rc::new(Cell::new(0)),
        }
    }

    fn exit(_state: &str, data: Counters, _top: &mut (), _stack: &mut Vec<Counters>) -> Next<usize> {
        data.exit_count.set(data.exit_count.get() + 1);
        Next::Stay
    }
}

#[test]
fn normal_transition_to_self_is_noop() {
    let mut machine = build::<Same>(());

    go(&mut machine, "Counter");
    let counter = data(&machine, "Counter").unwrap();
    let enter_count = counter.enter_count.clone();
    let exit_count = counter.exit_count.clone();

    assert_eq!(enter_count.get(), 1);
    assert_eq!(exit_count.get(), 0);

    go(&mut machine, "Counter");

    assert_eq!(enter_count.get(), 1);
    assert_eq!(exit_count.get(), 0);
}

#[test]
fn exact_transition_to_self_reenters() {
    let mut machine = build::<Same>(());

    go(&mut machine, "Counter");
    let old_exit_count = data(&machine, "Counter").unwrap().exit_count.clone();

    assert_eq!(old_exit_count.get(), 0);

    go_exactly(&mut machine, "Counter");

    assert_eq!(old_exit_count.get(), 1);

    let counter = data(&machine, "Counter").unwrap();
    assert_eq!(counter.enter_count.get(), 1);
}

// ---------------------------------------------------------------------------------------------
// Transitions in a top-down update
// ---------------------------------------------------------------------------------------------

struct Tdu;

impl Spec for Tdu {
    type Top = LogTop;
    type Data = ();
    type Event = ();
    const MODULE: &'static str = "tdu";
    const STATES: &'static [(&'static str, &'static str)] = &[("A", "Top"), ("B", "Top")];

    fn fresh(_state: &str) {}

    fn top_down_update(state: &str, _level: usize, top: &mut LogTop, _stack: &mut Vec<()>) -> Next<usize> {
        top.log.push(format!("{state} tdu"));
        if state == "Top" {
            to::<Self>("B")
        } else {
            Next::Stay
        }
    }
}

#[test]
fn top_triggers_transition_in_tdu() {
    let mut machine = build::<Tdu>(LogTop { log: vec![] });

    go(&mut machine, "A");
    machine.top_mut().log.clear();

    machine.top_down_update();

    let log = &machine.top_ref().log;
    assert!(log.contains(&"Top tdu".to_string()));
    assert!(!log.contains(&"A tdu".to_string()));
    assert!(log.contains(&"B tdu".to_string()));
    assert_eq!(current(&machine), "B");
}

// ---------------------------------------------------------------------------------------------
// Exact transitions asked for by events
// ---------------------------------------------------------------------------------------------

struct Eexact;

enum ToTop {
    ExactToTop,
    NormalToTop,
}

impl Spec for Eexact {
    type Top = InitTop;
    type Data = ();
    type Event = ToTop;
    const MODULE: &'static str = "eexact";
    const STATES: &'static [(&'static str, &'static str)] = &[("A", "Top")];

    fn fresh(_state: &str) {}

    fn init(state: &str, top: &mut InitTop, _stack: &mut Vec<()>) -> Next<usize> {
        if state == "Top" {
            top.init_count += 1;
        }
        Next::Stay
    }

    fn handle_event(
        state: &str,
        _level: usize,
        event: &ToTop,
        _top: &mut InitTop,
        _stack: &mut Vec<()>,
    ) -> Response<usize> {
        match (state, event) {
            ("Top", ToTop::ExactToTop) => Response::Next(exactly::<Self>("Top")),
            ("Top", ToTop::NormalToTop) => Response::Next(to::<Self>("Top")),
            _ => Response::Next(Next::Stay),
        }
    }
}

#[test]
fn event_exact_transition_reinits_top() {
    let mut machine = build::<Eexact>(InitTop { init_count: 0 });
    assert_eq!(machine.top_ref().init_count, 1);

    go(&mut machine, "A");

    machine.handle_event(&ToTop::ExactToTop);
    assert_eq!(machine.top_ref().init_count, 2);
    assert_eq!(current(&machine), "Top");
}

#[test]
fn event_normal_transition_is_noop_when_in_substate() {
    let mut machine = build::<Eexact>(InitTop { init_count: 0 });
    assert_eq!(machine.top_ref().init_count, 1);

    go(&mut machine, "A");

    machine.handle_event(&ToTop::NormalToTop);
    assert_eq!(machine.top_ref().init_count, 1);
    assert_eq!(current(&machine), "A");
}

// ---------------------------------------------------------------------------------------------
// Events: dropping and passing them on
// ---------------------------------------------------------------------------------------------

struct Events;

enum Abc {
    A,
    B,
    C,
}

impl Spec for Events {
    type Top = ();
    type Data = ();
    type Event = Abc;
    const MODULE: &'static str = "tester";
    const STATES: &'static [(&'static str, &'static str)] = &[
        ("Foo", "Top"),
        ("Bar", "Top"),
        ("Dropper", "Top"),
        ("FooPasser", "Top"),
        ("BarPasser", "FooPasser"),
    ];

    fn fresh(_state: &str) {}

    fn handle_event(
        state: &str,
        _level: usize,
        event: &Abc,
        _top: &mut (),
        _stack: &mut Vec<()>,
    ) -> Response<usize> {
        match (state, event) {
            ("Top", Abc::A) => Response::Next(to::<Self>("Foo")),
            ("Top", Abc::B) => Response::Next(to::<Self>("Bar")),
            ("Top", Abc::C) => Response::Next(Next::Stay),
            ("Dropper", _) => Response::Drop,
            ("FooPasser", Abc::C) => Response::Next(to::<Self>("Foo")),
            ("BarPasser", Abc::A) => Response::Next(to::<Self>("Bar")),
            _ => Response::Next(Next::Stay),
        }
    }
}

#[test]
fn events_state_chart() {
    assert_eq!(
        chart::<Events>(),
        "Top
├─ Foo
├─ Bar
├─ Dropper
└─ FooPasser
   └─ BarPasser"
    );
}

#[test]
fn events_basic() {
    let mut machine = build::<Events>(());
    assert_eq!(current(&machine), "Top");

    machine.handle_event(&Abc::A);
    assert_eq!(current(&machine), "Foo");

    machine.handle_event(&Abc::B);
    assert_eq!(current(&machine), "Bar");
}

#[test]
fn drop() {
    let mut machine = build::<Events>(());
    go(&mut machine, "Dropper");
    assert_eq!(current(&machine), "Dropper");

    machine.handle_event(&Abc::A);
    assert_eq!(current(&machine), "Dropper");

    machine.handle_event(&Abc::B);
    assert_eq!(current(&machine), "Dropper");
}

#[test]
fn foo_pass() {
    let mut machine = build::<Events>(());
    go(&mut machine, "FooPasser");
    assert_eq!(current(&machine), "FooPasser");

    machine.handle_event(&Abc::A);
    assert_eq!(current(&machine), "Foo");

    go(&mut machine, "FooPasser");
    assert_eq!(current(&machine), "FooPasser");

    machine.handle_event(&Abc::B);
    assert_eq!(current(&machine), "Bar");

    go(&mut machine, "FooPasser");
    assert_eq!(current(&machine), "FooPasser");

    machine.handle_event(&Abc::C);
    assert_eq!(current(&machine), "Foo");
}

#[test]
fn bar_pass() {
    let mut machine = build::<Events>(());
    go(&mut machine, "BarPasser");
    assert_eq!(current(&machine), "BarPasser");

    machine.handle_event(&Abc::A);
    assert_eq!(current(&machine), "Bar");

    go(&mut machine, "BarPasser");
    assert_eq!(current(&machine), "BarPasser");

    machine.handle_event(&Abc::B);
    assert_eq!(current(&machine), "Bar");

    go(&mut machine, "BarPasser");
    assert_eq!(current(&machine), "BarPasser");

    machine.handle_event(&Abc::C);
    assert_eq!(current(&machine), "Foo");
}

// ---------------------------------------------------------------------------------------------
// Normal and exact transitions asked for by every action
// ---------------------------------------------------------------------------------------------

struct ExactMachine;

impl Spec for ExactMachine {
    type Top = ();
    type Data = ();
    type Event = ();
    const MODULE: &'static str = "tester";
    const STATES: &'static [(&'static str, &'static str)] =
        &[("A", "Top"), ("AA", "A"), ("B", "Top"), ("BA", "B"), ("BB", "B")];

    fn fresh(_state: &str) {}

    fn enter(state: &str, _top: &mut (), _stack: &mut Vec<()>) -> StateEntry<(), usize> {
        if state == "BA" {
            StateEntry::ExactTransition(id::<Self>("Top"))
        } else {
            StateEntry::State(())
        }
    }

    fn init(state: &str, _top: &mut (), _stack: &mut Vec<()>) -> Next<usize> {
        match state {
            "AA" => to::<Self>("A"),
            "BB" => exactly::<Self>("Top"),
            _ => Next::Stay,
        }
    }

    fn update(state: &str, _level: usize, _top: &mut (), _stack: &mut Vec<()>) -> Next<usize> {
        match state {
            "AA" => to::<Self>("A"),
            "B" => exactly::<Self>("Top"),
            _ => Next::Stay,
        }
    }

    fn top_down_update(state: &str, _level: usize, _top: &mut (), _stack: &mut Vec<()>) -> Next<usize> {
        match state {
            "AA" => to::<Self>("A"),
            "B" => exactly::<Self>("Top"),
            _ => Next::Stay,
        }
    }

    fn exit(state: &str, _data: (), _top: &mut (), _stack: &mut Vec<()>) -> Next<usize> {
        match state {
            "AA" => to::<Self>("Top"),
            "B" => exactly::<Self>("Top"),
            _ => Next::Stay,
        }
    }

    fn handle_event(
        state: &str,
        _level: usize,
        _event: &(),
        _top: &mut (),
        _stack: &mut Vec<()>,
    ) -> Response<usize> {
        match state {
            "AA" => Response::Next(to::<Self>("A")),
            "B" => Response::Next(exactly::<Self>("Top")),
            _ => Response::Next(Next::Stay),
        }
    }
}

#[test]
fn state_machine() {
    let mut machine = build::<ExactMachine>(());

    go(&mut machine, "A");
    assert_eq!(current(&machine), "A");

    go(&mut machine, "Top");
    assert_eq!(current(&machine), "A");

    go_exactly(&mut machine, "Top");
    assert_eq!(current(&machine), "Top");
}

#[test]
fn normal_transition() {
    let mut machine = build::<ExactMachine>(());

    go(&mut machine, "AA");
    assert_eq!(current(&machine), "AA");

    machine.update();
    assert_eq!(current(&machine), "AA");

    machine.top_down_update();
    assert_eq!(current(&machine), "AA");

    machine.handle_event(&());
    assert_eq!(current(&machine), "AA");

    go_exactly(&mut machine, "A");
    assert_eq!(current(&machine), "A");
}

#[test]
fn exact_transition() {
    let mut machine = build::<ExactMachine>(());

    go(&mut machine, "B");
    assert_eq!(current(&machine), "B");
    machine.update();
    assert_eq!(current(&machine), "Top");

    go(&mut machine, "B");
    assert_eq!(current(&machine), "B");
    machine.top_down_update();
    assert_eq!(current(&machine), "Top");

    go(&mut machine, "B");
    assert_eq!(current(&machine), "B");
    machine.handle_event(&());
    assert_eq!(current(&machine), "Top");

    go(&mut machine, "B");
    assert_eq!(current(&machine), "B");
    go_exactly(&mut machine, "A");
    assert_eq!(current(&machine), "Top");

    go(&mut machine, "BA");
    assert_eq!(current(&machine), "Top");

    go(&mut machine, "BB");
    assert_eq!(current(&machine), "Top");
}

// ---------------------------------------------------------------------------------------------
// Transitions asked for by each kind of action
// ---------------------------------------------------------------------------------------------

struct Transitions;

impl Spec for Transitions {
    type Top = ();
    type Data = ();
    type Event = ();
    const MODULE: &'static str = "tester";
    const STATES: &'static [(&'static str, &'static str)] = &[
        ("A", "Top"),
        ("B", "Top"),
        ("C", "Top"),
        ("D", "Top"),
        ("E", "Top"),
        ("F", "Top"),
    ];

    fn fresh(_state: &str) {}

    fn enter(state: &str, _top: &mut (), _stack: &mut Vec<()>) -> StateEntry<(), usize> {
        if state == "F" {
            StateEntry::Transition(id::<Self>("Top"))
        } else {
            StateEntry::State(())
        }
    }

    fn init(state: &str, _top: &mut (), _stack: &mut Vec<()>) -> Next<usize> {
        if state == "A" {
            to::<Self>("B")
        } else {
            Next::Stay
        }
    }

    fn update(state: &str, _level: usize, _top: &mut (), _stack: &mut Vec<()>) -> Next<usize> {
        if state == "B" {
            to::<Self>("C")
        } else {
            Next::Stay
        }
    }

    fn top_down_update(state: &str, _level: usize, _top: &mut (), _stack: &mut Vec<()>) -> Next<usize> {
        if state == "C" {
            to::<Self>("D")
        } else {
            Next::Stay
        }
    }

    fn exit(state: &str, _data: (), _top: &mut (), _stack: &mut Vec<()>) -> Next<usize> {
        if state == "D" {
            to::<Self>("E")
        } else {
            Next::Stay
        }
    }
}

#[test]
fn state_transitions_state_chart() {
    assert_eq!(
        chart::<Transitions>(),
        "Top
├─ A
├─ B
├─ C
├─ D
├─ E
└─ F"
    );
}

#[test]
fn state_transitions_init() {
    let mut machine = build::<Transitions>(());
    go(&mut machine, "A");
    assert_eq!(current(&machine), "B");
}

#[test]
fn state_transitions_update() {
    let mut machine = build::<Transitions>(());
    go(&mut machine, "B");
    machine.update();
    assert_eq!(current(&machine), "C");
}

#[test]
fn state_transitions_top_down_update() {
    let mut machine = build::<Transitions>(());
    go(&mut machine, "C");
    machine.top_down_update();
    assert_eq!(current(&machine), "D");
}

#[test]
fn exit() {
    let mut machine = build::<Transitions>(());
    go(&mut machine, "D");
    go(&mut machine, "A");
    assert_eq!(current(&machine), "E");
}

#[test]
fn enter() {
    let mut machine = build::<Transitions>(());
    go(&mut machine, "F");
    assert_eq!(current(&machine), "Top");
}

// ---------------------------------------------------------------------------------------------
// Transitions asked for by the top state
// ---------------------------------------------------------------------------------------------

struct TopTransitions;

impl Spec for TopTransitions {
    type Top = ();
    type Data = ();
    type Event = ();
    const MODULE: &'static str = "tester";
    const STATES: &'static [(&'static str, &'static str)] = &[("A", "Top"), ("B", "Top"), ("C", "Top")];

    fn fresh(_state: &str) {}

    fn init(state: &str, _top: &mut (), _stack: &mut Vec<()>) -> Next<usize> {
        if state == "Top" {
            to::<Self>("A")
        } else {
            Next::Stay
        }
    }

    fn update(state: &str, _level: usize, _top: &mut (), _stack: &mut Vec<()>) -> Next<usize> {
        if state == "Top" {
            to::<Self>("B")
        } else {
            Next::Stay
        }
    }

    fn top_down_update(state: &str, _level: usize, _top: &mut (), _stack: &mut Vec<()>) -> Next<usize> {
        if state == "Top" {
            to::<Self>("C")
        } else {
            Next::Stay
        }
    }
}

#[test]
fn top_transitions_state_chart() {
    assert_eq!(
        chart::<TopTransitions>(),
        "Top
├─ A
├─ B
└─ C"
    );
}

#[test]
fn top_transitions_init() {
    let machine = build::<TopTransitions>(());
    assert_eq!(current(&machine), "A");
}

#[test]
fn top_transitions_update() {
    let mut machine = build::<TopTransitions>(());
    machine.update();
    assert_eq!(current(&machine), "B");
}

#[test]
fn top_transitions_top_down_update() {
    let mut machine = build::<TopTransitions>(());
    machine.top_down_update();
    assert_eq!(current(&machine), "C");
}

// ---------------------------------------------------------------------------------------------
// Updates that transition
// ---------------------------------------------------------------------------------------------

struct UpdateTransitions;

#[derive(Default)]
struct Tally {
    update: u8,
    top_down_update: u8,
}

impl Spec for UpdateTransitions {
    type Top = Tally;
    type Data = Tally;
    type Event = ();
    const MODULE: &'static str = "tester";
    const STATES: &'static [(&'static str, &'static str)] = &[
        ("A", "Top"),
        ("AA", "A"),
        ("B", "Top"),
        ("BA", "B"),
        ("BB", "B"),
        ("BBA", "BB"),
    ];

    fn fresh(_state: &str) -> Tally {
        Tally::default()
    }

    fn update(state: &str, level: usize, top: &mut Tally, stack: &mut Vec<Tally>) -> Next<usize> {
        if level == 0 {
            top.update += 1;
        } else {
            stack[level - 1].update += 1;
        }
        match state {
            "A" | "B" | "BBA" => to::<Self>("BA"),
            _ => Next::Stay,
        }
    }

    fn top_down_update(state: &str, level: usize, top: &mut Tally, stack: &mut Vec<Tally>) -> Next<usize> {
        if level == 0 {
            top.top_down_update += 1;
        } else {
            stack[level - 1].top_down_update += 1;
        }
        match state {
            "A" | "B" | "BBA" => to::<Self>("BA"),
            _ => Next::Stay,
        }
    }
}

fn tally<'a>(machine: &'a M<UpdateTransitions>, state: &str) -> &'a Tally {
    data(machine, state).unwrap()
}

#[test]
fn update_transitions_state_chart() {
    assert_eq!(
        chart::<UpdateTransitions>(),
        "Top
├─ A
│  └─ AA
└─ B
   ├─ BA
   └─ BB
      └─ BBA"
    );
}

#[test]
fn update_transitions_update() {
    let mut machine = build::<UpdateTransitions>(Tally::default());

    go(&mut machine, "AA");
    assert_eq!(current(&machine), "AA");

    assert_eq!(machine.top_ref().update, 0);
    assert_eq!(tally(&machine, "A").update, 0);
    assert_eq!(tally(&machine, "AA").update, 0);

    machine.update();
    assert_eq!(current(&machine), "BA");

    assert_eq!(machine.top_ref().update, 1);
    assert_eq!(tally(&machine, "B").update, 0);
    assert_eq!(tally(&machine, "BA").update, 0);

    machine.update();
    assert_eq!(current(&machine), "BA");

    assert_eq!(machine.top_ref().update, 2);
    assert_eq!(tally(&machine, "B").update, 1);
    assert_eq!(tally(&machine, "BA").update, 1);

    go(&mut machine, "BBA");
    assert_eq!(current(&machine), "BBA");

    machine.update();
    assert_eq!(current(&machine), "BA");

    assert_eq!(machine.top_ref().update, 3);
    assert_eq!(tally(&machine, "B").update, 2);
    assert_eq!(tally(&machine, "BA").update, 0);
}

#[test]
fn update_transitions_top_down_update() {
    let mut machine = build::<UpdateTransitions>(Tally::default());

    go(&mut machine, "AA");
    assert_eq!(current(&machine), "AA");

    assert_eq!(machine.top_ref().top_down_update, 0);
    assert_eq!(tally(&machine, "A").top_down_update, 0);
    assert_eq!(tally(&machine, "AA").top_down_update, 0);

    machine.top_down_update();
    assert_eq!(current(&machine), "BA");

    assert_eq!(machine.top_ref().top_down_update, 1);
    assert_eq!(tally(&machine, "B").top_down_update, 1);
    assert_eq!(tally(&machine, "BA").top_down_update, 1);

    machine.top_down_update();
    assert_eq!(current(&machine), "BA");

    assert_eq!(machine.top_ref().top_down_update, 2);
    assert_eq!(tally(&machine, "B").top_down_update, 2);
    assert_eq!(tally(&machine, "BA").top_down_update, 2);
}

// ---------------------------------------------------------------------------------------------
// Default actions
// ---------------------------------------------------------------------------------------------

struct Defaults;

impl Spec for Defaults {
    type Top = ();
    type Data = ();
    type Event = ();
    const MODULE: &'static str = "tester";
    const STATES: &'static [(&'static str, &'static str)] = &[("Foo", "Top")];

    fn fresh(_state: &str) {}
}

#[test]
fn default_actions() {
    let mut machine = build::<Defaults>(());
    assert_eq!(current(&machine), "Top");

    machine.update();
    assert_eq!(current(&machine), "Top");

    machine.top_down_update();
    assert_eq!(current(&machine), "Top");

    go(&mut machine, "Foo");
    assert_eq!(current(&machine), "Foo");

    machine.update();
    assert_eq!(current(&machine), "Foo");

    machine.top_down_update();
    assert_eq!(current(&machine), "Foo");
}
