//! Blinky, the classic hierarchical state machine: when enabled, it blinks an LED on and off.
//!
//! ```text
//! Top
//! ├─ Disabled
//! └─ Enabled
//!    ├─ LedOn
//!    └─ LedOff
//! ```
//!
//! The states and their actions come first, then the machinery that a machine needs around
//! them: the list of states, the superstates each state can reach, the dispatch of actions by
//! state id, the machine and its builder.
use vstd::prelude::*;

use core::marker::PhantomData;
use std::time::{Duration, Instant};

use crate::internal::{
    answered, calls_since, event_handled, event_run, event_settles, event_transition,
    first_update_resumes, first_update_runs, goal_of, last_request, lemma_answered_since,
    requests_valid, run_log, Call, Next, Response, StateEntry, SubstateEnum, STEP_LIMIT,
};
use crate::machine::{Definition, Machine};
use crate::tree::{Move, StateTree};
use crate::{NoSuperstates, State, StateEnum, StateMachine, StateMachineBuilder, StateRef, TopState};

verus! {

#[verifier::external_type_specification]
#[verifier::external_body]
pub struct ExInstant(Instant);

/// The current time, from `std::time::Instant::now`; nothing is promised of its value.
#[verifier::external_body]
fn now() -> Instant {
    Instant::now()
}

/// The time elapsed since `since`, from `std::time::Instant::elapsed`; nothing is promised of
/// its value, which depends on the clock.
#[verifier::external_body]
fn elapsed(since: &Instant) -> Duration {
    since.elapsed()
}

/// The whole nanoseconds in `d`, from `std::time::Duration::as_nanos`; the contract leaves the
/// value unstated, as `Duration` has no view here.
#[verifier::external_body]
fn nanos(d: &Duration) -> u128 {
    d.as_nanos()
}

/// The nanoseconds elapsed since `since`.
fn elapsed_nanos(since: &Instant) -> u128 {
    let d = elapsed(since);
    nanos(&d)
}

/// Has a blink period of `period_ms` milliseconds passed, `elapsed_ns` nanoseconds in?
pub fn period_elapsed(elapsed_ns: u128, period_ms: u64) -> (r: bool)
    ensures
        r == (elapsed_ns >= period_ms * 1_000_000),
{
    elapsed_ns >= (period_ms as u128) * 1_000_000
}

// ------------------------------------------------------------------------------------ states

/// The top state.
pub struct Top;

impl TopState<BlinkyState> for Top {
    type Event = ();

    /// Start out disabled.
    fn init(&mut self) -> (r: Next<BlinkyState>)
        ensures
            r == Next::Target(BlinkyState::Disabled),
    {
        Next::Target(BlinkyState::Disabled)
    }
}

/// The LED does not blink.
pub struct Disabled;

impl State<BlinkyState> for Disabled {
    type Superstates<'a> = TopSuperstates<'a>;

    type Event = ();

    fn enter(_superstates: &mut TopSuperstates<'_>) -> (r: StateEntry<Self, BlinkyState>)
        ensures
            r == StateEntry::<Disabled, BlinkyState>::State(Disabled),
    {
        StateEntry::State(Disabled)
    }
}

/// The LED blinks with a period of `blink_period_ms` milliseconds.
pub struct Enabled {
    pub blink_period_ms: u64,
}

impl State<BlinkyState> for Enabled {
    type Superstates<'a> = TopSuperstates<'a>;

    type Event = ();

    /// Blink every two seconds.
    fn enter(_superstates: &mut TopSuperstates<'_>) -> (r: StateEntry<Self, BlinkyState>)
        ensures
            r == StateEntry::<Enabled, BlinkyState>::State(Enabled { blink_period_ms: 2000 }),
    {
        StateEntry::State(Enabled { blink_period_ms: 2000 })
    }

    /// Start with the LED on.
    fn init(&mut self, _superstates: &mut TopSuperstates<'_>) -> (r: Next<BlinkyState>)
        ensures
            r == Next::Target(BlinkyState::LedOn),
    {
        Next::Target(BlinkyState::LedOn)
    }
}

/// The LED is on since `entry_time`.
pub struct LedOn {
    pub entry_time: Instant,
}

impl State<BlinkyState> for LedOn {
    type Superstates<'a> = EnabledSuperstates<'a>;

    type Event = ();

    fn enter(_superstates: &mut EnabledSuperstates<'_>) -> (r: StateEntry<Self, BlinkyState>)
        ensures
            r matches StateEntry::State(_),
    {
        StateEntry::State(LedOn { entry_time: now() })
    }

    /// Switch the LED off once the blink period has passed.
    ///
    /// What it asks for is [`blink`] of the nanoseconds since `entry_time`, as the clock reads
    /// them when it is called.
    fn update(&mut self, superstates: &mut EnabledSuperstates<'_>) -> (r: Next<BlinkyState>)
        ensures
            exists|elapsed_ns: u128|
                r == #[trigger] blink(
                    elapsed_ns,
                    old(superstates).enabled.blink_period_ms,
                    BlinkyState::LedOff,
                ),
    {
        let elapsed_ns = elapsed_nanos(&self.entry_time);
        let r = if period_elapsed(elapsed_ns, superstates.enabled.blink_period_ms) {
            Next::Target(BlinkyState::LedOff)
        } else {
            Next::Stay
        };
        proof {
            assert(r == blink(elapsed_ns, old(superstates).enabled.blink_period_ms, BlinkyState::LedOff));
        }
        r
    }
}

/// The LED is off since `entry_time`.
pub struct LedOff {
    pub entry_time: Instant,
}

impl State<BlinkyState> for LedOff {
    type Superstates<'a> = EnabledSuperstates<'a>;

    type Event = ();

    fn enter(_superstates: &mut EnabledSuperstates<'_>) -> (r: StateEntry<Self, BlinkyState>)
        ensures
            r matches StateEntry::State(_),
    {
        StateEntry::State(LedOff { entry_time: now() })
    }

    /// Switch the LED on once the blink period has passed.
    ///
    /// What it asks for is [`blink`] of the nanoseconds since `entry_time`, as the clock reads
    /// them when it is called.
    fn update(&mut self, superstates: &mut EnabledSuperstates<'_>) -> (r: Next<BlinkyState>)
        ensures
            exists|elapsed_ns: u128|
                r == #[trigger] blink(
                    elapsed_ns,
                    old(superstates).enabled.blink_period_ms,
                    BlinkyState::LedOn,
                ),
    {
        let elapsed_ns = elapsed_nanos(&self.entry_time);
        let r = if period_elapsed(elapsed_ns, superstates.enabled.blink_period_ms) {
            Next::Target(BlinkyState::LedOn)
        } else {
            Next::Stay
        };
        proof {
            assert(r == blink(elapsed_ns, old(superstates).enabled.blink_period_ms, BlinkyState::LedOn));
        }
        r
    }
}

// ------------------------------------------------------------------------- state machine

/// All states of Blinky.
#[derive(PartialEq, Eq, Structural, Clone, Copy, Debug)]
pub enum BlinkyState {
    Top,
    Disabled,
    Enabled,
    LedOn,
    LedOff,
}

impl StateEnum for BlinkyState {
    open spec fn spec_id(self) -> usize {
        match self {
            BlinkyState::Top => 0,
            BlinkyState::Disabled => 1,
            BlinkyState::Enabled => 2,
            BlinkyState::LedOn => 3,
            BlinkyState::LedOff => 4,
        }
    }

    open spec fn spec_count() -> usize {
        5
    }

    fn id(self) -> (r: usize) {
        match self {
            BlinkyState::Top => 0,
            BlinkyState::Disabled => 1,
            BlinkyState::Enabled => 2,
            BlinkyState::LedOn => 3,
            BlinkyState::LedOff => 4,
        }
    }

    fn from_id(id: usize) -> (r: Option<Self>) {
        match id {
            0 => Some(BlinkyState::Top),
            1 => Some(BlinkyState::Disabled),
            2 => Some(BlinkyState::Enabled),
            3 => Some(BlinkyState::LedOn),
            4 => Some(BlinkyState::LedOff),
            _ => None,
        }
    }

    fn count() -> (r: usize) {
        5
    }
}

/// The superstates of a substate of `Top`.
pub struct TopSuperstates<'a> {
    pub top: &'a mut Top,
}

impl<'a> TopSuperstates<'a> {
    /// The superstates of a substate of `Top`, made from the top state itself.
    pub fn new(state: &'a mut Top, _superstates: &'a mut NoSuperstates) -> (r: Self)
        ensures
            *r.top == *old(state),
            *final(state) == *final(r.top),
    {
        TopSuperstates { top: state }
    }
}

/// The superstates of a substate of `Enabled`.
pub struct EnabledSuperstates<'a> {
    pub top: &'a mut Top,
    pub enabled: &'a mut Enabled,
}

impl<'a> EnabledSuperstates<'a> {
    /// The superstates of a substate of `Enabled`, made from `Enabled` and its superstates.
    pub fn new(state: &'a mut Enabled, superstates: &'a mut TopSuperstates) -> (r: Self)
        ensures
            *r.enabled == *old(state),
            *r.top == *old(superstates).top,
            *final(state) == *final(r.enabled),
            *final(superstates).top == *final(r.top),
    {
        EnabledSuperstates { top: superstates.top, enabled: state }
    }
}

/// The data of an active state below the top.
pub enum BlinkyData {
    Disabled(Disabled),
    Enabled(Enabled),
    LedOn(LedOn),
    LedOff(LedOff),
}

/// The id of a requested target, as the machinery counts states.
pub open spec fn next_id(n: Next<BlinkyState>) -> Next<usize> {
    match n {
        Next::Stay => Next::Stay,
        Next::Target(s) => Next::Target(s.spec_id()),
        Next::ExactTarget(s) => Next::ExactTarget(s.spec_id()),
    }
}

/// A requested target by id.
pub fn lift_next(n: Next<BlinkyState>) -> (r: Next<usize>)
    ensures
        r == next_id(n),
{
    match n {
        Next::Stay => Next::Stay,
        Next::Target(s) => Next::Target(s.id()),
        Next::ExactTarget(s) => Next::ExactTarget(s.id()),
    }
}

/// The id form of a response to an event.
pub open spec fn response_id(r: Response<BlinkyState>) -> Response<usize> {
    match r {
        Response::Drop => Response::Drop,
        Response::Next(n) => Response::Next(next_id(n)),
    }
}

/// A response to an event by id.
pub fn lift_response(r: Response<BlinkyState>) -> (out: Response<usize>)
    ensures
        out == response_id(r),
{
    match r {
        Response::Drop => Response::Drop,
        Response::Next(n) => Response::Next(lift_next(n)),
    }
}

/// Hand an event to the active state at depth `level`.
fn event_at(level: usize, event: &(), top: &mut Top, stack: &mut Vec<BlinkyData>) -> (r: Response<
    usize,
>)
    ensures
        forall|k: int|
            0 <= k < old(stack)@.len() ==> #[trigger] kind(final(stack)@[k]) == kind(old(stack)@[k]),
        final(stack)@.len() == old(stack)@.len(),
        r == Response::<usize>::Next(Next::Stay),
{
    let mut none = NoSuperstates(PhantomData);
    if level == 0 {
        Response::Next(lift_next(top.handle_event(event)))
    } else if level == 1 && stack.len() >= 1 {
        let mut sup = TopSuperstates::new(top, &mut none);
        match &mut stack[0] {
            BlinkyData::Disabled(d) => lift_response(d.handle_event(&mut sup, event)),
            BlinkyData::Enabled(e) => lift_response(e.handle_event(&mut sup, event)),
            _ => Response::Next(Next::Stay),
        }
    } else if level == 2 && stack.len() == 2 {
        let mut data = stack.pop().unwrap();
        let r = match &mut stack[0] {
            BlinkyData::Enabled(e) => {
                let mut ts = TopSuperstates::new(top, &mut none);
                let mut sup = EnabledSuperstates::new(e, &mut ts);
                match &mut data {
                    BlinkyData::LedOn(l) => lift_response(l.handle_event(&mut sup, event)),
                    BlinkyData::LedOff(l) => lift_response(l.handle_event(&mut sup, event)),
                    _ => Response::Next(Next::Stay),
                }
            },
            _ => Response::Next(Next::Stay),
        };
        stack.push(data);
        r
    } else {
        Response::Next(Next::Stay)
    }
}

/// What a LED state asks for `elapsed_ns` nanoseconds after it was entered, with a blink
/// period of `period_ms` milliseconds: to switch to `then` once the period has passed.
pub open spec fn blink(elapsed_ns: u128, period_ms: u64, then: BlinkyState) -> Next<BlinkyState> {
    if elapsed_ns >= period_ms * 1_000_000 {
        Next::Target(then)
    } else {
        Next::Stay
    }
}

/// What the initial transition of the active state at depth `level` asks for, `stack` holding
/// the data of the active substates: the top state leads into `Disabled` (id 1), `Enabled`
/// into `LedOn` (id 3); the others ask for nothing.
pub open spec fn init_at(level: int, stack: Seq<BlinkyData>) -> Next<usize> {
    if level == 0 {
        Next::Target(1)
    } else if level == 1 && stack.len() >= 1 && stack[0] is Enabled {
        Next::Target(3)
    } else {
        Next::Stay
    }
}

/// What the update of LED state `data` asks for, with a blink period of `period_ms`
/// milliseconds and `elapsed_ns` nanoseconds since it was entered: `LedOn` switches to
/// `LedOff` (id 4) and `LedOff` to `LedOn` (id 3) once the period has passed.
pub open spec fn led_update(period_ms: u64, data: BlinkyData, elapsed_ns: u128) -> Next<usize> {
    match data {
        BlinkyData::LedOn(_) => next_id(blink(elapsed_ns, period_ms, BlinkyState::LedOff)),
        BlinkyData::LedOff(_) => next_id(blink(elapsed_ns, period_ms, BlinkyState::LedOn)),
        _ => Next::Stay,
    }
}

/// What the update of the active state at depth `level` asks for, `stack` holding the data of
/// the active substates and the LED state's clock reading `elapsed_ns`: only the LED states,
/// below `Enabled`, ask for anything.
pub open spec fn update_at(level: int, stack: Seq<BlinkyData>, elapsed_ns: u128) -> Next<usize> {
    if level == 2 && stack.len() == 2 {
        match stack[0] {
            BlinkyData::Enabled(e) => led_update(e.blink_period_ms, stack[1], elapsed_ns),
            _ => Next::Stay,
        }
    } else {
        Next::Stay
    }
}

/// What the dispatch asks a state to do.
enum Act {
    Init,
    Update,
    TopDownUpdate,
}

/// Have the top state act.
fn act_top(top: &mut Top, act: Act) -> (r: Next<usize>)
    ensures
        r == (if act is Init {
            Next::Target(1usize)
        } else {
            Next::Stay
        }),
{
    match act {
        Act::Init => lift_next(top.init()),
        Act::Update => lift_next(top.update()),
        Act::TopDownUpdate => lift_next(top.top_down_update()),
    }
}

/// Have a substate of the top state act.
fn act_child(top: &mut Top, data: &mut BlinkyData, act: Act) -> (r: Next<usize>)
    ensures
        kind(*final(data)) == kind(*old(data)),
        r == (if act is Init && *old(data) is Enabled {
            Next::Target(3usize)
        } else {
            Next::Stay
        }),
{
    let mut none = NoSuperstates(PhantomData);
    let mut sup = TopSuperstates::new(top, &mut none);
    match data {
        BlinkyData::Disabled(d) => match act {
            Act::Init => lift_next(d.init(&mut sup)),
            Act::Update => lift_next(d.update(&mut sup)),
            Act::TopDownUpdate => lift_next(d.top_down_update(&mut sup)),
        },
        BlinkyData::Enabled(e) => match act {
            Act::Init => lift_next(e.init(&mut sup)),
            Act::Update => lift_next(e.update(&mut sup)),
            Act::TopDownUpdate => lift_next(e.top_down_update(&mut sup)),
        },
        _ => Next::Stay,
    }
}

/// Have a substate of `Enabled` act.
fn act_grandchild(top: &mut Top, enabled: &mut Enabled, data: &mut BlinkyData, act: Act) -> (r:
    Next<usize>)
    ensures
        kind(*final(data)) == kind(*old(data)),
        act is Update ==> exists|elapsed_ns: u128|
            r == #[trigger] led_update(old(enabled).blink_period_ms, *old(data), elapsed_ns),
        !(act is Update) ==> r == Next::<usize>::Stay,
{
    let ghost period = enabled.blink_period_ms;
    let ghost d0 = *data;
    let mut none = NoSuperstates(PhantomData);
    let mut ts = TopSuperstates::new(top, &mut none);
    let mut sup = EnabledSuperstates::new(enabled, &mut ts);
    match data {
        BlinkyData::LedOn(l) => match act {
            Act::Init => lift_next(l.init(&mut sup)),
            Act::Update => {
                let n = l.update(&mut sup);
                let r = lift_next(n);
                proof {
                    let ns = choose|ns: u128| n == blink(ns, period, BlinkyState::LedOff);
                    assert(r == led_update(period, d0, ns));
                }
                r
            },
            Act::TopDownUpdate => lift_next(l.top_down_update(&mut sup)),
        },
        BlinkyData::LedOff(l) => match act {
            Act::Init => lift_next(l.init(&mut sup)),
            Act::Update => {
                let n = l.update(&mut sup);
                let r = lift_next(n);
                proof {
                    let ns = choose|ns: u128| n == blink(ns, period, BlinkyState::LedOn);
                    assert(r == led_update(period, d0, ns));
                }
                r
            },
            Act::TopDownUpdate => lift_next(l.top_down_update(&mut sup)),
        },
        _ => {
            proof {
                assert(Next::<usize>::Stay == led_update(period, d0, 0));
            }
            Next::Stay
        },
    }
}

/// Have the active state at depth `level` act.
fn act_at(level: usize, top: &mut Top, stack: &mut Vec<BlinkyData>, act: Act) -> (r: Next<usize>)
    ensures
        forall|k: int|
            0 <= k < old(stack)@.len() ==> #[trigger] kind(final(stack)@[k]) == kind(old(stack)@[k]),
        final(stack)@.len() == old(stack)@.len(),
        act is Init ==> r == init_at(level as int, old(stack)@),
        act is Update ==> exists|elapsed_ns: u128|
            r == #[trigger] update_at(level as int, old(stack)@, elapsed_ns),
        act is TopDownUpdate ==> r == Next::<usize>::Stay,
{
    let ghost s0 = stack@;
    let ghost updating = act is Update;
    proof {
        assert(level != 2 || s0.len() != 2 ==> update_at(level as int, s0, 0) == Next::<usize>::Stay);
    }
    if level == 0 {
        act_top(top, act)
    } else if level == 1 && stack.len() >= 1 {
        act_child(top, &mut stack[0], act)
    } else if level == 2 && stack.len() == 2 {
        let mut data = stack.pop().unwrap();
        let r = match &mut stack[0] {
            BlinkyData::Enabled(e) => {
                let ghost period = e.blink_period_ms;
                let r = act_grandchild(top, e, &mut data, act);
                proof {
                    if updating {
                        let ns = choose|ns: u128| r == led_update(period, s0[1], ns);
                        assert(r == update_at(level as int, s0, ns));
                    }
                }
                r
            },
            _ => {
                proof {
                    assert(update_at(level as int, s0, 0) == Next::<usize>::Stay);
                }
                Next::Stay
            },
        };
        stack.push(data);
        r
    } else {
        Next::Stay
    }
}

/// `data` is the data of state `state`.
pub open spec fn data_of_state(data: BlinkyData, state: usize) -> bool {
    kind(data) == state
}

/// Which state `data` belongs to, by id.
pub open spec fn kind(data: BlinkyData) -> usize {
    match data {
        BlinkyData::Disabled(_) => 1,
        BlinkyData::Enabled(_) => 2,
        BlinkyData::LedOn(_) => 3,
        BlinkyData::LedOff(_) => 4,
    }
}

/// Is `data` the data of state `state`?
fn has_data_of(data: &BlinkyData, state: usize) -> (r: bool)
    ensures
        r == data_of_state(*data, state),
{
    match data {
        BlinkyData::Disabled(_) => state == 1,
        BlinkyData::Enabled(_) => state == 2,
        BlinkyData::LedOn(_) => state == 3,
        BlinkyData::LedOff(_) => state == 4,
    }
}

/// The dispatch of Blinky's actions by state id.
pub struct BlinkyHooks;

impl SubstateEnum<Top, BlinkyData, ()> for BlinkyHooks {
    /// `Disabled` and `Enabled` are always entered; `LedOn` and `LedOff` are entered below
    /// `Enabled` and otherwise turn the transition back to the top state, as does any other
    /// entry.
    open spec fn enter_answers(state: usize, answer: Next<usize>) -> bool {
        if state == 1 || state == 2 {
            answer == Next::<usize>::Stay
        } else if state == 3 || state == 4 {
            answer == Next::<usize>::Stay || answer == Next::<usize>::Target(0)
        } else {
            answer == Next::<usize>::Target(0)
        }
    }

    /// The top state leads into `Disabled`, `Enabled` into `LedOn`; no other state asks for
    /// anything.
    open spec fn init_answers(state: usize, answer: Next<usize>) -> bool {
        if state == 0 {
            answer == Next::<usize>::Target(1)
        } else if state == 2 {
            answer == Next::<usize>::Target(3) || answer == Next::<usize>::Stay
        } else {
            answer == Next::<usize>::Stay
        }
    }

    /// `LedOn` may switch to `LedOff` and `LedOff` to `LedOn`; no other state asks for
    /// anything.
    open spec fn update_answers(state: usize, level: usize, answer: Next<usize>) -> bool {
        ||| answer == Next::<usize>::Stay
        ||| state == 3 && answer == Next::<usize>::Target(4)
        ||| state == 4 && answer == Next::<usize>::Target(3)
    }

    /// No top-down update asks for anything.
    open spec fn top_down_answers(state: usize, level: usize, answer: Next<usize>) -> bool {
        answer == Next::<usize>::Stay
    }

    /// No exit asks for anything.
    open spec fn exit_answers(state: usize, answer: Next<usize>) -> bool {
        answer == Next::<usize>::Stay
    }

    /// The data of each state is its own variant of [`BlinkyData`].
    open spec fn data_fits(state: usize, data: BlinkyData) -> bool {
        data_of_state(data, state)
    }

    /// Every state passes every event on.
    open spec fn event_answers(state: usize, level: usize, answer: Response<usize>) -> bool {
        answer == Response::<usize>::Next(Next::Stay)
    }

    /// `Disabled` and `Enabled` are entered below the top state, `LedOn` and `LedOff` below
    /// `Enabled`; any other entry is turned back to the top state.
    fn enter(state: usize, top: &mut Top, stack: &mut Vec<BlinkyData>) -> (r: StateEntry<
        BlinkyData,
        usize,
    >)
        ensures
            state == 1 ==> r == StateEntry::<BlinkyData, usize>::State(
                BlinkyData::Disabled(Disabled),
            ),
            state == 2 ==> r == StateEntry::<BlinkyData, usize>::State(
                BlinkyData::Enabled(Enabled { blink_period_ms: 2000 }),
            ),
            state == 3 && old(stack)@.len() == 1 && old(stack)@[0] is Enabled ==> r matches StateEntry::State(
                BlinkyData::LedOn(_),
            ),
            state == 4 && old(stack)@.len() == 1 && old(stack)@[0] is Enabled ==> r matches StateEntry::State(
                BlinkyData::LedOff(_),
            ),
            !(state == 1 || state == 2) && !((state == 3 || state == 4) && old(stack)@.len() == 1
                && old(stack)@[0] is Enabled) ==> r == StateEntry::<BlinkyData, usize>::Transition(
                0,
            ),
    {
        let mut none = NoSuperstates(PhantomData);
        if state == 1 || state == 2 {
            let mut sup = TopSuperstates::new(top, &mut none);
            if state == 1 {
                match Disabled::enter(&mut sup) {
                    StateEntry::State(d) => StateEntry::State(BlinkyData::Disabled(d)),
                    StateEntry::Transition(t) => StateEntry::Transition(t.id()),
                    StateEntry::ExactTransition(t) => StateEntry::ExactTransition(t.id()),
                }
            } else {
                match Enabled::enter(&mut sup) {
                    StateEntry::State(e) => StateEntry::State(BlinkyData::Enabled(e)),
                    StateEntry::Transition(t) => StateEntry::Transition(t.id()),
                    StateEntry::ExactTransition(t) => StateEntry::ExactTransition(t.id()),
                }
            }
        } else if (state == 3 || state == 4) && stack.len() == 1 {
            let r = match &mut stack[0] {
                BlinkyData::Enabled(enabled) => {
                    let mut ts = TopSuperstates::new(top, &mut none);
                    let mut sup = EnabledSuperstates::new(enabled, &mut ts);
                    if state == 3 {
                        match LedOn::enter(&mut sup) {
                            StateEntry::State(l) => StateEntry::State(BlinkyData::LedOn(l)),
                            StateEntry::Transition(t) => StateEntry::Transition(t.id()),
                            StateEntry::ExactTransition(t) => StateEntry::ExactTransition(t.id()),
                        }
                    } else {
                        match LedOff::enter(&mut sup) {
                            StateEntry::State(l) => StateEntry::State(BlinkyData::LedOff(l)),
                            StateEntry::Transition(t) => StateEntry::Transition(t.id()),
                            StateEntry::ExactTransition(t) => StateEntry::ExactTransition(t.id()),
                        }
                    }
                },
                _ => StateEntry::Transition(0),
            };
            r
        } else {
            StateEntry::Transition(0)
        }
    }

    /// The initial transition of `state`, whose data is the last of `stack`.
    fn init(state: usize, top: &mut Top, stack: &mut Vec<BlinkyData>) -> (r: Next<usize>)
        ensures
            state == 0 ==> r == Next::<usize>::Target(1),
            state == 2 && old(stack)@.len() == 1 && old(stack)@[0] is Enabled ==> r
                == Next::<usize>::Target(3),
    {
        if state == 0 {
            act_at(0, top, stack, Act::Init)
        } else if (state == 1 || state == 2) && stack.len() == 1 && has_data_of(&stack[0], state) {
            act_at(1, top, stack, Act::Init)
        } else if (state == 3 || state == 4) && stack.len() == 2 && has_data_of(&stack[1], state) {
            act_at(2, top, stack, Act::Init)
        } else {
            Next::Stay
        }
    }

    /// The update of `state`, active at depth `level`: what a LED state asks for is [`blink`]
    /// of the time since it was entered, as the clock reads it.
    fn update(state: usize, level: usize, top: &mut Top, stack: &mut Vec<BlinkyData>) -> (r: Next<
        usize,
    >)
        ensures
            (state == 3 || state == 4) && level == 2 && old(stack)@.len() == 2 && data_of_state(
                old(stack)@[1],
                state,
            ) ==> exists|elapsed_ns: u128|
                r == #[trigger] update_at(level as int, old(stack)@, elapsed_ns),
    {
        if level == 0 && state == 0 {
            act_at(0, top, stack, Act::Update)
        } else if level == 1 && (state == 1 || state == 2) && stack.len() >= 1 && has_data_of(
            &stack[0],
            state,
        ) {
            act_at(1, top, stack, Act::Update)
        } else if level == 2 && (state == 3 || state == 4) && stack.len() == 2 && has_data_of(
            &stack[1],
            state,
        ) {
            let r = act_at(2, top, stack, Act::Update);
            r
        } else {
            Next::Stay
        }
    }

    fn top_down_update(state: usize, level: usize, top: &mut Top, stack: &mut Vec<BlinkyData>) -> (r:
        Next<usize>)
        ensures
            r == Next::<usize>::Stay,
    {
        act_at(level, top, stack, Act::TopDownUpdate)
    }

    fn exit(state: usize, data: BlinkyData, top: &mut Top, stack: &mut Vec<BlinkyData>) -> (r: Next<
        usize,
    >)
        ensures
            r == Next::<usize>::Stay,
    {
        let mut none = NoSuperstates(PhantomData);
        if stack.len() == 0 {
            let mut sup = TopSuperstates::new(top, &mut none);
            match data {
                BlinkyData::Disabled(d) => lift_next(d.exit(&mut sup)),
                BlinkyData::Enabled(e) => lift_next(e.exit(&mut sup)),
                _ => Next::Stay,
            }
        } else if stack.len() == 1 {
            match &mut stack[0] {
                BlinkyData::Enabled(enabled) => {
                    let mut ts = TopSuperstates::new(top, &mut none);
                    let mut sup = EnabledSuperstates::new(enabled, &mut ts);
                    match data {
                        BlinkyData::LedOn(l) => lift_next(l.exit(&mut sup)),
                        BlinkyData::LedOff(l) => lift_next(l.exit(&mut sup)),
                        _ => Next::Stay,
                    }
                },
                _ => Next::Stay,
            }
        } else {
            Next::Stay
        }
    }

    fn handle_event(
        state: usize,
        level: usize,
        event: &(),
        top: &mut Top,
        stack: &mut Vec<BlinkyData>,
    ) -> (r: Response<usize>)
        ensures
            r == Response::<usize>::Next(Next::Stay),
    {
        event_at(level, event, top, stack)
    }
}

/// Blinky's tree of states, by id: `Top`, `Disabled`, `Enabled`, `LedOn`, `LedOff`.
pub fn blinky_tree() -> (r: StateTree)
    ensures
        r.wf(),
        r.size() == 5,
        r.parents_view() == seq![0usize, 0, 0, 2, 2],
{
    let mut names: Vec<String> = Vec::new();
    names.push("Top".to_owned());
    names.push("Disabled".to_owned());
    names.push("Enabled".to_owned());
    names.push("LedOn".to_owned());
    names.push("LedOff".to_owned());
    let mut parents: Vec<usize> = Vec::new();
    parents.push(0);
    parents.push(0);
    parents.push(0);
    parents.push(2);
    parents.push(2);
    proof {
        let p = parents@;
        assert(p =~= seq![0usize, 0, 0, 2, 2]);
        assert forall|i: usize| i < p.len() implies #[trigger] crate::tree::reaches_top(
            p,
            i,
            p.len(),
        ) by {
            reveal_with_fuel(crate::tree::reaches_top, 3);
        }
    }
    StateTree::new(names, parents).unwrap()
}

impl Definition<BlinkyState> for BlinkyHooks {
    fn tree() -> (r: StateTree) {
        blinky_tree()
    }

    /// A Blinky is named `Blinky` by default.
    open spec fn default_name_spec() -> String {
        choose|s: String| #[trigger] s@ == "Blinky"@
    }

    fn default_name() -> (r: String)
        ensures
            r@ == "Blinky"@,
    {
        let r = "Blinky".to_owned();
        proof {
            reveal_strlit("Blinky");
        }
        r
    }
}

/// A running Blinky.
pub struct BlinkyMachine {
    machine: Machine<BlinkyState, (), Top, BlinkyData, BlinkyHooks>,
}

impl BlinkyMachine {
    /// A Blinky named `name`, initialised: its top state's initial transition has been taken,
    /// and it is in `Disabled`.
    pub fn new(top_state: Top, name: String) -> (r: Self)
        ensures
            r.well_formed(),
            r.machine_name() == name@,
            r.calls().len() >= 1,
            r.calls()[0] matches Call::Init(s, _) && s == 0,
            r.calls().len() <= STEP_LIMIT && requests_valid(r.tree(), r.calls())
                ==> r.active_ids().contains(last_request(0, r.calls())),
            forall|i: int| 0 <= i < r.calls().len() ==> r.answers(#[trigger] r.calls()[i]),
            r.calls()[0] matches Call::Init(_, a) && run_log(
                r.tree(),
                seq![0usize],
                goal_of(r.tree(), a),
                STEP_LIMIT as nat,
                r.calls().drop_first(),
            ) == Some(r.active_ids()),
            r.active_ids() == seq![0usize, 1],
    {
        let machine = Machine::with_tree(blinky_tree(), top_state, name);
        proof {
            let c = machine.node().calls();
            let tr = machine.node().tree();
            lemma_answered_since::<Top, BlinkyData, (), BlinkyHooks>(Seq::<Call>::empty(), c);
            assert(calls_since(Seq::<Call>::empty(), c) =~= c);
            tr.lemma_parents_view();
            assert(tr.parent(1) == 0);
            assert(tr.depth(1) == 1);
            assert(tr.path_from(0, 0) == seq![0usize]);
            assert(tr.path(1) =~= seq![0usize, 1]);
            assert(answered::<Top, BlinkyData, (), BlinkyHooks>(c[0]));
            let a = c[0]->Init_1;
            assert(a == Next::<usize>::Target(1));
            assert(goal_of(tr, a) == Some((1usize, false)));
            let rest = c.drop_first();
            assert(!seq![0usize].contains(1));
            assert(tr.leads_to(seq![0usize], 1));
            assert(tr.plan(seq![0usize], 1, false) == Move::Enter(1));
            assert(rest.len() >= 1);
            assert(rest[0] == c[1]);
            assert(answered::<Top, BlinkyData, (), BlinkyHooks>(c[1]));
            assert(rest.len() >= 2);
            assert(rest[1] == c[2]);
            assert(answered::<Top, BlinkyData, (), BlinkyHooks>(c[2]));
            let r1 = c[2]->Init_1;
            assert(r1 == Next::<usize>::Stay);
            assert(run_log(tr, seq![0usize].push(1), None, (STEP_LIMIT - 1) as nat, rest.skip(2))
                == Some(machine.node().active()));
            assert(seq![0usize].push(1) =~= seq![0usize, 1]);
        }
        BlinkyMachine { machine }
    }
}

impl StateMachine<BlinkyState, (), Top> for BlinkyMachine {
    /// The machine is consistent, and the data of each active state below the top is that
    /// state's own variant of [`BlinkyData`].
    closed spec fn well_formed(&self) -> bool {
        self.machine.well_formed() && self.machine.fits()
    }

    closed spec fn tree(&self) -> StateTree {
        self.machine.tree()
    }

    closed spec fn active_ids(&self) -> Seq<usize> {
        self.machine.active_ids()
    }

    closed spec fn top_state(&self) -> Top {
        self.machine.top_state()
    }

    closed spec fn machine_name(&self) -> Seq<char> {
        self.machine.machine_name()
    }

    closed spec fn calls(&self) -> Seq<Call> {
        self.machine.calls()
    }

    closed spec fn answers(&self, c: Call) -> bool {
        self.machine.answers(c)
    }

    fn update(&mut self) {
        self.machine.update();
        proof {
            let (j, p) = choose|j: int, p: Seq<usize>|
                first_update_runs(
                    old(self).machine.tree(),
                    old(self).machine.active_ids(),
                    calls_since(old(self).machine.calls(), self.machine.calls()),
                    j,
                    p,
                    false,
                ) && (j == calls_since(old(self).machine.calls(), self.machine.calls()).len()
                    ==> self.machine.active_ids() == p) && first_update_resumes(
                    calls_since(old(self).machine.calls(), self.machine.calls()),
                    j,
                    p,
                );
            assert(first_update_runs(
                old(self).tree(),
                old(self).active_ids(),
                calls_since(old(self).calls(), self.calls()),
                j,
                p,
                false,
            ));
        }
    }

    fn top_down_update(&mut self) {
        self.machine.top_down_update();
        proof {
            let (j, p) = choose|j: int, p: Seq<usize>|
                first_update_runs(
                    old(self).machine.tree(),
                    old(self).machine.active_ids(),
                    calls_since(old(self).machine.calls(), self.machine.calls()),
                    j,
                    p,
                    true,
                ) && (j == calls_since(old(self).machine.calls(), self.machine.calls()).len()
                    ==> self.machine.active_ids() == p);
            assert(first_update_runs(
                old(self).tree(),
                old(self).active_ids(),
                calls_since(old(self).calls(), self.calls()),
                j,
                p,
                true,
            ));
        }
    }

    fn transition(&mut self, target: BlinkyState) {
        self.machine.transition(target)
    }

    fn exact_transition(&mut self, target: BlinkyState) {
        self.machine.exact_transition(target)
    }

    fn handle_event(&mut self, event: &()) {
        self.machine.handle_event(event);
        proof {
            let m = choose|m: int|
                event_handled(
                    old(self).machine.active_ids(),
                    self.machine.active_ids(),
                    calls_since(old(self).machine.calls(), self.machine.calls()),
                    m,
                ) && event_transition(
                    old(self).machine.tree(),
                    old(self).machine.active_ids(),
                    self.machine.active_ids(),
                    calls_since(old(self).machine.calls(), self.machine.calls()),
                    m,
                ) && event_run(
                    old(self).machine.tree(),
                    old(self).machine.active_ids(),
                    self.machine.active_ids(),
                    calls_since(old(self).machine.calls(), self.machine.calls()),
                    m,
                ) && event_settles(
                    old(self).machine.tree(),
                    self.machine.active_ids(),
                    calls_since(old(self).machine.calls(), self.machine.calls()),
                    m,
                );
            assert(event_handled(
                old(self).active_ids(),
                self.active_ids(),
                calls_since(old(self).calls(), self.calls()),
                m,
            ));
        }
    }

    fn state(&self) -> (r: BlinkyState) {
        self.machine.state()
    }

    fn state_list(&self) -> (r: Vec<BlinkyState>) {
        self.machine.state_list()
    }

    fn state_matches(&self, state: BlinkyState) -> (r: bool) {
        self.machine.state_matches(state)
    }

    fn top_ref(&self) -> (r: &Top) {
        self.machine.top_ref()
    }

    fn top_mut(&mut self) -> (r: &mut Top) {
        self.machine.top_mut()
    }

    fn name(&self) -> (r: &str) {
        self.machine.name()
    }

    fn set_name(&mut self, name: String) {
        self.machine.set_name(name)
    }
}

impl StateRef<BlinkyState, Top> for BlinkyMachine {
    /// The machine is consistent.
    open spec fn ref_ready(&self) -> bool {
        StateMachine::<BlinkyState, (), Top>::well_formed(self)
    }

    /// The top state is always active.
    closed spec fn ref_data(&self) -> Option<&Top> {
        Some(&self.machine.top_state())
    }

    fn state_ref(&self) -> (r: Option<&Top>) {
        Some(self.machine.top_ref())
    }

    fn state_mut(&mut self) -> (r: Option<&mut Top>) {
        Some(self.machine.top_mut())
    }
}

impl StateRef<BlinkyState, Disabled> for BlinkyMachine {
    /// The machine is consistent.
    open spec fn ref_ready(&self) -> bool {
        StateMachine::<BlinkyState, (), Top>::well_formed(self)
    }

    closed spec fn ref_data(&self) -> Option<&Disabled> {
        match self.machine.node().data_of(1) {
            Some(BlinkyData::Disabled(x)) => Some(&x),
            _ => None,
        }
    }

    fn state_ref(&self) -> (r: Option<&Disabled>) {
        match self.machine.state_data(1) {
            Some(BlinkyData::Disabled(x)) => Some(x),
            _ => None,
        }
    }

    fn state_mut(&mut self) -> (r: Option<&mut Disabled>) {
        proof {
            lemma_blinky_kinds(&*self);
            assert(self.machine.node().active().contains(1) ==> (self.machine.node().data_of(1)
                matches Some(d) && kind(d) == 1));
        }
        match self.machine.state_data_mut(1) {
            Some(BlinkyData::Disabled(x)) => Some(x),
            _ => None,
        }
    }

}

impl StateRef<BlinkyState, Enabled> for BlinkyMachine {
    /// The machine is consistent.
    open spec fn ref_ready(&self) -> bool {
        StateMachine::<BlinkyState, (), Top>::well_formed(self)
    }

    closed spec fn ref_data(&self) -> Option<&Enabled> {
        match self.machine.node().data_of(2) {
            Some(BlinkyData::Enabled(x)) => Some(&x),
            _ => None,
        }
    }

    fn state_ref(&self) -> (r: Option<&Enabled>) {
        match self.machine.state_data(2) {
            Some(BlinkyData::Enabled(x)) => Some(x),
            _ => None,
        }
    }

    fn state_mut(&mut self) -> (r: Option<&mut Enabled>) {
        proof {
            lemma_blinky_kinds(&*self);
            assert(self.machine.node().active().contains(2) ==> (self.machine.node().data_of(2)
                matches Some(d) && kind(d) == 2));
        }
        match self.machine.state_data_mut(2) {
            Some(BlinkyData::Enabled(x)) => Some(x),
            _ => None,
        }
    }
}

impl StateRef<BlinkyState, LedOn> for BlinkyMachine {
    /// The machine is consistent.
    open spec fn ref_ready(&self) -> bool {
        StateMachine::<BlinkyState, (), Top>::well_formed(self)
    }

    closed spec fn ref_data(&self) -> Option<&LedOn> {
        match self.machine.node().data_of(3) {
            Some(BlinkyData::LedOn(x)) => Some(&x),
            _ => None,
        }
    }

    fn state_ref(&self) -> (r: Option<&LedOn>) {
        match self.machine.state_data(3) {
            Some(BlinkyData::LedOn(x)) => Some(x),
            _ => None,
        }
    }

    fn state_mut(&mut self) -> (r: Option<&mut LedOn>) {
        proof {
            lemma_blinky_kinds(&*self);
            assert(self.machine.node().active().contains(3) ==> (self.machine.node().data_of(3)
                matches Some(d) && kind(d) == 3));
        }
        match self.machine.state_data_mut(3) {
            Some(BlinkyData::LedOn(x)) => Some(x),
            _ => None,
        }
    }
}

impl StateRef<BlinkyState, LedOff> for BlinkyMachine {
    /// The machine is consistent.
    open spec fn ref_ready(&self) -> bool {
        StateMachine::<BlinkyState, (), Top>::well_formed(self)
    }

    closed spec fn ref_data(&self) -> Option<&LedOff> {
        match self.machine.node().data_of(4) {
            Some(BlinkyData::LedOff(x)) => Some(&x),
            _ => None,
        }
    }

    fn state_ref(&self) -> (r: Option<&LedOff>) {
        match self.machine.state_data(4) {
            Some(BlinkyData::LedOff(x)) => Some(x),
            _ => None,
        }
    }

    fn state_mut(&mut self) -> (r: Option<&mut LedOff>) {
        proof {
            lemma_blinky_kinds(&*self);
            assert(self.machine.node().active().contains(4) ==> (self.machine.node().data_of(4)
                matches Some(d) && kind(d) == 4));
        }
        match self.machine.state_data_mut(4) {
            Some(BlinkyData::LedOff(x)) => Some(x),
            _ => None,
        }
    }
}

/// The data of a state of Blinky below the top can be read exactly while the state is
/// active; the top state's data is the machine's top state.
pub proof fn lemma_blinky_refs(m: &BlinkyMachine)
    requires
        StateMachine::<BlinkyState, (), Top>::well_formed(m),
    ensures
        StateRef::<BlinkyState, Top>::ref_data(m) == Some(
            &StateMachine::<BlinkyState, (), Top>::top_state(m),
        ),
        StateRef::<BlinkyState, Disabled>::ref_data(m) is Some
            <==> StateMachine::<BlinkyState, (), Top>::active_ids(m).contains(1),
        StateRef::<BlinkyState, Enabled>::ref_data(m) is Some
            <==> StateMachine::<BlinkyState, (), Top>::active_ids(m).contains(2),
        StateRef::<BlinkyState, LedOn>::ref_data(m) is Some
            <==> StateMachine::<BlinkyState, (), Top>::active_ids(m).contains(3),
        StateRef::<BlinkyState, LedOff>::ref_data(m) is Some
            <==> StateMachine::<BlinkyState, (), Top>::active_ids(m).contains(4),
{
    lemma_blinky_kinds(m);
}

/// The data of each active state of Blinky below the top is its own variant.
proof fn lemma_blinky_kinds(m: &BlinkyMachine)
    requires
        m.machine.well_formed(),
        m.machine.fits(),
    ensures
        forall|x: usize|
            1 <= x <= 4 && m.machine.node().active().contains(x) ==> (
            #[trigger] m.machine.node().data_of(x) matches Some(d) && kind(d) == x),
{
    m.machine.lemma_node_wf();
    let n = m.machine.node();
    n.lemma_wf();
    assert forall|x: usize| 1 <= x <= 4 && n.active().contains(x) implies (#[trigger] n.data_of(x)
        matches Some(d) && kind(d) == x) by {
        let l = n.level(x);
        assert(n.active()[l] == x);
        assert(l != 0);
        assert(BlinkyHooks::data_fits(n.active()[l], n.stack()[l - 1]));
    }
}

/// Builds a [`BlinkyMachine`].
pub struct BlinkyMachineBuilder {
    top_state: Top,
    name: Option<String>,
}

impl StateMachineBuilder<BlinkyState, (), Top, BlinkyMachine> for BlinkyMachineBuilder {
    closed spec fn given_name(&self) -> Option<Seq<char>> {
        match self.name {
            Some(n) => Some(n@),
            None => None,
        }
    }

    open spec fn default_name(&self) -> Seq<char> {
        "Blinky"@
    }

    fn new(top_state: Top) -> Self {
        BlinkyMachineBuilder { top_state, name: None }
    }

    fn name(self, name: String) -> Self {
        BlinkyMachineBuilder { top_state: self.top_state, name: Some(name) }
    }

    /// A machine not given a name is named `Blinky`; it starts out in `Disabled`.
    fn build(self) -> (r: BlinkyMachine)
        ensures
            self.given_name() is None ==> r.machine_name() == "Blinky"@,
            r.active_ids() == seq![0usize, 1],
    {
        let name = match self.name {
            Some(name) => name,
            None => BlinkyHooks::default_name(),
        };
        BlinkyMachine::new(self.top_state, name)
    }
}

} // verus!
