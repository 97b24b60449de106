//! Moku: hierarchical state machines.
//!
//! A machine has a tree of states with a single top state that is always active. At any time
//! one state is current, and it and all of its superstates are active. A transition exits the
//! active states that are not superstates of its target, deepest first, then enters the states
//! on the way down to the target, and finally runs the target's initial transition. Each
//! exit, entry or initial transition may redirect the transition to another target.
use vstd::prelude::*;

use core::marker::PhantomData;


pub mod blinky;
pub mod internal;
pub mod machine;
pub mod metadata;
pub mod tree;
pub mod unpack;

use crate::internal::{
    calls_since, entered_in, entered_not_updated, event_handled, event_run, event_settles,
    event_transition, first_update_resumes, first_update_runs, goal_of, last_request,
    levels_match, no_requests, quiet_top_down_updates, quiet_updates, requests_valid, run_log,
    top_down_descends, top_down_once_per_entry, top_down_updated_in, top_down_updates,
    transition_call, transition_calls, unflagged, update_log, updated_in, updated_once,
    updates_deepest_first, updates_descend, Call, Next, Response, StateEntry, STEP_LIMIT,
};
use crate::tree::StateTree;

verus! {

/// A flat list of all states of a machine, each with an id in the machine's [`StateTree`].
pub trait StateEnum: Sized + Copy {
    /// The id of this state.
    spec fn spec_id(self) -> usize;

    /// How many states there are; the ids are `0..spec_count()`.
    spec fn spec_count() -> usize;

    /// The id of this state.
    fn id(self) -> (r: usize)
        ensures
            r == self.spec_id(),
            r < Self::spec_count(),
    ;

    /// The state with a given id, if there is one.
    fn from_id(id: usize) -> (r: Option<Self>)
        ensures
            r is Some <==> id < Self::spec_count(),
            r matches Some(s) ==> s.spec_id() == id,
    ;

    /// How many states there are.
    fn count() -> (r: usize)
        ensures
            r == Self::spec_count(),
    ;
}

/// A state machine whose states are listed by `T`, with events of type `E` and top state `U`.
pub trait StateMachine<T: StateEnum, E, U>: Sized {
    /// The machine is consistent: every action below keeps it so.
    spec fn well_formed(&self) -> bool;

    /// The states of this machine.
    spec fn tree(&self) -> StateTree;

    /// The ids of the active states, from the top state down to the current state.
    spec fn active_ids(&self) -> Seq<usize>;

    /// The data of the top state.
    spec fn top_state(&self) -> U;

    /// The name of this machine instance, used when it reports what it does.
    spec fn machine_name(&self) -> Seq<char>;

    /// The calls this machine has made to the actions of its states, oldest first.
    spec fn calls(&self) -> Seq<Call>;

    /// The answer recorded in `c` is one that the action of its state may give.
    spec fn answers(&self, c: Call) -> bool;

    /// Update the state machine: each active state is updated, starting with the deepest. A
    /// transition asked for by a state is carried out at once, and the update goes on with the
    /// superstates that stayed active and were not updated yet; the states are updated from
    /// deeper to shallower ones, no state is updated twice, and no state is updated after it
    /// was entered in the same update. At the end every active
    /// state was either updated or entered in it (unless the update was cut short after
    /// [`STEP_LIMIT`] calls). The whole record is that of such a pass ([`update_log`]): every
    /// transition asked for is carried out at once, and the update goes on with the deepest
    /// active state neither updated nor entered since it began. A transition that the first
    /// update asks for is carried out before anything else: the calls after it are that transition's record, and when no other update
    /// follows, the machine ends where that transition ended; otherwise the update resumes with
    /// the nearest superstate that the transition kept and that was not updated yet (the deepest
    /// active state neither entered by it nor updated). When no state asks for a
    /// transition, every active state is updated once, deepest first, and the active states stay
    /// as they were.
    fn update(&mut self)
        requires
            old(self).well_formed(),
        ensures
            final(self).well_formed(),
            final(self).tree() == old(self).tree(),
            final(self).tree().is_active_path(final(self).active_ids()),
            final(self).machine_name() == old(self).machine_name(),
            old(self).calls().is_prefix_of(final(self).calls()),
            calls_since(old(self).calls(), final(self).calls()).len() >= 1,
            calls_since(old(self).calls(), final(self).calls())[0] matches Call::Update(s, _, _) && s
                == old(self).active_ids().last(),
            updated_once(calls_since(old(self).calls(), final(self).calls())),
            entered_not_updated(calls_since(old(self).calls(), final(self).calls())),
            quiet_updates(calls_since(old(self).calls(), final(self).calls())) ==> calls_since(
                old(self).calls(),
                final(self).calls(),
            ) == updates_deepest_first(old(self).active_ids()) && final(self).active_ids() == old(
                self,
            ).active_ids(),
            calls_since(old(self).calls(), final(self).calls()).len() < STEP_LIMIT ==> forall|
                k: int,
            |
                0 <= k < final(self).active_ids().len() ==> updated_in(
                    calls_since(old(self).calls(), final(self).calls()),
                    #[trigger] final(self).active_ids()[k],
                ) || entered_in(
                    calls_since(old(self).calls(), final(self).calls()),
                    final(self).active_ids()[k],
                ),
            updates_descend(old(self).tree(), calls_since(old(self).calls(), final(self).calls())),
            levels_match(old(self).tree(), calls_since(old(self).calls(), final(self).calls())),
            exists|j: int, p: Seq<usize>|
                #[trigger] first_update_runs(
                    old(self).tree(),
                    old(self).active_ids(),
                    calls_since(old(self).calls(), final(self).calls()),
                    j,
                    p,
                    false,
                ) && (j == calls_since(old(self).calls(), final(self).calls()).len()
                    ==> final(self).active_ids() == p) && first_update_resumes(
                    calls_since(old(self).calls(), final(self).calls()),
                    j,
                    p,
                ),
            forall|i: int|
                old(self).calls().len() <= i < final(self).calls().len() ==> old(self).answers(
                    #[trigger] final(self).calls()[i],
                ),
            calls_since(old(self).calls(), final(self).calls()).len() < STEP_LIMIT ==> update_log(
                old(self).tree(),
                old(self).active_ids(),
                unflagged(old(self).active_ids().len()),
                calls_since(old(self).calls(), final(self).calls()),
                false,
            ) == Some(final(self).active_ids()),
    ;

    /// Top-down update the state machine: each active state is top-down updated, starting with
    /// the top state. A transition asked for by a state is carried out at once, and the update
    /// goes on with the shallowest active state not updated yet. At the end every active state
    /// was top-down updated in it (unless the update was cut short after [`STEP_LIMIT`] calls).
    /// A transition that the top state asks for is carried out before anything else: the calls
    /// after its top-down update are that transition's record, and when no other top-down update
    /// follows, the machine ends where that transition ended. The whole record is that of such a
    /// pass ([`update_log`]): every transition asked for is carried out at once, and the pass
    /// goes on with the shallowest active state not top-down updated since it was entered. The
    /// pass goes down the tree: after
    /// the top state, each state top-down updated is one whose superstate was top-down updated
    /// since it was last entered, and no state is top-down updated twice unless it was entered
    /// again in between. Every update, top-down update and event is handed to the state at its
    /// own depth. When no state asks for a transition, every active state is top-down updated
    /// once, top first, and the active states stay as they were.
    fn top_down_update(&mut self)
        requires
            old(self).well_formed(),
        ensures
            final(self).well_formed(),
            final(self).tree() == old(self).tree(),
            final(self).tree().is_active_path(final(self).active_ids()),
            final(self).machine_name() == old(self).machine_name(),
            old(self).calls().is_prefix_of(final(self).calls()),
            calls_since(old(self).calls(), final(self).calls()).len() >= 1,
            calls_since(old(self).calls(), final(self).calls())[0] matches Call::TopDownUpdate(s, _, _)
                && s == 0,
            quiet_top_down_updates(calls_since(old(self).calls(), final(self).calls()))
                ==> calls_since(old(self).calls(), final(self).calls()) == top_down_updates(
                old(self).active_ids(),
            ) && final(self).active_ids() == old(self).active_ids(),
            calls_since(old(self).calls(), final(self).calls()).len() < STEP_LIMIT ==> forall|
                k: int,
            |
                0 <= k < final(self).active_ids().len() ==> top_down_updated_in(
                    calls_since(old(self).calls(), final(self).calls()),
                    #[trigger] final(self).active_ids()[k],
                ),
            levels_match(old(self).tree(), calls_since(old(self).calls(), final(self).calls())),
            top_down_once_per_entry(calls_since(old(self).calls(), final(self).calls())),
            top_down_descends(old(self).tree(), calls_since(old(self).calls(), final(self).calls())),
            exists|j: int, p: Seq<usize>|
                #[trigger] first_update_runs(
                    old(self).tree(),
                    old(self).active_ids(),
                    calls_since(old(self).calls(), final(self).calls()),
                    j,
                    p,
                    true,
                ) && (j == calls_since(old(self).calls(), final(self).calls()).len()
                    ==> final(self).active_ids() == p),
            forall|i: int|
                old(self).calls().len() <= i < final(self).calls().len() ==> old(self).answers(
                    #[trigger] final(self).calls()[i],
                ),
            calls_since(old(self).calls(), final(self).calls()).len() < STEP_LIMIT ==> update_log(
                old(self).tree(),
                old(self).active_ids(),
                unflagged(old(self).active_ids().len()),
                calls_since(old(self).calls(), final(self).calls()),
                true,
            ) == Some(final(self).active_ids()),
    ;

    /// Transition to `target`, subject to the short-circuit transitions of exits and entries
    /// and to initial transitions; it only enters, initialises and exits states, and ends with
    /// the target of the last redirection (or `target` itself) active, unless it was cut short
    /// after [`STEP_LIMIT`] calls or a redirection named no state. Nothing happens when the
    /// target is already active. Otherwise the calls it makes are the record of the plan's run
    /// over the answers they got, which ends with the states then active; every answer is one
    /// that the state's action may give. When no answer asks for a transition, the transition
    /// exits the active states that are not superstates of the target, deepest first, enters the
    /// states down to the target, top first, takes the target's initial transition, and ends
    /// with the target and its superstates active.
    fn transition(&mut self, target: T)
        requires
            old(self).well_formed(),
        ensures
            final(self).well_formed(),
            final(self).tree() == old(self).tree(),
            final(self).tree().is_active_path(final(self).active_ids()),
            final(self).machine_name() == old(self).machine_name(),
            old(self).calls().is_prefix_of(final(self).calls()),
            forall|i: int|
                old(self).calls().len() <= i < final(self).calls().len() ==> transition_call(
                    #[trigger] final(self).calls()[i],
                ),
            calls_since(old(self).calls(), final(self).calls()).len() < STEP_LIMIT && requests_valid(
                old(self).tree(),
                calls_since(old(self).calls(), final(self).calls()),
            ) ==> final(self).active_ids().contains(
                last_request(target.spec_id(), calls_since(old(self).calls(), final(self).calls())),
            ),
            old(self).active_ids().contains(target.spec_id()) ==> *final(self) == *old(self),
            !old(self).active_ids().contains(target.spec_id()) ==> run_log(
                old(self).tree(),
                old(self).active_ids(),
                Some((target.spec_id(), false)),
                STEP_LIMIT as nat,
                calls_since(old(self).calls(), final(self).calls()),
            ) == Some(final(self).active_ids()),
            forall|i: int|
                old(self).calls().len() <= i < final(self).calls().len() ==> old(self).answers(
                    #[trigger] final(self).calls()[i],
                ),
            no_requests(calls_since(old(self).calls(), final(self).calls())) && !old(
                self,
            ).active_ids().contains(target.spec_id()) ==> final(self).active_ids() == old(
                self,
            ).tree().path(target.spec_id()) && calls_since(old(self).calls(), final(self).calls())
                == transition_calls(old(self).tree(), old(self).active_ids(), target.spec_id()),
    ;

    /// Transition to `target`, exiting and re-entering it (and its substates) when it is
    /// already active. Like [`StateMachine::transition`], it ends with the target of the last
    /// redirection (or `target` itself) active, and its calls are the record of the plan's run
    /// over the answers they got. When no answer asks for a transition, the transition makes the
    /// calls that [`transition_calls`] lists and ends with the target and its superstates
    /// active.
    fn exact_transition(&mut self, target: T)
        requires
            old(self).well_formed(),
        ensures
            final(self).well_formed(),
            final(self).tree() == old(self).tree(),
            final(self).tree().is_active_path(final(self).active_ids()),
            final(self).machine_name() == old(self).machine_name(),
            old(self).calls().is_prefix_of(final(self).calls()),
            forall|i: int|
                old(self).calls().len() <= i < final(self).calls().len() ==> transition_call(
                    #[trigger] final(self).calls()[i],
                ),
            calls_since(old(self).calls(), final(self).calls()).len() < STEP_LIMIT && requests_valid(
                old(self).tree(),
                calls_since(old(self).calls(), final(self).calls()),
            ) ==> final(self).active_ids().contains(
                last_request(target.spec_id(), calls_since(old(self).calls(), final(self).calls())),
            ),
            run_log(
                old(self).tree(),
                old(self).active_ids(),
                Some((target.spec_id(), true)),
                STEP_LIMIT as nat,
                calls_since(old(self).calls(), final(self).calls()),
            ) == Some(final(self).active_ids()),
            forall|i: int|
                old(self).calls().len() <= i < final(self).calls().len() ==> old(self).answers(
                    #[trigger] final(self).calls()[i],
                ),
            no_requests(calls_since(old(self).calls(), final(self).calls())) ==> final(self).active_ids() == old(self).tree().path(target.spec_id())
                && calls_since(old(self).calls(), final(self).calls()) == transition_calls(
                old(self).tree(),
                old(self).active_ids(),
                target.spec_id(),
            ),
    ;

    /// Hand an event to the active states, deepest first, while they answer `Next(Stay)`. The
    /// first state to drop the event ends the handling, and nothing changes; the first to ask
    /// for a transition has it carried out as [`StateMachine::transition`] or
    /// [`StateMachine::exact_transition`] would.
    fn handle_event(&mut self, event: &E)
        requires
            old(self).well_formed(),
        ensures
            final(self).well_formed(),
            final(self).tree() == old(self).tree(),
            final(self).tree().is_active_path(final(self).active_ids()),
            final(self).machine_name() == old(self).machine_name(),
            old(self).calls().is_prefix_of(final(self).calls()),
            exists|m: int|
                #[trigger] event_handled(
                    old(self).active_ids(),
                    final(self).active_ids(),
                    calls_since(old(self).calls(), final(self).calls()),
                    m,
                ) && event_transition(
                    old(self).tree(),
                    old(self).active_ids(),
                    final(self).active_ids(),
                    calls_since(old(self).calls(), final(self).calls()),
                    m,
                ) && event_run(
                    old(self).tree(),
                    old(self).active_ids(),
                    final(self).active_ids(),
                    calls_since(old(self).calls(), final(self).calls()),
                    m,
                ) && event_settles(
                    old(self).tree(),
                    final(self).active_ids(),
                    calls_since(old(self).calls(), final(self).calls()),
                    m,
                ),
            forall|i: int|
                old(self).calls().len() <= i < final(self).calls().len() ==> old(self).answers(
                    #[trigger] final(self).calls()[i],
                ),
            levels_match(old(self).tree(), calls_since(old(self).calls(), final(self).calls())),
    ;

    /// The current state: the deepest active state.
    fn state(&self) -> (r: T)
        requires
            self.well_formed(),
        ensures
            r.spec_id() == self.active_ids().last(),
    ;

    /// The active states, from the top state down to the current state.
    fn state_list(&self) -> (r: Vec<T>)
        requires
            self.well_formed(),
        ensures
            r@.len() == self.active_ids().len(),
            forall|k: int| 0 <= k < r@.len() ==> #[trigger] r@[k].spec_id() == self.active_ids()[k],
    ;

    /// Does `state` match the current state or any of its superstates?
    fn state_matches(&self, state: T) -> (r: bool)
        requires
            self.well_formed(),
        ensures
            r == self.active_ids().contains(state.spec_id()),
    ;

    /// The top state.
    fn top_ref(&self) -> (r: &U)
        ensures
            *r == self.top_state(),
    ;

    /// Mutable access to the top state.
    fn top_mut(&mut self) -> (r: &mut U)
        requires
            old(self).well_formed(),
        ensures
            *r == old(self).top_state(),
            final(self).top_state() == *final(r),
            final(self).well_formed(),
            final(self).tree() == old(self).tree(),
            final(self).active_ids() == old(self).active_ids(),
            final(self).machine_name() == old(self).machine_name(),
            final(self).calls() == old(self).calls(),
    ;

    /// The name of this machine instance.
    fn name(&self) -> (r: &str)
        ensures
            r@ == self.machine_name(),
    ;

    /// Rename this machine instance.
    fn set_name(&mut self, name: String)
        requires
            old(self).well_formed(),
        ensures
            final(self).machine_name() == name@,
            final(self).well_formed(),
            final(self).tree() == old(self).tree(),
            final(self).active_ids() == old(self).active_ids(),
            final(self).top_state() == old(self).top_state(),
            final(self).calls() == old(self).calls(),
    ;
}

/// Access to the data of an active state of type `S`.
pub trait StateRef<T, S> {
    /// The machine is consistent, so that its states can be looked up.
    spec fn ref_ready(&self) -> bool;

    /// The data of the state of type `S`, if it is active.
    spec fn ref_data(&self) -> Option<&S>;

    /// The state of type `S`, if it is active.
    fn state_ref(&self) -> (r: Option<&S>)
        requires
            self.ref_ready(),
        ensures
            r == self.ref_data(),
    ;

    /// Mutable access to the state of type `S`, if it is active. What is written through it is
    /// the state's data afterwards.
    fn state_mut(&mut self) -> (r: Option<&mut S>)
        requires
            old(self).ref_ready(),
        ensures
            final(self).ref_ready(),
            r is Some <==> old(self).ref_data() is Some,
            r is Some ==> *r.unwrap() == *old(self).ref_data().unwrap() && final(self).ref_data()
                is Some && *final(self).ref_data().unwrap() == *final(r.unwrap()),
            r is None ==> final(self).ref_data() == old(self).ref_data(),
    ;
}

/// Makes a machine `V` from its top state.
pub trait StateMachineBuilder<T: StateEnum, E, U, V: StateMachine<T, E, U>>: Sized {
    /// The name given to the machine, if one was.
    spec fn given_name(&self) -> Option<Seq<char>>;

    /// The name of a machine built without being given one.
    spec fn default_name(&self) -> Seq<char>;

    /// A builder for a machine with this top state.
    fn new(top_state: U) -> (r: Self)
        ensures
            r.given_name() is None,
    ;

    /// Name the machine.
    fn name(self, name: String) -> (r: Self)
        ensures
            r.given_name() == Some(name@),
    ;

    /// Build and initialise the machine, under the name it was given if it was given one, else
    /// under its default name. The
    /// first call the machine makes is the top state's initial transition, and the calls after
    /// it are the record of the transition it asked for, which ends with the states active
    /// afterwards: the target of the last request among them and its superstates (unless it
    /// was cut short after [`STEP_LIMIT`] calls or a request named no state).
    fn build(self) -> (r: V)
        ensures
            r.well_formed(),
            self.given_name() matches Some(n) ==> r.machine_name() == n,
            self.given_name() is None ==> r.machine_name() == self.default_name(),
            r.calls().len() >= 1,
            r.calls()[0] matches Call::Init(s, _) && s == 0,
            r.calls().len() <= STEP_LIMIT && requests_valid(r.tree(), r.calls())
                ==> r.active_ids().contains(last_request(0, r.calls())),
            forall|i: int| 0 <= i < r.calls().len() ==> r.answers(#[trigger] r.calls()[i]),
            r.calls()[0] matches Call::Init(_, a) && run_log(
                r.tree(),
                seq![0usize],
                goal_of(r.tree(), a),
                STEP_LIMIT as nat,
                r.calls().drop_first(),
            ) == Some(r.active_ids()),
    ;
}

/// The type of the events of a state machine module.
pub trait StateMachineEvent {}

/// What the top state has above it: nothing.
pub struct NoSuperstates<'a>(pub PhantomData<&'a ()>);

/// The actions of the top state. By default none asks for a transition.
pub trait TopState<T>: Sized {
    /// The events of the machine.
    type Event;

    /// The initial transition, taken when the machine is built and when the top state is the
    /// target of an exact transition.
    fn init(&mut self) -> (r: Next<T>)
        default_ensures
            r == Next::<T>::Stay,
    {
        Next::Stay
    }

    /// Called by [`StateMachine::update`].
    fn update(&mut self) -> (r: Next<T>)
        default_ensures
            r == Next::<T>::Stay,
    {
        Next::Stay
    }

    /// Called by [`StateMachine::top_down_update`].
    fn top_down_update(&mut self) -> (r: Next<T>)
        default_ensures
            r == Next::<T>::Stay,
    {
        Next::Stay
    }

    /// Called by [`StateMachine::handle_event`] when every active substate passed the event on.
    fn handle_event(&mut self, event: &Self::Event) -> (r: Next<T>)
        default_ensures
            r == Next::<T>::Stay,
    {
        Next::Stay
    }
}

/// The actions of a state below the top. `Superstates` gives access to the state's active
/// superstates.
pub trait State<T>: Sized {
    type Superstates<'a>;

    /// The events of the machine.
    type Event;

    /// Construct the state as it becomes active, or redirect the transition.
    fn enter(superstates: &mut Self::Superstates<'_>) -> StateEntry<Self, T>;

    /// The initial transition, taken when this state is the target of a transition.
    fn init(&mut self, superstates: &mut Self::Superstates<'_>) -> (r: Next<T>)
        default_ensures
            r == Next::<T>::Stay,
    {
        Next::Stay
    }

    /// Called by [`StateMachine::update`].
    fn update(&mut self, superstates: &mut Self::Superstates<'_>) -> (r: Next<T>)
        default_ensures
            r == Next::<T>::Stay,
    {
        Next::Stay
    }

    /// Called by [`StateMachine::top_down_update`].
    fn top_down_update(&mut self, superstates: &mut Self::Superstates<'_>) -> (r: Next<T>)
        default_ensures
            r == Next::<T>::Stay,
    {
        Next::Stay
    }

    /// Destroy the state as it stops being active, possibly redirecting the transition.
    fn exit(self, superstates: &mut Self::Superstates<'_>) -> (r: Next<T>)
        default_ensures
            r == Next::<T>::Stay,
    {
        Next::Stay
    }

    /// Called by [`StateMachine::handle_event`] when every active substate of this state
    /// passed the event on: drop it, pass it on to the superstate, or ask for a transition.
    fn handle_event(&mut self, superstates: &mut Self::Superstates<'_>, event: &Self::Event) -> (r:
        Response<T>)
        default_ensures
            r == Response::<T>::Next(Next::Stay),
    {
        Response::Next(Next::Stay)
    }
}

} // verus!
