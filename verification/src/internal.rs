//! The machinery that runs a hierarchical state machine over a [`StateTree`].
//!
//! A machine keeps the path of active states from the top state down to the deepest active
//! state, the data of the top state and the data of every other active state. What a state does
//! when it is entered, initialised, updated, exited or handed an event is up to the machine's
//! [`SubstateEnum`]; which states are exited and entered, and in what order, is decided here.
use vstd::prelude::*;

use crate::tree::{Move, StateTree};


verus! {

/// What a state asks for after one of its actions.
#[derive(PartialEq, Eq, Structural, Clone, Copy, Debug)]
pub enum Next<T> {
    /// No transition.
    Stay,
    /// Transition to the target; nothing happens if it is already active.
    Target(T),
    /// Transition to the target, exiting and re-entering it if it is already active.
    ExactTarget(T),
}

/// A state is a transition to it.
impl<T> From<T> for Next<T> {
    fn from(target: T) -> (r: Self) {
        Next::Target(target)
    }
}

impl<T> vstd::std_specs::convert::FromSpecImpl<T> for Next<T> {
    open spec fn obeys_from_spec() -> bool {
        true
    }

    open spec fn from_spec(target: T) -> Self {
        Next::Target(target)
    }
}

/// `Some` state is a transition to it, `None` no transition.
impl<T> From<Option<T>> for Next<T> {
    fn from(target: Option<T>) -> (r: Self) {
        match target {
            Some(t) => Next::Target(t),
            None => Next::Stay,
        }
    }
}

impl<T> vstd::std_specs::convert::FromSpecImpl<Option<T>> for Next<T> {
    open spec fn obeys_from_spec() -> bool {
        true
    }

    open spec fn from_spec(target: Option<T>) -> Self {
        match target {
            Some(t) => Next::Target(t),
            None => Next::Stay,
        }
    }
}

/// The result of trying to enter a state.
#[derive(PartialEq, Eq, Structural, Clone, Copy, Debug)]
pub enum StateEntry<S, T> {
    /// The state was entered with this data.
    State(S),
    /// The state refused entry and redirects the transition to another target.
    Transition(T),
    /// The state refused entry and redirects the transition exactly to another target.
    ExactTransition(T),
}

/// How a state answers an event.
#[derive(PartialEq, Eq, Structural, Clone, Copy, Debug)]
pub enum Response<T> {
    /// Stop handling the event.
    Drop,
    /// Transition as asked (or not at all for `Next::Stay`); with `Next::Stay` the event goes on
    /// to the superstate.
    Next(Next<T>),
}

/// A state is a transition to it.
impl<T> From<T> for Response<T> {
    fn from(target: T) -> (r: Self) {
        Response::Next(Next::Target(target))
    }
}

impl<T> vstd::std_specs::convert::FromSpecImpl<T> for Response<T> {
    open spec fn obeys_from_spec() -> bool {
        true
    }

    open spec fn from_spec(target: T) -> Self {
        Response::Next(Next::Target(target))
    }
}

/// `Some` state is a transition to it, `None` no transition.
impl<T> From<Option<T>> for Response<T> {
    fn from(target: Option<T>) -> (r: Self) {
        match target {
            Some(t) => Response::Next(Next::Target(t)),
            None => Response::Next(Next::Stay),
        }
    }
}

impl<T> vstd::std_specs::convert::FromSpecImpl<Option<T>> for Response<T> {
    open spec fn obeys_from_spec() -> bool {
        true
    }

    open spec fn from_spec(target: Option<T>) -> Self {
        match target {
            Some(t) => Response::Next(Next::Target(t)),
            None => Response::Next(Next::Stay),
        }
    }
}

/// A transition request is the answer that asks for it.
impl<T> From<Next<T>> for Response<T> {
    fn from(next: Next<T>) -> (r: Self) {
        Response::Next(next)
    }
}

impl<T> vstd::std_specs::convert::FromSpecImpl<Next<T>> for Response<T> {
    open spec fn obeys_from_spec() -> bool {
        true
    }

    open spec fn from_spec(next: Next<T>) -> Self {
        Response::Next(next)
    }
}

/// The actions of the states of one machine, by state id. The active states below the top are
/// in `stack`, shallowest first: the state at depth `k` (k >= 1) has its data in `stack[k - 1]`.
/// No action may change how many states `stack` holds, nor which state each datum fits.
pub trait SubstateEnum<U, D, E>: Sized {
    /// The answers that `enter` of `state` may give, as recorded: `Stay` when the state was
    /// entered, else the transition it redirects to.
    spec fn enter_answers(state: usize, answer: Next<usize>) -> bool;

    /// The answers that the initial transition of `state` may give.
    spec fn init_answers(state: usize, answer: Next<usize>) -> bool;

    /// The answers that `update` of `state`, named at depth `level`, may give.
    spec fn update_answers(state: usize, level: usize, answer: Next<usize>) -> bool;

    /// The answers that `top_down_update` of `state`, named at depth `level`, may give.
    spec fn top_down_answers(state: usize, level: usize, answer: Next<usize>) -> bool;

    /// The answers that `exit` of `state` may give.
    spec fn exit_answers(state: usize, answer: Next<usize>) -> bool;

    /// The answers that `handle_event` of `state`, named at depth `level`, may give.
    spec fn event_answers(state: usize, level: usize, answer: Response<usize>) -> bool;

    /// `data` is data that `state` may hold.
    spec fn data_fits(state: usize, data: D) -> bool;

    /// Construct `state`, whose superstates are the top state and `stack`.
    fn enter(state: usize, top: &mut U, stack: &mut Vec<D>) -> (r: StateEntry<D, usize>)
        ensures
            final(stack)@.len() == old(stack)@.len(),
            Self::enter_answers(state, entry_request(r)),
            forall|k: int, x: usize|
                0 <= k < old(stack)@.len() && #[trigger] Self::data_fits(x, old(stack)@[k])
                    ==> Self::data_fits(x, final(stack)@[k]),
            r matches StateEntry::State(d) ==> Self::data_fits(state, d),
    ;

    /// The initial transition of `state`, which is the deepest active state (the top state when
    /// `stack` is empty).
    fn init(state: usize, top: &mut U, stack: &mut Vec<D>) -> (r: Next<usize>)
        ensures
            final(stack)@.len() == old(stack)@.len(),
            Self::init_answers(state, r),
            forall|k: int, x: usize|
                0 <= k < old(stack)@.len() && #[trigger] Self::data_fits(x, old(stack)@[k])
                    ==> Self::data_fits(x, final(stack)@[k]),
    ;

    /// Update `state`, active at depth `level`.
    fn update(state: usize, level: usize, top: &mut U, stack: &mut Vec<D>) -> (r: Next<usize>)
        ensures
            final(stack)@.len() == old(stack)@.len(),
            Self::update_answers(state, level, r),
            forall|k: int, x: usize|
                0 <= k < old(stack)@.len() && #[trigger] Self::data_fits(x, old(stack)@[k])
                    ==> Self::data_fits(x, final(stack)@[k]),
    ;

    /// Top-down update `state`, active at depth `level`.
    fn top_down_update(state: usize, level: usize, top: &mut U, stack: &mut Vec<D>) -> (r: Next<
        usize,
    >)
        ensures
            final(stack)@.len() == old(stack)@.len(),
            Self::top_down_answers(state, level, r),
            forall|k: int, x: usize|
                0 <= k < old(stack)@.len() && #[trigger] Self::data_fits(x, old(stack)@[k])
                    ==> Self::data_fits(x, final(stack)@[k]),
    ;

    /// Exit `state`, whose data is `data` and whose superstates are the top state and `stack`.
    fn exit(state: usize, data: D, top: &mut U, stack: &mut Vec<D>) -> (r: Next<usize>)
        ensures
            final(stack)@.len() == old(stack)@.len(),
            Self::exit_answers(state, r),
            forall|k: int, x: usize|
                0 <= k < old(stack)@.len() && #[trigger] Self::data_fits(x, old(stack)@[k])
                    ==> Self::data_fits(x, final(stack)@[k]),
    ;

    /// Hand `event` to `state`, active at depth `level`.
    fn handle_event(state: usize, level: usize, event: &E, top: &mut U, stack: &mut Vec<D>) -> (r:
        Response<usize>)
        ensures
            final(stack)@.len() == old(stack)@.len(),
            Self::event_answers(state, level, r),
            forall|k: int, x: usize|
                0 <= k < old(stack)@.len() && #[trigger] Self::data_fits(x, old(stack)@[k])
                    ==> Self::data_fits(x, final(stack)@[k]),
    ;
}

/// Every datum of `new` fits each state that the datum in the same place of `old` fits: an
/// action may change the data of the active states, not which state they belong to.
pub open spec fn kinds_kept<U, D, E, H: SubstateEnum<U, D, E>>(old: Seq<D>, new: Seq<D>) -> bool {
    &&& new.len() == old.len()
    &&& forall|k: int, x: usize|
        0 <= k < old.len() && #[trigger] H::data_fits(x, old[k]) ==> H::data_fits(x, new[k])
}

/// The data below the top of the `active` states, in `stack`, is data each state may hold.
pub open spec fn data_fit<U, D, E, H: SubstateEnum<U, D, E>>(active: Seq<usize>, stack: Seq<D>) -> bool {
    forall|k: int| 1 <= k < active.len() ==> H::data_fits(active[k], #[trigger] stack[k - 1])
}

/// The recorded answer of `c` is one that the action of its state may give.
pub open spec fn answered<U, D, E, H: SubstateEnum<U, D, E>>(c: Call) -> bool {
    match c {
        Call::Enter(s, a) => H::enter_answers(s, a),
        Call::Init(s, a) => H::init_answers(s, a),
        Call::Update(s, k, a) => H::update_answers(s, k, a),
        Call::TopDownUpdate(s, k, a) => H::top_down_answers(s, k, a),
        Call::Exit(s, a) => H::exit_answers(s, a),
        Call::Event(s, k, a) => H::event_answers(s, k, a),
    }
}

/// Every answer recorded in `calls` is one that the action of its state may give.
pub open spec fn all_answered<U, D, E, H: SubstateEnum<U, D, E>>(calls: Seq<Call>) -> bool {
    forall|i: int| 0 <= i < calls.len() ==> #[trigger] answered::<U, D, E, H>(calls[i])
}

/// Call `c`, if it is an update, a top-down update or an event, named its state at the state's
/// depth in `tree`, so that the action ran on that state's own data.
pub open spec fn level_matches(tree: StateTree, c: Call) -> bool {
    match c {
        Call::Update(s, k, _) => k == tree.depth(s),
        Call::TopDownUpdate(s, k, _) => k == tree.depth(s),
        Call::Event(s, k, _) => k == tree.depth(s),
        _ => true,
    }
}

/// Every call in `calls` named its state at the state's depth in `tree`.
pub open spec fn levels_match(tree: StateTree, calls: Seq<Call>) -> bool {
    forall|i: int| 0 <= i < calls.len() ==> #[trigger] level_matches(tree, calls[i])
}

/// No call in `calls` asked for a transition.
pub open spec fn no_requests(calls: Seq<Call>) -> bool {
    forall|i: int| 0 <= i < calls.len() ==> #[trigger] request_of(calls[i]) is None
}

/// A call that a machine made to an action of one of its states, with the answer it got.
pub enum Call {
    /// `enter` of a state: `Stay` when the state was entered, else the transition it
    /// redirected to.
    Enter(usize, Next<usize>),
    /// The initial transition of a state.
    Init(usize, Next<usize>),
    /// `update` of a state, with the depth that the call named it at.
    Update(usize, usize, Next<usize>),
    /// `top_down_update` of a state, with the depth that the call named it at.
    TopDownUpdate(usize, usize, Next<usize>),
    /// `exit` of a state.
    Exit(usize, Next<usize>),
    /// `handle_event` of a state, with the depth that the call named it at.
    Event(usize, usize, Response<usize>),
}

/// The answer of an entry as it is recorded: `Stay` when the state was entered, else the
/// transition it redirected to.
pub open spec fn entry_request<S>(e: StateEntry<S, usize>) -> Next<usize> {
    match e {
        StateEntry::State(_) => Next::Stay,
        StateEntry::Transition(n) => Next::Target(n),
        StateEntry::ExactTransition(n) => Next::ExactTarget(n),
    }
}

/// The target of the transition that call `c` asked for, if it asked for one: an exit, an
/// entry or an initial transition that redirected the transition under way.
pub open spec fn request_of(c: Call) -> Option<usize> {
    match c {
        Call::Exit(_, Next::Target(n)) => Some(n),
        Call::Exit(_, Next::ExactTarget(n)) => Some(n),
        Call::Enter(_, Next::Target(n)) => Some(n),
        Call::Enter(_, Next::ExactTarget(n)) => Some(n),
        Call::Init(_, Next::Target(n)) => Some(n),
        Call::Init(_, Next::ExactTarget(n)) => Some(n),
        _ => None,
    }
}

/// The target of a transition to `target` after `calls` redirected it: that of the last
/// request among them, or `target` if none asked for a transition.
#[verifier::opaque]
pub open spec fn last_request(target: usize, calls: Seq<Call>) -> usize
    decreases calls.len(),
{
    if calls.len() == 0 {
        target
    } else {
        match request_of(calls.last()) {
            Some(n) => n,
            None => last_request(target, calls.drop_last()),
        }
    }
}

/// Every request among `calls` names a state of `tree`.
#[verifier::opaque]
pub open spec fn requests_valid(tree: StateTree, calls: Seq<Call>) -> bool {
    forall|i: int|
        0 <= i < calls.len() ==> (#[trigger] request_of(calls[i]) matches Some(n) ==> n < tree.size())
}

/// The calls recorded in `after` since `before` was recorded.
pub open spec fn calls_since(before: Seq<Call>, after: Seq<Call>) -> Seq<Call> {
    after.subrange(before.len() as int, after.len() as int)
}

/// A call made while carrying out a transition: an entry, an initial transition or an exit.
pub open spec fn transition_call(c: Call) -> bool {
    c is Enter || c is Init || c is Exit
}

/// The state that call `c` updated, if it is an update.
pub open spec fn update_of(c: Call) -> Option<usize> {
    match c {
        Call::Update(s, _, _) => Some(s),
        _ => None,
    }
}

/// The state that call `c` tried to enter, if it is an entry.
pub open spec fn entry_of(c: Call) -> Option<usize> {
    match c {
        Call::Enter(s, _) => Some(s),
        _ => None,
    }
}

/// `s` was entered, or its entry tried, in one of `calls`.
pub open spec fn entered_in(calls: Seq<Call>, s: usize) -> bool {
    exists|i: int| 0 <= i < calls.len() && #[trigger] entry_of(calls[i]) == Some(s)
}

/// No state whose entry was tried in `calls` is updated after it in `calls`.
pub open spec fn entered_not_updated(calls: Seq<Call>) -> bool {
    forall|i: int, j: int|
        0 <= i < j < calls.len() && (#[trigger] entry_of(calls[i])) is Some ==> entry_of(calls[i])
            != #[trigger] update_of(calls[j])
}

/// `s` was updated in one of `calls`.
pub open spec fn updated_in(calls: Seq<Call>, s: usize) -> bool {
    exists|i: int| 0 <= i < calls.len() && #[trigger] update_of(calls[i]) == Some(s)
}

/// The state that call `c` top-down updated, if it is a top-down update.
pub open spec fn top_down_update_of(c: Call) -> Option<usize> {
    match c {
        Call::TopDownUpdate(s, _, _) => Some(s),
        _ => None,
    }
}

/// `s` was top-down updated in one of `calls`.
pub open spec fn top_down_updated_in(calls: Seq<Call>, s: usize) -> bool {
    exists|i: int| 0 <= i < calls.len() && #[trigger] top_down_update_of(calls[i]) == Some(s)
}

/// `x` was top-down updated in `calls` and not entered after that in them.
#[verifier::opaque]
pub open spec fn top_down_updated_since_entry(calls: Seq<Call>, x: usize) -> bool {
    exists|i: int|
        0 <= i < calls.len() && #[trigger] top_down_update_of(calls[i]) == Some(x) && forall|e: int|
            i < e < calls.len() ==> #[trigger] entry_of(calls[e]) != Some(x)
}

/// A state is top-down updated again in `calls` only after it was entered anew in between.
#[verifier::opaque]
pub open spec fn top_down_once_per_entry(calls: Seq<Call>) -> bool {
    forall|i: int, j: int|
        0 <= i < j < calls.len() && (#[trigger] top_down_update_of(calls[i])) is Some
            && top_down_update_of(calls[i]) == #[trigger] top_down_update_of(calls[j]) ==> exists|
            e: int,
        |
            i < e < j && #[trigger] entry_of(calls[e]) == top_down_update_of(calls[i])
}

/// The top-down updates in `calls` go down the tree: the first call is that of the top state,
/// and every later top-down update is of a state below the top whose superstate had been
/// top-down updated before it, and not entered again since.
#[verifier::opaque]
pub open spec fn top_down_descends(tree: StateTree, calls: Seq<Call>) -> bool {
    forall|j: int|
        0 <= j < calls.len() && (#[trigger] top_down_update_of(calls[j])) is Some ==> if j == 0 {
            top_down_update_of(calls[j]) == Some(0usize)
        } else {
            top_down_update_of(calls[j]) != Some(0usize) && top_down_updated_since_entry(
                calls.take(j),
                tree.parent(top_down_update_of(calls[j])->0),
            )
        }
}

/// The top-down flags of a pass over `active`: a state is flagged exactly when it was top-down
/// updated since it was last entered; the record so far keeps the rules of a top-down pass;
/// and the top state is never entered.
spec fn top_down_flags(tree: StateTree, active: Seq<usize>, done: Seq<bool>, calls: Seq<Call>) -> bool {
    &&& done.len() == active.len()
    &&& forall|k: int|
        0 <= k < active.len() ==> (done[k] <==> top_down_updated_since_entry(
            calls,
            #[trigger] active[k],
        ))
    &&& top_down_once_per_entry(calls)
    &&& top_down_descends(tree, calls)
    &&& forall|i: int| 0 <= i < calls.len() ==> #[trigger] entry_of(calls[i]) != Some(0usize)
    &&& calls.len() > 0 ==> top_down_update_of(calls[0]) == Some(0usize)
}

/// No state is updated twice in `calls`.
pub open spec fn updated_once(calls: Seq<Call>) -> bool {
    forall|i: int, j: int|
        0 <= i < j < calls.len() && (#[trigger] update_of(calls[i])) is Some ==> update_of(calls[i])
            != #[trigger] update_of(calls[j])
}

/// The updates among `calls` go from deeper states to shallower ones.
#[verifier::opaque]
pub open spec fn updates_descend(tree: StateTree, calls: Seq<Call>) -> bool {
    forall|i: int, j: int|
        0 <= i < j < calls.len() && (#[trigger] update_of(calls[i])) is Some && (
        #[trigger] update_of(calls[j])) is Some ==> tree.depth(update_of(calls[i])->0) > tree.depth(
            update_of(calls[j])->0,
        )
}

/// Every update among `calls` is of a state at least `d` deep.
#[verifier::opaque]
pub open spec fn updates_at_least(tree: StateTree, calls: Seq<Call>, d: int) -> bool {
    forall|i: int|
        0 <= i < calls.len() && (#[trigger] update_of(calls[i])) is Some ==> tree.depth(
            update_of(calls[i])->0,
        ) >= d
}

/// No update among `calls` asked for a transition.
pub open spec fn quiet_updates(calls: Seq<Call>) -> bool {
    forall|i: int|
        0 <= i < calls.len() ==> (#[trigger] calls[i] matches Call::Update(_, _, r) ==> r is Stay)
}

/// No top-down update among `calls` asked for a transition.
pub open spec fn quiet_top_down_updates(calls: Seq<Call>) -> bool {
    forall|i: int|
        0 <= i < calls.len() ==> (#[trigger] calls[i] matches Call::TopDownUpdate(_, _, r)
            ==> r is Stay)
}

/// The answer recorded in `c`, if it is an update (a top-down update when `top_down`).
pub open spec fn update_answer(c: Call, top_down: bool) -> Option<Next<usize>> {
    match c {
        Call::Update(_, _, r) => if top_down {
            None
        } else {
            Some(r)
        },
        Call::TopDownUpdate(_, _, r) => if top_down {
            Some(r)
        } else {
            None
        },
        _ => None,
    }
}

/// The update call `c` (a top-down update when `top_down`): its state, the depth it named the
/// state at, and its answer.
pub open spec fn update_call(c: Call, top_down: bool) -> Option<(usize, usize, Next<usize>)> {
    match c {
        Call::Update(s, k, r) => if top_down {
            None
        } else {
            Some((s, k, r))
        },
        Call::TopDownUpdate(s, k, r) => if top_down {
            Some((s, k, r))
        } else {
            None
        },
        _ => None,
    }
}

/// The first place from `i` on where `calls` holds an update call (a top-down update when
/// `top_down`), or the length of `calls` if there is none.
pub open spec fn next_update(calls: Seq<Call>, top_down: bool, i: int) -> int
    decreases calls.len() - i,
{
    if i < 0 || i >= calls.len() {
        calls.len() as int
    } else if update_call(calls[i], top_down) is Some {
        i
    } else {
        next_update(calls, top_down, i + 1)
    }
}

/// The deepest place whose flag is not set.
pub open spec fn last_pending(done: Seq<bool>) -> Option<int>
    decreases done.len(),
{
    if done.len() == 0 {
        None
    } else if !done.last() {
        Some(done.len() - 1)
    } else {
        last_pending(done.drop_last())
    }
}

/// The shallowest place from `i` on whose flag is not set.
pub open spec fn first_pending(done: Seq<bool>, i: int) -> Option<int>
    decreases done.len() - i,
{
    if i < 0 || i >= done.len() {
        None
    } else if !done[i] {
        Some(i)
    } else {
        first_pending(done, i + 1)
    }
}

/// The state a pass updates next, by its place among the active states: the deepest not
/// yet done, or for a top-down pass the shallowest.
pub open spec fn pending(done: Seq<bool>, top_down: bool) -> Option<int> {
    if top_down {
        first_pending(done, 0)
    } else {
        last_pending(done)
    }
}

/// No flag set, for `n` states.
pub open spec fn unflagged(n: nat) -> Seq<bool> {
    Seq::new(n, |i: int| false)
}

/// The flags of the states `after` a transition recorded in `seg`: a state that the transition
/// entered gets `fresh`, any other keeps the flag it had in its place.
pub open spec fn flags_after(done: Seq<bool>, after: Seq<usize>, seg: Seq<Call>, fresh: bool) -> Seq<
    bool,
> {
    Seq::new(
        after.len(),
        |i: int|
            if entered_in(seg, after[i]) {
                fresh
            } else {
                done[i]
            },
    )
}

/// The active path at the end of an update pass (a top-down pass when `top_down`) that starts
/// from `active` with the flags `done`, in which the states answered as `calls` records; `None`
/// when `calls` is not the record of such a pass. The pass updates the pending state (the
/// deepest active state not yet done, or for a top-down pass the shallowest) at its own depth,
/// flags it, and carries out the transition it asks for: the calls up to the next update are
/// that transition's record ([`run_log`]). States the transition entered are flagged done by
/// an update pass and not done by a top-down pass; the others keep their flags. The pass ends
/// when no state is pending.
pub open spec fn update_log(
    tree: StateTree,
    active: Seq<usize>,
    done: Seq<bool>,
    calls: Seq<Call>,
    top_down: bool,
) -> Option<Seq<usize>>
    decreases calls.len(),
{
    match pending(done, top_down) {
        None => if calls.len() == 0 {
            Some(active)
        } else {
            None
        },
        Some(k) => if calls.len() == 0 {
            None
        } else {
            match update_call(calls[0], top_down) {
                Some((s, lv, r)) => if s == active[k] && lv == k {
                    let j = next_update(calls, top_down, 1);
                    proof {
                        lemma_next_update_bounds(calls, top_down, 1);
                    }
                    let seg = calls.subrange(1, j);
                    match run_log(tree, active, goal_of(tree, r), (seg.len() + 1) as nat, seg) {
                        Some(p) => update_log(
                            tree,
                            p,
                            flags_after(done.update(k, true), p, seg, !top_down),
                            calls.skip(j),
                            top_down,
                        ),
                        None => None,
                    }
                } else {
                    None
                },
                None => None,
            }
        },
    }
}

/// The first update in `calls` (top-down update when `top_down`), made while `active` were the
/// active states, asked for a transition that was carried out then and there: the calls after
/// it, up to `j`, are the record of that transition (entries, initial transitions and exits
/// only), which ended with `after` active; any call at `j` is the next update of the same kind.
pub open spec fn first_update_runs(
    tree: StateTree,
    active: Seq<usize>,
    calls: Seq<Call>,
    j: int,
    after: Seq<usize>,
    top_down: bool,
) -> bool {
    &&& 1 <= j <= calls.len()
    &&& forall|i: int| 1 <= i < j ==> transition_call(#[trigger] calls[i])
    &&& update_answer(calls[0], top_down) matches Some(r) && run_log(
        tree,
        active,
        goal_of(tree, r),
        (STEP_LIMIT - 1) as nat,
        calls.subrange(1, j),
    ) == Some(after)
    &&& j < calls.len() ==> update_answer(calls[j], top_down) is Some
}

/// After the first update in `calls` and the transition it asked for (the calls up to `j`),
/// which left `after` active, the update goes on, if at all, with the deepest state of `after`
/// that is neither the state first updated nor one entered by that transition: the nearest
/// superstate that the transition kept and that was not updated yet.
pub open spec fn first_update_resumes(calls: Seq<Call>, j: int, after: Seq<usize>) -> bool {
    j < calls.len() ==> (calls[0] matches Call::Update(s, _, _) && calls[j] matches Call::Update(
        s2,
        _,
        _,
    ) && exists|k: int|
        0 <= k < after.len() && #[trigger] after[k] == s2 && after[k] != s && !entered_in(
            calls.subrange(1, j),
            after[k],
        ) && forall|k2: int|
            k < k2 < after.len() ==> after[k2] == s || entered_in(
                calls.subrange(1, j),
                #[trigger] after[k2],
            ))
}

/// The updates of the states of `active`, deepest first, none asking for a transition.
pub open spec fn updates_deepest_first(active: Seq<usize>) -> Seq<Call> {
    Seq::new(active.len(), |i: int| Call::Update(
        active[active.len() - 1 - i],
        (active.len() - 1 - i) as usize,
        Next::Stay,
    ))
}

/// The top-down updates of the states of `active`, top first, none asking for a transition.
pub open spec fn top_down_updates(active: Seq<usize>) -> Seq<Call> {
    Seq::new(active.len(), |i: int| Call::TopDownUpdate(active[i], i as usize, Next::Stay))
}

/// `calls` begins by handing an event to the states of `active`, deepest first, the state
/// at `m` (counted from the deepest) being the last to get it: every state before it answers
/// `Next(Stay)`, and it answers otherwise unless it is the top state.
pub open spec fn event_bubbles(active: Seq<usize>, calls: Seq<Call>, m: int) -> bool {
    &&& 0 <= m < active.len()
    &&& m < calls.len()
    &&& forall|j: int|
        0 <= j < m ==> #[trigger] calls[j] == Call::Event(
            active[active.len() - 1 - j],
            (active.len() - 1 - j) as usize,
            Response::Next(Next::Stay),
        )
    &&& calls[m] matches Call::Event(s, k, r) && s == active[active.len() - 1 - m] && k
        == active.len() - 1 - m && (r
        == Response::<usize>::Next(Next::Stay) ==> m == active.len() - 1)
}

/// An event was handed to the states of `active` as [`event_bubbles`] says, the state at `m`
/// being the last to get it; when that state dropped it, or was the top state and answered
/// `Next(Stay)`, no other call was made and the active states are still `active` (`after` being
/// those after the handling).
pub open spec fn event_handled(active: Seq<usize>, after: Seq<usize>, calls: Seq<Call>, m: int) -> bool {
    &&& event_bubbles(active, calls, m)
    &&& (calls[m] matches Call::Event(_, _, r) && (r is Drop || r == Response::<usize>::Next(
        Next::Stay,
    ))) ==> calls.len() == m + 1 && after == active
}

/// When the state at `m` (counted from the deepest) answered an event by asking for a
/// transition to a state of `tree` that has to be carried out (its target not active, or the
/// transition exact), and no call after the event asked for a transition: the calls after the event are those of that transition, and it ends with the
/// target and its superstates active (`after`).
pub open spec fn event_transition(
    tree: StateTree,
    active: Seq<usize>,
    after: Seq<usize>,
    calls: Seq<Call>,
    m: int,
) -> bool {
    match calls[m] {
        Call::Event(_, _, Response::Next(n)) => match goal_of(tree, n) {
            Some((t, ex)) => (ex || !active.contains(t)) && no_requests(calls.skip(m + 1))
                ==> calls.skip(m + 1) == transition_calls(tree, active, t) && after == tree.path(t),
            None => true,
        },
        _ => true,
    }
}

/// When the state at `m` (counted from the deepest) answered an event with `Next`, the calls
/// after the event are the record of the transition it asked for, carried out from `active`
/// with the answers recorded, and it ends with `after` active.
pub open spec fn event_run(
    tree: StateTree,
    active: Seq<usize>,
    after: Seq<usize>,
    calls: Seq<Call>,
    m: int,
) -> bool {
    calls[m] matches Call::Event(_, _, Response::Next(n)) ==> run_log(
        tree,
        active,
        goal_of(tree, n),
        STEP_LIMIT as nat,
        calls.skip(m + 1),
    ) == Some(after)
}

/// When the state at `m` (counted from the deepest) answered an event by asking for a
/// transition to a state of `tree`, the transition ends with the target of its last
/// redirection active (`after`), unless it was cut short after [`STEP_LIMIT`] calls or a
/// redirection named no state.
pub open spec fn event_settles(tree: StateTree, after: Seq<usize>, calls: Seq<Call>, m: int) -> bool {
    match calls[m] {
        Call::Event(_, _, Response::Next(n)) => match goal_of(tree, n) {
            Some((t, _)) => calls.skip(m + 1).len() < STEP_LIMIT && requests_valid(
                tree,
                calls.skip(m + 1),
            ) ==> after.contains(last_request(t, calls.skip(m + 1))),
            None => true,
        },
        _ => true,
    }
}

/// The steps that one call may take before it stops. A transition chain that has not settled
/// after this many steps is cut short, leaving the machine in a consistent state.
pub const STEP_LIMIT: u128 = 0xffff_ffff_ffff_ffff_ffff_ffff_ffff_ffff;

/// A transition request that names a state of `tree`: its target and whether it is exact.
pub open spec fn goal_of(tree: StateTree, n: Next<usize>) -> Option<(usize, bool)> {
    match n {
        Next::Stay => None,
        Next::Target(t) => if t < tree.size() {
            Some((t, false))
        } else {
            None
        },
        Next::ExactTarget(t) => if t < tree.size() {
            Some((t, true))
        } else {
            None
        },
    }
}

/// The active path at the end of a transition from `active` towards `goal`, for at most `fuel`
/// moves of the plan, in which the states answered as `calls` records; `None` when `calls` is not
/// the record of such a transition. An exit that asks for a transition to a state of `tree`
/// redirects it; an entry that is refused, or an initial transition, sets the next goal.
pub open spec fn run_log(
    tree: StateTree,
    active: Seq<usize>,
    goal: Option<(usize, bool)>,
    fuel: nat,
    calls: Seq<Call>,
) -> Option<Seq<usize>>
    decreases calls.len(),
{
    match goal {
        None => if calls.len() == 0 {
            Some(active)
        } else {
            None
        },
        Some((t, ex)) => if fuel == 0 || calls.len() == 0 {
            if calls.len() == 0 && (fuel == 0 || tree.plan(active, t, ex) is Stay) {
                Some(active)
            } else {
                None
            }
        } else {
            match tree.plan(active, t, ex) {
                Move::Stay => None,
                Move::Exit => match calls[0] {
                    Call::Exit(s, r) => if s == active.last() {
                        run_log(
                            tree,
                            active.drop_last(),
                            match goal_of(tree, r) {
                                Some(g) => Some(g),
                                None => goal,
                            },
                            (fuel - 1) as nat,
                            calls.drop_first(),
                        )
                    } else {
                        None
                    },
                    _ => None,
                },
                Move::Enter(s) => match calls[0] {
                    Call::Enter(s2, a) => if s2 != s {
                        None
                    } else if a is Stay {
                        if s == t {
                            if calls.len() >= 2 {
                                match calls[1] {
                                    Call::Init(s3, r) => if s3 == s {
                                        run_log(
                                            tree,
                                            active.push(s),
                                            goal_of(tree, r),
                                            (fuel - 1) as nat,
                                            calls.skip(2),
                                        )
                                    } else {
                                        None
                                    },
                                    _ => None,
                                }
                            } else {
                                None
                            }
                        } else {
                            run_log(
                                tree,
                                active.push(s),
                                Some((t, false)),
                                (fuel - 1) as nat,
                                calls.drop_first(),
                            )
                        }
                    } else {
                        run_log(tree, active, goal_of(tree, a), (fuel - 1) as nat, calls.drop_first())
                    },
                    _ => None,
                },
                Move::InitTop => match calls[0] {
                    Call::Init(s, r) => if s == 0 {
                        run_log(tree, active, goal_of(tree, r), (fuel - 1) as nat, calls.drop_first())
                    } else {
                        None
                    },
                    _ => None,
                },
            }
        }
    }
}

/// The calls that a transition makes, one move of the plan at a time for at most `fuel` moves,
/// when no state redirects it (so every entry succeeds and every exit and initial transition
/// answers `Stay`).
pub open spec fn run_calls(
    tree: StateTree,
    active: Seq<usize>,
    target: usize,
    exact: bool,
    fuel: nat,
) -> Seq<Call>
    decreases fuel,
{
    if fuel == 0 {
        Seq::empty()
    } else {
        match tree.plan(active, target, exact) {
            Move::Exit => seq![Call::Exit(active.last(), Next::Stay)] + run_calls(
                tree,
                active.drop_last(),
                target,
                exact,
                (fuel - 1) as nat,
            ),
            Move::Enter(s) => if s == target {
                seq![Call::Enter(s, Next::Stay), Call::Init(s, Next::Stay)]
            } else {
                seq![Call::Enter(s, Next::Stay)] + run_calls(
                    tree,
                    active.push(s),
                    target,
                    false,
                    (fuel - 1) as nat,
                )
            },
            Move::InitTop => seq![Call::Init(0, Next::Stay)],
            Move::Stay => Seq::empty(),
        }
    }
}

/// The number of leading states that `a` and `b` share, counting on from index `i`.
pub open spec fn shared_from(a: Seq<usize>, b: Seq<usize>, i: nat) -> nat
    decreases a.len() - i,
{
    if i < a.len() && i < b.len() && a[i as int] == b[i as int] {
        shared_from(a, b, i + 1)
    } else {
        i
    }
}

/// How many of the `active` states a transition to `target` keeps: those it shares with the
/// path to the target, but never the target itself, and always the top state.
pub open spec fn kept(tree: StateTree, active: Seq<usize>, target: usize) -> int {
    let pt = tree.path(target);
    if target == 0 {
        1
    } else if shared_from(active, pt, 0) < pt.len() - 1 {
        shared_from(active, pt, 0) as int
    } else {
        pt.len() - 1
    }
}

/// The exits of the `active` states below the first `keep`, deepest first.
pub open spec fn exit_calls(active: Seq<usize>, keep: int) -> Seq<Call> {
    Seq::new((active.len() - keep) as nat, |i: int| Call::Exit(active[active.len() - 1 - i], Next::Stay))
}

/// The entries of the states of `path` below the first `keep`, top first.
pub open spec fn enter_calls(path: Seq<usize>, keep: int) -> Seq<Call> {
    Seq::new((path.len() - keep) as nat, |i: int| Call::Enter(path[keep + i], Next::Stay))
}

/// The calls of a transition from `active` to `target` in which no state redirects: the
/// active states that are not kept are exited, deepest first; the states on the path to the
/// target below the kept ones are entered, top first; and the target's initial transition
/// is taken.
pub open spec fn transition_calls(tree: StateTree, active: Seq<usize>, target: usize) -> Seq<
    Call,
> {
    let k = kept(tree, active, target);
    exit_calls(active, k) + enter_calls(tree.path(target), k) + seq![Call::Init(target, Next::Stay)]
}

/// A running state machine: the tree of its states, the active path, the data of the active
/// states and the machine's name.
pub struct TopNode<U, D> {
    tree: StateTree,
    active: Vec<usize>,
    top: U,
    stack: Vec<D>,
    name: String,
    calls: Ghost<Seq<Call>>,
}

impl<U, D> TopNode<U, D> {
    /// The active path is a path down the tree and every active substate has its data.
    pub closed spec fn wf(&self) -> bool {
        &&& self.tree.wf()
        &&& self.tree.is_active_path(self.active@)
        &&& self.stack@.len() + 1 == self.active@.len()
    }

    /// The states of this machine.
    pub closed spec fn tree(&self) -> StateTree {
        self.tree
    }

    /// The active states, from the top state down to the current state.
    pub closed spec fn active(&self) -> Seq<usize> {
        self.active@
    }

    /// The data of the top state.
    pub closed spec fn top(&self) -> U {
        self.top
    }

    /// The data of the active states below the top, shallowest first.
    pub closed spec fn stack(&self) -> Seq<D> {
        self.stack@
    }

    /// The name of this machine.
    pub closed spec fn name_view(&self) -> Seq<char> {
        self.name@
    }

    /// The calls this machine has made to the actions of its states, oldest first.
    pub closed spec fn calls(&self) -> Seq<Call> {
        self.calls@
    }

    /// The depth at which `s` is active (meaningful only when it is).
    pub open spec fn level(&self, s: usize) -> int {
        choose|k: int| 0 <= k < self.active().len() && self.active()[k] == s
    }

    /// The data of `s` if it is an active state below the top.
    pub open spec fn data_of(&self, s: usize) -> Option<D> {
        if s != 0 && self.active().contains(s) {
            Some(self.stack()[self.level(s) - 1])
        } else {
            None
        }
    }

    /// The current state: the deepest active state.
    pub open spec fn current(&self) -> usize {
        self.active().last()
    }

    /// The facts that every machine keeps: the active states are the current state and all its
    /// superstates, the top state always among them.
    pub proof fn lemma_wf(&self)
        requires
            self.wf(),
        ensures
            self.tree().wf(),
            self.tree().is_active_path(self.active()),
            self.active() == self.tree().path(self.current()),
            self.active()[0] == 0,
            self.current() < self.tree().size(),
            self.stack().len() + 1 == self.active().len(),
    {
        self.tree.lemma_active_path_is_path(self.active@);
    }

    /// A machine in the top state, not yet initialised.
    pub fn new(tree: StateTree, top: U, name: String) -> (r: Self)
        requires
            tree.wf(),
        ensures
            r.wf(),
            r.tree() == tree,
            r.active() == seq![0usize],
            r.top() == top,
            r.stack() == Seq::<D>::empty(),
            r.name_view() == name@,
            r.calls() == Seq::<Call>::empty(),
    {
        let mut active: Vec<usize> = Vec::new();
        active.push(0);
        TopNode { tree, active, top, stack: Vec::new(), name, calls: Ghost(Seq::empty()) }
    }

    /// The transition request that `n` makes, if it names a state of this machine.
    fn goal(&self, n: Next<usize>) -> (r: Option<(usize, bool)>)
        ensures
            r == goal_of(self.tree(), n),
    {
        match n {
            Next::Stay => None,
            Next::Target(t) => if t < self.tree.len() {
                Some((t, false))
            } else {
                None
            },
            Next::ExactTarget(t) => if t < self.tree.len() {
                Some((t, true))
            } else {
                None
            },
        }
    }

    /// Carry out a transition request and every transition that the exits, entries and
    /// initial transitions along the way redirect it to. Each exited state loses its flag in
    /// `done`; each entered state gets the flag `fresh`.
    #[verifier::rlimit(80)]
    #[verifier::spinoff_prover]
    fn settle<E, H: SubstateEnum<U, D, E>>(
        &mut self,
        first: Next<usize>,
        done: &mut Vec<bool>,
        fresh: bool,
        budget: &mut u128,
    )
        requires
            old(self).wf(),
            old(done)@.len() == old(self).active().len(),
        ensures
            final(self).wf(),
            final(done)@.len() == final(self).active().len(),
            *final(budget) <= *old(budget),
            final(self).tree() == old(self).tree(),
            final(self).name_view() == old(self).name_view(),
            old(self).calls().is_prefix_of(final(self).calls()),
            goal_of(old(self).tree(), first) is None ==> *final(self) == *old(self) && final(done)@
                == old(done)@ && *final(budget) == *old(budget),
            forall|k: int|
                0 <= k < final(self).active().len() ==> #[trigger] final(done)@[k] == fresh || (k
                    < old(self).active().len() && final(self).active()[k] == old(self).active()[k]
                    && final(done)@[k] == old(done)@[k] && !entered_in(
                    final(self).calls().subrange(
                        old(self).calls().len() as int,
                        final(self).calls().len() as int,
                    ),
                    final(self).active()[k],
                )),
            forall|k: int|
                0 <= k < final(self).active().len() ==> (k < old(self).active().len()
                    && #[trigger] final(self).active()[k] == old(self).active()[k] && final(done)@[k]
                    == old(done)@[k]) || entered_in(
                    calls_since(old(self).calls(), final(self).calls()),
                    final(self).active()[k],
                ),
            calls_since(old(self).calls(), final(self).calls()).len() + *final(budget)
                >= *old(budget),
            *final(budget) > 0 && requests_valid(
                old(self).tree(),
                calls_since(old(self).calls(), final(self).calls()),
            ) ==> (goal_of(old(self).tree(), first) matches Some((t, _))
                ==> final(self).active().contains(
                last_request(t, calls_since(old(self).calls(), final(self).calls())),
            )),
            forall|i: int|
                old(self).calls().len() <= i < final(self).calls().len() ==> transition_call(
                    #[trigger] final(self).calls()[i],
                ),
            goal_of(old(self).tree(), first) is Some ==> run_log(
                old(self).tree(),
                old(self).active(),
                goal_of(old(self).tree(), first),
                *old(budget) as nat,
                calls_since(old(self).calls(), final(self).calls()),
            ) == Some(final(self).active()),
            all_answered::<U, D, E, H>(calls_since(old(self).calls(), final(self).calls())),
            data_fit::<U, D, E, H>(old(self).active(), old(self).stack()) ==> data_fit::<U, D, E, H>(
                final(self).active(),
                final(self).stack(),
            ),
    {
        let mut goal = self.goal(first);
        if goal.is_none() {
            proof {
                assert forall|k: int| 0 <= k < self.active().len() implies !entered_in(
                    self.calls().subrange(self.calls().len() as int, self.calls().len() as int),
                    self.active()[k],
                ) by {}
                assert(all_answered::<U, D, E, H>(calls_since(self.calls(), self.calls())));
            }
            return ;
        }
        let ghost start = *self;
        let ghost start_done = done@;
        let ghost mut low: int = self.active().len() as int;
        let ghost t0 = goal.unwrap().0;
        let ghost g0 = goal;
        proof {
            lemma_requests_empty(self.tree(), self.calls());
            assert forall|rest: Seq<Call>| #[trigger] run_log(
                self.tree(),
                self.active(),
                goal,
                *budget as nat,
                rest,
            ) == run_log(
                start.tree(),
                start.active(),
                g0,
                *budget as nat,
                calls_since(start.calls(), self.calls()) + rest,
            ) by {
                assert(calls_since(start.calls(), self.calls()) + rest =~= rest);
            }
            assert(all_answered::<U, D, E, H>(calls_since(self.calls(), self.calls())));
        }
        let mut fuel = *budget;
        loop
            invariant
                self.wf(),
                done@.len() == self.active().len(),
                fuel <= *old(budget),
                self.tree() == start.tree(),
                self.name_view() == start.name_view(),
                start.calls().is_prefix_of(self.calls()),
                goal matches Some((t, _)) ==> t < self.tree().size(),
                forall|rest: Seq<Call>| #[trigger] run_log(
                    self.tree(),
                    self.active(),
                    goal,
                    fuel as nat,
                    rest,
                ) == run_log(
                    start.tree(),
                    start.active(),
                    g0,
                    *old(budget) as nat,
                    calls_since(start.calls(), self.calls()) + rest,
                ),
                all_answered::<U, D, E, H>(calls_since(start.calls(), self.calls())),
                data_fit::<U, D, E, H>(start.active(), start.stack()) ==> data_fit::<U, D, E, H>(
                    self.active(),
                    self.stack(),
                ),
                1 <= low <= self.active().len(),
                low <= start.active().len(),
                forall|k: int| 0 <= k < low ==> #[trigger] self.active()[k] == start.active()[k],
                forall|k: int|
                    0 <= k < self.active().len() ==> #[trigger] done@[k] == fresh || (k < low
                        && done@[k] == start_done[k]),
                forall|k: int| 0 <= k < low ==> #[trigger] done@[k] == start_done[k],
                forall|k: int|
                    low <= k < self.active().len() ==> entered_in(
                        calls_since(start.calls(), self.calls()),
                        #[trigger] self.active()[k],
                    ),
                self.calls().len() - start.calls().len() + fuel >= *old(budget),
                requests_valid(self.tree(), calls_since(start.calls(), self.calls())) ==> (
                goal matches Some((t, _)) ==> t == last_request(
                    t0,
                    calls_since(start.calls(), self.calls()),
                )),
                requests_valid(self.tree(), calls_since(start.calls(), self.calls())) ==> (
                goal is None ==> self.active().contains(
                    last_request(t0, calls_since(start.calls(), self.calls())),
                )),
                forall|i: int, k: int|
                    start.calls().len() <= i < self.calls().len() && 0 <= k < low && (
                    #[trigger] entry_of(self.calls()[i])) is Some ==> entry_of(self.calls()[i])
                        != Some(#[trigger] start.active()[k]),
                forall|i: int|
                    start.calls().len() <= i < self.calls().len() ==> transition_call(
                        #[trigger] self.calls()[i],
                    ),
            ensures
                run_log(
                    start.tree(),
                    start.active(),
                    g0,
                    *old(budget) as nat,
                    calls_since(start.calls(), self.calls()),
                ) == Some(self.active()),
                fuel == 0 || (requests_valid(self.tree(), calls_since(start.calls(), self.calls()))
                    ==> self.active().contains(
                    last_request(t0, calls_since(start.calls(), self.calls())),
                )),
            decreases fuel,
        {
            let (t, exact) = match goal {
                None => {
                    proof {
                        assert(calls_since(start.calls(), self.calls()) + Seq::<Call>::empty() =~= calls_since(
                            start.calls(),
                            self.calls(),
                        ));
                        assert(run_log(self.tree(), self.active(), goal, fuel as nat, Seq::<Call>::empty())
                            == Some(self.active()));
                    }
                    break ;
                },
                Some(g) => g,
            };
            if fuel == 0 {
                proof {
                    assert(calls_since(start.calls(), self.calls()) + Seq::<Call>::empty() =~= calls_since(
                            start.calls(),
                            self.calls(),
                        ));
                        assert(run_log(self.tree(), self.active(), goal, fuel as nat, Seq::<Call>::empty())
                            == Some(self.active()));
                }
                break ;
            }
            proof {
                self.tree.lemma_plan_sound(self.active@, t, exact);
            }
            let ghost before = *self;
            let ghost before_done = done@;
            let ghost fuel_before = fuel;
            let ghost since_before = calls_since(start.calls(), self.calls());
            let mv = self.tree.next_move(&self.active, t, exact);
            if let Move::Stay = mv {
                proof {
                    assert(self.active().contains(t));
                    assert(since_before + Seq::<Call>::empty() =~= since_before);
                    assert(run_log(self.tree(), self.active(), goal, fuel as nat, Seq::<Call>::empty())
                        == Some(self.active()));
                }
                break ;
            }
            fuel = fuel - 1;
            match mv {
                Move::Stay => {},
                Move::Exit => {
                    proof {
                        self.tree.lemma_pop_active(self.active@);
                    }
                    let s = self.active.pop().unwrap();
                    let _ = done.pop();
                    let d = self.stack.pop().unwrap();
                    let ghost popped = self.stack@;
                    let r = H::exit(s, d, &mut self.top, &mut self.stack);
                    proof {
                        if data_fit::<U, D, E, H>(start.active(), start.stack()) {
                            before.lemma_wf();
                            lemma_fit_pop::<U, D, E, H>(before.active(), before.stack());
                            lemma_fit_kept::<U, D, E, H>(self.active(), popped, self.stack@);
                        }
                        self.calls@ = self.calls@.push(Call::Exit(s, r));
                        lemma_push_keeps_found(start.calls(), before.calls(), Call::Exit(s, r));
                        lemma_request_push(
                            self.tree(),
                            t0,
                            calls_since(start.calls(), before.calls()),
                            Call::Exit(s, r),
                        );
                    }
                    let redirect = self.goal(r);
                    if redirect.is_some() {
                        goal = redirect;
                    }
                    proof {
                        lemma_log_exit_step(
                            before.tree(),
                            before.active(),
                            t,
                            exact,
                            fuel_before as nat,
                            r,
                            goal,
                        );
                        lemma_log_advance(
                            before.tree(),
                            start.active(),
                            g0,
                            *old(budget) as nat,
                            since_before,
                            seq![Call::Exit(s, r)],
                            before.active(),
                            Some((t, exact)),
                            fuel_before as nat,
                            self.active(),
                            goal,
                            fuel as nat,
                        );
                        assert(calls_since(start.calls(), self.calls()) =~= since_before + seq![
                            Call::Exit(s, r),
                        ]);
                        lemma_answered_push::<U, D, E, H>(start.calls(), before.calls(), Call::Exit(s, r));
                        if low > self.active().len() {
                            low = self.active().len() as int;
                        }
                        assert forall|k: int| 0 <= k < low implies #[trigger] done@[k]
                            == start_done[k] by {
                            assert(done@[k] == before_done[k]);
                        }
                        assert forall|k: int| low <= k < self.active().len() implies entered_in(
                            calls_since(start.calls(), self.calls()),
                            #[trigger] self.active()[k],
                        ) by {
                            assert(self.active()[k] == before.active()[k]);
                            assert(entered_in(
                                calls_since(start.calls(), before.calls()),
                                before.active()[k],
                            ));
                        }
                        assert forall|k: int| 0 <= k < low implies #[trigger] self.active()[k]
                            == start.active()[k] by {
                            assert(self.active()[k] == before.active()[k]);
                        }
                        assert forall|k: int| 0 <= k < self.active().len() implies #[trigger] done@[k]
                            == fresh || (k < low && done@[k] == start_done[k]) by {
                            assert(done@[k] == before_done[k]);
                        }
                        assert forall|i: int, k: int|
                            start.calls().len() <= i < self.calls().len() && 0 <= k < low && (
                            #[trigger] entry_of(self.calls()[i])) is Some implies entry_of(
                            self.calls()[i],
                        ) != Some(#[trigger] start.active()[k]) by {
                            if i < before.calls().len() {
                                assert(self.calls()[i] == before.calls()[i]);
                            }
                        }
                        assert forall|i: int|
                            start.calls().len() <= i < self.calls().len() implies transition_call(
                            #[trigger] self.calls()[i],
                        ) by {
                            if i < before.calls().len() {
                                assert(self.calls()[i] == before.calls()[i]);
                            }
                        }
                    }
                },
                Move::Enter(s) => {
                    let entry = H::enter(s, &mut self.top, &mut self.stack);
                    proof {
                        if data_fit::<U, D, E, H>(start.active(), start.stack()) {
                            before.lemma_wf();
                            lemma_fit_kept::<U, D, E, H>(self.active(), before.stack(), self.stack@);
                        }
                        self.calls@ = self.calls@.push(Call::Enter(s, entry_request(entry)));
                        lemma_push_keeps_found(
                            start.calls(),
                            before.calls(),
                            Call::Enter(s, entry_request(entry)),
                        );
                        lemma_request_push(
                            self.tree(),
                            t0,
                            calls_since(start.calls(), before.calls()),
                            Call::Enter(s, entry_request(entry)),
                        );
                        lemma_answered_push::<U, D, E, H>(
                            start.calls(),
                            before.calls(),
                            Call::Enter(s, entry_request(entry)),
                        );
                        assert forall|k: int| low <= k < self.active().len() implies entered_in(
                            calls_since(start.calls(), self.calls()),
                            #[trigger] self.active()[k],
                        ) by {
                            assert(entered_in(
                                calls_since(start.calls(), before.calls()),
                                before.active()[k],
                            ));
                        }
                        assert forall|i: int, k: int|
                            start.calls().len() <= i < self.calls().len() && 0 <= k < low && (
                            #[trigger] entry_of(self.calls()[i])) is Some implies entry_of(
                            self.calls()[i],
                        ) != Some(#[trigger] start.active()[k]) by {
                            if i < before.calls().len() {
                                assert(self.calls()[i] == before.calls()[i]);
                            } else {
                                assert(before.active()[k] == start.active()[k]);
                                if s == before.active()[k] {
                                    self.tree.lemma_active_path_distinct(
                                        before.active().push(s),
                                        k,
                                        before.active().len() as int,
                                    );
                                }
                            }
                        }
                        assert forall|i: int|
                            start.calls().len() <= i < self.calls().len() implies transition_call(
                            #[trigger] self.calls()[i],
                        ) by {
                            if i < before.calls().len() {
                                assert(self.calls()[i] == before.calls()[i]);
                            }
                        }
                    }
                    match entry {
                        StateEntry::State(d) => {
                            let ghost pre_active = self.active@;
                            let ghost pre_stack = self.stack@;
                            self.active.push(s);
                            self.stack.push(d);
                            done.push(fresh);
                            proof {
                                if data_fit::<U, D, E, H>(start.active(), start.stack()) {
                                    lemma_fit_push::<U, D, E, H>(pre_active, pre_stack, s, d);
                                }
                                assert forall|k: int| 0 <= k < low implies #[trigger] self.active()[k]
                                    == start.active()[k] by {
                                    assert(self.active()[k] == before.active()[k]);
                                }
                                assert forall|k: int| 0 <= k < low implies #[trigger] done@[k]
                                    == start_done[k] by {
                                    assert(done@[k] == before_done[k]);
                                }
                                assert forall|k: int| low <= k < self.active().len() implies entered_in(
                                    calls_since(start.calls(), self.calls()),
                                    #[trigger] self.active()[k],
                                ) by {
                                    if k < before.active().len() {
                                        assert(self.active()[k] == before.active()[k]);
                                    }
                                }
                                assert forall|k: int| 0 <= k < self.active().len() implies #[trigger] done@[k]
                                    == fresh || (k < low && done@[k] == start_done[k]) by {
                                    if k < before.active().len() {
                                        assert(done@[k] == before_done[k]);
                                    }
                                }
                            }
                            if s == t {
                                let ghost pre = self.calls();
                                let ghost pre_stack2 = self.stack@;
                                let r = H::init(s, &mut self.top, &mut self.stack);
                                proof {
                                    if data_fit::<U, D, E, H>(start.active(), start.stack()) {
                                        lemma_fit_kept::<U, D, E, H>(self.active(), pre_stack2, self.stack@);
                                    }
                                    self.calls@ = self.calls@.push(Call::Init(s, r));
                                    lemma_push_keeps_found(start.calls(), pre, Call::Init(s, r));
                                    lemma_request_push(
                                        self.tree(),
                                        t0,
                                        calls_since(start.calls(), pre),
                                        Call::Init(s, r),
                                    );
                                    assert(self.active()[self.active().len() - 1] == s);
                                    lemma_answered_push::<U, D, E, H>(start.calls(), pre, Call::Init(s, r));
                                    assert forall|k: int| low <= k < self.active().len() implies entered_in(
                                        calls_since(start.calls(), self.calls()),
                                        #[trigger] self.active()[k],
                                    ) by {
                                        assert(entered_in(calls_since(start.calls(), pre), self.active()[k]));
                                    }
                                }
                                goal = self.goal(r);
                                proof {
                                    lemma_log_target_step(before.tree(), before.active(), t, exact, fuel_before as nat, r);
                                    lemma_log_advance(
                                        before.tree(),
                                        start.active(),
                                        g0,
                                        *old(budget) as nat,
                                        since_before,
                                        seq![Call::Enter(t, Next::Stay), Call::Init(t, r)],
                                        before.active(),
                                        Some((t, exact)),
                                        fuel_before as nat,
                                        self.active(),
                                        goal,
                                        fuel as nat,
                                    );
                                    assert(calls_since(start.calls(), self.calls()) =~= since_before + seq![
                                        Call::Enter(t, Next::Stay),
                                        Call::Init(t, r),
                                    ]);
                                }
                            } else {
                                goal = Some((t, false));
                                proof {
                                    lemma_log_enter_step(before.tree(), before.active(), t, exact, fuel_before as nat, s);
                                    lemma_log_advance(
                                        before.tree(),
                                        start.active(),
                                        g0,
                                        *old(budget) as nat,
                                        since_before,
                                        seq![Call::Enter(s, Next::Stay)],
                                        before.active(),
                                        Some((t, exact)),
                                        fuel_before as nat,
                                        self.active(),
                                        goal,
                                        fuel as nat,
                                    );
                                    assert(calls_since(start.calls(), self.calls()) =~= since_before + seq![
                                        Call::Enter(s, Next::Stay),
                                    ]);
                                }
                            }
                        },
                        StateEntry::Transition(n) => {
                            goal = self.goal(Next::Target(n));
                            proof {
                                lemma_log_refused_step(before.tree(), before.active(), t, exact, fuel_before as nat, s, Next::Target(n));
                                lemma_log_advance(
                                    before.tree(),
                                    start.active(),
                                    g0,
                                    *old(budget) as nat,
                                    since_before,
                                    seq![Call::Enter(s, Next::Target(n))],
                                    before.active(),
                                    Some((t, exact)),
                                    fuel_before as nat,
                                    self.active(),
                                    goal,
                                    fuel as nat,
                                );
                                assert(calls_since(start.calls(), self.calls()) =~= since_before + seq![
                                    Call::Enter(s, Next::Target(n)),
                                ]);
                            }
                        },
                        StateEntry::ExactTransition(n) => {
                            goal = self.goal(Next::ExactTarget(n));
                            proof {
                                lemma_log_refused_step(before.tree(), before.active(), t, exact, fuel_before as nat, s, Next::ExactTarget(n));
                                lemma_log_advance(
                                    before.tree(),
                                    start.active(),
                                    g0,
                                    *old(budget) as nat,
                                    since_before,
                                    seq![Call::Enter(s, Next::ExactTarget(n))],
                                    before.active(),
                                    Some((t, exact)),
                                    fuel_before as nat,
                                    self.active(),
                                    goal,
                                    fuel as nat,
                                );
                                assert(calls_since(start.calls(), self.calls()) =~= since_before + seq![
                                    Call::Enter(s, Next::ExactTarget(n)),
                                ]);
                            }
                        },
                    }
                },
                Move::InitTop => {
                    let r = H::init(0, &mut self.top, &mut self.stack);
                    proof {
                        if data_fit::<U, D, E, H>(start.active(), start.stack()) {
                            before.lemma_wf();
                            lemma_fit_kept::<U, D, E, H>(self.active(), before.stack(), self.stack@);
                        }
                        self.calls@ = self.calls@.push(Call::Init(0, r));
                        lemma_push_keeps_found(start.calls(), before.calls(), Call::Init(0, r));
                        lemma_request_push(
                            self.tree(),
                            t0,
                            calls_since(start.calls(), before.calls()),
                            Call::Init(0, r),
                        );
                        assert(self.active()[0] == 0);
                        lemma_answered_push::<U, D, E, H>(start.calls(), before.calls(), Call::Init(0, r));
                        assert forall|k: int| low <= k < self.active().len() implies entered_in(
                            calls_since(start.calls(), self.calls()),
                            #[trigger] self.active()[k],
                        ) by {
                            assert(entered_in(
                                calls_since(start.calls(), before.calls()),
                                before.active()[k],
                            ));
                        }
                    }
                    goal = self.goal(r);
                    proof {
                        lemma_log_init_top_step(before.tree(), before.active(), t, exact, fuel_before as nat, r);
                        lemma_log_advance(
                            before.tree(),
                            start.active(),
                            g0,
                            *old(budget) as nat,
                            since_before,
                            seq![Call::Init(0, r)],
                            before.active(),
                            Some((t, exact)),
                            fuel_before as nat,
                            self.active(),
                            goal,
                            fuel as nat,
                        );
                        assert(calls_since(start.calls(), self.calls()) =~= since_before + seq![
                            Call::Init(0, r),
                        ]);
                    }
                },
            }
        }
        proof {
            let added = self.calls().subrange(start.calls().len() as int, self.calls().len() as int);
            assert forall|k: int|
                0 <= k < self.active().len() && done@[k] != fresh implies !entered_in(
                added,
                self.active()[k],
            ) by {
                if entered_in(added, self.active()[k]) {
                    let i = choose|i: int|
                        0 <= i < added.len() && #[trigger] entry_of(added[i]) == Some(
                            self.active()[k],
                        );
                    assert(added[i] == self.calls()[start.calls().len() + i]);
                    assert(entry_of(self.calls()[start.calls().len() + i]) != Some(
                        start.active()[k],
                    ));
                }
            }
        }
        *budget = fuel;
    }

    /// Perform the initial transition of the top state.
    pub fn init<E, H: SubstateEnum<U, D, E>>(&mut self)
        requires
            old(self).wf(),
        ensures
            final(self).wf(),
            final(self).tree() == old(self).tree(),
            final(self).name_view() == old(self).name_view(),
            old(self).calls().is_prefix_of(final(self).calls()),
            final(self).calls().len() > old(self).calls().len(),
            final(self).calls()[old(self).calls().len() as int] matches Call::Init(s, _) && s == 0,
            calls_since(old(self).calls(), final(self).calls()).len() <= STEP_LIMIT && requests_valid(
                old(self).tree(),
                calls_since(old(self).calls(), final(self).calls()),
            ) ==> final(self).active().contains(
                last_request(0, calls_since(old(self).calls(), final(self).calls())),
            ),
            all_answered::<U, D, E, H>(calls_since(old(self).calls(), final(self).calls())),
            final(self).calls()[old(self).calls().len() as int] matches Call::Init(_, r) && run_log(
                old(self).tree(),
                old(self).active(),
                goal_of(old(self).tree(), r),
                STEP_LIMIT as nat,
                calls_since(old(self).calls(), final(self).calls()).drop_first(),
            ) == Some(final(self).active()),
            data_fit::<U, D, E, H>(old(self).active(), old(self).stack()) ==> data_fit::<U, D, E, H>(
                final(self).active(),
                final(self).stack(),
            ),
    {
        let ghost c0 = self.calls();
        let r = H::init(0, &mut self.top, &mut self.stack);
        proof {
            self.calls@ = self.calls@.push(Call::Init(0, r));
            if data_fit::<U, D, E, H>(old(self).active(), old(self).stack()) {
                old(self).lemma_wf();
                lemma_fit_kept::<U, D, E, H>(self.active(), old(self).stack(), self.stack());
            }
        }
        let ghost mid = self.calls();
        let ghost mid_active = self.active();
        let mut done = flags(self.active.len(), false);
        let mut budget = STEP_LIMIT;
        self.settle::<E, H>(r, &mut done, false, &mut budget);
        proof {
            assert(self.calls().subrange(0, mid.len() as int)[old(self).calls().len() as int]
                == mid[old(self).calls().len() as int]);
            let all = calls_since(c0, self.calls());
            let rest = calls_since(mid, self.calls());
            assert(all =~= seq![Call::Init(0, r)] + rest);
            assert(all.drop_first() =~= rest);
            lemma_request_prepend(self.tree(), 0, Call::Init(0, r), rest);
            assert(answered::<U, D, E, H>(Call::Init(0, r)));
            assert(all_answered::<U, D, E, H>(calls_since(c0, mid))) by {
                assert(calls_since(c0, mid) =~= seq![Call::Init(0, r)]);
            }
            lemma_answered_parts::<U, D, E, H>(c0, mid, self.calls());
            if goal_of(self.tree(), r) is None {
                assert(run_log(self.tree(), mid_active, None, STEP_LIMIT as nat, rest) == Some(
                    self.active(),
                ));
            }
            if goal_of(self.tree(), r) is None {
                assert(self.active() == mid_active);
                assert(rest.len() == 0);
                lemma_requests_empty(self.tree(), mid);
                assert(calls_since(mid, mid) =~= rest);
                self.lemma_wf();
                assert(self.active()[0] == 0);
                if requests_valid(self.tree(), all) {
                    assert(request_of(Call::Init(0, r)) is None) by {
                        if let Next::Target(n) = r {
                            assert(n < self.tree().size());
                        }
                        if let Next::ExactTarget(n) = r {
                            assert(n < self.tree().size());
                        }
                    }
                }
            }
        }
    }

    /// Transition towards `target`. Nothing happens when the target is already active.
    /// Otherwise the calls it makes are the record of the plan's run over the answers they got,
    /// which ends with the states then active; when no answer asks for a transition, it ends
    /// with exactly the target and its superstates active.
    pub fn transition<E, H: SubstateEnum<U, D, E>>(&mut self, target: usize)
        requires
            old(self).wf(),
            target < old(self).tree().size(),
        ensures
            final(self).wf(),
            final(self).tree() == old(self).tree(),
            final(self).name_view() == old(self).name_view(),
            old(self).calls().is_prefix_of(final(self).calls()),
            forall|i: int|
                old(self).calls().len() <= i < final(self).calls().len() ==> transition_call(
                    #[trigger] final(self).calls()[i],
                ),
            calls_since(old(self).calls(), final(self).calls()).len() < STEP_LIMIT && requests_valid(
                old(self).tree(),
                calls_since(old(self).calls(), final(self).calls()),
            ) ==> final(self).active().contains(
                last_request(target, calls_since(old(self).calls(), final(self).calls())),
            ),
            old(self).active().contains(target) ==> *final(self) == *old(self),
            !old(self).active().contains(target) ==> run_log(
                old(self).tree(),
                old(self).active(),
                Some((target, false)),
                STEP_LIMIT as nat,
                calls_since(old(self).calls(), final(self).calls()),
            ) == Some(final(self).active()),
            all_answered::<U, D, E, H>(calls_since(old(self).calls(), final(self).calls())),
            no_requests(calls_since(old(self).calls(), final(self).calls())) && !old(
                self,
            ).active().contains(target) ==> final(self).active() == old(self).tree().path(target)
                && calls_since(old(self).calls(), final(self).calls()) == transition_calls(
                old(self).tree(),
                old(self).active(),
                target,
            ),
            data_fit::<U, D, E, H>(old(self).active(), old(self).stack()) ==> data_fit::<U, D, E, H>(
                final(self).active(),
                final(self).stack(),
            ),
    {
        let ghost before = *self;
        if self.tree.is_active(&self.active, target) {
            proof {
                self.tree.lemma_active_path_is_path(self.active@);
                lemma_requests_empty(self.tree(), self.calls());
                assert(all_answered::<U, D, E, H>(calls_since(self.calls(), self.calls())));
            }
            return ;
        }
        let mut done = flags(self.active.len(), false);
        let mut budget = STEP_LIMIT;
        self.settle::<E, H>(Next::Target(target), &mut done, false, &mut budget);
        proof {
            let since = calls_since(before.calls(), self.calls());
            if no_requests(since) && !before.active().contains(target) {
                lemma_within_steps(before.tree(), before.active(), target);
                lemma_log_no_requests(
                    before.tree(),
                    before.active(),
                    target,
                    false,
                    STEP_LIMIT as nat,
                    since,
                    self.active(),
                );
                before.tree.lemma_run_reaches_target(
                    before.active(),
                    target,
                    false,
                    STEP_LIMIT as nat,
                );
                lemma_run_calls(before.tree, before.active(), target, false, STEP_LIMIT as nat);
            }
        }
    }

    /// Transition to `target`, exiting and re-entering it if it is already active. The calls it
    /// makes are the record of the plan's run over the answers they got, which ends with the
    /// states then active; when no answer asks for a transition, it ends with exactly the target
    /// and its superstates active.
    pub fn exact_transition<E, H: SubstateEnum<U, D, E>>(&mut self, target: usize)
        requires
            old(self).wf(),
            target < old(self).tree().size(),
        ensures
            final(self).wf(),
            final(self).tree() == old(self).tree(),
            final(self).name_view() == old(self).name_view(),
            old(self).calls().is_prefix_of(final(self).calls()),
            forall|i: int|
                old(self).calls().len() <= i < final(self).calls().len() ==> transition_call(
                    #[trigger] final(self).calls()[i],
                ),
            calls_since(old(self).calls(), final(self).calls()).len() < STEP_LIMIT && requests_valid(
                old(self).tree(),
                calls_since(old(self).calls(), final(self).calls()),
            ) ==> final(self).active().contains(
                last_request(target, calls_since(old(self).calls(), final(self).calls())),
            ),
            run_log(
                old(self).tree(),
                old(self).active(),
                Some((target, true)),
                STEP_LIMIT as nat,
                calls_since(old(self).calls(), final(self).calls()),
            ) == Some(final(self).active()),
            all_answered::<U, D, E, H>(calls_since(old(self).calls(), final(self).calls())),
            no_requests(calls_since(old(self).calls(), final(self).calls())) ==> final(self).active() == old(self).tree().path(target) && calls_since(
                old(self).calls(),
                final(self).calls(),
            ) == transition_calls(old(self).tree(), old(self).active(), target),
            data_fit::<U, D, E, H>(old(self).active(), old(self).stack()) ==> data_fit::<U, D, E, H>(
                final(self).active(),
                final(self).stack(),
            ),
    {
        let ghost before = *self;
        let mut done = flags(self.active.len(), false);
        let mut budget = STEP_LIMIT;
        self.settle::<E, H>(Next::ExactTarget(target), &mut done, false, &mut budget);
        proof {
            let since = calls_since(before.calls(), self.calls());
            if no_requests(since) {
                lemma_within_steps(before.tree(), before.active(), target);
                lemma_log_no_requests(
                    before.tree(),
                    before.active(),
                    target,
                    true,
                    STEP_LIMIT as nat,
                    since,
                    self.active(),
                );
                before.tree.lemma_run_reaches_target(
                    before.active(),
                    target,
                    true,
                    STEP_LIMIT as nat,
                );
                lemma_run_calls(before.tree, before.active(), target, true, STEP_LIMIT as nat);
            }
        }
    }

    /// Update the active states, deepest first. A transition asked for by a state is carried
    /// out at once; the update then goes on with the superstates that stayed active and have
    /// not been updated yet. States entered on the way are not updated in this pass, and no
    /// state is updated twice. The whole record is that of such a pass ([`update_log`]): each
    /// update is of the deepest active state not yet done, the calls after it up to the next
    /// update are the record of the transition it asked for, and the pass ends where the last
    /// transition left the machine. When no update asks for a
    /// transition, every active state is updated once, deepest first, and the active states stay
    /// as they were.
    #[verifier::rlimit(100)]
    #[verifier::spinoff_prover]
    pub fn update<E, H: SubstateEnum<U, D, E>>(&mut self)
        requires
            old(self).wf(),
        ensures
            final(self).wf(),
            final(self).tree() == old(self).tree(),
            final(self).name_view() == old(self).name_view(),
            old(self).calls().is_prefix_of(final(self).calls()),
            calls_since(old(self).calls(), final(self).calls()).len() >= 1,
            calls_since(old(self).calls(), final(self).calls())[0] matches Call::Update(s, _, _) && s
                == old(self).current(),
            updated_once(calls_since(old(self).calls(), final(self).calls())),
            entered_not_updated(calls_since(old(self).calls(), final(self).calls())),
            quiet_updates(calls_since(old(self).calls(), final(self).calls())) ==> calls_since(
                old(self).calls(),
                final(self).calls(),
            ) == updates_deepest_first(old(self).active()) && final(self).active() == old(
                self,
            ).active(),
            calls_since(old(self).calls(), final(self).calls()).len() < STEP_LIMIT ==> forall|
                k: int,
            |
                0 <= k < final(self).active().len() ==> updated_in(
                    calls_since(old(self).calls(), final(self).calls()),
                    #[trigger] final(self).active()[k],
                ) || entered_in(
                    calls_since(old(self).calls(), final(self).calls()),
                    final(self).active()[k],
                ),
            updates_descend(old(self).tree(), calls_since(old(self).calls(), final(self).calls())),
            all_answered::<U, D, E, H>(calls_since(old(self).calls(), final(self).calls())),
            levels_match(old(self).tree(), calls_since(old(self).calls(), final(self).calls())),
            exists|j: int, p: Seq<usize>|
                #[trigger] first_update_runs(
                    old(self).tree(),
                    old(self).active(),
                    calls_since(old(self).calls(), final(self).calls()),
                    j,
                    p,
                    false,
                ) && (j == calls_since(old(self).calls(), final(self).calls()).len()
                    ==> final(self).active() == p) && first_update_resumes(
                    calls_since(old(self).calls(), final(self).calls()),
                    j,
                    p,
                ),
            data_fit::<U, D, E, H>(old(self).active(), old(self).stack()) ==> data_fit::<U, D, E, H>(
                final(self).active(),
                final(self).stack(),
            ),
            calls_since(old(self).calls(), final(self).calls()).len() < STEP_LIMIT ==> update_log(
                old(self).tree(),
                old(self).active(),
                unflagged(old(self).active().len()),
                calls_since(old(self).calls(), final(self).calls()),
                false,
            ) == Some(final(self).active()),
    {
        let ghost a = self.active();
        let ghost mut j0: int = 0;
        let ghost mut p0: Seq<usize> = a;
        let ghost c0 = self.calls();
        let ghost l = a.len();
        let ghost mut m: nat = 0;
        let ghost mut started = false;
        let ghost mut last: int = l as int;
        proof {
            lemma_descend_empty(self.tree(), c0, last);
            assert(all_answered::<U, D, E, H>(calls_since(c0, c0)));
            assert(levels_match(self.tree(), calls_since(c0, c0)));
        }
        proof {
            self.lemma_wf();
            lemma_pass_start(self.tree(), a, unflagged(l), false);
            assert(calls_since(c0, c0) =~= Seq::<Call>::empty());
            assert(unflagged(l) =~= Seq::new(l, |i: int| false));
        }
        let mut done = flags(self.active.len(), false);
        let mut fuel = STEP_LIMIT;
        loop
            invariant
                self.wf(),
                done@.len() == self.active().len(),
                self.tree() == old(self).tree(),
                self.name_view() == old(self).name_view(),
                a == old(self).active(),
                c0 == old(self).calls(),
                l == a.len(),
                1 <= l <= usize::MAX,
                a.last() == old(self).current(),
                m <= l,
                c0.is_prefix_of(self.calls()),
                all_answered::<U, D, E, H>(calls_since(c0, self.calls())),
                levels_match(self.tree(), calls_since(c0, self.calls())),
                data_fit::<U, D, E, H>(old(self).active(), old(self).stack()) ==> data_fit::<U, D, E, H>(
                    self.active(),
                    self.stack(),
                ),
                updated_once(calls_since(c0, self.calls())),
                entered_not_updated(calls_since(c0, self.calls())),
                pass_so_far(self.tree(), a, unflagged(l), calls_since(c0, self.calls()), self.active(), done@, false),
                forall|k: int|
                    0 <= k < self.active().len() && !done@[k] ==> !updated_in(
                        calls_since(c0, self.calls()),
                        #[trigger] self.active()[k],
                    ) && !entered_in(calls_since(c0, self.calls()), self.active()[k]),
                forall|k: int|
                    0 <= k < self.active().len() && done@[k] ==> updated_in(
                        calls_since(c0, self.calls()),
                        #[trigger] self.active()[k],
                    ) || entered_in(calls_since(c0, self.calls()), self.active()[k]),
                calls_since(c0, self.calls()).len() + fuel >= STEP_LIMIT,
                updates_descend(self.tree(), calls_since(c0, self.calls())),
                updates_at_least(self.tree(), calls_since(c0, self.calls()), last),
                forall|k: int| last <= k < self.active().len() ==> #[trigger] done@[k],
                started ==> (calls_since(c0, self.calls()).len() >= 1 && (calls_since(
                    c0,
                    self.calls(),
                )[0] matches Call::Update(s, _, _) && s == a[l - 1])),
                !started ==> self.calls() == c0 && done@ == Seq::new(l, |i: int| false)
                    && self.active() == a && fuel == STEP_LIMIT,
                started ==> first_update_runs(self.tree(), a, calls_since(c0, self.calls()), j0, p0, false)
                    && (j0 == calls_since(c0, self.calls()).len() ==> self.active() == p0)
                    && first_update_resumes(calls_since(c0, self.calls()), j0, p0),
                quiet_updates(calls_since(c0, self.calls())) ==> {
                    &&& self.active() == a
                    &&& done@ == Seq::new(l, |i: int| i >= l - m)
                    &&& calls_since(c0, self.calls()) == updates_deepest_first(a).take(m as int)
                    &&& fuel == STEP_LIMIT - m
                },
            ensures
                self.wf(),
                started,
                c0.is_prefix_of(self.calls()),
                all_answered::<U, D, E, H>(calls_since(c0, self.calls())),
                levels_match(self.tree(), calls_since(c0, self.calls())),
                updated_once(calls_since(c0, self.calls())),
                entered_not_updated(calls_since(c0, self.calls())),
                quiet_updates(calls_since(c0, self.calls())) ==> m == l,
                first_update_runs(self.tree(), a, calls_since(c0, self.calls()), j0, p0, false) && (j0
                    == calls_since(c0, self.calls()).len() ==> self.active() == p0),
                first_update_resumes(calls_since(c0, self.calls()), j0, p0),
                calls_since(c0, self.calls()).len() < STEP_LIMIT ==> forall|k: int|
                    0 <= k < self.active().len() ==> updated_in(
                        calls_since(c0, self.calls()),
                        #[trigger] self.active()[k],
                    ) || entered_in(calls_since(c0, self.calls()), self.active()[k]),
                updates_descend(self.tree(), calls_since(c0, self.calls())),
                calls_since(c0, self.calls()).len() < STEP_LIMIT ==> update_log(
                    self.tree(),
                    a,
                    unflagged(l),
                    calls_since(c0, self.calls()),
                    false,
                ) == Some(self.active()),
            decreases fuel,
        {
            match last_unset(&done) {
                None => {
                    proof {
                        if quiet_updates(calls_since(c0, self.calls())) {
                            assert(done@[0]);
                        }
                        lemma_pass_end(self.tree(), a, unflagged(l), calls_since(c0, self.calls()), self.active(), done@, false);
                    }
                    break ;
                },
                Some(k) => {
                    if fuel == 0 {
                        proof {
                            if quiet_updates(calls_since(c0, self.calls())) {
                                assert(done@[k as int]);
                            }
                        }
                        break ;
                    }
                    fuel = fuel - 1;
                    let ghost quiet_before = quiet_updates(calls_since(c0, self.calls()));
                    let ghost before_calls = self.calls();
                    proof {
                        if quiet_before && k < l - 1 - m {
                            assert(done@[l - 1 - m]);
                        }
                        if !started && k < l - 1 {
                            assert(done@[l - 1]);
                        }
                    }
                    let ghost before_done = done@;
                    done.set(k, true);
                    let s = self.active[k];
                    let ghost hook_stack = self.stack@;
                    let r = H::update(s, k, &mut self.top, &mut self.stack);
                    proof {
                        if data_fit::<U, D, E, H>(old(self).active(), old(self).stack()) {
                            self.lemma_wf();
                            lemma_fit_kept::<U, D, E, H>(self.active(), hook_stack, self.stack@);
                        }
                        self.calls@ = self.calls@.push(Call::Update(s, k, r));
                        lemma_since_push(c0, before_calls, Call::Update(s, k, r));
                        lemma_answered_push::<U, D, E, H>(c0, before_calls, Call::Update(s, k, r));
                        self.tree.lemma_active_path_is_path(self.active@);
                        self.tree.lemma_path(self.active@.last());
                        lemma_levels_push(self.tree(), c0, before_calls, Call::Update(s, k, r));
                        lemma_push_keeps_found(c0, before_calls, Call::Update(s, k, r));
                        assert(k < last) by {
                            if k >= last {
                                assert(before_done[k as int]);
                            }
                        }
                        self.tree.lemma_active_path_is_path(self.active@);
                        self.tree.lemma_path(self.active@.last());
                        assert(self.tree().depth(s) == k);
                        lemma_descend_push(self.tree(), c0, before_calls, Call::Update(s, k, r), last, k as int);
                        last = k as int;
                        assert forall|j: int| last <= j < self.active().len() implies #[trigger] done@[j] by {
                            if j > k {
                                assert(before_done[j]);
                            }
                        }
                        assert forall|j: int| 0 <= j < self.active().len() && done@[j] implies updated_in(
                            calls_since(c0, self.calls()),
                            #[trigger] self.active()[j],
                        ) || entered_in(calls_since(c0, self.calls()), self.active()[j]) by {
                            if j != k {
                                assert(before_done[j]);
                            }
                        }
                        lemma_update_step(
                            self.tree,
                            c0,
                            before_calls,
                            Call::Update(s, k, r),
                            self.active(),
                            before_done,
                            k as int,
                        );
                        if quiet_before {
                            assert(k == l - 1 - m);
                        }
                    }
                    let ghost mid = self.calls();
                    let ghost mid_done = done@;
                    let ghost mid_active = self.active();
                    proof {
                        assert(calls_since(c0, mid)[0] matches Call::Update(s, _, _) && s == a[l - 1]);
                        if started {
                            let x = calls_since(c0, before_calls);
                            let y = calls_since(c0, mid);
                            assert(y[x.len() as int] == Call::Update(s, k, r));
                            lemma_first_update_extends(self.tree(), a, c0, before_calls, mid, j0, p0, false);
                            if j0 == x.len() {
                                let s1 = x[0]->Update_0;
                                lemma_first_segment(x, s1);
                                assert(x.subrange(1, x.len() as int) =~= x.subrange(1, j0));
                                assert(y.subrange(1, j0) =~= x.subrange(1, j0)) by {
                                    assert forall|i: int| 0 <= i < j0 - 1 implies #[trigger] y.subrange(
                                        1,
                                        j0,
                                    )[i] == x.subrange(1, j0)[i] by {
                                        assert(y.subrange(0, x.len() as int)[i + 1] == y[i + 1]);
                                    }
                                }
                                assert(y[0] == x[0]) by {
                                    assert(y.subrange(0, x.len() as int)[0] == y[0]);
                                }
                                assert(!before_done[k as int]);
                                assert(p0[k as int] != s1);
                                assert(!entered_in(x.subrange(1, j0), p0[k as int]));
                                assert forall|k2: int| k < k2 < p0.len() implies p0[k2] == s1
                                    || entered_in(x.subrange(1, j0), #[trigger] p0[k2]) by {
                                    assert(before_done[k2]);
                                }
                                assert(first_update_resumes(y, j0, p0));
                            }
                        }
                    }
                    let ghost mid_fuel = fuel;
                    self.settle::<E, H>(r, &mut done, true, &mut fuel);
                    proof {
                        assert(pass_so_far(
                            self.tree(),
                            a,
                            unflagged(l),
                            calls_since(c0, self.calls()),
                            self.active(),
                            done@,
                            false,
                        )) by {
                            lemma_last_pending(before_done, k as int);
                            assert(mid == before_calls.push(update_of_pass(mid_active[k as int], k, r, false)));
                            assert(mid_done == before_done.update(k as int, true));
                            lemma_pass_round(
                                self.tree(),
                                a,
                                unflagged(l),
                                c0,
                                before_calls,
                                self.calls(),
                                mid_active,
                                before_done,
                                k as int,
                                r,
                                self.active(),
                                done@,
                                mid_fuel as nat,
                                false,
                                true,
                            );
                        }
                        lemma_levels_settled(self.tree(), c0, mid, self.calls());
                        if started {
                            lemma_first_update_extends(self.tree(), a, c0, mid, self.calls(), j0, p0, false);
                        } else {
                            let all = calls_since(c0, self.calls());
                            lemma_since_extends(c0, mid, self.calls());
                            assert(calls_since(c0, mid) =~= seq![Call::Update(s, k, r)]);
                            assert(all.subrange(1, all.len() as int) =~= calls_since(mid, self.calls()));
                            assert(all[0] == Call::Update(s, k, r)) by {
                                assert(all.subrange(0, 1)[0] == all[0]);
                            }
                            if goal_of(self.tree(), r) is None {
                                assert(calls_since(mid, self.calls()) =~= Seq::<Call>::empty());
                            }
                            j0 = all.len() as int;
                            p0 = self.active();
                        }
                        lemma_answered_parts::<U, D, E, H>(c0, mid, self.calls());
                        lemma_since_extends(c0, mid, self.calls());
                        lemma_found_in_parts(c0, mid, self.calls());
                        lemma_descend_settled(self.tree(), c0, mid, self.calls(), last);
                        assert forall|j: int| last <= j < self.active().len() implies #[trigger] done@[j] by {
                            if done@[j] != true {
                                assert(mid_done[j]);
                            }
                        }
                        assert forall|j: int| 0 <= j < self.active().len() && done@[j] implies updated_in(
                            calls_since(c0, self.calls()),
                            #[trigger] self.active()[j],
                        ) || entered_in(calls_since(c0, self.calls()), self.active()[j]) by {
                            if !entered_in(calls_since(mid, self.calls()), self.active()[j]) {
                                assert(mid_done[j]);
                                assert(self.active()[j] == mid_active[j]);
                            }
                        }
                        lemma_update_settled(
                            c0,
                            mid,
                            self.calls(),
                            mid_active,
                            self.active(),
                            mid_done,
                            done@,
                        );
                        assert(calls_since(c0, self.calls())[0] == calls_since(c0, mid)[0]);
                        if !started {
                            started = true;
                        }
                        if quiet_updates(calls_since(c0, self.calls())) {
                            assert(quiet_before);
                            assert(calls_since(c0, mid)[m as int] == Call::Update(s, k, r));
                            assert(r is Stay);
                            assert(calls_since(c0, self.calls()) =~= updates_deepest_first(
                                a,
                            ).take(m + 1 as int));
                            assert(done@ =~= Seq::new(l, |i: int| i >= l - (m + 1)));
                            m = m + 1;
                        }
                    }
                },
            }
        }
        proof {
            if quiet_updates(calls_since(c0, self.calls())) {
                assert(updates_deepest_first(a).take(m as int) =~= updates_deepest_first(a));
            }
        }
    }

    /// Top-down update the active states, top state first. A transition asked for by a state
    /// is carried out at once; the update then goes on with the shallowest active state that
    /// has not been top-down updated yet, states entered on the way included. The whole record is
    /// that of such a pass ([`update_log`]), each transition asked for being carried out at once
    /// and the pass going on from the shallowest active state not yet done. When no
    /// top-down update asks for a transition, every active state is top-down updated once, top
    /// first, and the active states stay as they were.
    #[verifier::spinoff_prover]
    #[verifier::rlimit(100)]
    pub fn top_down_update<E, H: SubstateEnum<U, D, E>>(&mut self)
        requires
            old(self).wf(),
        ensures
            final(self).wf(),
            final(self).tree() == old(self).tree(),
            final(self).name_view() == old(self).name_view(),
            old(self).calls().is_prefix_of(final(self).calls()),
            calls_since(old(self).calls(), final(self).calls()).len() >= 1,
            calls_since(old(self).calls(), final(self).calls())[0] matches Call::TopDownUpdate(s, _, _)
                && s == 0,
            quiet_top_down_updates(calls_since(old(self).calls(), final(self).calls()))
                ==> calls_since(old(self).calls(), final(self).calls()) == top_down_updates(
                old(self).active(),
            ) && final(self).active() == old(self).active(),
            calls_since(old(self).calls(), final(self).calls()).len() < STEP_LIMIT ==> forall|
                k: int,
            |
                0 <= k < final(self).active().len() ==> top_down_updated_in(
                    calls_since(old(self).calls(), final(self).calls()),
                    #[trigger] final(self).active()[k],
                ),
            all_answered::<U, D, E, H>(calls_since(old(self).calls(), final(self).calls())),
            levels_match(old(self).tree(), calls_since(old(self).calls(), final(self).calls())),
            top_down_once_per_entry(calls_since(old(self).calls(), final(self).calls())),
            top_down_descends(old(self).tree(), calls_since(old(self).calls(), final(self).calls())),
            exists|j: int, p: Seq<usize>|
                #[trigger] first_update_runs(
                    old(self).tree(),
                    old(self).active(),
                    calls_since(old(self).calls(), final(self).calls()),
                    j,
                    p,
                    true,
                ) && (j == calls_since(old(self).calls(), final(self).calls()).len()
                    ==> final(self).active() == p),
            data_fit::<U, D, E, H>(old(self).active(), old(self).stack()) ==> data_fit::<U, D, E, H>(
                final(self).active(),
                final(self).stack(),
            ),
            calls_since(old(self).calls(), final(self).calls()).len() < STEP_LIMIT ==> update_log(
                old(self).tree(),
                old(self).active(),
                unflagged(old(self).active().len()),
                calls_since(old(self).calls(), final(self).calls()),
                true,
            ) == Some(final(self).active()),
    {
        let ghost a = self.active();
        let ghost mut j0: int = 0;
        let ghost mut p0: Seq<usize> = a;
        let ghost c0 = self.calls();
        let ghost l = a.len();
        let ghost mut m: nat = 0;
        let ghost mut started = false;
        proof {
            self.lemma_wf();
            assert(all_answered::<U, D, E, H>(calls_since(c0, c0)));
            assert(levels_match(self.tree(), calls_since(c0, c0)));
            lemma_top_down_start(self.tree(), a);
            lemma_pass_start(self.tree(), a, unflagged(l), true);
            assert(unflagged(l) =~= Seq::new(l, |i: int| false));
            assert(calls_since(c0, c0) =~= Seq::<Call>::empty());
        }
        let mut done = flags(self.active.len(), false);
        let mut fuel = STEP_LIMIT;
        loop
            invariant
                self.wf(),
                done@.len() == self.active().len(),
                self.tree() == old(self).tree(),
                self.name_view() == old(self).name_view(),
                a == old(self).active(),
                c0 == old(self).calls(),
                l == a.len(),
                1 <= l <= usize::MAX,
                a[0] == 0,
                m <= l,
                c0.is_prefix_of(self.calls()),
                all_answered::<U, D, E, H>(calls_since(c0, self.calls())),
                levels_match(self.tree(), calls_since(c0, self.calls())),
                data_fit::<U, D, E, H>(old(self).active(), old(self).stack()) ==> data_fit::<U, D, E, H>(
                    self.active(),
                    self.stack(),
                ),
                top_down_flags(self.tree(), self.active(), done@, calls_since(c0, self.calls())),
                pass_so_far(self.tree(), a, unflagged(l), calls_since(c0, self.calls()), self.active(), done@, true),
                started ==> (calls_since(c0, self.calls()).len() >= 1 && (calls_since(
                    c0,
                    self.calls(),
                )[0] matches Call::TopDownUpdate(s, _, _) && s == 0)),
                !started ==> self.calls() == c0 && done@ == Seq::new(l, |i: int| false)
                    && self.active() == a && fuel == STEP_LIMIT,
                started ==> first_update_runs(self.tree(), a, calls_since(c0, self.calls()), j0, p0, true)
                    && (j0 == calls_since(c0, self.calls()).len() ==> self.active() == p0),
                forall|k: int|
                    0 <= k < self.active().len() && done@[k] ==> top_down_updated_in(
                        calls_since(c0, self.calls()),
                        #[trigger] self.active()[k],
                    ),
                calls_since(c0, self.calls()).len() + fuel >= STEP_LIMIT,
                quiet_top_down_updates(calls_since(c0, self.calls())) ==> {
                    &&& self.active() == a
                    &&& done@ == Seq::new(l, |i: int| i < m)
                    &&& calls_since(c0, self.calls()) == top_down_updates(a).take(m as int)
                    &&& fuel == STEP_LIMIT - m
                },
            ensures
                self.wf(),
                started,
                calls_since(c0, self.calls()).len() < STEP_LIMIT ==> update_log(
                    self.tree(),
                    a,
                    unflagged(l),
                    calls_since(c0, self.calls()),
                    true,
                ) == Some(self.active()),
                all_answered::<U, D, E, H>(calls_since(c0, self.calls())),
                first_update_runs(self.tree(), a, calls_since(c0, self.calls()), j0, p0, true) && (j0
                    == calls_since(c0, self.calls()).len() ==> self.active() == p0),
                quiet_top_down_updates(calls_since(c0, self.calls())) ==> m == l,
                calls_since(c0, self.calls()).len() < STEP_LIMIT ==> forall|k: int|
                    0 <= k < self.active().len() ==> top_down_updated_in(
                        calls_since(c0, self.calls()),
                        #[trigger] self.active()[k],
                    ),
            decreases fuel,
        {
            match first_unset(&done) {
                None => {
                    proof {
                        if quiet_top_down_updates(calls_since(c0, self.calls())) {
                            assert(done@[l - 1]);
                        }
                        lemma_pass_end(self.tree(), a, unflagged(l), calls_since(c0, self.calls()), self.active(), done@, true);
                    }
                    break ;
                },
                Some(k) => {
                    if fuel == 0 {
                        proof {
                            if quiet_top_down_updates(calls_since(c0, self.calls())) {
                                assert(done@[k as int]);
                            }
                        }
                        break ;
                    }
                    fuel = fuel - 1;
                    let ghost quiet_before = quiet_top_down_updates(calls_since(c0, self.calls()));
                    let ghost before_calls = self.calls();
                    proof {
                        if quiet_before && k > m {
                            assert(done@[m as int]);
                        }
                        if !started && k > 0 {
                            assert(done@[0]);
                        }
                    }
                    let ghost pre_done = done@;
                    done.set(k, true);
                    let s = self.active[k];
                    let ghost before_done = done@;
                    let ghost hook_stack = self.stack@;
                    let r = H::top_down_update(s, k, &mut self.top, &mut self.stack);
                    proof {
                        if data_fit::<U, D, E, H>(old(self).active(), old(self).stack()) {
                            self.lemma_wf();
                            lemma_fit_kept::<U, D, E, H>(self.active(), hook_stack, self.stack@);
                        }
                        self.calls@ = self.calls@.push(Call::TopDownUpdate(s, k, r));
                        lemma_since_push(c0, before_calls, Call::TopDownUpdate(s, k, r));
                        lemma_answered_push::<U, D, E, H>(c0, before_calls, Call::TopDownUpdate(s, k, r));
                        self.tree.lemma_active_path_is_path(self.active@);
                        self.tree.lemma_path(self.active@.last());
                        assert(self.tree().depth(s) == k);
                        lemma_levels_push(self.tree(), c0, before_calls, Call::TopDownUpdate(s, k, r));
                        if calls_since(c0, before_calls).len() == 0 {
                            assert(!started);
                            if k > 0 {
                                assert(pre_done[0]);
                            }
                        }
                        lemma_top_down_push(
                            self.tree(),
                            self.active(),
                            pre_done,
                            calls_since(c0, before_calls),
                            k as int,
                            r,
                        );
                        assert(done@ == pre_done.update(k as int, true));
                        lemma_push_keeps_found(c0, before_calls, Call::TopDownUpdate(s, k, r));
                        assert forall|j: int| 0 <= j < self.active().len() && done@[j] implies top_down_updated_in(
                            calls_since(c0, self.calls()),
                            #[trigger] self.active()[j],
                        ) by {
                            if j != k {
                                assert(before_done[j]);
                            }
                        }
                    }
                    let ghost mid = self.calls();
                    let ghost mid_done = done@;
                    let ghost mid_active = self.active();
                    proof {
                        assert(calls_since(c0, mid)[0] matches Call::TopDownUpdate(s, _, _) && s == 0);
                        if started {
                            let x = calls_since(c0, before_calls);
                            assert(calls_since(c0, mid)[x.len() as int] == Call::TopDownUpdate(s, k, r));
                            lemma_first_update_extends(self.tree(), a, c0, before_calls, mid, j0, p0, true);
                        }
                    }
                    let ghost mid_fuel = fuel;
                    self.settle::<E, H>(r, &mut done, false, &mut fuel);
                    proof {
                        assert(pass_so_far(
                            self.tree(),
                            a,
                            unflagged(l),
                            calls_since(c0, self.calls()),
                            self.active(),
                            done@,
                            true,
                        )) by {
                            lemma_first_pending(pre_done, 0, k as int);
                            assert(mid == before_calls.push(update_of_pass(mid_active[k as int], k, r, true)));
                            assert(mid_done == pre_done.update(k as int, true));
                            lemma_pass_round(
                                self.tree(),
                                a,
                                unflagged(l),
                                c0,
                                before_calls,
                                self.calls(),
                                mid_active,
                                pre_done,
                                k as int,
                                r,
                                self.active(),
                                done@,
                                mid_fuel as nat,
                                true,
                                false,
                            );
                        }
                        self.tree.lemma_active_path_is_path(mid_active);
                        lemma_top_down_segment(
                            self.tree(),
                            c0,
                            mid,
                            self.calls(),
                            mid_active,
                            mid_done,
                            self.active(),
                            done@,
                            goal_of(self.tree(), r),
                            mid_fuel as nat,
                        );
                        lemma_levels_settled(self.tree(), c0, mid, self.calls());
                        if started {
                            lemma_first_update_extends(self.tree(), a, c0, mid, self.calls(), j0, p0, true);
                        } else {
                            let all = calls_since(c0, self.calls());
                            lemma_since_extends(c0, mid, self.calls());
                            assert(calls_since(c0, mid) =~= seq![Call::TopDownUpdate(s, k, r)]);
                            assert(all.subrange(1, all.len() as int) =~= calls_since(mid, self.calls()));
                            assert(all[0] == Call::TopDownUpdate(s, k, r)) by {
                                assert(all.subrange(0, 1)[0] == all[0]);
                            }
                            if goal_of(self.tree(), r) is None {
                                assert(calls_since(mid, self.calls()) =~= Seq::<Call>::empty());
                            }
                            j0 = all.len() as int;
                            p0 = self.active();
                        }
                        lemma_answered_parts::<U, D, E, H>(c0, mid, self.calls());
                        lemma_since_extends(c0, mid, self.calls());
                        lemma_found_in_parts(c0, mid, self.calls());
                        assert forall|j: int| 0 <= j < self.active().len() && done@[j] implies top_down_updated_in(
                            calls_since(c0, self.calls()),
                            #[trigger] self.active()[j],
                        ) by {
                            assert(mid_done[j]);
                            assert(self.active()[j] == mid_active[j]);
                        }
                        assert(calls_since(c0, self.calls())[0] == calls_since(c0, mid)[0]);
                        if !started {
                            started = true;
                        }
                        if quiet_top_down_updates(calls_since(c0, self.calls())) {
                            assert(quiet_before);
                            assert(calls_since(c0, mid)[m as int] == Call::TopDownUpdate(s, k, r));
                            assert(r is Stay);
                            assert(calls_since(c0, self.calls()) =~= top_down_updates(a).take(
                                m + 1 as int,
                            ));
                            assert(done@ =~= Seq::new(l, |i: int| i < m + 1));
                            m = m + 1;
                        }
                    }
                },
            }
        }
        proof {
            if quiet_top_down_updates(calls_since(c0, self.calls())) {
                assert(top_down_updates(a).take(m as int) =~= top_down_updates(a));
            }
        }
    }

    /// Hand an event to the active states, deepest first, while they answer `Next(Stay)`.
    /// The first to drop it ends the handling; the first to ask for a transition has it
    /// carried out.
    #[verifier::rlimit(30)]
    #[verifier::spinoff_prover]
    pub fn handle_event<E, H: SubstateEnum<U, D, E>>(&mut self, event: &E)
        requires
            old(self).wf(),
        ensures
            final(self).wf(),
            final(self).tree() == old(self).tree(),
            final(self).name_view() == old(self).name_view(),
            old(self).calls().is_prefix_of(final(self).calls()),
            exists|m: int|
                #[trigger] event_handled(
                    old(self).active(),
                    final(self).active(),
                    calls_since(old(self).calls(), final(self).calls()),
                    m,
                ) && event_transition(
                    old(self).tree(),
                    old(self).active(),
                    final(self).active(),
                    calls_since(old(self).calls(), final(self).calls()),
                    m,
                ) && event_run(
                    old(self).tree(),
                    old(self).active(),
                    final(self).active(),
                    calls_since(old(self).calls(), final(self).calls()),
                    m,
                ) && event_settles(
                    old(self).tree(),
                    final(self).active(),
                    calls_since(old(self).calls(), final(self).calls()),
                    m,
                ),
            all_answered::<U, D, E, H>(calls_since(old(self).calls(), final(self).calls())),
            levels_match(old(self).tree(), calls_since(old(self).calls(), final(self).calls())),
            data_fit::<U, D, E, H>(old(self).active(), old(self).stack()) ==> data_fit::<U, D, E, H>(
                final(self).active(),
                final(self).stack(),
            ),
    {
        let ghost a = self.active();
        let ghost c0 = self.calls();
        let ghost l = a.len();
        proof {
            self.lemma_wf();
            assert(all_answered::<U, D, E, H>(calls_since(c0, c0)));
            assert(levels_match(self.tree(), calls_since(c0, c0)));
        }
        let mut level = self.active.len() - 1;
        let ghost mut mf: int = 0;
        loop
            invariant_except_break
                calls_since(c0, self.calls()) == Seq::new(
                    (l - 1 - level) as nat,
                    |j: int| Call::Event(a[l - 1 - j], (l - 1 - j) as usize, Response::Next(Next::Stay)),
                ),
            invariant
                self.wf(),
                self.tree() == old(self).tree(),
                self.name_view() == old(self).name_view(),
                a == old(self).active(),
                c0 == old(self).calls(),
                l == a.len(),
                self.active() == a,
                level < l,
                c0.is_prefix_of(self.calls()),
                all_answered::<U, D, E, H>(calls_since(c0, self.calls())),
                levels_match(self.tree(), calls_since(c0, self.calls())),
                data_fit::<U, D, E, H>(old(self).active(), old(self).stack()) ==> data_fit::<U, D, E, H>(
                    self.active(),
                    self.stack(),
                ),
            ensures
                self.wf(),
                self.tree() == old(self).tree(),
                self.name_view() == old(self).name_view(),
                self.active() == a,
                c0.is_prefix_of(self.calls()),
                all_answered::<U, D, E, H>(calls_since(c0, self.calls())),
                levels_match(self.tree(), calls_since(c0, self.calls())),
                event_bubbles(a, calls_since(c0, self.calls()), mf),
                calls_since(c0, self.calls()).len() == mf + 1,
                calls_since(c0, self.calls())[mf] matches Call::Event(_, _, r) && (r is Drop || r
                    == Response::<usize>::Next(Next::Stay)),
            decreases level,
        {
            let s = self.active[level];
            let ghost before_calls = self.calls();
            let ghost hook_stack = self.stack@;
            let r = H::handle_event(s, level, event, &mut self.top, &mut self.stack);
            proof {
                if data_fit::<U, D, E, H>(old(self).active(), old(self).stack()) {
                    self.lemma_wf();
                    lemma_fit_kept::<U, D, E, H>(self.active(), hook_stack, self.stack@);
                }
                self.calls@ = self.calls@.push(Call::Event(s, level, r));
                lemma_since_push(c0, before_calls, Call::Event(s, level, r));
                lemma_answered_push::<U, D, E, H>(c0, before_calls, Call::Event(s, level, r));
                self.tree.lemma_active_path_is_path(self.active@);
                self.tree.lemma_path(self.active@.last());
                assert(self.tree().depth(s) == level);
                lemma_levels_push(self.tree(), c0, before_calls, Call::Event(s, level, r));
                mf = l - 1 - level;
                assert(calls_since(c0, self.calls())[mf] == Call::Event(s, level, r));
            }
            match r {
                Response::Drop => {
                    break ;
                },
                Response::Next(Next::Stay) => {
                    if level == 0 {
                        break ;
                    }
                    level = level - 1;
                    proof {
                        assert(calls_since(c0, self.calls()) =~= Seq::new(
                            (l - 1 - level) as nat,
                            |j: int| Call::Event(a[l - 1 - j], (l - 1 - j) as usize, Response::Next(Next::Stay)),
                        ));
                    }
                },
                Response::Next(n) => {
                    let ghost mid = self.calls();
                    let ghost tree = self.tree();
                    proof {
                        assert(event_bubbles(a, calls_since(c0, mid), mf));
                    }
                    let mut done = flags(self.active.len(), false);
                    let mut budget = STEP_LIMIT;
                    self.settle::<E, H>(n, &mut done, false, &mut budget);
                    proof {
                        lemma_since_extends(c0, mid, self.calls());
                        let p = calls_since(c0, mid);
                        let q = calls_since(c0, self.calls());
                        assert forall|j: int| 0 <= j <= mf implies #[trigger] q[j] == p[j] by {}
                        assert(event_bubbles(a, q, mf));
                        assert(event_handled(a, self.active(), q, mf));
                        lemma_answered_parts::<U, D, E, H>(c0, mid, self.calls());
                        lemma_levels_settled(tree, c0, mid, self.calls());
                        if goal_of(tree, n) is None {
                            assert(calls_since(mid, self.calls()) =~= Seq::<Call>::empty());
                        }
                        lemma_event_transition(tree, a, self.active(), c0, mid, self.calls(), mf, n);
                        assert(q.skip(mf + 1) =~= calls_since(mid, self.calls()));
                        assert(event_settles(tree, self.active(), q, mf));
                    }
                    return ;
                },
            }
        }
        proof {
            assert(event_handled(a, self.active(), calls_since(c0, self.calls()), mf));
            assert(event_transition(
                self.tree(),
                a,
                self.active(),
                calls_since(c0, self.calls()),
                mf,
            ));
            assert(calls_since(c0, self.calls()).skip(mf + 1) =~= Seq::<Call>::empty());
            assert(event_run(self.tree(), a, self.active(), calls_since(c0, self.calls()), mf));
            assert(event_settles(self.tree(), self.active(), calls_since(c0, self.calls()), mf));
        }
    }

    /// The current state: the deepest active state.
    pub fn state(&self) -> (r: usize)
        requires
            self.wf(),
        ensures
            r == self.current(),
    {
        self.active[self.active.len() - 1]
    }

    /// The active states, from the top state down to the current state.
    pub fn active_states(&self) -> (r: Vec<usize>)
        ensures
            r@ == self.active(),
    {
        let mut r: Vec<usize> = Vec::new();
        let mut k: usize = 0;
        while k < self.active.len()
            invariant
                k <= self.active@.len(),
                r@ == self.active@.take(k as int),
            decreases self.active@.len() - k,
        {
            r.push(self.active[k]);
            k = k + 1;
            assert(r@ =~= self.active@.take(k as int));
        }
        assert(self.active@.take(k as int) =~= self.active@);
        r
    }

    /// Is `state` the current state or one of its superstates?
    pub fn state_matches(&self, state: usize) -> (r: bool)
        ensures
            r == self.active().contains(state),
    {
        self.tree.is_active(&self.active, state)
    }

    /// The active depth of `state`, if it is active.
    pub fn level_of(&self, state: usize) -> (r: Option<usize>)
        requires
            self.wf(),
        ensures
            r matches Some(k) ==> k < self.active().len() && self.active()[k as int] == state,
            r is None <==> !self.active().contains(state),
    {
        let mut k: usize = 0;
        while k < self.active.len()
            invariant
                k <= self.active@.len(),
                forall|j: int| 0 <= j < k ==> self.active@[j] != state,
            decreases self.active@.len() - k,
        {
            if self.active[k] == state {
                return Some(k);
            }
            k = k + 1;
        }
        None
    }

    /// The data of `state` if it is active and not the top state.
    pub fn state_data(&self, state: usize) -> (r: Option<&D>)
        requires
            self.wf(),
        ensures
            r matches Some(d) ==> self.data_of(state) == Some(*d),
            r is None <==> self.data_of(state) is None,
    {
        proof {
            self.tree.lemma_active_path_is_path(self.active@);
        }
        match self.level_of(state) {
            Some(k) => {
                if k == 0 {
                    None
                } else {
                    proof {
                        let j = self.level(state);
                        assert(self.active().contains(state));
                        self.tree.lemma_active_path_distinct(self.active@, j, k as int);
                    }
                    Some(&self.stack[k - 1])
                }
            },
            None => None,
        }
    }

    /// Mutable access to the data of `state` if it is active and not the top state.
    pub fn state_data_mut(&mut self, state: usize) -> (r: Option<&mut D>)
        requires
            old(self).wf(),
        ensures
            final(self).wf(),
            final(self).tree() == old(self).tree(),
            final(self).active() == old(self).active(),
            final(self).top() == old(self).top(),
            final(self).name_view() == old(self).name_view(),
            final(self).calls() == old(self).calls(),
            r is None <==> old(self).data_of(state) is None,
            r is None ==> final(self).stack() == old(self).stack(),
            r matches Some(d) ==> old(self).data_of(state) == Some(*d) && final(self).stack()
                == old(self).stack().update(old(self).level(state) - 1, *final(d)),
            r matches Some(d) ==> final(self).data_of(state) == Some(*final(d)),
            forall|s: usize| s != state ==> #[trigger] final(self).data_of(s) == old(self).data_of(s),
    {
        match self.level_of(state) {
            Some(k) => {
                if k == 0 {
                    None
                } else {
                    proof {
                        let j = self.level(state);
                        assert(self.active().contains(state));
                        self.tree.lemma_active_path_distinct(self.active@, j, k as int);
                    }
                    Some(&mut self.stack[k - 1])
                }
            },
            None => None,
        }
    }

    /// The data of the top state.
    pub fn top_ref(&self) -> (r: &U)
        ensures
            *r == self.top(),
    {
        &self.top
    }

    /// Mutable access to the data of the top state.
    pub fn top_mut(&mut self) -> (r: &mut U)
        ensures
            *r == old(self).top(),
            final(self).top() == *final(r),
            final(self).tree() == old(self).tree(),
            final(self).active() == old(self).active(),
            final(self).stack() == old(self).stack(),
            final(self).name_view() == old(self).name_view(),
            final(self).calls() == old(self).calls(),
            old(self).wf() ==> final(self).wf(),
    {
        &mut self.top
    }

    /// The name of this machine.
    pub fn name(&self) -> (r: &str)
        ensures
            r@ == self.name_view(),
    {
        self.name.as_str()
    }

    /// Rename this machine.
    pub fn set_name(&mut self, name: String)
        ensures
            final(self).name_view() == name@,
            final(self).tree() == old(self).tree(),
            final(self).active() == old(self).active(),
            final(self).top() == old(self).top(),
            final(self).stack() == old(self).stack(),
            final(self).calls() == old(self).calls(),
            old(self).wf() ==> final(self).wf(),
    {
        self.name = name;
    }
}

/// The calls since `c0` after one more call are those before it and the new call.
proof fn lemma_since_push(c0: Seq<Call>, c: Seq<Call>, x: Call)
    requires
        c0.is_prefix_of(c),
    ensures
        c0.is_prefix_of(c.push(x)),
        calls_since(c0, c.push(x)) == calls_since(c0, c).push(x),
        quiet_updates(calls_since(c0, c.push(x))) ==> quiet_updates(calls_since(c0, c)),
        quiet_top_down_updates(calls_since(c0, c.push(x))) ==> quiet_top_down_updates(
            calls_since(c0, c),
        ),
{
    assert(calls_since(c0, c.push(x)) =~= calls_since(c0, c).push(x));
    assert(c.push(x).subrange(0, c0.len() as int) =~= c.subrange(0, c0.len() as int));
    let a = calls_since(c0, c);
    let b = calls_since(c0, c.push(x));
    assert forall|i: int| 0 <= i < a.len() implies #[trigger] a[i] == b[i] by {}
}

/// One more call: its request, if any, becomes the last one, and every request stays valid
/// only if the earlier ones were and its own is.
proof fn lemma_request_push(tree: StateTree, t0: usize, c: Seq<Call>, x: Call)
    ensures
        requests_valid(tree, c.push(x)) ==> requests_valid(tree, c),
        requests_valid(tree, c.push(x)) ==> (request_of(x) matches Some(n) ==> n < tree.size()),
        last_request(t0, c.push(x)) == match request_of(x) {
            Some(n) => n,
            None => last_request(t0, c),
        },
        requests_valid(tree, c) && (request_of(x) matches Some(n) ==> n < tree.size())
            ==> requests_valid(tree, c.push(x)),
{
    reveal(requests_valid);
    reveal(last_request);
    assert(c.push(x).drop_last() =~= c);
    assert(c.push(x).last() == x);
    if requests_valid(tree, c.push(x)) {
        assert forall|i: int| 0 <= i < c.len() implies (#[trigger] request_of(c[i]) matches Some(
            n,
        ) ==> n < tree.size()) by {
            assert(c.push(x)[i] == c[i]);
        }
        assert(c.push(x)[c.len() as int] == x);
    }
    if requests_valid(tree, c) && (request_of(x) matches Some(n) ==> n < tree.size()) {
        assert forall|i: int| 0 <= i < c.push(x).len() implies (#[trigger] request_of(
            c.push(x)[i],
        ) matches Some(n) ==> n < tree.size()) by {
            if i < c.len() {
                assert(c.push(x)[i] == c[i]);
            }
        }
    }
}

/// The last request after a first call `x` and then `rest` is the last request among `rest`
/// of a transition whose target is the one `x` asked for (or `t0` if it asked for none).
proof fn lemma_request_prepend(tree: StateTree, t0: usize, x: Call, rest: Seq<Call>)
    ensures
        last_request(t0, seq![x] + rest) == last_request(
            match request_of(x) {
                Some(n) => n,
                None => t0,
            },
            rest,
        ),
        requests_valid(tree, seq![x] + rest) ==> requests_valid(tree, rest),
        requests_valid(tree, seq![x] + rest) ==> (request_of(x) matches Some(n) ==> n < tree.size()),
    decreases rest.len(),
{
    reveal(requests_valid);
    reveal(last_request);
    let t1 = match request_of(x) {
        Some(n) => n,
        None => t0,
    };
    let all = seq![x] + rest;
    if rest.len() == 0 {
        assert(all.drop_last() =~= Seq::<Call>::empty());
        assert(all.last() == x);
        assert(last_request(t0, all.drop_last()) == t0);
        assert(last_request(t1, rest) == t1);
    } else {
        lemma_request_prepend(tree, t0, x, rest.drop_last());
        assert(all.drop_last() =~= seq![x] + rest.drop_last());
        assert(all.last() == rest.last());
        if request_of(rest.last()) is None {
            assert(last_request(t0, all) == last_request(t0, seq![x] + rest.drop_last()));
            assert(last_request(t1, rest) == last_request(t1, rest.drop_last()));
        }
    }
    if requests_valid(tree, all) {
        assert forall|i: int| 0 <= i < rest.len() implies (#[trigger] request_of(rest[i]) matches Some(
            n,
        ) ==> n < tree.size()) by {
            assert(all[i + 1] == rest[i]);
        }
        assert(all[0] == x);
    }
}

/// No call makes no request.
proof fn lemma_requests_empty(tree: StateTree, c: Seq<Call>)
    ensures
        requests_valid(tree, calls_since(c, c)),
        calls_since(c, c).len() == 0,
        forall|t: usize| #[trigger] last_request(t, calls_since(c, c)) == t,
{
    reveal(requests_valid);
    reveal(last_request);
}

/// One more call keeps every entry and update recorded since `c0`, and records its own.
proof fn lemma_push_keeps_found(c0: Seq<Call>, c: Seq<Call>, x: Call)
    requires
        c0.is_prefix_of(c),
    ensures
        c0.is_prefix_of(c.push(x)),
        calls_since(c0, c.push(x)) == calls_since(c0, c).push(x),
        forall|s: usize|
            entered_in(calls_since(c0, c), s) ==> #[trigger] entered_in(
                calls_since(c0, c.push(x)),
                s,
            ),
        forall|s: usize|
            updated_in(calls_since(c0, c), s) ==> #[trigger] updated_in(
                calls_since(c0, c.push(x)),
                s,
            ),
        forall|s: usize|
            top_down_updated_in(calls_since(c0, c), s) ==> #[trigger] top_down_updated_in(
                calls_since(c0, c.push(x)),
                s,
            ),
        entry_of(x) matches Some(s) ==> entered_in(calls_since(c0, c.push(x)), s),
        update_of(x) matches Some(s) ==> updated_in(calls_since(c0, c.push(x)), s),
        top_down_update_of(x) matches Some(s) ==> top_down_updated_in(calls_since(c0, c.push(x)), s),
{
    lemma_since_push(c0, c, x);
    let a = calls_since(c0, c);
    let b = calls_since(c0, c.push(x));
    assert forall|s: usize| entered_in(a, s) implies #[trigger] entered_in(b, s) by {
        let i = choose|i: int| 0 <= i < a.len() && #[trigger] entry_of(a[i]) == Some(s);
        assert(b[i] == a[i]);
    }
    assert forall|s: usize| updated_in(a, s) implies #[trigger] updated_in(b, s) by {
        let i = choose|i: int| 0 <= i < a.len() && #[trigger] update_of(a[i]) == Some(s);
        assert(b[i] == a[i]);
    }
    assert forall|s: usize| top_down_updated_in(a, s) implies #[trigger] top_down_updated_in(b, s) by {
        let i = choose|i: int| 0 <= i < a.len() && #[trigger] top_down_update_of(a[i]) == Some(s);
        assert(b[i] == a[i]);
    }
    assert(b[a.len() as int] == x);
}

/// No call at all has no updates.
proof fn lemma_descend_empty(tree: StateTree, c: Seq<Call>, d: int)
    ensures
        updates_descend(tree, calls_since(c, c)),
        updates_at_least(tree, calls_since(c, c), d),
{
    reveal(updates_descend);
    reveal(updates_at_least);
}

/// An update of a state shallower than every state updated so far keeps the updates going
/// from deeper states to shallower ones.
proof fn lemma_descend_push(tree: StateTree, c0: Seq<Call>, c: Seq<Call>, x: Call, last: int, d: int)
    requires
        c0.is_prefix_of(c),
        updates_descend(tree, calls_since(c0, c)),
        updates_at_least(tree, calls_since(c0, c), last),
        update_of(x) matches Some(s) && tree.depth(s) == d,
        d < last,
    ensures
        updates_descend(tree, calls_since(c0, c.push(x))),
        updates_at_least(tree, calls_since(c0, c.push(x)), d),
{
    reveal(updates_descend);
    reveal(updates_at_least);
    lemma_since_push(c0, c, x);
    let a = calls_since(c0, c);
    let b = calls_since(c0, c.push(x));
    assert forall|i: int| 0 <= i < a.len() implies #[trigger] b[i] == a[i] by {}
    assert forall|i: int, j: int|
        0 <= i < j < b.len() && (#[trigger] update_of(b[i])) is Some && (#[trigger] update_of(
            b[j],
        )) is Some implies tree.depth(update_of(b[i])->0) > tree.depth(update_of(b[j])->0) by {
        assert(b[i] == a[i]);
        if j < a.len() {
            assert(b[j] == a[j]);
        }
    }
    assert forall|i: int|
        0 <= i < b.len() && (#[trigger] update_of(b[i])) is Some implies tree.depth(
        update_of(b[i])->0,
    ) >= d by {
        if i < a.len() {
            assert(b[i] == a[i]);
        }
    }
}

/// Calls made while carrying out a transition keep the updates going from deeper states to
/// shallower ones.
proof fn lemma_descend_settled(tree: StateTree, c0: Seq<Call>, mid: Seq<Call>, fin: Seq<Call>, last: int)
    requires
        c0.is_prefix_of(mid),
        mid.is_prefix_of(fin),
        forall|i: int| mid.len() <= i < fin.len() ==> transition_call(#[trigger] fin[i]),
        updates_descend(tree, calls_since(c0, mid)),
        updates_at_least(tree, calls_since(c0, mid), last),
    ensures
        updates_descend(tree, calls_since(c0, fin)),
        updates_at_least(tree, calls_since(c0, fin), last),
{
    reveal(updates_descend);
    reveal(updates_at_least);
    lemma_since_extends(c0, mid, fin);
    let a = calls_since(c0, mid);
    let b = calls_since(c0, fin);
    assert forall|i: int| 0 <= i < a.len() implies #[trigger] b[i] == a[i] by {
        assert(b.subrange(0, a.len() as int)[i] == b[i]);
    }
    assert forall|i: int| a.len() <= i < b.len() implies #[trigger] update_of(b[i]) is None by {
        assert(b[i] == fin[c0.len() + i]);
        assert(transition_call(fin[c0.len() + i]));
    }
    assert forall|i: int, j: int|
        0 <= i < j < b.len() && (#[trigger] update_of(b[i])) is Some && (#[trigger] update_of(
            b[j],
        )) is Some implies tree.depth(update_of(b[i])->0) > tree.depth(update_of(b[j])->0) by {
        assert(b[i] == a[i]);
        assert(b[j] == a[j]);
    }
    assert forall|i: int|
        0 <= i < b.len() && (#[trigger] update_of(b[i])) is Some implies tree.depth(
        update_of(b[i])->0,
    ) >= last by {
        assert(b[i] == a[i]);
    }
}

/// What was recorded since `c0` up to `mid`, or since `mid`, is recorded since `c0`.
proof fn lemma_found_in_parts(c0: Seq<Call>, mid: Seq<Call>, fin: Seq<Call>)
    requires
        c0.is_prefix_of(mid),
        mid.is_prefix_of(fin),
    ensures
        calls_since(c0, fin).len() == calls_since(c0, mid).len() + calls_since(mid, fin).len(),
        forall|s: usize|
            entered_in(calls_since(c0, mid), s) ==> #[trigger] entered_in(calls_since(c0, fin), s),
        forall|s: usize|
            updated_in(calls_since(c0, mid), s) ==> #[trigger] updated_in(calls_since(c0, fin), s),
        forall|s: usize|
            entered_in(calls_since(mid, fin), s) ==> #[trigger] entered_in(calls_since(c0, fin), s),
        forall|s: usize|
            top_down_updated_in(calls_since(c0, mid), s) ==> #[trigger] top_down_updated_in(
                calls_since(c0, fin),
                s,
            ),
{
    let a = calls_since(c0, mid);
    let b = calls_since(mid, fin);
    let f = calls_since(c0, fin);
    assert forall|i: int| 0 <= i < a.len() implies #[trigger] f[i] == a[i] by {
        assert(f[i] == fin[c0.len() + i]);
        assert(fin[c0.len() + i] == mid[c0.len() + i]);
    }
    assert forall|i: int| 0 <= i < b.len() implies #[trigger] f[a.len() + i] == b[i] by {
        assert(f[a.len() + i] == fin[mid.len() + i]);
    }
    assert forall|s: usize| entered_in(a, s) implies #[trigger] entered_in(f, s) by {
        let i = choose|i: int| 0 <= i < a.len() && #[trigger] entry_of(a[i]) == Some(s);
        assert(f[i] == a[i]);
    }
    assert forall|s: usize| updated_in(a, s) implies #[trigger] updated_in(f, s) by {
        let i = choose|i: int| 0 <= i < a.len() && #[trigger] update_of(a[i]) == Some(s);
        assert(f[i] == a[i]);
    }
    assert forall|s: usize| entered_in(b, s) implies #[trigger] entered_in(f, s) by {
        let i = choose|i: int| 0 <= i < b.len() && #[trigger] entry_of(b[i]) == Some(s);
        assert(f[a.len() + i] == b[i]);
    }
    assert forall|s: usize| top_down_updated_in(a, s) implies #[trigger] top_down_updated_in(f, s) by {
        let i = choose|i: int| 0 <= i < a.len() && #[trigger] top_down_update_of(a[i]) == Some(s);
        assert(f[i] == a[i]);
    }
}

/// Calls recorded since `c0` stay recorded as more calls are made.
proof fn lemma_since_extends(c0: Seq<Call>, c: Seq<Call>, d: Seq<Call>)
    requires
        c0.is_prefix_of(c),
        c.is_prefix_of(d),
    ensures
        c0.is_prefix_of(d),
        calls_since(c0, c).is_prefix_of(calls_since(c0, d)),
        !quiet_updates(calls_since(c0, c)) ==> !quiet_updates(calls_since(c0, d)),
        !quiet_top_down_updates(calls_since(c0, c)) ==> !quiet_top_down_updates(
            calls_since(c0, d),
        ),
{
    assert(d.subrange(0, c0.len() as int) =~= c.subrange(0, c0.len() as int));
    assert(calls_since(c0, d).subrange(0, calls_since(c0, c).len() as int) =~= calls_since(c0, c));
    if !quiet_updates(calls_since(c0, c)) {
        let i = choose|i: int|
            0 <= i < calls_since(c0, c).len() && !(#[trigger] calls_since(c0, c)[i] matches Call::Update(
                _,
                _,
                r,
            ) ==> r is Stay);
        assert(calls_since(c0, d)[i] == calls_since(c0, c)[i]);
    }
    if !quiet_top_down_updates(calls_since(c0, c)) {
        let i = choose|i: int|
            0 <= i < calls_since(c0, c).len() && !(#[trigger] calls_since(c0, c)[i] matches Call::TopDownUpdate(
                _,
                _,
                r,
            ) ==> r is Stay);
        assert(calls_since(c0, d)[i] == calls_since(c0, c)[i]);
    }
}

/// Updating the state at `k`, whose flag is not set and which was neither updated nor entered
/// yet, keeps every state updated at most once and never after its entry, and keeps the states
/// whose flags are not set neither updated nor entered.
proof fn lemma_update_step(
    tree: StateTree,
    c0: Seq<Call>,
    before: Seq<Call>,
    x: Call,
    active: Seq<usize>,
    done: Seq<bool>,
    k: int,
)
    requires
        tree.wf(),
        tree.is_active_path(active),
        c0.is_prefix_of(before),
        done.len() == active.len(),
        0 <= k < active.len(),
        !done[k],
        update_of(x) == Some(active[k]),
        entry_of(x) is None,
        updated_once(calls_since(c0, before)),
        entered_not_updated(calls_since(c0, before)),
        forall|j: int|
            0 <= j < active.len() && !done[j] ==> !updated_in(
                calls_since(c0, before),
                #[trigger] active[j],
            ) && !entered_in(calls_since(c0, before), active[j]),
    ensures
        updated_once(calls_since(c0, before.push(x))),
        entered_not_updated(calls_since(c0, before.push(x))),
        forall|j: int|
            0 <= j < active.len() && j != k && !done[j] ==> !updated_in(
                calls_since(c0, before.push(x)),
                #[trigger] active[j],
            ) && !entered_in(calls_since(c0, before.push(x)), active[j]),
{
    lemma_since_push(c0, before, x);
    let seg0 = calls_since(c0, before);
    let seg1 = calls_since(c0, before.push(x));
    let s = active[k];
    assert(!updated_in(seg0, s));
    assert(!entered_in(seg0, s));
    assert forall|i: int| 0 <= i < seg0.len() implies #[trigger] update_of(seg0[i]) != Some(s) by {}
    assert forall|i: int| 0 <= i < seg0.len() implies #[trigger] entry_of(seg0[i]) != Some(s) by {}
    assert forall|i: int, j: int|
        0 <= i < j < seg1.len() && (#[trigger] update_of(seg1[i])) is Some implies update_of(seg1[i])
        != #[trigger] update_of(seg1[j]) by {
        assert(seg1[i] == seg0[i]);
        if j < seg1.len() - 1 {
            assert(seg1[j] == seg0[j]);
        }
    }
    assert forall|i: int, j: int|
        0 <= i < j < seg1.len() && (#[trigger] entry_of(seg1[i])) is Some implies entry_of(seg1[i])
        != #[trigger] update_of(seg1[j]) by {
        assert(seg1[i] == seg0[i]);
        if j < seg1.len() - 1 {
            assert(seg1[j] == seg0[j]);
        }
    }
    assert forall|j: int| 0 <= j < active.len() && j != k && !done[j] implies !updated_in(
        seg1,
        #[trigger] active[j],
    ) && !entered_in(seg1, active[j]) by {
        if active[j] == s {
            tree.lemma_active_path_distinct(active, j, k);
        }
        assert(!updated_in(seg0, active[j]));
        assert(!entered_in(seg0, active[j]));
        if updated_in(seg1, active[j]) {
            let i = choose|i: int| 0 <= i < seg1.len() && #[trigger] update_of(seg1[i]) == Some(active[j]);
            if i < seg0.len() {
                assert(seg1[i] == seg0[i]);
            }
        }
        if entered_in(seg1, active[j]) {
            let i = choose|i: int| 0 <= i < seg1.len() && #[trigger] entry_of(seg1[i]) == Some(active[j]);
            if i < seg0.len() {
                assert(seg1[i] == seg0[i]);
            }
        }
    }
}

/// After a transition carried out with fresh flags set, the states whose flags are not set
/// were active, with their flags not set, before it, and were not entered by it; so none of
/// them was updated or entered.
proof fn lemma_update_settled(
    c0: Seq<Call>,
    mid: Seq<Call>,
    fin: Seq<Call>,
    mid_active: Seq<usize>,
    fin_active: Seq<usize>,
    mid_done: Seq<bool>,
    fin_done: Seq<bool>,
)
    requires
        c0.is_prefix_of(mid),
        mid.is_prefix_of(fin),
        forall|i: int| mid.len() <= i < fin.len() ==> transition_call(#[trigger] fin[i]),
        updated_once(calls_since(c0, mid)),
        entered_not_updated(calls_since(c0, mid)),
        fin_done.len() == fin_active.len(),
        forall|j: int|
            0 <= j < mid_active.len() && !mid_done[j] ==> !updated_in(
                calls_since(c0, mid),
                #[trigger] mid_active[j],
            ) && !entered_in(calls_since(c0, mid), mid_active[j]),
        forall|j: int|
            0 <= j < fin_active.len() ==> #[trigger] fin_done[j] == true || (j < mid_active.len()
                && fin_active[j] == mid_active[j] && fin_done[j] == mid_done[j] && !entered_in(
                fin.subrange(mid.len() as int, fin.len() as int),
                fin_active[j],
            )),
    ensures
        c0.is_prefix_of(fin),
        updated_once(calls_since(c0, fin)),
        entered_not_updated(calls_since(c0, fin)),
        forall|j: int|
            0 <= j < fin_active.len() && !fin_done[j] ==> !updated_in(
                calls_since(c0, fin),
                #[trigger] fin_active[j],
            ) && !entered_in(calls_since(c0, fin), fin_active[j]),
{
    lemma_since_extends(c0, mid, fin);
    lemma_transition_calls(c0, mid, fin);
    let a = calls_since(c0, mid);
    let b = calls_since(c0, fin);
    let added = fin.subrange(mid.len() as int, fin.len() as int);
    assert forall|i: int| 0 <= i < a.len() implies #[trigger] b[i] == a[i] by {
        assert(b.subrange(0, a.len() as int)[i] == b[i]);
    }
    assert forall|i: int| a.len() <= i < b.len() implies #[trigger] b[i] == added[i - a.len()]
        && update_of(b[i]) is None by {
        assert(b[i] == fin[c0.len() + i]);
        assert(transition_call(fin[c0.len() + i]));
    }
    assert forall|i: int, j: int|
        0 <= i < j < b.len() && (#[trigger] entry_of(b[i])) is Some implies entry_of(b[i])
        != #[trigger] update_of(b[j]) by {
        if j >= a.len() {
            assert(update_of(b[j]) is None);
        } else {
            assert(b[j] == a[j]);
            assert(b[i] == a[i]);
        }
    }
    assert forall|j: int| 0 <= j < fin_active.len() && !fin_done[j] implies !updated_in(
        b,
        #[trigger] fin_active[j],
    ) && !entered_in(b, fin_active[j]) by {
        let x = fin_active[j];
        assert(!updated_in(a, mid_active[j]));
        assert(!entered_in(a, mid_active[j]));
        if entered_in(b, x) {
            let i = choose|i: int| 0 <= i < b.len() && #[trigger] entry_of(b[i]) == Some(x);
            if i < a.len() {
                assert(b[i] == a[i]);
            } else {
                assert(entry_of(added[i - a.len()]) == Some(x));
            }
        }
    }
}

/// Calls made while carrying out a transition update no state.
proof fn lemma_transition_calls(c0: Seq<Call>, c: Seq<Call>, d: Seq<Call>)
    requires
        c0.is_prefix_of(c),
        c.is_prefix_of(d),
        forall|i: int| c.len() <= i < d.len() ==> transition_call(#[trigger] d[i]),
    ensures
        updated_once(calls_since(c0, c)) ==> updated_once(calls_since(c0, d)),
        forall|x: usize| updated_in(calls_since(c0, d), x) == updated_in(calls_since(c0, c), x),
{
    lemma_since_extends(c0, c, d);
    let a = calls_since(c0, c);
    let b = calls_since(c0, d);
    assert forall|i: int| 0 <= i < a.len() implies #[trigger] b[i] == a[i] by {
        assert(b.subrange(0, a.len() as int)[i] == b[i]);
    }
    assert forall|i: int| a.len() <= i < b.len() implies #[trigger] update_of(b[i]) is None by {
        assert(b[i] == d[c0.len() + i]);
        assert(transition_call(d[c0.len() + i]));
    }
    assert forall|x: usize| updated_in(b, x) == updated_in(a, x) by {
        if updated_in(b, x) {
            let i = choose|i: int| 0 <= i < b.len() && #[trigger] update_of(b[i]) == Some(x);
            if i >= a.len() {
                assert(update_of(b[i]) is None);
            }
            assert(update_of(a[i]) == Some(x));
        }
        if updated_in(a, x) {
            let i = choose|i: int| 0 <= i < a.len() && #[trigger] update_of(a[i]) == Some(x);
            assert(update_of(b[i]) == Some(x));
        }
    }
    if updated_once(a) {
        assert forall|i: int, j: int|
            0 <= i < j < b.len() && (#[trigger] update_of(b[i])) is Some implies update_of(b[i])
            != #[trigger] update_of(b[j]) by {
            if j >= a.len() {
                assert(update_of(b[j]) is None);
            } else {
                assert(update_of(a[i]) != update_of(a[j]));
            }
        }
    }
}

/// An event answered at `mf` by a transition request is followed by the record of that
/// transition; when no call in it asked for a transition, those are the calls of the
/// transition, which ends on the path to its target.
proof fn lemma_event_transition(
    tree: StateTree,
    a: Seq<usize>,
    after: Seq<usize>,
    c0: Seq<Call>,
    mid: Seq<Call>,
    fin: Seq<Call>,
    mf: int,
    n: Next<usize>,
)
    requires
        tree.wf(),
        tree.is_active_path(a),
        c0.is_prefix_of(mid),
        mid.is_prefix_of(fin),
        0 <= mf,
        calls_since(c0, mid).len() == mf + 1,
        calls_since(c0, mid)[mf] matches Call::Event(_, _, Response::Next(x)) && x == n,
        run_log(tree, a, goal_of(tree, n), STEP_LIMIT as nat, calls_since(mid, fin)) == Some(
            after,
        ),
    ensures
        event_transition(tree, a, after, calls_since(c0, fin), mf),
        event_run(tree, a, after, calls_since(c0, fin), mf),
{
    let q = calls_since(c0, fin);
    lemma_since_extends(c0, mid, fin);
    assert(q[mf] == calls_since(c0, mid)[mf]) by {
        assert(q.subrange(0, calls_since(c0, mid).len() as int)[mf] == q[mf]);
    }
    assert(q.skip(mf + 1) =~= calls_since(mid, fin));
    if let Some((t, ex)) = goal_of(tree, n) {
        if (ex || !a.contains(t)) && no_requests(q.skip(mf + 1)) {
            lemma_within_steps(tree, a, t);
            lemma_log_no_requests(tree, a, t, ex, STEP_LIMIT as nat, q.skip(mf + 1), after);
            tree.lemma_run_reaches_target(a, t, ex, STEP_LIMIT as nat);
            lemma_run_calls(tree, a, t, ex, STEP_LIMIT as nat);
        }
    }
}

/// What [`shared_from`] counts: a common prefix that cannot be extended.
proof fn lemma_shared_from(a: Seq<usize>, b: Seq<usize>, i: nat)
    requires
        i <= a.len(),
        i <= b.len(),
        forall|j: int| 0 <= j < i ==> a[j] == b[j],
    ensures
        i <= shared_from(a, b, i) <= a.len(),
        shared_from(a, b, i) <= b.len(),
        forall|j: int| 0 <= j < shared_from(a, b, i) ==> a[j] == b[j],
        shared_from(a, b, i) == a.len() || shared_from(a, b, i) == b.len() || a[shared_from(
            a,
            b,
            i,
        ) as int] != b[shared_from(a, b, i) as int],
    decreases a.len() - i,
{
    if i < a.len() && i < b.len() && a[i as int] == b[i as int] {
        lemma_shared_from(a, b, i + 1);
    }
}

/// A common prefix of `a` and `b` that cannot be extended is the one [`shared_from`] counts.
proof fn lemma_shared_is(a: Seq<usize>, b: Seq<usize>, c: nat)
    requires
        c <= a.len(),
        c <= b.len(),
        forall|j: int| 0 <= j < c ==> a[j] == b[j],
        c == a.len() || c == b.len() || a[c as int] != b[c as int],
    ensures
        shared_from(a, b, 0) == c,
{
    lemma_shared_from(a, b, 0);
}

/// Once the deepest active state leads to the target, a transition in which no state
/// redirects enters the rest of the path to the target, top first, then takes the target's
/// initial transition.
proof fn lemma_run_calls_enter(
    tree: StateTree,
    active: Seq<usize>,
    target: usize,
    exact: bool,
    fuel: nat,
)
    requires
        tree.wf(),
        tree.is_active_path(active),
        target < tree.size(),
        tree.leads_to(active, target),
        fuel >= tree.path(target).len() - active.len(),
    ensures
        run_calls(tree, active, target, exact, fuel) == enter_calls(
            tree.path(target),
            active.len() as int,
        ) + seq![Call::Init(target, Next::Stay)],
    decreases tree.path(target).len() - active.len(),
{
    let pt = tree.path(target);
    tree.lemma_path(target);
    tree.lemma_path(0);
    tree.lemma_active_path_is_path(active);
    assert(!active.contains(target)) by {
        if active.contains(target) {
            let k = choose|k: int| 0 <= k < active.len() && active[k] == target;
            tree.lemma_path(active.last());
            assert(tree.depth(active[k]) == k);
        }
    }
    assert(target != 0);
    tree.lemma_plan_sound(active, target, exact);
    let s = pt[active.len() as int];
    assert(tree.plan(active, target, exact) == Move::Enter(s));
    let n = active.len() as int;
    if s == target {
        assert(n + 1 == pt.len()) by {
            tree.lemma_path_index(target, n);
        }
        assert(run_calls(tree, active, target, exact, fuel) =~= enter_calls(pt, n) + seq![
            Call::Init(target, Next::Stay),
        ]);
    } else {
        let next = active.push(s);
        assert(n + 1 < pt.len());
        assert(tree.leads_to(next, target)) by {
            assert(pt[next.len() - 1] == s);
        }
        lemma_run_calls_enter(tree, next, target, false, (fuel - 1) as nat);
        assert(enter_calls(pt, n) =~= seq![Call::Enter(s, Next::Stay)] + enter_calls(pt, n + 1));
        assert(run_calls(tree, active, target, exact, fuel) =~= enter_calls(pt, n) + seq![
            Call::Init(target, Next::Stay),
        ]);
    }
}

/// A transition exits a state only below the kept ones, and keeps the same states after it.
proof fn lemma_exit_keeps(tree: StateTree, active: Seq<usize>, target: usize, exact: bool)
    requires
        tree.wf(),
        tree.is_active_path(active),
        target < tree.size(),
        exact || !active.contains(target),
        tree.plan(active, target, exact) == Move::Exit,
    ensures
        active.len() > 1,
        kept(tree, active, target) < active.len(),
        kept(tree, active.drop_last(), target) == kept(tree, active, target),
{
    let pt = tree.path(target);
    let l = active.len() as int;
    let rest = active.drop_last();
    tree.lemma_path(target);
    tree.lemma_plan_sound(active, target, exact);
    lemma_shared_from(active, pt, 0);
    let c = shared_from(active, pt, 0);
    if target != 0 {
        if c == l {
            assert(l == pt.len()) by {
                if l < pt.len() {
                    assert(pt[l - 1] == active.last());
                    assert(tree.leads_to(active, target));
                }
            }
            assert(active.contains(target)) by {
                assert(active[l - 1] == pt[l - 1]);
            }
            lemma_shared_is(rest, pt, (l - 1) as nat);
        } else {
            lemma_shared_is(rest, pt, c);
        }
    }
}

/// A transition that enters next keeps all the active states.
proof fn lemma_enter_keeps(tree: StateTree, active: Seq<usize>, target: usize, exact: bool)
    requires
        tree.wf(),
        tree.is_active_path(active),
        target < tree.size(),
        tree.plan(active, target, exact) is Enter,
    ensures
        tree.leads_to(active, target),
        kept(tree, active, target) == active.len(),
{
    let pt = tree.path(target);
    let l = active.len() as int;
    tree.lemma_path(target);
    tree.lemma_path(0);
    tree.lemma_plan_sound(active, target, exact);
    let s = tree.plan(active, target, exact)->0;
    assert(forall|j: int| 0 <= j < l ==> active[j] == pt[j]) by {
        assert forall|j: int| 0 <= j < l implies active[j] == pt[j] by {
            assert(active.push(s)[j] == pt.take(l + 1)[j]);
        }
    }
    lemma_shared_is(active, pt, l as nat);
}

/// The step of [`lemma_run_calls`] in which the deepest active state is exited.
#[verifier::spinoff_prover]
#[verifier::rlimit(30)]
proof fn lemma_run_calls_exit(
    tree: StateTree,
    active: Seq<usize>,
    target: usize,
    exact: bool,
    fuel: nat,
)
    requires
        tree.wf(),
        tree.is_active_path(active),
        target < tree.size(),
        exact || !active.contains(target),
        fuel >= 1,
        tree.plan(active, target, exact) == Move::Exit,
        run_calls(tree, active.drop_last(), target, exact, (fuel - 1) as nat) == transition_calls(
            tree,
            active.drop_last(),
            target,
        ),
    ensures
        run_calls(tree, active, target, exact, fuel) == transition_calls(tree, active, target),
{
    let rest = active.drop_last();
    let k = kept(tree, active, target);
    lemma_exit_keeps(tree, active, target, exact);
    assert(exit_calls(active, k) =~= seq![Call::Exit(active.last(), Next::Stay)] + exit_calls(
        rest,
        k,
    ));
    assert(run_calls(tree, active, target, exact, fuel) =~= transition_calls(tree, active, target));
}

/// The step of [`lemma_run_calls`] in which the transition starts entering.
proof fn lemma_run_calls_enter_first(
    tree: StateTree,
    active: Seq<usize>,
    target: usize,
    exact: bool,
    fuel: nat,
)
    requires
        tree.wf(),
        tree.is_active_path(active),
        target < tree.size(),
        fuel >= active.len() + tree.path(target).len(),
        tree.plan(active, target, exact) is Enter,
    ensures
        run_calls(tree, active, target, exact, fuel) == transition_calls(tree, active, target),
{
    let k = kept(tree, active, target);
    lemma_enter_keeps(tree, active, target, exact);
    lemma_run_calls_enter(tree, active, target, exact, fuel);
    assert(exit_calls(active, k) =~= Seq::<Call>::empty());
    assert(run_calls(tree, active, target, exact, fuel) =~= transition_calls(tree, active, target));
}

/// A transition in which no state redirects makes exactly the calls [`transition_calls`]
/// lists (for a normal transition, one whose target is not active yet).
pub proof fn lemma_run_calls(
    tree: StateTree,
    active: Seq<usize>,
    target: usize,
    exact: bool,
    fuel: nat,
)
    requires
        tree.wf(),
        tree.is_active_path(active),
        target < tree.size(),
        exact || !active.contains(target),
        fuel >= active.len() + tree.path(target).len(),
    ensures
        run_calls(tree, active, target, exact, fuel) == transition_calls(tree, active, target),
    decreases active.len(),
{
    tree.lemma_plan_sound(active, target, exact);
    match tree.plan(active, target, exact) {
        Move::InitTop => {
            assert(active =~= seq![0usize]);
            tree.lemma_path(0);
            assert(run_calls(tree, active, target, exact, fuel) =~= transition_calls(
                tree,
                active,
                target,
            ));
        },
        Move::Stay => {},
        Move::Enter(_) => {
            lemma_run_calls_enter_first(tree, active, target, exact, fuel);
        },
        Move::Exit => {
            let rest = active.drop_last();
            tree.lemma_path(target);
            tree.lemma_pop_active(active);
            assert(!exact ==> !rest.contains(target)) by {
                if rest.contains(target) {
                    let j = choose|j: int| 0 <= j < rest.len() && rest[j] == target;
                    assert(active[j] == target);
                }
            }
            lemma_run_calls(tree, rest, target, exact, (fuel - 1) as nat);
            lemma_run_calls_exit(tree, active, target, exact, fuel);
        },
    }
}

/// A call in front of `rest`.
proof fn lemma_front(x: Call, rest: Seq<Call>)
    ensures
        (seq![x] + rest).len() == rest.len() + 1,
        (seq![x] + rest)[0] == x,
        (seq![x] + rest).drop_first() == rest,
{
    assert((seq![x] + rest).drop_first() =~= rest);
}

/// Two calls in front of `rest`.
proof fn lemma_front2(x: Call, y: Call, rest: Seq<Call>)
    ensures
        (seq![x, y] + rest).len() == rest.len() + 2,
        (seq![x, y] + rest)[0] == x,
        (seq![x, y] + rest)[1] == y,
        (seq![x, y] + rest).skip(2) == rest,
{
    assert((seq![x, y] + rest).skip(2) =~= rest);
}

/// A transition whose record ends with an initial transition that asks for nothing ends in
/// the state whose initial transition that was: after any redirection, the state the
/// transition last went to and initialised is the current state.
pub proof fn lemma_run_ends_at_init(
    tree: StateTree,
    active: Seq<usize>,
    goal: Option<(usize, bool)>,
    fuel: nat,
    calls: Seq<Call>,
)
    requires
        tree.wf(),
        tree.is_active_path(active),
        goal matches Some((t, _)) ==> t < tree.size(),
        run_log(tree, active, goal, fuel, calls) is Some,
        calls.len() > 0,
        calls.last() matches Call::Init(_, r) && goal_of(tree, r) is None,
    ensures
        calls.last() matches Call::Init(s, _) && run_log(tree, active, goal, fuel, calls)->0.last()
            == s,
    decreases calls.len(),
{
    match goal {
        None => {},
        Some((t, ex)) => {
            if fuel > 0 {
                tree.lemma_plan_sound(active, t, ex);
                let rest = calls.drop_first();
                match tree.plan(active, t, ex) {
                    Move::Stay => {},
                    Move::Exit => {
                        let r = calls[0]->Exit_1;
                        let g2 = match goal_of(tree, r) {
                            Some(g) => Some(g),
                            None => goal,
                        };
                        assert(rest.len() > 0);
                        assert(rest.last() == calls.last());
                        tree.lemma_pop_active(active);
                        lemma_run_ends_at_init(tree, active.drop_last(), g2, (fuel - 1) as nat, rest);
                    },
                    Move::Enter(s) => {
                        let a = calls[0]->Enter_1;
                        if a is Stay {
                            if s == t {
                                let r = calls[1]->Init_1;
                                let rest2 = calls.skip(2);
                                if rest2.len() > 0 {
                                    assert(rest2.last() == calls.last());
                                    lemma_run_ends_at_init(tree, active.push(s), goal_of(tree, r), (fuel - 1) as nat, rest2);
                                } else {
                                    assert(calls.last() == calls[1]);
                                }
                            } else {
                                assert(rest.len() > 0);
                                assert(rest.last() == calls.last());
                                lemma_run_ends_at_init(tree, active.push(s), Some((t, false)), (fuel - 1) as nat, rest);
                            }
                        } else {
                            assert(rest.len() > 0);
                            assert(rest.last() == calls.last());
                            lemma_run_ends_at_init(tree, active, goal_of(tree, a), (fuel - 1) as nat, rest);
                        }
                    },
                    Move::InitTop => {
                        let r = calls[0]->Init_1;
                        if rest.len() > 0 {
                            assert(rest.last() == calls.last());
                            lemma_run_ends_at_init(tree, active, goal_of(tree, r), (fuel - 1) as nat, rest);
                        } else {
                            assert(calls.last() == calls[0]);
                            assert(active.len() == 1);
                            assert(active.last() == active[0]);
                        }
                    },
                }
            }
        },
    }
}

/// The next update from `i` on lies between `i` and the end.
pub proof fn lemma_next_update_bounds(calls: Seq<Call>, top_down: bool, i: int)
    requires
        0 <= i <= calls.len(),
    ensures
        i <= next_update(calls, top_down, i) <= calls.len(),
    decreases calls.len() - i,
{
    if i < calls.len() && update_call(calls[i], top_down) is None {
        lemma_next_update_bounds(calls, top_down, i + 1);
    }
}

/// After an update call and the record of its transition, the next update is where the rest
/// begins.
proof fn lemma_next_update_after(u: Call, seg: Seq<Call>, rest: Seq<Call>, top_down: bool, i: int)
    requires
        1 <= i <= seg.len() + 1,
        forall|m: int| 0 <= m < seg.len() ==> #[trigger] update_call(seg[m], top_down) is None,
        rest.len() == 0 || update_call(rest[0], top_down) is Some,
    ensures
        next_update(seq![u] + seg + rest, top_down, i) == seg.len() + 1,
    decreases seg.len() + 1 - i,
{
    let c = seq![u] + seg + rest;
    if i <= seg.len() {
        assert(c[i] == seg[i - 1]);
        lemma_next_update_after(u, seg, rest, top_down, i + 1);
    } else if rest.len() > 0 {
        assert(c[i] == rest[0]);
    }
}

/// Which flag is pending, as the exec searches find it: the deepest not set.
proof fn lemma_last_pending(done: Seq<bool>, k: int)
    requires
        0 <= k < done.len(),
        !done[k],
        forall|j: int| k < j < done.len() ==> done[j],
    ensures
        last_pending(done) == Some(k),
    decreases done.len(),
{
    if k < done.len() - 1 {
        assert(done.last());
        lemma_last_pending(done.drop_last(), k);
    }
}

/// No flag pending when all are set.
proof fn lemma_none_pending(done: Seq<bool>, top_down: bool)
    requires
        forall|j: int| 0 <= j < done.len() ==> done[j],
    ensures
        pending(done, top_down) is None,
    decreases done.len(),
{
    if done.len() > 0 {
        lemma_none_pending(done.drop_last(), top_down);
        assert forall|j: int| 0 <= j < done.drop_last().len() implies done.drop_last()[j] by {
            assert(done.drop_last()[j] == done[j]);
        }
    }
    lemma_no_first_pending(done, 0);
}

/// No flag pending from `i` on when all are set.
proof fn lemma_no_first_pending(done: Seq<bool>, i: int)
    requires
        0 <= i,
        forall|j: int| 0 <= j < done.len() ==> done[j],
    ensures
        first_pending(done, i) is None,
    decreases done.len() - i,
{
    if i < done.len() {
        lemma_no_first_pending(done, i + 1);
    }
}

/// Which flag is pending, as the exec searches find it: the shallowest not set.
proof fn lemma_first_pending(done: Seq<bool>, i: int, k: int)
    requires
        0 <= i <= k < done.len(),
        !done[k],
        forall|j: int| 0 <= j < k ==> done[j],
    ensures
        first_pending(done, i) == Some(k),
    decreases k - i,
{
    if i < k {
        lemma_first_pending(done, i + 1, k);
    }
}

/// With more fuel than calls, the fuel does not change what a record of a transition gives.
proof fn lemma_run_log_fuel(
    tree: StateTree,
    active: Seq<usize>,
    goal: Option<(usize, bool)>,
    fuel: nat,
    calls: Seq<Call>,
)
    requires
        fuel > calls.len(),
    ensures
        run_log(tree, active, goal, fuel, calls) == run_log(
            tree,
            active,
            goal,
            (calls.len() + 1) as nat,
            calls,
        ),
    decreases calls.len(),
{
    let f2 = (calls.len() + 1) as nat;
    match goal {
        None => {},
        Some((t, ex)) => {
            if calls.len() > 0 {
                let rest = calls.drop_first();
                match tree.plan(active, t, ex) {
                    Move::Stay => {},
                    Move::Exit => {
                        match calls[0] {
                            Call::Exit(s, r) => {
                                let g2 = match goal_of(tree, r) {
                                    Some(g) => Some(g),
                                    None => goal,
                                };
                                lemma_run_log_fuel(tree, active.drop_last(), g2, (fuel - 1) as nat, rest);
                                lemma_run_log_fuel(tree, active.drop_last(), g2, (f2 - 1) as nat, rest);
                            },
                            _ => {},
                        }
                    },
                    Move::Enter(s) => {
                        match calls[0] {
                            Call::Enter(s2, a) => {
                                if s2 == s {
                                    if a is Stay {
                                        if s == t {
                                            if calls.len() >= 2 {
                                                match calls[1] {
                                                    Call::Init(s3, r) => {
                                                        let rest2 = calls.skip(2);
                                                        lemma_run_log_fuel(tree, active.push(s), goal_of(tree, r), (fuel - 1) as nat, rest2);
                                                        lemma_run_log_fuel(tree, active.push(s), goal_of(tree, r), (f2 - 1) as nat, rest2);
                                                    },
                                                    _ => {},
                                                }
                                            }
                                        } else {
                                            lemma_run_log_fuel(tree, active.push(s), Some((t, false)), (fuel - 1) as nat, rest);
                                            lemma_run_log_fuel(tree, active.push(s), Some((t, false)), (f2 - 1) as nat, rest);
                                        }
                                    } else {
                                        lemma_run_log_fuel(tree, active, goal_of(tree, a), (fuel - 1) as nat, rest);
                                        lemma_run_log_fuel(tree, active, goal_of(tree, a), (f2 - 1) as nat, rest);
                                    }
                                }
                            },
                            _ => {},
                        }
                    },
                    Move::InitTop => {
                        match calls[0] {
                            Call::Init(s, r) => {
                                lemma_run_log_fuel(tree, active, goal_of(tree, r), (fuel - 1) as nat, rest);
                                lemma_run_log_fuel(tree, active, goal_of(tree, r), (f2 - 1) as nat, rest);
                            },
                            _ => {},
                        }
                    },
                }
            }
        },
    }
}

/// The update call for state `s` named at depth `k` with answer `r`, as a pass records it.
pub open spec fn update_of_pass(s: usize, k: usize, r: Next<usize>, top_down: bool) -> Call {
    if top_down {
        Call::TopDownUpdate(s, k, r)
    } else {
        Call::Update(s, k, r)
    }
}

/// One round of a pass: the update of the pending state and the record of the transition it
/// asked for carry what the record since the start gives over to the state after the round.
proof fn lemma_update_log_step(
    tree: StateTree,
    a0: Seq<usize>,
    d0: Seq<bool>,
    since: Seq<Call>,
    active: Seq<usize>,
    done: Seq<bool>,
    k: int,
    r: Next<usize>,
    seg: Seq<Call>,
    p: Seq<usize>,
    top_down: bool,
    fresh: bool,
)
    requires
        fresh == !top_down,
        forall|rest: Seq<Call>|
            (rest.len() == 0 || update_call(rest[0], top_down) is Some) ==> #[trigger] update_log(
                tree,
                active,
                done,
                rest,
                top_down,
            ) == update_log(tree, a0, d0, since + rest, top_down),
        pending(done, top_down) == Some(k),
        0 <= k < active.len(),
        k <= usize::MAX,
        forall|m: int| 0 <= m < seg.len() ==> #[trigger] update_call(seg[m], top_down) is None,
        run_log(tree, active, goal_of(tree, r), (seg.len() + 1) as nat, seg) == Some(p),
    ensures
        forall|rest: Seq<Call>|
            (rest.len() == 0 || update_call(rest[0], top_down) is Some) ==> #[trigger] update_log(
                tree,
                p,
                flags_after(done.update(k, true), p, seg, fresh),
                rest,
                top_down,
            ) == update_log(
                tree,
                a0,
                d0,
                (since + (seq![update_of_pass(active[k], k as usize, r, top_down)] + seg)) + rest,
                top_down,
            ),
{
    let u = update_of_pass(active[k], k as usize, r, top_down);
    assert forall|rest: Seq<Call>|
        (rest.len() == 0 || update_call(rest[0], top_down) is Some) implies #[trigger] update_log(
        tree,
        p,
        flags_after(done.update(k, true), p, seg, fresh),
        rest,
        top_down,
    ) == update_log(tree, a0, d0, (since + (seq![u] + seg)) + rest, top_down) by {
        let rest2 = seq![u] + seg + rest;
        assert(rest2[0] == u);
        assert((since + (seq![u] + seg)) + rest =~= since + rest2);
        lemma_next_update_after(u, seg, rest, top_down, 1);
        assert(rest2.subrange(1, seg.len() + 1 as int) =~= seg);
        assert(rest2.skip(seg.len() + 1 as int) =~= rest);
        assert(update_log(tree, active, done, rest2, top_down) == update_log(
            tree,
            a0,
            d0,
            since + rest2,
            top_down,
        ));
    }
}

/// The record `since` of a pass that began from `a0` with the flags `d0` has so far reached
/// `active` with the flags `done`: whatever the pass records next, from its next update on,
/// gives the same from there as the whole record gives from the start (unless the pass was cut
/// short after [`STEP_LIMIT`] calls).
#[verifier::opaque]
spec fn pass_so_far(
    tree: StateTree,
    a0: Seq<usize>,
    d0: Seq<bool>,
    since: Seq<Call>,
    active: Seq<usize>,
    done: Seq<bool>,
    top_down: bool,
) -> bool {
    since.len() < STEP_LIMIT ==> forall|rest: Seq<Call>|
        (rest.len() == 0 || update_call(rest[0], top_down) is Some) ==> #[trigger] update_log(
            tree,
            active,
            done,
            rest,
            top_down,
        ) == update_log(tree, a0, d0, since + rest, top_down)
}

/// A pass that has recorded nothing is where it began.
proof fn lemma_pass_start(tree: StateTree, a0: Seq<usize>, d0: Seq<bool>, top_down: bool)
    ensures
        pass_so_far(tree, a0, d0, Seq::<Call>::empty(), a0, d0, top_down),
{
    reveal(pass_so_far);
    assert forall|rest: Seq<Call>| (rest.len() == 0 || update_call(rest[0], top_down) is Some) implies #[trigger] update_log(
        tree,
        a0,
        d0,
        rest,
        top_down,
    ) == update_log(tree, a0, d0, Seq::<Call>::empty() + rest, top_down) by {
        assert(Seq::<Call>::empty() + rest =~= rest);
    }
}

/// A pass with nothing pending ends where it is.
proof fn lemma_pass_end(
    tree: StateTree,
    a0: Seq<usize>,
    d0: Seq<bool>,
    since: Seq<Call>,
    active: Seq<usize>,
    done: Seq<bool>,
    top_down: bool,
)
    requires
        pass_so_far(tree, a0, d0, since, active, done, top_down),
        forall|j: int| 0 <= j < done.len() ==> done[j],
    ensures
        since.len() < STEP_LIMIT ==> update_log(tree, a0, d0, since, top_down) == Some(active),
{
    reveal(pass_so_far);
    lemma_none_pending(done, top_down);
    if since.len() < STEP_LIMIT {
        assert(update_log(tree, active, done, Seq::<Call>::empty(), top_down) == Some(active));
        assert(since + Seq::<Call>::empty() =~= since);
    }
}

/// The flags after a transition, as the transition leaves them: entered states get `fresh`, the
/// others keep theirs.
proof fn lemma_flags_are_after(
    active: Seq<usize>,
    done: Seq<bool>,
    seg: Seq<Call>,
    active2: Seq<usize>,
    done2: Seq<bool>,
    fresh: bool,
)
    requires
        done2.len() == active2.len(),
        forall|k: int|
            0 <= k < active2.len() ==> #[trigger] done2[k] == fresh || (k < active.len()
                && active2[k] == active[k] && done2[k] == done[k] && !entered_in(seg, active2[k])),
        forall|k: int|
            0 <= k < active2.len() ==> (k < active.len() && #[trigger] active2[k] == active[k]
                && done2[k] == done[k]) || entered_in(seg, active2[k]),
    ensures
        done2 == flags_after(done, active2, seg, fresh),
{
    assert forall|k: int| 0 <= k < active2.len() implies #[trigger] done2[k] == flags_after(
        done,
        active2,
        seg,
        fresh,
    )[k] by {
        if !entered_in(seg, active2[k]) {
            assert(active2[k] == active[k] && done2[k] == done[k]);
        }
    }
    assert(done2 =~= flags_after(done, active2, seg, fresh));
}

/// One round of an update pass, as the loop that runs the pass makes it: the update of the
/// pending state at `k` and the transition it asked for keep the record since the pass began
/// the record of a pass that reaches the states and flags after the round.
proof fn lemma_pass_round(
    tree: StateTree,
    a0: Seq<usize>,
    d0: Seq<bool>,
    c0: Seq<Call>,
    before: Seq<Call>,
    fin: Seq<Call>,
    active: Seq<usize>,
    pre_done: Seq<bool>,
    k: int,
    r: Next<usize>,
    p: Seq<usize>,
    done2: Seq<bool>,
    fuel: nat,
    top_down: bool,
    fresh: bool,
)
    requires
        fresh == !top_down,
        c0.is_prefix_of(before),
        before.push(update_of_pass(active[k], k as usize, r, top_down)).is_prefix_of(fin),
        pass_so_far(tree, a0, d0, calls_since(c0, before), active, pre_done, top_down),
        pending(pre_done, top_down) == Some(k),
        0 <= k < active.len(),
        k <= usize::MAX,
        pre_done.len() == active.len(),
        forall|i: int|
            before.len() + 1 <= i < fin.len() ==> transition_call(#[trigger] fin[i]),
        goal_of(tree, r) is Some ==> run_log(
            tree,
            active,
            goal_of(tree, r),
            fuel,
            calls_since(before.push(update_of_pass(active[k], k as usize, r, top_down)), fin),
        ) == Some(p),
        goal_of(tree, r) is None ==> fin == before.push(
            update_of_pass(active[k], k as usize, r, top_down),
        ) && p == active,
        calls_since(c0, before).len() + 1 + fuel >= STEP_LIMIT,
        done2.len() == p.len(),
        forall|i: int|
            0 <= i < p.len() ==> #[trigger] done2[i] == fresh || (i < active.len() && p[i]
                == active[i] && done2[i] == pre_done.update(k, true)[i] && !entered_in(
                calls_since(before.push(update_of_pass(active[k], k as usize, r, top_down)), fin),
                p[i],
            )),
        forall|i: int|
            0 <= i < p.len() ==> (i < active.len() && #[trigger] p[i] == active[i] && done2[i]
                == pre_done.update(k, true)[i]) || entered_in(
                calls_since(before.push(update_of_pass(active[k], k as usize, r, top_down)), fin),
                p[i],
            ),
    ensures
        pass_so_far(tree, a0, d0, calls_since(c0, fin), p, done2, top_down),
{
    reveal(pass_so_far);
    let u = update_of_pass(active[k], k as usize, r, top_down);
    let mid = before.push(u);
    let seg = calls_since(mid, fin);
    if calls_since(c0, fin).len() < STEP_LIMIT {
        lemma_since_push(c0, before, u);
        lemma_since_extends(c0, mid, fin);
        assert(calls_since(c0, fin) =~= calls_since(c0, before) + (seq![u] + seg)) by {
            let x = calls_since(c0, before);
            let y = calls_since(c0, fin);
            let z = x + (seq![u] + seg);
            assert(fin.subrange(0, mid.len() as int) == mid);
            assert forall|i: int| 0 <= i < y.len() implies y[i] == z[i] by {
                assert(y[i] == fin[c0.len() + i]);
                if i < x.len() {
                    assert(fin[c0.len() + i] == mid[c0.len() + i]);
                    assert(mid[c0.len() + i] == before[c0.len() + i]);
                } else if i == x.len() {
                    assert(fin[c0.len() + i] == mid[before.len() as int]);
                } else {
                    assert(seg[i - x.len() - 1] == fin[mid.len() + i - x.len() - 1]);
                }
            }
        }
        assert forall|m: int| 0 <= m < seg.len() implies #[trigger] update_call(seg[m], top_down)
            is None by {
            assert(seg[m] == fin[mid.len() + m]);
            assert(transition_call(fin[mid.len() + m]));
        }
        if goal_of(tree, r) is Some {
            lemma_run_log_fuel(tree, active, goal_of(tree, r), fuel, seg);
        } else {
            assert(seg.len() == 0);
        }
        lemma_flags_are_after(active, pre_done.update(k, true), seg, p, done2, fresh);
        lemma_update_log_step(tree, a0, d0, calls_since(c0, before), active, pre_done, k, r, seg, p, top_down, fresh);
    }
}

/// Data that fits keeps fitting through an action that keeps what the data belongs to.
proof fn lemma_fit_kept<U, D, E, H: SubstateEnum<U, D, E>>(active: Seq<usize>, s1: Seq<D>, s2: Seq<D>)
    requires
        active.len() <= s1.len() + 1,
        data_fit::<U, D, E, H>(active, s1),
        kinds_kept::<U, D, E, H>(s1, s2),
    ensures
        data_fit::<U, D, E, H>(active, s2),
{
    assert forall|k: int| 1 <= k < active.len() implies H::data_fits(active[k], #[trigger] s2[k - 1]) by {
        assert(H::data_fits(active[k], s1[k - 1]));
    }
}

/// Writing data that a state may hold into its place keeps everything fitting.
pub proof fn lemma_fit_update<U, D, E, H: SubstateEnum<U, D, E>>(
    active: Seq<usize>,
    stack: Seq<D>,
    level: int,
    d: D,
)
    requires
        active.len() == stack.len() + 1,
        1 <= level < active.len(),
        data_fit::<U, D, E, H>(active, stack),
        H::data_fits(active[level], d),
    ensures
        data_fit::<U, D, E, H>(active, stack.update(level - 1, d)),
{
    assert forall|k: int| 1 <= k < active.len() implies H::data_fits(
        active[k],
        #[trigger] stack.update(level - 1, d)[k - 1],
    ) by {
        if k != level {
            assert(H::data_fits(active[k], stack[k - 1]));
        }
    }
}

/// Leaving the deepest state keeps the rest fitting.
proof fn lemma_fit_pop<U, D, E, H: SubstateEnum<U, D, E>>(active: Seq<usize>, stack: Seq<D>)
    requires
        active.len() == stack.len() + 1,
        stack.len() >= 1,
        data_fit::<U, D, E, H>(active, stack),
    ensures
        data_fit::<U, D, E, H>(active.drop_last(), stack.drop_last()),
{
    assert forall|k: int| 1 <= k < active.drop_last().len() implies H::data_fits(
        active.drop_last()[k],
        #[trigger] stack.drop_last()[k - 1],
    ) by {
        assert(H::data_fits(active[k], stack[k - 1]));
    }
}

/// Entering a state with data it may hold keeps everything fitting.
proof fn lemma_fit_push<U, D, E, H: SubstateEnum<U, D, E>>(
    active: Seq<usize>,
    stack: Seq<D>,
    s: usize,
    d: D,
)
    requires
        active.len() == stack.len() + 1,
        data_fit::<U, D, E, H>(active, stack),
        H::data_fits(s, d),
    ensures
        data_fit::<U, D, E, H>(active.push(s), stack.push(d)),
{
    assert forall|k: int| 1 <= k < active.push(s).len() implies H::data_fits(
        active.push(s)[k],
        #[trigger] stack.push(d)[k - 1],
    ) by {
        if k < active.len() {
            assert(H::data_fits(active[k], stack[k - 1]));
        }
    }
}

/// One more recorded answer that the action of its state may give keeps every recorded answer
/// one that may be given.
proof fn lemma_answered_push<U, D, E, H: SubstateEnum<U, D, E>>(c0: Seq<Call>, c: Seq<Call>, x: Call)
    requires
        c0.is_prefix_of(c),
        all_answered::<U, D, E, H>(calls_since(c0, c)),
        answered::<U, D, E, H>(x),
    ensures
        all_answered::<U, D, E, H>(calls_since(c0, c.push(x))),
{
    lemma_since_push(c0, c, x);
    let a = calls_since(c0, c);
    let b = calls_since(c0, c.push(x));
    assert forall|i: int| 0 <= i < b.len() implies #[trigger] answered::<U, D, E, H>(b[i]) by {
        if i < a.len() {
            assert(b[i] == a[i]);
        }
    }
}

/// More calls keep what [`first_update_runs`] says of the first update, as long as the call
/// that follows its transition, if it is among them, is an update.
proof fn lemma_first_update_extends(
    tree: StateTree,
    a: Seq<usize>,
    c0: Seq<Call>,
    c: Seq<Call>,
    d: Seq<Call>,
    j0: int,
    p0: Seq<usize>,
    top_down: bool,
)
    requires
        c0.is_prefix_of(c),
        c.is_prefix_of(d),
        first_update_runs(tree, a, calls_since(c0, c), j0, p0, top_down),
        j0 == calls_since(c0, c).len() && calls_since(c0, d).len() > j0 ==> update_answer(
            calls_since(c0, d)[j0],
            top_down,
        ) is Some,
    ensures
        first_update_runs(tree, a, calls_since(c0, d), j0, p0, top_down),
        j0 < calls_since(c0, c).len() && first_update_resumes(calls_since(c0, c), j0, p0)
            ==> first_update_resumes(calls_since(c0, d), j0, p0),
{
    let x = calls_since(c0, c);
    let y = calls_since(c0, d);
    lemma_since_extends(c0, c, d);
    assert(y[0] == x[0]) by {
        assert(y.subrange(0, x.len() as int)[0] == y[0]);
    }
    assert forall|i: int| 1 <= i < j0 implies transition_call(#[trigger] y[i]) by {
        assert(y.subrange(0, x.len() as int)[i] == y[i]);
        assert(transition_call(x[i]));
    }
    assert(y.subrange(1, j0) =~= x.subrange(1, j0)) by {
        assert forall|i: int| 0 <= i < j0 - 1 implies #[trigger] y.subrange(1, j0)[i] == x.subrange(1, j0)[i] by {
            assert(y.subrange(0, x.len() as int)[i + 1] == y[i + 1]);
        }
    }
    if j0 < x.len() {
        assert(y.subrange(0, x.len() as int)[j0] == y[j0]);
    }
}

/// A transition never enters the top state: every state it enters lies below the active
/// path it extends.
proof fn lemma_log_never_enters_top(
    tree: StateTree,
    active: Seq<usize>,
    goal: Option<(usize, bool)>,
    fuel: nat,
    calls: Seq<Call>,
)
    requires
        tree.wf(),
        tree.is_active_path(active),
        goal matches Some((t, _)) ==> t < tree.size(),
        run_log(tree, active, goal, fuel, calls) is Some,
    ensures
        forall|i: int| 0 <= i < calls.len() ==> #[trigger] entry_of(calls[i]) != Some(0usize),
    decreases calls.len(),
{
    match goal {
        None => {},
        Some((t, ex)) => {
            if fuel == 0 || calls.len() == 0 {
            } else {
                tree.lemma_plan_sound(active, t, ex);
                let rest = calls.drop_first();
                match tree.plan(active, t, ex) {
                    Move::Stay => {},
                    Move::Exit => {
                        tree.lemma_pop_active(active);
                        let r = calls[0]->Exit_1;
                        let g2 = match goal_of(tree, r) {
                            Some(g) => Some(g),
                            None => goal,
                        };
                        lemma_log_never_enters_top(tree, active.drop_last(), g2, (fuel - 1) as nat, rest);
                        assert forall|i: int| 0 <= i < calls.len() implies #[trigger] entry_of(calls[i])
                            != Some(0usize) by {
                            if i > 0 {
                                assert(calls[i] == rest[i - 1]);
                            }
                        }
                    },
                    Move::Enter(s) => {
                        let a = calls[0]->Enter_1;
                        if a is Stay {
                            if s == t {
                                let r = calls[1]->Init_1;
                                let rest2 = calls.skip(2);
                                lemma_log_never_enters_top(tree, active.push(s), goal_of(tree, r), (fuel - 1) as nat, rest2);
                                assert forall|i: int| 0 <= i < calls.len() implies #[trigger] entry_of(
                                    calls[i],
                                ) != Some(0usize) by {
                                    if i > 1 {
                                        assert(calls[i] == rest2[i - 2]);
                                    }
                                }
                            } else {
                                lemma_log_never_enters_top(tree, active.push(s), Some((t, false)), (fuel - 1) as nat, rest);
                                assert forall|i: int| 0 <= i < calls.len() implies #[trigger] entry_of(
                                    calls[i],
                                ) != Some(0usize) by {
                                    if i > 0 {
                                        assert(calls[i] == rest[i - 1]);
                                    }
                                }
                            }
                        } else {
                            lemma_log_never_enters_top(tree, active, goal_of(tree, a), (fuel - 1) as nat, rest);
                            assert forall|i: int| 0 <= i < calls.len() implies #[trigger] entry_of(calls[i])
                                != Some(0usize) by {
                                if i > 0 {
                                    assert(calls[i] == rest[i - 1]);
                                }
                            }
                        }
                    },
                    Move::InitTop => {
                        let r = calls[0]->Init_1;
                        lemma_log_never_enters_top(tree, active, goal_of(tree, r), (fuel - 1) as nat, rest);
                        assert forall|i: int| 0 <= i < calls.len() implies #[trigger] entry_of(calls[i])
                            != Some(0usize) by {
                            if i > 0 {
                                assert(calls[i] == rest[i - 1]);
                            }
                        }
                    },
                }
            }
        },
    }
}

/// A call that enters nothing, pushed on the record, leaves every state top-down updated since
/// its entry so, and adds the state it top-down updates, if any.
proof fn lemma_since_entry_push(c: Seq<Call>, y: Call, x: usize)
    requires
        entry_of(y) is None,
    ensures
        top_down_updated_since_entry(c.push(y), x) == (top_down_update_of(y) == Some(x)
            || top_down_updated_since_entry(c, x)),
{
    reveal(top_down_updated_since_entry);
    let d = c.push(y);
    if top_down_update_of(y) == Some(x) {
        assert(top_down_update_of(d[c.len() as int]) == Some(x));
        assert forall|e: int| c.len() < e < d.len() implies #[trigger] entry_of(d[e]) != Some(x) by {}
    }
    if top_down_updated_since_entry(c, x) {
        let i = choose|i: int|
            0 <= i < c.len() && #[trigger] top_down_update_of(c[i]) == Some(x) && forall|e: int|
                i < e < c.len() ==> #[trigger] entry_of(c[e]) != Some(x);
        assert(d[i] == c[i]);
        assert forall|e: int| i < e < d.len() implies #[trigger] entry_of(d[e]) != Some(x) by {
            if e < c.len() {
                assert(d[e] == c[e]);
            }
        }
    }
    if top_down_updated_since_entry(d, x) && top_down_update_of(y) != Some(x) {
        let i = choose|i: int|
            0 <= i < d.len() && #[trigger] top_down_update_of(d[i]) == Some(x) && forall|e: int|
                i < e < d.len() ==> #[trigger] entry_of(d[e]) != Some(x);
        assert(i < c.len());
        assert(c[i] == d[i]);
        assert forall|e: int| i < e < c.len() implies #[trigger] entry_of(c[e]) != Some(x) by {
            assert(d[e] == c[e]);
        }
    }
}

/// Calls that top-down update nothing, appended to the record, keep a state top-down updated
/// since its entry exactly when they do not enter it.
proof fn lemma_since_entry_append(c: Seq<Call>, d: Seq<Call>, x: usize)
    requires
        forall|i: int| 0 <= i < d.len() ==> #[trigger] top_down_update_of(d[i]) is None,
    ensures
        top_down_updated_since_entry(c + d, x) == (top_down_updated_since_entry(c, x)
            && !entered_in(d, x)),
{
    reveal(top_down_updated_since_entry);
    let f = c + d;
    if top_down_updated_since_entry(f, x) {
        let i = choose|i: int|
            0 <= i < f.len() && #[trigger] top_down_update_of(f[i]) == Some(x) && forall|e: int|
                i < e < f.len() ==> #[trigger] entry_of(f[e]) != Some(x);
        if i >= c.len() {
            assert(f[i] == d[i - c.len()]);
        }
        assert(c[i] == f[i]);
        assert forall|e: int| i < e < c.len() implies #[trigger] entry_of(c[e]) != Some(x) by {
            assert(f[e] == c[e]);
        }
        if entered_in(d, x) {
            let e = choose|e: int| 0 <= e < d.len() && #[trigger] entry_of(d[e]) == Some(x);
            assert(f[c.len() + e] == d[e]);
        }
    }
    if top_down_updated_since_entry(c, x) && !entered_in(d, x) {
        let i = choose|i: int|
            0 <= i < c.len() && #[trigger] top_down_update_of(c[i]) == Some(x) && forall|e: int|
                i < e < c.len() ==> #[trigger] entry_of(c[e]) != Some(x);
        assert(f[i] == c[i]);
        assert forall|e: int| i < e < f.len() implies #[trigger] entry_of(f[e]) != Some(x) by {
            if e < c.len() {
                assert(f[e] == c[e]);
            } else {
                assert(f[e] == d[e - c.len()]);
            }
        }
    }
}

/// At the start of a top-down pass nothing is flagged and nothing is recorded.
proof fn lemma_top_down_start(tree: StateTree, active: Seq<usize>)
    ensures
        top_down_flags(tree, active, Seq::new(active.len(), |i: int| false), Seq::<Call>::empty()),
{
    reveal(top_down_updated_since_entry);
    reveal(top_down_once_per_entry);
    reveal(top_down_descends);
}

/// The record of a transition, appended after a top-down update, so that the record since the
/// pass began is the record up to it followed by the transition's.
proof fn lemma_top_down_segment(
    tree: StateTree,
    c0: Seq<Call>,
    mid: Seq<Call>,
    fin: Seq<Call>,
    active: Seq<usize>,
    done: Seq<bool>,
    active2: Seq<usize>,
    done2: Seq<bool>,
    goal: Option<(usize, bool)>,
    fuel: nat,
)
    requires
        tree.wf(),
        tree.is_active_path(active),
        c0.is_prefix_of(mid),
        mid.is_prefix_of(fin),
        calls_since(c0, mid).len() > 0,
        top_down_flags(tree, active, done, calls_since(c0, mid)),
        forall|i: int| mid.len() <= i < fin.len() ==> transition_call(#[trigger] fin[i]),
        goal matches Some((t, _)) ==> t < tree.size(),
        goal is Some ==> run_log(tree, active, goal, fuel, calls_since(mid, fin)) is Some,
        goal is None ==> fin == mid,
        done2.len() == active2.len(),
        forall|k: int|
            0 <= k < active2.len() ==> #[trigger] done2[k] == false || (k < active.len()
                && active2[k] == active[k] && done2[k] == done[k] && !entered_in(
                fin.subrange(mid.len() as int, fin.len() as int),
                active2[k],
            )),
        forall|k: int|
            0 <= k < active2.len() ==> (k < active.len() && #[trigger] active2[k] == active[k]
                && done2[k] == done[k]) || entered_in(calls_since(mid, fin), active2[k]),
    ensures
        top_down_flags(tree, active2, done2, calls_since(c0, fin)),
{
    let seg = calls_since(mid, fin);
    if goal is Some {
        lemma_log_never_enters_top(tree, active, goal, fuel, seg);
    } else {
        assert(seg.len() == 0);
    }
    assert forall|i: int| 0 <= i < seg.len() implies transition_call(#[trigger] seg[i]) by {
        assert(seg[i] == fin[mid.len() + i]);
    }
    lemma_since_extends(c0, mid, fin);
    assert(calls_since(c0, fin) =~= calls_since(c0, mid) + seg);
    lemma_top_down_settled(tree, active, done, calls_since(c0, mid), seg, active2, done2);
}

/// A call that enters nothing and top-down updates a state not top-down updated since its
/// entry keeps each state top-down updated at most once per entry.
proof fn lemma_once_push(calls: Seq<Call>, y: Call, s: usize)
    requires
        top_down_once_per_entry(calls),
        entry_of(y) is None,
        top_down_update_of(y) == Some(s),
        !top_down_updated_since_entry(calls, s),
    ensures
        top_down_once_per_entry(calls.push(y)),
{
    reveal(top_down_updated_since_entry);
    reveal(top_down_once_per_entry);
    let d = calls.push(y);
    assert forall|i: int, j: int|
        0 <= i < j < d.len() && (#[trigger] top_down_update_of(d[i])) is Some
            && top_down_update_of(d[i]) == #[trigger] top_down_update_of(d[j]) implies exists|e: int|
        i < e < j && #[trigger] entry_of(d[e]) == top_down_update_of(d[i]) by {
        assert(d[i] == calls[i]);
        if j < calls.len() {
            assert(d[j] == calls[j]);
            let e = choose|e: int| i < e < j && #[trigger] entry_of(calls[e]) == top_down_update_of(
                calls[i],
            );
            assert(d[e] == calls[e]);
        } else {
            assert(top_down_update_of(calls[i]) == Some(s));
            if forall|e: int| i < e < calls.len() ==> #[trigger] entry_of(calls[e]) != Some(s) {
                assert(top_down_updated_since_entry(calls, s));
            }
            let e = choose|e: int| i < e < calls.len() && #[trigger] entry_of(calls[e]) == Some(s);
            assert(d[e] == calls[e]);
        }
    }
}

/// A top-down update of a state below the top whose superstate was top-down updated since its
/// entry keeps the top-down updates going down the tree.
proof fn lemma_descends_push(tree: StateTree, calls: Seq<Call>, y: Call, s: usize)
    requires
        top_down_descends(tree, calls),
        calls.len() > 0,
        top_down_update_of(y) == Some(s),
        s != 0,
        top_down_updated_since_entry(calls, tree.parent(s)),
    ensures
        top_down_descends(tree, calls.push(y)),
{
    reveal(top_down_descends);
    let d = calls.push(y);
    assert forall|j: int|
        0 <= j < d.len() && (#[trigger] top_down_update_of(d[j])) is Some implies if j == 0 {
        top_down_update_of(d[j]) == Some(0usize)
    } else {
        top_down_update_of(d[j]) != Some(0usize) && top_down_updated_since_entry(
            d.take(j),
            tree.parent(top_down_update_of(d[j])->0),
        )
    } by {
        if j < calls.len() {
            assert(d[j] == calls[j]);
            assert(d.take(j) =~= calls.take(j));
        } else {
            assert(d.take(j) =~= calls);
        }
    }
}

/// The flags of a pass after the top-down update of the state at `k`.
proof fn lemma_flags_push(active: Seq<usize>, done: Seq<bool>, calls: Seq<Call>, k: int, y: Call)
    requires
        done.len() == active.len(),
        0 <= k < active.len(),
        forall|j: int| 0 <= j < active.len() && active[j] == active[k] ==> j == k,
        forall|j: int|
            0 <= j < active.len() ==> (done[j] <==> top_down_updated_since_entry(
                calls,
                #[trigger] active[j],
            )),
        entry_of(y) is None,
        top_down_update_of(y) == Some(active[k]),
    ensures
        forall|j: int|
            0 <= j < active.len() ==> (done.update(k, true)[j] <==> top_down_updated_since_entry(
                calls.push(y),
                #[trigger] active[j],
            )),
{
    assert forall|j: int| 0 <= j < active.len() implies (done.update(k, true)[j]
        <==> top_down_updated_since_entry(calls.push(y), #[trigger] active[j])) by {
        lemma_since_entry_push(calls, y, active[j]);
    }
}

/// Top-down updating the shallowest state of the pass not yet flagged keeps the flags and the
/// rules of a top-down pass.
#[verifier::rlimit(60)]
proof fn lemma_top_down_push(
    tree: StateTree,
    active: Seq<usize>,
    done: Seq<bool>,
    calls: Seq<Call>,
    k: int,
    r: Next<usize>,
)
    requires
        tree.wf(),
        tree.is_active_path(active),
        top_down_flags(tree, active, done, calls),
        0 <= k < active.len(),
        !done[k],
        forall|j: int| 0 <= j < k ==> done[j],
        calls.len() == 0 ==> k == 0,
    ensures
        top_down_flags(
            tree,
            active,
            done.update(k, true),
            calls.push(Call::TopDownUpdate(active[k], k as usize, r)),
        ),
{
    let s = active[k];
    let y = Call::TopDownUpdate(s, k as usize, r);
    let d = calls.push(y);
    if calls.len() > 0 && k == 0 {
        assert(top_down_updated_since_entry(calls, 0)) by {
            reveal(top_down_updated_since_entry);
            assert(top_down_update_of(calls[0]) == Some(0usize));
        }
        assert(active[0] == 0);
    }
    assert forall|j: int| 0 <= j < active.len() && active[j] == active[k] implies j == k by {
        tree.lemma_active_path_distinct(active, j, k);
    }
    lemma_flags_push(active, done, calls, k, y);
    lemma_once_push(calls, y, s);
    if calls.len() > 0 {
        assert(done[k - 1]);
        assert(tree.parent(s) == active[k - 1]);
        lemma_descends_push(tree, calls, y, s);
        assert(d[0] == calls[0]);
    } else {
        assert(top_down_descends(tree, d)) by {
            reveal(top_down_descends);
            assert forall|j: int|
                0 <= j < d.len() && (#[trigger] top_down_update_of(d[j])) is Some implies j == 0
                && top_down_update_of(d[j]) == Some(0usize) by {}
        }
    }
    assert forall|i: int| 0 <= i < d.len() implies #[trigger] entry_of(d[i]) != Some(0usize) by {
        if i < calls.len() {
            assert(d[i] == calls[i]);
        }
    }
}

/// The flags of a pass after a transition: kept states keep theirs, entered ones lose them.
proof fn lemma_flags_settled(
    active: Seq<usize>,
    done: Seq<bool>,
    calls: Seq<Call>,
    seg: Seq<Call>,
    active2: Seq<usize>,
    done2: Seq<bool>,
)
    requires
        forall|k: int|
            0 <= k < active.len() ==> (done[k] <==> top_down_updated_since_entry(
                calls,
                #[trigger] active[k],
            )),
        forall|i: int| 0 <= i < seg.len() ==> #[trigger] top_down_update_of(seg[i]) is None,
        done2.len() == active2.len(),
        forall|k: int|
            0 <= k < active2.len() ==> #[trigger] done2[k] == false || (k < active.len()
                && active2[k] == active[k] && done2[k] == done[k] && !entered_in(seg, active2[k])),
        forall|k: int|
            0 <= k < active2.len() ==> (k < active.len() && #[trigger] active2[k] == active[k]
                && done2[k] == done[k]) || entered_in(seg, active2[k]),
    ensures
        forall|k: int|
            0 <= k < active2.len() ==> (done2[k] <==> top_down_updated_since_entry(
                calls + seg,
                #[trigger] active2[k],
            )),
{
    assert forall|k: int| 0 <= k < active2.len() implies (done2[k] <==> top_down_updated_since_entry(
        calls + seg,
        #[trigger] active2[k],
    )) by {
        lemma_since_entry_append(calls, seg, active2[k]);
        if done2[k] {
            assert(k < active.len() && active2[k] == active[k] && done[k]);
        } else if !entered_in(seg, active2[k]) {
            assert(k < active.len() && active2[k] == active[k] && !done[k]);
        }
    }
}

/// Calls that top-down update nothing keep the rules of a top-down pass.
proof fn lemma_rules_append(tree: StateTree, calls: Seq<Call>, seg: Seq<Call>)
    requires
        top_down_once_per_entry(calls),
        top_down_descends(tree, calls),
        forall|i: int| 0 <= i < seg.len() ==> #[trigger] top_down_update_of(seg[i]) is None,
    ensures
        top_down_once_per_entry(calls + seg),
        top_down_descends(tree, calls + seg),
{
    reveal(top_down_once_per_entry);
    reveal(top_down_descends);
    let f = calls + seg;
    assert forall|i: int, j: int|
        0 <= i < j < f.len() && (#[trigger] top_down_update_of(f[i])) is Some
            && top_down_update_of(f[i]) == #[trigger] top_down_update_of(f[j]) implies exists|e: int|
        i < e < j && #[trigger] entry_of(f[e]) == top_down_update_of(f[i]) by {
        if j >= calls.len() {
            assert(f[j] == seg[j - calls.len()]);
        }
        assert(f[j] == calls[j]);
        assert(f[i] == calls[i]);
        let e = choose|e: int| i < e < j && #[trigger] entry_of(calls[e]) == top_down_update_of(
            calls[i],
        );
        assert(f[e] == calls[e]);
    }
    assert forall|j: int|
        0 <= j < f.len() && (#[trigger] top_down_update_of(f[j])) is Some implies if j == 0 {
        top_down_update_of(f[j]) == Some(0usize)
    } else {
        top_down_update_of(f[j]) != Some(0usize) && top_down_updated_since_entry(
            f.take(j),
            tree.parent(top_down_update_of(f[j])->0),
        )
    } by {
        if j >= calls.len() {
            assert(f[j] == seg[j - calls.len()]);
        }
        assert(f[j] == calls[j]);
        assert(f.take(j) =~= calls.take(j));
    }
}

/// Carrying out a transition after a top-down update keeps the flags of the states that stayed
/// active, clears those of the states entered, and keeps the rules of a top-down pass.
proof fn lemma_top_down_settled(
    tree: StateTree,
    active: Seq<usize>,
    done: Seq<bool>,
    calls: Seq<Call>,
    seg: Seq<Call>,
    active2: Seq<usize>,
    done2: Seq<bool>,
)
    requires
        top_down_flags(tree, active, done, calls),
        calls.len() > 0,
        forall|i: int| 0 <= i < seg.len() ==> transition_call(#[trigger] seg[i]),
        forall|i: int| 0 <= i < seg.len() ==> #[trigger] entry_of(seg[i]) != Some(0usize),
        done2.len() == active2.len(),
        forall|k: int|
            0 <= k < active2.len() ==> #[trigger] done2[k] == false || (k < active.len()
                && active2[k] == active[k] && done2[k] == done[k] && !entered_in(seg, active2[k])),
        forall|k: int|
            0 <= k < active2.len() ==> (k < active.len() && #[trigger] active2[k] == active[k]
                && done2[k] == done[k]) || entered_in(seg, active2[k]),
    ensures
        top_down_flags(tree, active2, done2, calls + seg),
{
    let f = calls + seg;
    assert forall|i: int| 0 <= i < seg.len() implies #[trigger] top_down_update_of(seg[i]) is None by {
        assert(transition_call(seg[i]));
    }
    lemma_flags_settled(active, done, calls, seg, active2, done2);
    lemma_rules_append(tree, calls, seg);
    assert forall|i: int| 0 <= i < f.len() implies #[trigger] entry_of(f[i]) != Some(0usize) by {
        if i < calls.len() {
            assert(f[i] == calls[i]);
        } else {
            assert(f[i] == seg[i - calls.len()]);
        }
    }
    if calls.len() > 0 {
        assert(f[0] == calls[0]);
    }
}

/// One more call named at its state's depth keeps every call so named.
proof fn lemma_levels_push(tree: StateTree, c0: Seq<Call>, c: Seq<Call>, x: Call)
    requires
        c0.is_prefix_of(c),
        levels_match(tree, calls_since(c0, c)),
        level_matches(tree, x),
    ensures
        levels_match(tree, calls_since(c0, c.push(x))),
{
    lemma_since_push(c0, c, x);
    let a = calls_since(c0, c);
    let b = calls_since(c0, c.push(x));
    assert forall|i: int| 0 <= i < b.len() implies #[trigger] level_matches(tree, b[i]) by {
        if i < a.len() {
            assert(b[i] == a[i]);
        }
    }
}

/// The calls of a transition name no state at a depth, so they keep every call named at its
/// state's depth.
proof fn lemma_levels_settled(tree: StateTree, c0: Seq<Call>, mid: Seq<Call>, fin: Seq<Call>)
    requires
        c0.is_prefix_of(mid),
        mid.is_prefix_of(fin),
        levels_match(tree, calls_since(c0, mid)),
        forall|i: int| mid.len() <= i < fin.len() ==> transition_call(#[trigger] fin[i]),
    ensures
        levels_match(tree, calls_since(c0, fin)),
{
    let a = calls_since(c0, mid);
    let f = calls_since(c0, fin);
    assert forall|i: int| 0 <= i < f.len() implies #[trigger] level_matches(tree, f[i]) by {
        assert(f[i] == fin[c0.len() + i]);
        if i < a.len() {
            assert(fin[c0.len() + i] == mid[c0.len() + i]);
            assert(a[i] == mid[c0.len() + i]);
        } else {
            assert(transition_call(fin[c0.len() + i]));
        }
    }
}

/// The first update in `calls`, of `s`, followed by nothing but the calls of a transition: no
/// other state is updated in them, and the states entered are those entered in that
/// transition.
proof fn lemma_first_segment(calls: Seq<Call>, s: usize)
    requires
        calls.len() >= 1,
        calls[0] matches Call::Update(s1, _, _) && s1 == s,
        forall|i: int| 1 <= i < calls.len() ==> transition_call(#[trigger] calls[i]),
    ensures
        updated_in(calls, s),
        forall|x: usize| updated_in(calls, x) ==> x == s,
        forall|x: usize|
            entered_in(calls, x) <==> entered_in(calls.subrange(1, calls.len() as int), x),
{
    let sub = calls.subrange(1, calls.len() as int);
    assert(update_of(calls[0]) == Some(s));
    assert forall|x: usize| updated_in(calls, x) implies x == s by {
        let i = choose|i: int| 0 <= i < calls.len() && #[trigger] update_of(calls[i]) == Some(x);
        if i > 0 {
            assert(transition_call(calls[i]));
        }
    }
    assert forall|x: usize| entered_in(calls, x) <==> entered_in(sub, x) by {
        if entered_in(calls, x) {
            let i = choose|i: int| 0 <= i < calls.len() && #[trigger] entry_of(calls[i]) == Some(x);
            assert(i > 0);
            assert(sub[i - 1] == calls[i]);
        }
        if entered_in(sub, x) {
            let i = choose|i: int| 0 <= i < sub.len() && #[trigger] entry_of(sub[i]) == Some(x);
            assert(sub[i] == calls[i + 1]);
        }
    }
}

/// Every answer recorded since `c0` is one that the action of its state may give, counted by
/// its place in the whole record.
pub proof fn lemma_answered_since<U, D, E, H: SubstateEnum<U, D, E>>(c0: Seq<Call>, c: Seq<Call>)
    requires
        c0.is_prefix_of(c),
        all_answered::<U, D, E, H>(calls_since(c0, c)),
    ensures
        forall|i: int| c0.len() <= i < c.len() ==> answered::<U, D, E, H>(#[trigger] c[i]),
{
    assert forall|i: int| c0.len() <= i < c.len() implies answered::<U, D, E, H>(#[trigger] c[i]) by {
        assert(calls_since(c0, c)[i - c0.len()] == c[i]);
    }
}

/// Recorded answers since `c0` up to `mid`, and since `mid`, are all the recorded answers since
/// `c0`.
proof fn lemma_answered_parts<U, D, E, H: SubstateEnum<U, D, E>>(
    c0: Seq<Call>,
    mid: Seq<Call>,
    fin: Seq<Call>,
)
    requires
        c0.is_prefix_of(mid),
        mid.is_prefix_of(fin),
        all_answered::<U, D, E, H>(calls_since(c0, mid)),
        all_answered::<U, D, E, H>(calls_since(mid, fin)),
    ensures
        all_answered::<U, D, E, H>(calls_since(c0, fin)),
{
    let a = calls_since(c0, mid);
    let b = calls_since(mid, fin);
    let f = calls_since(c0, fin);
    assert forall|i: int| 0 <= i < f.len() implies #[trigger] answered::<U, D, E, H>(f[i]) by {
        if i < a.len() {
            assert(f[i] == fin[c0.len() + i]);
            assert(fin[c0.len() + i] == mid[c0.len() + i]);
            assert(a[i] == mid[c0.len() + i]);
        } else {
            assert(f[i] == b[i - a.len()]);
        }
    }
}

/// The moves of a transition from an active path to a state of the tree fit within the step
/// limit: each path is no longer than one more than a machine integer.
proof fn lemma_within_steps(tree: StateTree, active: Seq<usize>, t: usize)
    requires
        tree.wf(),
        tree.is_active_path(active),
        t < tree.size(),
    ensures
        active.len() + tree.path(t).len() <= STEP_LIMIT,
{
    tree.lemma_active_path_is_path(active);
    tree.lemma_path(t);
    tree.lemma_depth_bound(active.last());
    tree.lemma_depth_bound(t);
}

/// A transition whose record holds no request makes the calls of the plan's run, and ends
/// where that run ends.
proof fn lemma_log_no_requests(
    tree: StateTree,
    active: Seq<usize>,
    t: usize,
    ex: bool,
    fuel: nat,
    calls: Seq<Call>,
    fin: Seq<usize>,
)
    requires
        tree.wf(),
        tree.is_active_path(active),
        t < tree.size(),
        run_log(tree, active, Some((t, ex)), fuel, calls) == Some(fin),
        no_requests(calls),
    ensures
        calls == run_calls(tree, active, t, ex, fuel),
        fin == tree.run(active, t, ex, fuel),
    decreases calls.len(),
{
    if fuel == 0 || calls.len() == 0 {
        if fuel > 0 {
            assert(tree.plan(active, t, ex) is Stay);
        }
        assert(calls =~= Seq::<Call>::empty());
    } else {
        tree.lemma_plan_sound(active, t, ex);
        let rest = calls.drop_first();
        assert(no_requests(rest)) by {
            assert forall|i: int| 0 <= i < rest.len() implies #[trigger] request_of(rest[i]) is None by {
                assert(rest[i] == calls[i + 1]);
                assert(request_of(calls[i + 1]) is None);
            }
        }
        assert(request_of(calls[0]) is None);
        match tree.plan(active, t, ex) {
            Move::Stay => {},
            Move::Exit => {
                tree.lemma_pop_active(active);
                lemma_log_no_requests(tree, active.drop_last(), t, ex, (fuel - 1) as nat, rest, fin);
                assert(calls =~= seq![calls[0]] + rest);
            },
            Move::Enter(s) => {
                if s == t {
                    assert(request_of(calls[1]) is None);
                    let rest2 = calls.skip(2);
                    assert(rest2.len() == 0) by {
                        if rest2.len() > 0 {
                            assert(run_log(tree, active.push(s), None, (fuel - 1) as nat, rest2) is None);
                        }
                    }
                    assert(calls =~= seq![calls[0], calls[1]]);
                } else {
                    lemma_log_no_requests(tree, active.push(s), t, false, (fuel - 1) as nat, rest, fin);
                    assert(calls =~= seq![calls[0]] + rest);
                }
            },
            Move::InitTop => {
                assert(rest.len() == 0) by {
                    if rest.len() > 0 {
                        assert(run_log(tree, active, None, (fuel - 1) as nat, rest) is None);
                    }
                }
                assert(calls =~= seq![calls[0]]);
            },
        }
    }
}

/// Carrying on from a step of a transition: what the record since the start gives is what the
/// record after the step gives from the state after it.
proof fn lemma_log_advance(
    tree: StateTree,
    start_active: Seq<usize>,
    g0: Option<(usize, bool)>,
    budget: nat,
    since: Seq<Call>,
    step: Seq<Call>,
    active: Seq<usize>,
    goal: Option<(usize, bool)>,
    fuel: nat,
    active2: Seq<usize>,
    goal2: Option<(usize, bool)>,
    fuel2: nat,
)
    requires
        forall|rest: Seq<Call>| #[trigger] run_log(tree, active, goal, fuel, rest) == run_log(
            tree,
            start_active,
            g0,
            budget,
            since + rest,
        ),
        forall|rest: Seq<Call>| #[trigger] run_log(tree, active2, goal2, fuel2, rest) == run_log(
            tree,
            active,
            goal,
            fuel,
            step + rest,
        ),
    ensures
        forall|rest: Seq<Call>| #[trigger] run_log(tree, active2, goal2, fuel2, rest) == run_log(
            tree,
            start_active,
            g0,
            budget,
            (since + step) + rest,
        ),
{
    assert forall|rest: Seq<Call>| #[trigger] run_log(tree, active2, goal2, fuel2, rest) == run_log(
        tree,
        start_active,
        g0,
        budget,
        (since + step) + rest,
    ) by {
        assert((since + step) + rest =~= since + (step + rest));
        assert(run_log(tree, active, goal, fuel, step + rest) == run_log(
            tree,
            start_active,
            g0,
            budget,
            since + (step + rest),
        ));
    }
}

/// The step of a transition that exits the deepest active state, after which the goal is
/// `g2`: the target that the exit asked for, if it named a state, else the same target.
proof fn lemma_log_exit_step(
    tree: StateTree,
    active: Seq<usize>,
    t: usize,
    ex: bool,
    fuel: nat,
    r: Next<usize>,
    g2: Option<(usize, bool)>,
)
    requires
        fuel >= 1,
        tree.plan(active, t, ex) == Move::Exit,
        g2 == (match goal_of(tree, r) {
            Some(g) => Some(g),
            None => Some((t, ex)),
        }),
    ensures
        forall|rest: Seq<Call>| #[trigger] run_log(
            tree,
            active.drop_last(),
            g2,
            (fuel - 1) as nat,
            rest,
        ) == run_log(tree, active, Some((t, ex)), fuel, seq![Call::Exit(active.last(), r)] + rest),
{
    assert forall|rest: Seq<Call>| #[trigger] run_log(
        tree,
        active.drop_last(),
        g2,
        (fuel - 1) as nat,
        rest,
    ) == run_log(tree, active, Some((t, ex)), fuel, seq![Call::Exit(active.last(), r)] + rest) by {
        lemma_front(Call::Exit(active.last(), r), rest);
    }
}

/// The step of a transition that enters a state on the way to the target.
proof fn lemma_log_enter_step(
    tree: StateTree,
    active: Seq<usize>,
    t: usize,
    ex: bool,
    fuel: nat,
    s: usize,
)
    requires
        fuel >= 1,
        tree.plan(active, t, ex) == Move::Enter(s),
        s != t,
    ensures
        forall|rest: Seq<Call>| #[trigger] run_log(
            tree,
            active.push(s),
            Some((t, false)),
            (fuel - 1) as nat,
            rest,
        ) == run_log(tree, active, Some((t, ex)), fuel, seq![Call::Enter(s, Next::Stay)] + rest),
{
    assert forall|rest: Seq<Call>| #[trigger] run_log(
        tree,
        active.push(s),
        Some((t, false)),
        (fuel - 1) as nat,
        rest,
    ) == run_log(tree, active, Some((t, ex)), fuel, seq![Call::Enter(s, Next::Stay)] + rest) by {
        lemma_front(Call::Enter(s, Next::Stay), rest);
    }
}

/// The step of a transition that enters its target and takes the target's initial
/// transition.
proof fn lemma_log_target_step(
    tree: StateTree,
    active: Seq<usize>,
    t: usize,
    ex: bool,
    fuel: nat,
    r: Next<usize>,
)
    requires
        fuel >= 1,
        tree.plan(active, t, ex) == Move::Enter(t),
    ensures
        forall|rest: Seq<Call>| #[trigger] run_log(
            tree,
            active.push(t),
            goal_of(tree, r),
            (fuel - 1) as nat,
            rest,
        ) == run_log(
            tree,
            active,
            Some((t, ex)),
            fuel,
            seq![Call::Enter(t, Next::Stay), Call::Init(t, r)] + rest,
        ),
{
    assert forall|rest: Seq<Call>| #[trigger] run_log(
        tree,
        active.push(t),
        goal_of(tree, r),
        (fuel - 1) as nat,
        rest,
    ) == run_log(
        tree,
        active,
        Some((t, ex)),
        fuel,
        seq![Call::Enter(t, Next::Stay), Call::Init(t, r)] + rest,
    ) by {
        lemma_front2(Call::Enter(t, Next::Stay), Call::Init(t, r), rest);
    }
}

/// The step of a transition in which an entry is refused and redirects it.
proof fn lemma_log_refused_step(
    tree: StateTree,
    active: Seq<usize>,
    t: usize,
    ex: bool,
    fuel: nat,
    s: usize,
    a: Next<usize>,
)
    requires
        fuel >= 1,
        tree.plan(active, t, ex) == Move::Enter(s),
        !(a is Stay),
    ensures
        forall|rest: Seq<Call>| #[trigger] run_log(
            tree,
            active,
            goal_of(tree, a),
            (fuel - 1) as nat,
            rest,
        ) == run_log(tree, active, Some((t, ex)), fuel, seq![Call::Enter(s, a)] + rest),
{
    assert forall|rest: Seq<Call>| #[trigger] run_log(
        tree,
        active,
        goal_of(tree, a),
        (fuel - 1) as nat,
        rest,
    ) == run_log(tree, active, Some((t, ex)), fuel, seq![Call::Enter(s, a)] + rest) by {
        lemma_front(Call::Enter(s, a), rest);
    }
}

/// The step of an exact transition to the top state: its initial transition.
proof fn lemma_log_init_top_step(
    tree: StateTree,
    active: Seq<usize>,
    t: usize,
    ex: bool,
    fuel: nat,
    r: Next<usize>,
)
    requires
        fuel >= 1,
        tree.plan(active, t, ex) == Move::InitTop,
    ensures
        forall|rest: Seq<Call>| #[trigger] run_log(
            tree,
            active,
            goal_of(tree, r),
            (fuel - 1) as nat,
            rest,
        ) == run_log(tree, active, Some((t, ex)), fuel, seq![Call::Init(0, r)] + rest),
{
    assert forall|rest: Seq<Call>| #[trigger] run_log(
        tree,
        active,
        goal_of(tree, r),
        (fuel - 1) as nat,
        rest,
    ) == run_log(tree, active, Some((t, ex)), fuel, seq![Call::Init(0, r)] + rest) by {
        lemma_front(Call::Init(0, r), rest);
    }
}

/// `n` flags, all set to `value`.
fn flags(n: usize, value: bool) -> (r: Vec<bool>)
    ensures
        r@ == Seq::new(n as nat, |i: int| value),
{
    let mut r: Vec<bool> = Vec::new();
    while r.len() < n
        invariant
            r@.len() <= n,
            forall|i: int| 0 <= i < r@.len() ==> r@[i] == value,
        decreases n - r@.len(),
    {
        r.push(value);
    }
    assert(r@ =~= Seq::new(n as nat, |i: int| value));
    r
}

/// The deepest index whose flag is not set.
fn last_unset(done: &Vec<bool>) -> (r: Option<usize>)
    ensures
        r matches Some(k) ==> k < done@.len() && !done@[k as int] && forall|j: int|
            k < j < done@.len() ==> done@[j],
        r is None ==> forall|j: int| 0 <= j < done@.len() ==> done@[j],
{
    let mut k = done.len();
    while k > 0
        invariant
            k <= done@.len(),
            forall|j: int| k <= j < done@.len() ==> done@[j],
        decreases k,
    {
        if !done[k - 1] {
            return Some(k - 1);
        }
        k = k - 1;
    }
    None
}

/// The shallowest index whose flag is not set.
fn first_unset(done: &Vec<bool>) -> (r: Option<usize>)
    ensures
        r matches Some(k) ==> k < done@.len() && !done@[k as int] && forall|j: int|
            0 <= j < k ==> done@[j],
        r is None ==> forall|j: int| 0 <= j < done@.len() ==> done@[j],
{
    let mut k: usize = 0;
    while k < done.len()
        invariant
            k <= done@.len(),
            forall|j: int| 0 <= j < k ==> done@[j],
        decreases done@.len() - k,
    {
        if !done[k] {
            return Some(k);
        }
        k = k + 1;
    }
    None
}

} // verus!
