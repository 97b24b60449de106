//! A state machine over any list of states: its [`StateMachine`] and [`StateMachineBuilder`].
use vstd::prelude::*;

use core::marker::PhantomData;

use crate::internal::{
    all_answered, answered, calls_since, data_fit, event_handled, event_run, event_settles,
    event_transition, first_update_runs, goal_of, last_request, lemma_answered_since, lemma_fit_update,
    requests_valid, run_log, Call, SubstateEnum, TopNode, STEP_LIMIT,
};
use crate::tree::StateTree;
use crate::{StateEnum, StateMachine, StateMachineBuilder};

verus! {

/// What a machine is made of besides the actions of its states: its tree of states, whose ids
/// are those of `T`, and its default name.
pub trait Definition<T: StateEnum> {
    /// The tree of states.
    fn tree() -> (r: StateTree)
        ensures
            r.wf(),
            r.size() == T::spec_count(),
    ;

    /// The name of a machine that was not given one, as [`Definition::default_name`] gives it.
    spec fn default_name_spec() -> String;

    /// The name of a machine that was not given one.
    fn default_name() -> (r: String)
        ensures
            r@ == Self::default_name_spec()@,
    ;
}

/// A state machine with states `T`, events `E`, top state `U`, substate data `D` and the
/// actions and definition `H`.
pub struct Machine<T: StateEnum, E, U, D, H: SubstateEnum<U, D, E> + Definition<T>> {
    top_node: TopNode<U, D>,
    marker: PhantomData<(T, E, H)>,
}

impl<T: StateEnum, E, U, D, H: SubstateEnum<U, D, E> + Definition<T>> Machine<T, E, U, D, H> {
    /// The machine is consistent and its tree has one state per variant of `T`.
    pub closed spec fn wf(&self) -> bool {
        self.top_node.wf() && self.top_node.tree().size() == T::spec_count()
    }

    /// The running machine underneath.
    pub closed spec fn node(&self) -> TopNode<U, D> {
        self.top_node
    }

    /// The data of each active state below the top is data that state may hold.
    pub open spec fn fits(&self) -> bool {
        data_fit::<U, D, E, H>(self.node().active(), self.node().stack())
    }

    /// A machine in its top state, initialised: the first call it makes is the top state's
    /// initial transition, and the rest of its record is that of the transition it asked for,
    /// which ends with the states now active.
    pub fn new(top_state: U, name: String) -> (r: Self)
        ensures
            r.wf(),
            r.node().tree().wf(),
            r.node().name_view() == name@,
            r.node().calls().len() >= 1,
            r.node().calls()[0] matches Call::Init(s, _) && s == 0,
            r.node().calls().len() <= STEP_LIMIT && requests_valid(r.node().tree(), r.node().calls())
                ==> r.node().active().contains(last_request(0, r.node().calls())),
            all_answered::<U, D, E, H>(r.node().calls()),
            r.node().calls()[0] matches Call::Init(_, a) && run_log(
                r.node().tree(),
                seq![0usize],
                goal_of(r.node().tree(), a),
                STEP_LIMIT as nat,
                r.node().calls().drop_first(),
            ) == Some(r.node().active()),
            r.fits(),
    {
        Self::with_tree(H::tree(), top_state, name)
    }

    /// A machine over `tree` in its top state, initialised as [`Machine::new`] says.
    pub(crate) fn with_tree(tree: StateTree, top_state: U, name: String) -> (r: Self)
        requires
            tree.wf(),
            tree.size() == T::spec_count(),
        ensures
            r.wf(),
            r.node().tree() == tree,
            r.node().name_view() == name@,
            r.node().calls().len() >= 1,
            r.node().calls()[0] matches Call::Init(s, _) && s == 0,
            r.node().calls().len() <= STEP_LIMIT && requests_valid(r.node().tree(), r.node().calls())
                ==> r.node().active().contains(last_request(0, r.node().calls())),
            all_answered::<U, D, E, H>(r.node().calls()),
            r.node().calls()[0] matches Call::Init(_, a) && run_log(
                r.node().tree(),
                seq![0usize],
                goal_of(r.node().tree(), a),
                STEP_LIMIT as nat,
                r.node().calls().drop_first(),
            ) == Some(r.node().active()),
            r.fits(),
    {
        let mut top_node = TopNode::new(tree, top_state, name);
        proof {
            assert(data_fit::<U, D, E, H>(top_node.active(), top_node.stack()));
        }
        top_node.init::<E, H>();
        proof {
            assert(calls_since(Seq::<Call>::empty(), top_node.calls()) =~= top_node.calls());
        }
        Machine { top_node, marker: PhantomData }
    }

    /// The data of the active substate with id `state`, if any.
    pub fn state_data(&self, state: usize) -> (r: Option<&D>)
        requires
            self.wf(),
        ensures
            r matches Some(d) ==> self.node().data_of(state) == Some(*d),
            r is None <==> self.node().data_of(state) is None,
    {
        self.top_node.state_data(state)
    }

    /// Mutable access to the data of the active substate with id `state`, if any.
    pub fn state_data_mut(&mut self, state: usize) -> (r: Option<&mut D>)
        requires
            old(self).wf(),
        ensures
            final(self).wf(),
            final(self).node().active() == old(self).node().active(),
            final(self).node().top() == old(self).node().top(),
            final(self).node().name_view() == old(self).node().name_view(),
            final(self).node().tree() == old(self).node().tree(),
            r is None <==> old(self).node().data_of(state) is None,
            r is None ==> final(self).node().stack() == old(self).node().stack(),
            r matches Some(d) ==> old(self).node().data_of(state) == Some(*d)
                && final(self).node().stack() == old(self).node().stack().update(
                old(self).node().level(state) - 1,
                *final(d),
            ),
            r matches Some(d) ==> final(self).node().data_of(state) == Some(*final(d)),
            r is None ==> final(self).node().data_of(state) == old(self).node().data_of(state),
            forall|s: usize|
                s != state ==> #[trigger] final(self).node().data_of(s) == old(self).node().data_of(
                    s,
                ),
            r is None ==> (old(self).fits() ==> final(self).fits()),
            r matches Some(d) ==> (old(self).fits() && H::data_fits(state, *final(d))
                ==> final(self).fits()),
    {
        proof {
            self.top_node.lemma_wf();
        }
        let r = self.top_node.state_data_mut(state);
        proof {
            if r is Some && old(self).fits() {
                let l = old(self).node().level(state);
                assert(old(self).node().active().contains(state));
                assert(old(self).node().active()[l] == state);
                assert(l != 0);
                assert forall|v: D| #[trigger] H::data_fits(state, v) implies data_fit::<U, D, E, H>(
                    old(self).node().active(),
                    old(self).node().stack().update(l - 1, v),
                ) by {
                    lemma_fit_update::<U, D, E, H>(
                        old(self).node().active(),
                        old(self).node().stack(),
                        l,
                        v,
                    );
                }
            }
        }
        r
    }

    /// A consistent machine runs a consistent machine underneath.
    pub proof fn lemma_node_wf(&self)
        requires
            self.wf(),
        ensures
            self.node().wf(),
    {
    }
}

impl<T: StateEnum, E, U, D, H: SubstateEnum<U, D, E> + Definition<T>> StateMachine<T, E, U> for Machine<
    T,
    E,
    U,
    D,
    H,
> {
    open spec fn well_formed(&self) -> bool {
        self.wf()
    }

    open spec fn tree(&self) -> StateTree {
        self.node().tree()
    }

    open spec fn active_ids(&self) -> Seq<usize> {
        self.node().active()
    }

    open spec fn top_state(&self) -> U {
        self.node().top()
    }

    open spec fn machine_name(&self) -> Seq<char> {
        self.node().name_view()
    }

    open spec fn calls(&self) -> Seq<Call> {
        self.node().calls()
    }

    open spec fn answers(&self, c: Call) -> bool {
        answered::<U, D, E, H>(c)
    }

    fn update(&mut self)
        ensures
            old(self).fits() ==> final(self).fits(),
    {
        self.top_node.update::<E, H>();
        proof {
            self.top_node.lemma_wf();
            lemma_answered_since::<U, D, E, H>(old(self).node().calls(), self.node().calls());
        }
    }

    fn top_down_update(&mut self)
        ensures
            old(self).fits() ==> final(self).fits(),
    {
        self.top_node.top_down_update::<E, H>();
        proof {
            self.top_node.lemma_wf();
            lemma_answered_since::<U, D, E, H>(old(self).node().calls(), self.node().calls());
            let (j, p) = choose|j: int, p: Seq<usize>|
                first_update_runs(
                    old(self).node().tree(),
                    old(self).node().active(),
                    calls_since(old(self).node().calls(), self.node().calls()),
                    j,
                    p,
                    true,
                ) && (j == calls_since(old(self).node().calls(), self.node().calls()).len()
                    ==> self.node().active() == p);
            assert(first_update_runs(
                old(self).tree(),
                old(self).active_ids(),
                calls_since(old(self).calls(), self.calls()),
                j,
                p,
                true,
            ));
        }
    }

    fn transition(&mut self, target: T)
        ensures
            old(self).fits() ==> final(self).fits(),
    {
        self.top_node.transition::<E, H>(target.id());
        proof {
            self.top_node.lemma_wf();
            lemma_answered_since::<U, D, E, H>(old(self).node().calls(), self.node().calls());
        }
    }

    fn exact_transition(&mut self, target: T)
        ensures
            old(self).fits() ==> final(self).fits(),
    {
        self.top_node.exact_transition::<E, H>(target.id());
        proof {
            self.top_node.lemma_wf();
            lemma_answered_since::<U, D, E, H>(old(self).node().calls(), self.node().calls());
        }
    }

    fn handle_event(&mut self, event: &E)
        ensures
            old(self).fits() ==> final(self).fits(),
    {
        self.top_node.handle_event::<E, H>(event);
        proof {
            self.top_node.lemma_wf();
            lemma_answered_since::<U, D, E, H>(old(self).node().calls(), self.node().calls());
            let m = choose|m: int|
                event_handled(
                    old(self).node().active(),
                    self.node().active(),
                    calls_since(old(self).node().calls(), self.node().calls()),
                    m,
                ) && event_transition(
                    old(self).node().tree(),
                    old(self).node().active(),
                    self.node().active(),
                    calls_since(old(self).node().calls(), self.node().calls()),
                    m,
                ) && event_run(
                    old(self).node().tree(),
                    old(self).node().active(),
                    self.node().active(),
                    calls_since(old(self).node().calls(), self.node().calls()),
                    m,
                ) && event_settles(
                    old(self).node().tree(),
                    self.node().active(),
                    calls_since(old(self).node().calls(), self.node().calls()),
                    m,
                );
            assert(event_handled(
                old(self).active_ids(),
                self.active_ids(),
                calls_since(old(self).calls(), self.calls()),
                m,
            ));
        }
    }

    fn state(&self) -> (r: T) {
        proof {
            self.top_node.lemma_wf();
        }
        T::from_id(self.top_node.state()).unwrap()
    }

    fn state_list(&self) -> (r: Vec<T>) {
        proof {
            self.top_node.lemma_wf();
        }
        let ids = self.top_node.active_states();
        let mut r: Vec<T> = Vec::new();
        let mut k: usize = 0;
        while k < ids.len()
            invariant
                self.wf(),
                ids@ == self.top_node.active(),
                k <= ids@.len(),
                r@.len() == k,
                forall|j: int| 0 <= j < k ==> #[trigger] r@[j].spec_id() == ids@[j],
            decreases ids@.len() - k,
        {
            proof {
                self.top_node.lemma_wf();
                self.top_node.tree().lemma_active_path_is_path(ids@);
                self.top_node.tree().lemma_path(ids@.last());
            }
            let s = T::from_id(ids[k]).unwrap();
            r.push(s);
            k = k + 1;
        }
        r
    }

    fn state_matches(&self, state: T) -> (r: bool) {
        self.top_node.state_matches(state.id())
    }

    fn top_ref(&self) -> (r: &U) {
        self.top_node.top_ref()
    }

    fn top_mut(&mut self) -> (r: &mut U)
        ensures
            final(self).node().stack() == old(self).node().stack(),
    {
        self.top_node.top_mut()
    }

    fn name(&self) -> (r: &str) {
        self.top_node.name()
    }

    fn set_name(&mut self, name: String)
        ensures
            final(self).node().stack() == old(self).node().stack(),
    {
        self.top_node.set_name(name);
    }
}

/// Builds a [`Machine`] from its top state, with an optional name.
pub struct Builder<T, E, U, D, H> {
    top_state: U,
    name: Option<String>,
    marker: PhantomData<(T, E, D, H)>,
}

impl<T: StateEnum, E, U, D, H: SubstateEnum<U, D, E> + Definition<T>> StateMachineBuilder<
    T,
    E,
    U,
    Machine<T, E, U, D, H>,
> for Builder<T, E, U, D, H> {
    closed spec fn given_name(&self) -> Option<Seq<char>> {
        match self.name {
            Some(n) => Some(n@),
            None => None,
        }
    }

    open spec fn default_name(&self) -> Seq<char> {
        H::default_name_spec()@
    }

    fn new(top_state: U) -> Self {
        Builder { top_state, name: None, marker: PhantomData }
    }

    fn name(self, name: String) -> Self {
        Builder { top_state: self.top_state, name: Some(name), marker: PhantomData }
    }

    fn build(self) -> (r: Machine<T, E, U, D, H>) {
        let name = match self.name {
            Some(name) => name,
            None => H::default_name(),
        };
        let r = Machine::new(self.top_state, name);
        proof {
            lemma_answered_since::<U, D, E, H>(Seq::<Call>::empty(), r.node().calls());
            assert(calls_since(Seq::<Call>::empty(), r.node().calls()) =~= r.node().calls());
        }
        r
    }
}

} // verus!
