//! The shape of a hierarchical state machine: a tree of states rooted at the top state.
use vstd::prelude::*;

verus! {

/// Walking superstate links from `i`, is the top state (id 0) reached within `fuel` steps?
pub open spec fn reaches_top(parents: Seq<usize>, i: usize, fuel: nat) -> bool
    decreases fuel,
{
    if i == 0 {
        true
    } else if fuel == 0 {
        false
    } else {
        i < parents.len() && parents[i as int] < parents.len() && reaches_top(
            parents,
            parents[i as int],
            (fuel - 1) as nat,
        )
    }
}

/// The number of superstate links between `i` and the top state.
pub open spec fn steps_to_top(parents: Seq<usize>, i: usize, fuel: nat) -> nat
    decreases fuel,
{
    if i == 0 || fuel == 0 {
        0
    } else {
        1 + steps_to_top(parents, parents[i as int], (fuel - 1) as nat)
    }
}

/// `parents` describes a tree rooted at state 0: the top state is its own superstate, every
/// superstate link names a state, and every state reaches the top.
pub open spec fn is_tree(parents: Seq<usize>) -> bool {
    &&& parents.len() >= 1
    &&& parents[0] == 0
    &&& forall|i: int| 0 <= i < parents.len() ==> #[trigger] parents[i] < parents.len()
    &&& forall|i: usize| i < parents.len() ==> #[trigger] reaches_top(parents, i, parents.len())
}

/// The state reached from `i` by following `t` superstate links.
pub open spec fn walk(parents: Seq<usize>, i: usize, t: nat) -> usize
    decreases t,
{
    if t == 0 {
        i
    } else {
        parents[walk(parents, i, (t - 1) as nat) as int]
    }
}

/// Walking superstate links from `i` through states with ids up to `bound`, is a state outside
/// them (the top state, or one with a greater id) reached within `fuel` steps?
pub open spec fn reaches_outside(parents: Seq<usize>, i: usize, bound: usize, fuel: nat) -> bool
    decreases fuel,
{
    if i == 0 || i > bound {
        true
    } else if fuel == 0 {
        false
    } else {
        i < parents.len() && reaches_outside(parents, parents[i as int], bound, (fuel - 1) as nat)
    }
}

/// The superstate link of state `i` closes a cycle among the links of the states with ids up
/// to `i`: following them from `i` never leaves those states.
pub open spec fn closes_cycle(parents: Seq<usize>, i: usize) -> bool {
    !reaches_outside(parents, i, i, parents.len())
}

/// What a transition does next, from the active path towards a target.
#[derive(PartialEq, Eq, Structural, Clone, Copy, Debug)]
pub enum Move {
    /// The target is already active: nothing to do.
    Stay,
    /// Exit the deepest active state.
    Exit,
    /// Enter the given state, a substate of the deepest active state.
    Enter(usize),
    /// Run the initial transition of the top state.
    InitTop,
}

/// The states of a machine: state 0 is the top state, every other state has a superstate.
pub struct StateTree {
    names: Vec<String>,
    parents: Vec<usize>,
    depths: Vec<usize>,
}

impl StateTree {
    /// The internal tables agree in length.
    pub closed spec fn inv(&self) -> bool {
        &&& self.names@.len() == self.parents@.len()
        &&& self.depths@.len() == self.parents@.len()
    }

    /// The number of states.
    pub closed spec fn size(&self) -> nat {
        self.parents@.len()
    }

    /// The superstate of state `i` (the top state is its own).
    pub closed spec fn parent(&self, i: usize) -> usize {
        self.parents@[i as int]
    }

    /// The number of superstates of state `i`.
    pub closed spec fn depth(&self, i: usize) -> nat {
        self.depths@[i as int] as nat
    }

    /// The name of state `i`.
    pub closed spec fn name(&self, i: usize) -> Seq<char> {
        self.names@[i as int]@
    }

    /// The superstate links of every state, by id.
    pub closed spec fn parents_view(&self) -> Seq<usize> {
        self.parents@
    }

    /// The names of every state, by id.
    pub closed spec fn names_view(&self) -> Seq<Seq<char>> {
        self.names@.map_values(|s: String| s@)
    }

    /// The tree is rooted at state 0 and every depth is one more than its superstate's.
    pub open spec fn wf(&self) -> bool {
        &&& self.inv()
        &&& self.size() >= 1
        &&& self.parent(0) == 0
        &&& self.depth(0) == 0
        &&& forall|i: usize|
            1 <= i < self.size() ==> {
                &&& #[trigger] self.parent(i) < self.size()
                &&& self.depth(i) == self.depth(self.parent(i)) + 1
            }
    }

    /// The path of states from the top state down to `i`, following `d` superstate links.
    pub open spec fn path_from(&self, i: usize, d: nat) -> Seq<usize>
        decreases d,
    {
        if d == 0 {
            seq![i]
        } else {
            self.path_from(self.parent(i), (d - 1) as nat).push(i)
        }
    }

    /// The path of states from the top state down to `i`: `i` and all its superstates.
    pub open spec fn path(&self, i: usize) -> Seq<usize> {
        self.path_from(i, self.depth(i))
    }

    /// `a` is a superstate of `b`, directly or through other superstates.
    pub open spec fn is_ancestor(&self, a: usize, b: usize) -> bool {
        a != b && self.path(b).contains(a)
    }

    /// `p` is a path down the tree from the top state: a possible set of active states.
    pub open spec fn is_active_path(&self, p: Seq<usize>) -> bool {
        &&& p.len() >= 1
        &&& p[0] == 0
        &&& forall|k: int|
            1 <= k < p.len() ==> {
                &&& 1 <= #[trigger] p[k] < self.size()
                &&& self.parent(p[k]) == p[k - 1]
            }
    }

    /// The deepest active state is a strict superstate of `target`, on the path towards it.
    pub open spec fn leads_to(&self, active: Seq<usize>, target: usize) -> bool {
        let pt = self.path(target);
        active.len() < pt.len() && pt[active.len() - 1] == active.last()
    }

    /// The next move of a transition towards `target` from the `active` path. An exact
    /// transition re-enters the target even when it is active; a normal one leaves an active
    /// target alone.
    pub open spec fn plan(&self, active: Seq<usize>, target: usize, exact: bool) -> Move {
        if exact && target == 0 {
            if active.len() > 1 {
                Move::Exit
            } else {
                Move::InitTop
            }
        } else if !exact && active.contains(target) {
            Move::Stay
        } else if self.leads_to(active, target) {
            Move::Enter(self.path(target)[active.len() as int])
        } else {
            Move::Exit
        }
    }

    /// A depth is the value of a machine integer.
    pub proof fn lemma_depth_bound(&self, i: usize)
        ensures
            self.depth(i) <= usize::MAX,
    {
    }

    /// The superstate links, read one state at a time.
    pub proof fn lemma_parents_view(&self)
        ensures
            self.parents_view().len() == self.size(),
            forall|i: usize| i < self.size() ==> #[trigger] self.parent(i) == self.parents_view()[i as int],
    {
    }

    pub proof fn lemma_depth_positive(&self, i: usize)
        requires
            self.wf(),
            1 <= i < self.size(),
        ensures
            self.depth(i) >= 1,
    {
        assert(self.parent(i) < self.size());
    }

    /// The path to a state starts at the top, ends at the state, and has one state per level.
    pub proof fn lemma_path(&self, i: usize)
        requires
            self.wf(),
            i < self.size(),
        ensures
            self.path(i).len() == self.depth(i) + 1,
            self.path(i)[0] == 0,
            self.path(i).last() == i,
            self.is_active_path(self.path(i)),
            forall|j: int|
                0 <= j < self.path(i).len() ==> #[trigger] self.path(i)[j] < self.size()
                    && self.depth(self.path(i)[j]) == j,
        decreases self.depth(i),
    {
        if i == 0 {
        } else {
            let p = self.parent(i);
            assert(1 <= i < self.size());
            self.lemma_path(p);
            assert(self.path(i) == self.path(p).push(i));
            let pi = self.path(i);
            let pp = self.path(p);
            assert forall|k: int| 1 <= k < pi.len() implies {
                &&& 1 <= #[trigger] pi[k] < self.size()
                &&& self.parent(pi[k]) == pi[k - 1]
            } by {
                if k < pi.len() - 1 {
                    assert(pi[k] == pp[k]);
                }
            }
            assert forall|j: int| 0 <= j < pi.len() implies #[trigger] pi[j] < self.size()
                && self.depth(pi[j]) == j by {
                if j < pi.len() - 1 {
                    assert(pi[j] == pp[j]);
                }
            }
        }
    }

    /// An active path is exactly the path to its deepest state.
    pub proof fn lemma_active_path_is_path(&self, p: Seq<usize>)
        requires
            self.wf(),
            self.is_active_path(p),
        ensures
            p == self.path(p.last()),
            p.last() < self.size(),
            self.depth(p.last()) == p.len() - 1,
        decreases p.len(),
    {
        if p.len() == 1 {
            assert(self.path(0) =~= seq![0usize]);
        } else {
            let q = p.drop_last();
            assert(self.is_active_path(q)) by {
                assert forall|k: int| 1 <= k < q.len() implies {
                    &&& 1 <= #[trigger] q[k] < self.size()
                    &&& self.parent(q[k]) == q[k - 1]
                } by {
                    assert(q[k] == p[k] && q[k - 1] == p[k - 1]);
                }
            }
            self.lemma_active_path_is_path(q);
            let x = p.last();
            assert(1 <= x < self.size());
            assert(self.parent(x) == q.last());
            assert(self.path(x) == self.path(q.last()).push(x));
            assert(p =~= q.push(x));
        }
    }

    /// A state occurs at most once on an active path: at the index of its depth.
    pub proof fn lemma_active_path_distinct(&self, p: Seq<usize>, i: int, j: int)
        requires
            self.wf(),
            self.is_active_path(p),
            0 <= i < p.len(),
            0 <= j < p.len(),
            p[i] == p[j],
        ensures
            i == j,
    {
        self.lemma_active_path_is_path(p);
        self.lemma_path(p.last());
    }

    /// Removing the deepest state of an active path leaves an active path.
    pub proof fn lemma_pop_active(&self, p: Seq<usize>)
        requires
            self.is_active_path(p),
            p.len() > 1,
        ensures
            self.is_active_path(p.drop_last()),
    {
        let q = p.drop_last();
        assert forall|k: int| 1 <= k < q.len() implies {
            &&& 1 <= #[trigger] q[k] < self.size()
            &&& self.parent(q[k]) == q[k - 1]
        } by {
            assert(q[k] == p[k] && q[k - 1] == p[k - 1]);
        }
    }

    /// Adding a substate of the deepest state to an active path gives an active path.
    pub proof fn lemma_push_active(&self, p: Seq<usize>, s: usize)
        requires
            self.is_active_path(p),
            1 <= s < self.size(),
            self.parent(s) == p.last(),
        ensures
            self.is_active_path(p.push(s)),
    {
        let q = p.push(s);
        assert forall|k: int| 1 <= k < q.len() implies {
            &&& 1 <= #[trigger] q[k] < self.size()
            &&& self.parent(q[k]) == q[k - 1]
        } by {
            if k < q.len() - 1 {
                assert(q[k] == p[k] && q[k - 1] == p[k - 1]);
            }
        }
    }

    /// A state found on the path to `t` sits at the index of its depth.
    pub proof fn lemma_path_index(&self, t: usize, k: int)
        requires
            self.wf(),
            t < self.size(),
            0 <= k < self.path(t).len(),
        ensures
            self.depth(self.path(t)[k]) == k,
            self.path(t)[k] < self.size(),
    {
        self.lemma_path(t);
    }

    /// What the plan asks for can be done: an exit leaves the top state active, an entered
    /// state extends the active path.
    pub proof fn lemma_plan_sound(&self, active: Seq<usize>, target: usize, exact: bool)
        requires
            self.wf(),
            self.is_active_path(active),
            target < self.size(),
        ensures
            self.plan(active, target, exact) == Move::Exit ==> active.len() > 1,
            self.plan(active, target, exact) matches Move::Enter(s) ==> {
                &&& 1 <= s < self.size()
                &&& self.parent(s) == active.last()
                &&& self.is_active_path(active.push(s))
                &&& active.push(s) == self.path(target).take(active.len() + 1 as int)
            },
            self.plan(active, target, exact) == Move::InitTop ==> active.len() == 1 && exact
                && target == 0,
    {
        self.lemma_path(target);
        self.lemma_active_path_is_path(active);
        let pt = self.path(target);
        if active.len() == 1 && !(exact && target == 0) {
            if target == 0 {
                assert(active.contains(target));
            } else {
                self.lemma_depth_positive(target);
                assert(self.leads_to(active, target));
            }
        }
        if self.leads_to(active, target) {
            let n = active.len() as int;
            let s = pt[n];
            assert(1 <= n < pt.len());
            assert(self.parent(s) == pt[n - 1]);
            self.lemma_push_active(active, s);
            let leaf = active.last();
            self.lemma_path(leaf);
            // the path to the leaf is the prefix of the path to the target
            assert(pt.take(n) == self.path(leaf)) by {
                let q = pt.take(n);
                assert(self.is_active_path(q)) by {
                    assert forall|k: int| 1 <= k < q.len() implies {
                        &&& 1 <= #[trigger] q[k] < self.size()
                        &&& self.parent(q[k]) == q[k - 1]
                    } by {
                        assert(q[k] == pt[k] && q[k - 1] == pt[k - 1]);
                    }
                }
                self.lemma_active_path_is_path(q);
            }
            assert(active.push(s) =~= pt.take(n + 1));
        }
    }

    /// A normal transition never exits a state on the path to its target: the states that the
    /// source and the target share stay active.
    pub proof fn lemma_exit_is_off_target_path(&self, active: Seq<usize>, target: usize)
        requires
            self.wf(),
            self.is_active_path(active),
            target < self.size(),
            self.plan(active, target, false) == Move::Exit,
        ensures
            !self.path(target).contains(active.last()),
    {
        self.lemma_path(target);
        self.lemma_active_path_is_path(active);
        let pt = self.path(target);
        if pt.contains(active.last()) {
            let k = choose|k: int| 0 <= k < pt.len() && pt[k] == active.last();
            self.lemma_path_index(target, k);
            assert(k == active.len() - 1);
            assert(active.last() != target) by {
                assert(active.contains(active.last()));
            }
            assert(k < pt.len() - 1);
            assert(self.leads_to(active, target));
        }
    }

    /// The active path at the end of a transition in which no state redirects it: the plan
    /// is followed, move by move, for at most `fuel` moves, until the target has been entered
    /// (or the top state re-initialised, or nothing is left to do).
    pub open spec fn run(&self, active: Seq<usize>, target: usize, exact: bool, fuel: nat) -> Seq<
        usize,
    >
        decreases fuel,
    {
        if fuel == 0 {
            active
        } else {
            match self.plan(active, target, exact) {
                Move::Exit => self.run(active.drop_last(), target, exact, (fuel - 1) as nat),
                Move::Enter(s) => if s == target {
                    active.push(s)
                } else {
                    self.run(active.push(s), target, false, (fuel - 1) as nat)
                },
                _ => active,
            }
        }
    }

    /// Once the deepest active state is a strict superstate of the target, a transition only
    /// enters, down the path to the target, and ends with the target entered.
    pub proof fn lemma_run_enters(&self, active: Seq<usize>, target: usize, fuel: nat)
        requires
            self.wf(),
            self.is_active_path(active),
            target < self.size(),
            self.leads_to(active, target),
            fuel >= self.path(target).len() - active.len(),
        ensures
            self.run(active, target, false, fuel) == self.path(target),
        decreases self.path(target).len() - active.len(),
    {
        let pt = self.path(target);
        self.lemma_path(target);
        self.lemma_active_path_is_path(active);
        assert(!active.contains(target)) by {
            if active.contains(target) {
                let k = choose|k: int| 0 <= k < active.len() && active[k] == target;
                self.lemma_path(active.last());
                assert(self.depth(target) == pt.len() - 1);
                assert(self.depth(active[k]) == k);
            }
        }
        self.lemma_plan_sound(active, target, false);
        let s = pt[active.len() as int];
        assert(self.plan(active, target, false) == Move::Enter(s));
        let next = active.push(s);
        if s == target {
            assert(active.len() + 1 == pt.len()) by {
                self.lemma_path_index(target, active.len() as int);
            }
            assert(next =~= pt);
        } else {
            assert(active.len() + 1 < pt.len());
            assert(next == pt.take(active.len() + 1 as int));
            assert(self.leads_to(next, target)) by {
                assert(pt[next.len() - 1] == s);
            }
            self.lemma_run_enters(next, target, (fuel - 1) as nat);
        }
    }

    /// A transition in which no state redirects ends with exactly the target and its
    /// superstates active, whatever the starting path (for a normal transition, one that does
    /// not already hold the target).
    pub proof fn lemma_run_reaches_target(
        &self,
        active: Seq<usize>,
        target: usize,
        exact: bool,
        fuel: nat,
    )
        requires
            self.wf(),
            self.is_active_path(active),
            target < self.size(),
            exact || !active.contains(target),
            fuel >= active.len() + self.path(target).len(),
        ensures
            self.run(active, target, exact, fuel) == self.path(target),
        decreases active.len(),
    {
        self.lemma_path(target);
        self.lemma_plan_sound(active, target, exact);
        let pt = self.path(target);
        match self.plan(active, target, exact) {
            Move::InitTop => {
                assert(active =~= seq![0usize]);
                assert(pt =~= seq![0usize]);
            },
            Move::Stay => {},
            Move::Enter(s) => {
                if s == target {
                    assert(active.len() + 1 == pt.len()) by {
                        self.lemma_path_index(target, active.len() as int);
                    }
                    assert(active.push(s) =~= pt);
                } else {
                    let next = active.push(s);
                    assert(next == pt.take(active.len() + 1 as int));
                    self.lemma_path_index(target, active.len() as int);
                    assert(active.len() + 1 < pt.len());
                    assert(self.leads_to(next, target)) by {
                        assert(pt[next.len() - 1] == s);
                    }
                    self.lemma_run_enters(next, target, (fuel - 1) as nat);
                }
            },
            Move::Exit => {
                let rest = active.drop_last();
                self.lemma_pop_active(active);
                assert(!exact ==> !rest.contains(target)) by {
                    if rest.contains(target) {
                        let k = choose|k: int| 0 <= k < rest.len() && rest[k] == target;
                        assert(active[k] == target);
                    }
                }
                self.lemma_run_reaches_target(rest, target, exact, (fuel - 1) as nat);
            },
        }
    }

    // ---------------------------------------------------------------- executable

    /// Make a tree from the names of the states and the superstate of each, the top state
    /// first. `None` when the lengths differ or the links do not form a tree rooted at 0.
    pub fn new(names: Vec<String>, parents: Vec<usize>) -> (r: Option<StateTree>)
        ensures
            r matches Some(t) ==> {
                &&& t.wf()
                &&& t.parents_view() == parents@
                &&& t.size() == parents@.len()
                &&& t.names_view() == names@.map_values(|s: String| s@)
            },
            r is Some <==> names@.len() == parents@.len() && is_tree(parents@),
    {
        let n = parents.len();
        if names.len() != n || n == 0 {
            return None;
        }
        if parents[0] != 0 {
            return None;
        }
        let mut i: usize = 0;
        while i < n
            invariant
                n == parents@.len(),
                i <= n,
                forall|j: int| 0 <= j < i ==> #[trigger] parents@[j] < n,
            decreases n - i,
        {
            if parents[i] >= n {
                return None;
            }
            i = i + 1;
        }
        let mut depths: Vec<usize> = Vec::new();
        let mut i: usize = 0;
        while i < n
            invariant
                n == parents@.len(),
                n >= 1,
                parents@[0] == 0,
                i <= n,
                depths@.len() == i,
                forall|j: int| 0 <= j < n ==> #[trigger] parents@[j] < n,
                forall|j: usize|
                    j < i ==> #[trigger] reaches_top(parents@, j, n as nat) && depths@[j as int]
                        == steps_to_top(parents@, j, n as nat),
            decreases n - i,
        {
            let ghost before = depths@;
            match walk_to_top(&parents, i) {
                Some(d) => {
                    depths.push(d);
                },
                None => {
                    return None;
                },
            }
            proof {
                assert forall|j: usize| j < i + 1 implies #[trigger] reaches_top(
                    parents@,
                    j,
                    n as nat,
                ) && depths@[j as int] == steps_to_top(parents@, j, n as nat) by {
                    if j < i {
                        assert(depths@[j as int] == before[j as int]);
                    }
                }
            }
            i = i + 1;
        }
        proof {
            assert forall|j: usize| 1 <= j < n implies depths@[j as int] == depths@[parents@[j as int] as int] + 1 by {
                let p = parents@[j as int];
                assert(reaches_top(parents@, j, n as nat));
                lemma_steps_fuel(parents@, p, (n - 1) as nat, n as nat);
            }
        }
        proof {
            assert(reaches_top(parents@, 0, n as nat));
            assert(depths@[0] == 0);
        }
        let ghost names_in = names@;
        let t = StateTree { names, parents, depths };
        assert(t.names@ == names_in);
        proof {
            assert forall|j: usize| 1 <= j < t.size() implies {
                &&& #[trigger] t.parent(j) < t.size()
                &&& t.depth(j) == t.depth(t.parent(j)) + 1
            } by {
                assert(parents@[j as int] < n);
            }
        }
        Some(t)
    }

    /// The number of states.
    pub fn len(&self) -> (r: usize)
        ensures
            r == self.size(),
    {
        self.parents.len()
    }

    /// The superstate of a state.
    pub fn parent_of(&self, i: usize) -> (r: usize)
        requires
            self.wf(),
            i < self.size(),
        ensures
            r == self.parent(i),
            r < self.size(),
    {
        if i > 0 {
            assert(self.parent(i) < self.size());
        }
        self.parents[i]
    }

    /// The number of superstates of a state.
    pub fn depth_of(&self, i: usize) -> (r: usize)
        requires
            self.wf(),
            i < self.size(),
        ensures
            r == self.depth(i),
    {
        self.depths[i]
    }

    /// The name of a state.
    pub fn name_of(&self, i: usize) -> (r: &str)
        requires
            self.wf(),
            i < self.size(),
        ensures
            r@ == self.name(i),
    {
        self.names[i].as_str()
    }

    /// The path of states from the top state down to `t`.
    pub fn path_to(&self, t: usize) -> (r: Vec<usize>)
        requires
            self.wf(),
            t < self.size(),
        ensures
            r@ == self.path(t),
    {
        proof {
            self.lemma_path(t);
        }
        let ghost pt = self.path(t);
        // collect t and its superstates, deepest first
        let mut up: Vec<usize> = Vec::new();
        let mut cur = t;
        let d = self.depths[t];
        while cur != 0
            invariant
                self.wf(),
                t < self.size(),
                pt == self.path(t),
                pt.len() == d + 1,
                cur < self.size(),
                up@.len() + self.depth(cur) == d,
                pt.take(self.depth(cur) + 1 as int) == self.path(cur),
                forall|j: int| 0 <= j < up@.len() ==> #[trigger] up@[j] == pt[d - j],
            decreases self.depth(cur),
        {
            proof {
                self.lemma_path(cur);
            }
            let ghost old_up = up@;
            up.push(cur);
            proof {
                let dc = self.depth(cur);
                self.lemma_depth_positive(cur);
                assert(self.path(cur) == self.path(self.parent(cur)).push(cur));
                assert(pt[dc as int] == cur) by {
                    assert(pt.take(dc + 1 as int)[dc as int] == pt[dc as int]);
                }
                assert(pt.take(dc as int) =~= self.path(cur).drop_last());
                assert forall|j: int| 0 <= j < up@.len() implies #[trigger] up@[j] == pt[d - j] by {
                    if j < old_up.len() {
                        assert(up@[j] == old_up[j]);
                    }
                }
            }
            cur = self.parents[cur];
        }
        proof {
            assert(self.depth(0) == 0);
            assert(self.path(0) =~= seq![0usize]);
            assert(pt[0] == 0) by {
                assert(pt.take(1)[0] == pt[0]);
            }
        }
        up.push(cur);
        let mut r: Vec<usize> = Vec::new();
        let mut k = up.len();
        while k > 0
            invariant
                up@.len() == d + 1,
                pt.len() == d + 1,
                k <= up@.len(),
                r@.len() + k == up@.len(),
                forall|j: int| 0 <= j < up@.len() ==> #[trigger] up@[j] == pt[d - j],
                forall|j: int| 0 <= j < r@.len() ==> #[trigger] r@[j] == pt[j],
            decreases k,
        {
            k = k - 1;
            r.push(up[k]);
        }
        assert(r@ =~= pt);
        r
    }

    /// Is state `s` on the active path?
    pub fn is_active(&self, active: &Vec<usize>, s: usize) -> (r: bool)
        ensures
            r == active@.contains(s),
    {
        let mut k: usize = 0;
        while k < active.len()
            invariant
                k <= active@.len(),
                forall|j: int| 0 <= j < k ==> active@[j] != s,
            decreases active@.len() - k,
        {
            if active[k] == s {
                return true;
            }
            k = k + 1;
        }
        false
    }

    /// Is `a` a superstate of `b`, directly or through other superstates?
    pub fn ancestor(&self, a: usize, b: usize) -> (r: bool)
        requires
            self.wf(),
            b < self.size(),
        ensures
            r == self.is_ancestor(a, b),
    {
        if a == b {
            return false;
        }
        let p = self.path_to(b);
        self.is_active(&p, a)
    }

    /// The next move of a transition towards `target` from the `active` path.
    pub fn next_move(&self, active: &Vec<usize>, target: usize, exact: bool) -> (r: Move)
        requires
            self.wf(),
            self.is_active_path(active@),
            target < self.size(),
        ensures
            r == self.plan(active@, target, exact),
    {
        if exact && target == 0 {
            return if active.len() > 1 {
                Move::Exit
            } else {
                Move::InitTop
            };
        }
        if !exact && self.is_active(active, target) {
            return Move::Stay;
        }
        let pt = self.path_to(target);
        let n = active.len();
        if n < pt.len() && pt[n - 1] == active[n - 1] {
            Move::Enter(pt[n])
        } else {
            Move::Exit
        }
    }
}

/// Following `t1` links and then `t2` more is following `t1 + t2`.
proof fn lemma_walk_add(parents: Seq<usize>, i: usize, t1: nat, t2: nat)
    ensures
        walk(parents, walk(parents, i, t1), t2) == walk(parents, i, t1 + t2),
    decreases t2,
{
    if t2 > 0 {
        lemma_walk_add(parents, i, t1, (t2 - 1) as nat);
    }
}

/// Links that all name states stay among the states.
proof fn lemma_walk_in_range(parents: Seq<usize>, i: usize, t: nat)
    requires
        i < parents.len(),
        forall|j: int| 0 <= j < parents.len() ==> #[trigger] parents[j] < parents.len(),
    ensures
        walk(parents, i, t) < parents.len(),
    decreases t,
{
    if t > 0 {
        lemma_walk_in_range(parents, i, (t - 1) as nat);
    }
}

/// A walk that does not reach the top within `fuel` steps visits states other than the top.
proof fn lemma_not_reaching_top(parents: Seq<usize>, i: usize, fuel: nat)
    requires
        i < parents.len(),
        forall|j: int| 0 <= j < parents.len() ==> #[trigger] parents[j] < parents.len(),
        !reaches_top(parents, i, fuel),
    ensures
        forall|t: nat| t <= fuel ==> #[trigger] walk(parents, i, t) != 0,
    decreases fuel,
{
    assert(walk(parents, i, 0) == i);
    if fuel > 0 {
        let p = parents[i as int];
        lemma_not_reaching_top(parents, p, (fuel - 1) as nat);
        assert forall|t: nat| t <= fuel implies #[trigger] walk(parents, i, t) != 0 by {
            if t > 0 {
                lemma_walk_add(parents, i, 1, (t - 1) as nat);
                assert(walk(parents, i, 1) == p);
                assert(walk(parents, p, (t - 1) as nat) != 0);
            }
        }
    }
}

/// A walk that stays among the states with ids from 1 up to `bound` does not leave them.
proof fn lemma_staying_inside(parents: Seq<usize>, i: usize, bound: usize, fuel: nat)
    requires
        forall|j: int| 0 <= j < parents.len() ==> #[trigger] parents[j] < parents.len(),
        i < parents.len(),
        forall|t: nat| t <= fuel ==> 0 < #[trigger] walk(parents, i, t) <= bound,
    ensures
        !reaches_outside(parents, i, bound, fuel),
    decreases fuel,
{
    assert(walk(parents, i, 0) == i);
    if fuel > 0 {
        let p = parents[i as int];
        assert forall|t: nat| t <= (fuel - 1) as nat implies 0 < #[trigger] walk(parents, p, t)
            <= bound by {
            lemma_walk_add(parents, i, 1, t);
            assert(walk(parents, i, 1) == p);
            assert(walk(parents, i, 1 + t) == walk(parents, p, t));
        }
        lemma_staying_inside(parents, p, bound, (fuel - 1) as nat);
    }
}

/// The index, among `a <= t < b`, at which the walk from `i` visits its greatest state.
spec fn walk_argmax(parents: Seq<usize>, i: usize, a: nat, b: nat) -> nat
    decreases b - a,
{
    if b <= a + 1 {
        a
    } else {
        let rest = walk_argmax(parents, i, a + 1, b);
        if walk(parents, i, a) >= walk(parents, i, rest) {
            a
        } else {
            rest
        }
    }
}

proof fn lemma_walk_argmax(parents: Seq<usize>, i: usize, a: nat, b: nat)
    requires
        a < b,
    ensures
        a <= walk_argmax(parents, i, a, b) < b,
        forall|t: nat|
            a <= t < b ==> #[trigger] walk(parents, i, t) <= walk(
                parents,
                i,
                walk_argmax(parents, i, a, b),
            ),
    decreases b - a,
{
    if b > a + 1 {
        lemma_walk_argmax(parents, i, a + 1, b);
    }
}

/// Links in which no state closes a cycle form a tree rooted at the top state.
pub proof fn lemma_acyclic_is_tree(parents: Seq<usize>)
    requires
        parents.len() >= 1,
        parents[0] == 0,
        forall|j: int| 0 <= j < parents.len() ==> #[trigger] parents[j] < parents.len(),
        forall|i: usize| 1 <= i < parents.len() ==> !#[trigger] closes_cycle(parents, i),
    ensures
        is_tree(parents),
{
    let n = parents.len();
    assert forall|s: usize| s < n implies #[trigger] reaches_top(parents, s, n) by {
        if !reaches_top(parents, s, n) {
            lemma_not_reaching_top(parents, s, n);
            // n + 1 visits among the n - 1 states other than the top: one repeats
            let ws = Seq::new(n + 1, |t: int| walk(parents, s, t as nat) as int);
            assert forall|t: int| 0 <= t < ws.len() implies 1 <= #[trigger] ws[t] < n by {
                lemma_walk_in_range(parents, s, t as nat);
                assert(walk(parents, s, t as nat) != 0);
            }
            if ws.no_duplicates() {
                ws.unique_seq_to_set();
                vstd::set_lib::lemma_int_range(1, n as int);
                assert(ws.to_set().subset_of(vstd::set_lib::set_int_range(1, n as int)));
                vstd::set_lib::lemma_len_subset(ws.to_set(), vstd::set_lib::set_int_range(1, n as int));
                assert(false);
            }
            let (a, b) = choose|a: int, b: int|
                0 <= a < ws.len() && 0 <= b < ws.len() && a != b && ws[a] == ws[b];
            let (a, b) = if a < b { (a as nat, b as nat) } else { (b as nat, a as nat) };
            // from index a on, the walk repeats with period b - a
            let x = walk(parents, s, a);
            assert(walk(parents, s, b) == x);
            assert forall|k: nat| #[trigger] walk(parents, x, k) == walk(
                parents,
                s,
                a + (k % ((b - a) as nat)),
            ) by {
                lemma_walk_period(parents, s, a, b, k);
            }
            lemma_walk_argmax(parents, s, a, b);
            let tc = walk_argmax(parents, s, a, b);
            let c = walk(parents, s, tc);
            lemma_walk_in_range(parents, s, tc);
            // from c, the walk stays among the states of the cycle, all up to c and none the top
            assert forall|k: nat| k <= n implies 0 < #[trigger] walk(parents, c, k) <= c by {
                lemma_walk_add(parents, s, a, (tc - a) as nat);
                lemma_walk_add(parents, x, (tc - a) as nat, k);
                assert(walk(parents, c, k) == walk(parents, x, ((tc - a) + k) as nat));
                let t = a + ((((tc - a) + k) as nat) % ((b - a) as nat));
                assert(a <= t < b) by (nonlinear_arith)
                    requires
                        t == a + ((((tc - a) + k) as nat) % ((b - a) as nat)),
                        a < b,
                ;
                assert(walk(parents, s, t as nat) <= c);
                assert(ws[t as int] == walk(parents, s, t as nat));
            }
            lemma_staying_inside(parents, c, c, n);
            assert(closes_cycle(parents, c));
        }
    }
}

/// Once the walk from `i` comes back after `b - a` more steps, it repeats with that period.
proof fn lemma_walk_period(parents: Seq<usize>, i: usize, a: nat, b: nat, k: nat)
    requires
        a < b,
        walk(parents, i, a) == walk(parents, i, b),
    ensures
        walk(parents, walk(parents, i, a), k) == walk(parents, i, a + (k % ((b - a) as nat))),
    decreases k,
{
    let x = walk(parents, i, a);
    let p = (b - a) as nat;
    if k < p {
        lemma_walk_add(parents, i, a, k);
        assert(k % p == k) by (nonlinear_arith)
            requires
                k < p,
        ;
    } else {
        let k2 = (k - p) as nat;
        lemma_walk_period(parents, i, a, b, k2);
        lemma_walk_add(parents, i, a, p);
        assert(a + p == b);
        lemma_walk_add(parents, x, p, k2);
        assert(walk(parents, x, p) == x);
        assert(k % p == k2 % p) by (nonlinear_arith)
            requires
                k2 == k - p,
                p > 0,
        ;
    }
}

/// Fuel beyond what reaching the top needs changes nothing.
proof fn lemma_steps_fuel(parents: Seq<usize>, i: usize, f: nat, g: nat)
    requires
        reaches_top(parents, i, f),
        f <= g,
    ensures
        reaches_top(parents, i, g),
        steps_to_top(parents, i, f) == steps_to_top(parents, i, g),
    decreases f,
{
    if i != 0 {
        lemma_steps_fuel(parents, parents[i as int], (f - 1) as nat, (g - 1) as nat);
    }
}

/// Walk superstate links from `i` through the states with ids up to `i`, for at most as many
/// steps as there are states: `true` when a state outside them (the top state, or one with a
/// greater id) is reached, `false` when the link of `i` closes a cycle.
pub(crate) fn leaves_prefix(parents: &Vec<usize>, i: usize) -> (r: bool)
    requires
        forall|j: int| 0 <= j < parents@.len() ==> #[trigger] parents@[j] < parents@.len(),
    ensures
        r == reaches_outside(parents@, i, i, parents@.len() as nat),
{
    let n = parents.len();
    let mut cur = i;
    let mut fuel = n;
    loop
        invariant
            n == parents@.len(),
            forall|j: int| 0 <= j < n ==> #[trigger] parents@[j] < n,
            fuel <= n,
            cur == i || cur < n,
            reaches_outside(parents@, i, i, n as nat) == reaches_outside(
                parents@,
                cur,
                i,
                fuel as nat,
            ),
        decreases fuel,
    {
        if cur == 0 || cur > i {
            return true;
        }
        if fuel == 0 {
            return false;
        }
        if cur >= n {
            return false;
        }
        cur = parents[cur];
        fuel = fuel - 1;
    }
}

/// Walk superstate links from `i` for at most as many steps as there are states, counting the
/// steps; `None` if the top state is not reached.
pub(crate) fn walk_to_top(parents: &Vec<usize>, i: usize) -> (r: Option<usize>)
    requires
        i < parents@.len(),
        forall|j: int| 0 <= j < parents@.len() ==> #[trigger] parents@[j] < parents@.len(),
    ensures
        r is Some <==> reaches_top(parents@, i, parents@.len() as nat),
        r matches Some(d) ==> d == steps_to_top(parents@, i, parents@.len() as nat),
{
    let n = parents.len();
    let mut cur = i;
    let mut fuel = n;
    let mut steps: usize = 0;
    while cur != 0
        invariant
            n == parents@.len(),
            cur < n,
            forall|j: int| 0 <= j < n ==> #[trigger] parents@[j] < n,
            fuel <= n,
            steps + fuel == n,
            reaches_top(parents@, i, n as nat) == reaches_top(parents@, cur, fuel as nat),
            reaches_top(parents@, cur, fuel as nat) ==> steps_to_top(parents@, i, n as nat)
                == steps + steps_to_top(parents@, cur, fuel as nat),
        decreases fuel,
    {
        if fuel == 0 {
            return None;
        }
        cur = parents[cur];
        fuel = fuel - 1;
        steps = steps + 1;
    }
    Some(steps)
}

} // verus!
