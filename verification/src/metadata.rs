//! What a state machine is made of, from its declarations: its name, the tree of its states
//! (checked for duplicates, unknown superstates and cycles) and the chart of that tree.
use vstd::prelude::*;

use convert_case::{Case, Casing};

use crate::tree::{closes_cycle, is_tree, lemma_acyclic_is_tree, leaves_prefix, StateTree};

verus! {

/// What `convert_case` makes of `s` in upper camel case (`Case::UpperCamel`).
pub uninterp spec fn upper_camel(s: Seq<char>) -> Seq<char>;


/// `convert_case::Casing::to_case` with `Case::UpperCamel`; the contract only names the result,
/// which depends on `s` alone.
#[verifier::external_body]
fn to_upper_camel(s: &str) -> (r: String)
    ensures
        r@ == upper_camel(s@),
{
    s.to_case(Case::UpperCamel)
}

/// The name of a machine: the name given to the `state_machine` attribute if there is one,
/// else the name of the machine's module in upper camel case.
pub fn machine_name(module: &str, given: Option<&str>) -> (r: String)
    ensures
        given matches Some(g) ==> r@ == g@,
        given is None ==> r@ == upper_camel(module@),
{
    match given {
        Some(g) => g.to_owned(),
        None => to_upper_camel(module),
    }
}

/// The name of the constant that holds the state chart of every machine.
pub const STATE_CHART_NAME: &'static str = "STATE_CHART";

/// The name of an item generated for `base`: `base` followed by `suffix`, as in `BlinkyMachine`
/// or `EnabledSuperstates`.
pub fn with_suffix(base: &str, suffix: &str) -> (r: String)
    ensures
        r@ == base@ + suffix@,
{
    let mut r = base.to_owned();
    r.append(suffix);
    r
}

/// A state and the name of its superstate, as declared.
pub struct StateDecl {
    pub name: String,
    pub superstate: String,
}

/// Why a list of declared states does not make a state machine.
#[derive(PartialEq, Eq, Structural, Clone, Copy, Debug)]
pub enum MetadataError {
    /// The state declared at this index was declared before.
    DuplicateState(usize),
    /// The superstate of the state declared at this index is the state itself, or neither the
    /// top state nor a declared state.
    UnknownSuperstate(usize),
    /// The superstate link of the state declared at this index closes a cycle among the states
    /// declared up to it.
    GraphCycle(usize),
}

/// A declared state as plain text: its name and the name of its superstate.
pub open spec fn decls_view(decls: Seq<StateDecl>) -> Seq<(Seq<char>, Seq<char>)> {
    Seq::new(decls.len(), |i: int| (decls[i].name@, decls[i].superstate@))
}

/// The name of the state declared at `i`.
pub open spec fn decl_name(decls: Seq<(Seq<char>, Seq<char>)>, i: int) -> Seq<char> {
    decls[i].0
}

/// The superstate name of the state declared at `i`.
pub open spec fn decl_super(decls: Seq<(Seq<char>, Seq<char>)>, i: int) -> Seq<char> {
    decls[i].1
}

/// The state declared at `i` repeats an earlier declaration.
pub open spec fn is_duplicate(decls: Seq<(Seq<char>, Seq<char>)>, i: int) -> bool {
    exists|j: int| 0 <= j < i && decl_name(decls, j) == decl_name(decls, i)
}

/// No state is declared twice.
pub open spec fn no_duplicates(decls: Seq<(Seq<char>, Seq<char>)>) -> bool {
    forall|i: int| 0 <= i < decls.len() ==> !#[trigger] is_duplicate(decls, i)
}

/// The id that a superstate name stands for: 0 for the top state, `j + 1` for the state
/// declared at `j`.
pub open spec fn resolve(decls: Seq<(Seq<char>, Seq<char>)>, top: Seq<char>, s: Seq<char>) -> Option<usize> {
    if s == top {
        Some(0)
    } else if exists|j: int| 0 <= j < decls.len() && decl_name(decls, j) == s {
        Some(((choose|j: int| 0 <= j < decls.len() && decl_name(decls, j) == s) + 1) as usize)
    } else {
        None
    }
}

/// The superstate of the state declared at `i` names another known state.
pub open spec fn super_known(decls: Seq<(Seq<char>, Seq<char>)>, top: Seq<char>, i: int) -> bool {
    decl_super(decls, i) != decl_name(decls, i) && resolve(decls, top, decl_super(decls, i)) is Some
}

/// Every declared superstate names another known state.
pub open spec fn supers_known(decls: Seq<(Seq<char>, Seq<char>)>, top: Seq<char>) -> bool {
    forall|i: int| 0 <= i < decls.len() ==> #[trigger] super_known(decls, top, i)
}

/// The superstate id of the state declared at `i` (0 when it names no known state).
pub open spec fn decl_parent(decls: Seq<(Seq<char>, Seq<char>)>, top: Seq<char>, i: int) -> usize {
    match resolve(decls, top, decl_super(decls, i)) {
        Some(p) => p,
        None => 0,
    }
}

/// The superstate ids of the top state and of every declared state.
pub open spec fn decl_parents(decls: Seq<(Seq<char>, Seq<char>)>, top: Seq<char>) -> Seq<usize> {
    seq![0usize] + Seq::new(decls.len(), |i: int| decl_parent(decls, top, i))
}

/// The names of the top state and of every declared state.
pub open spec fn decl_names(decls: Seq<(Seq<char>, Seq<char>)>, top: Seq<char>) -> Seq<Seq<char>> {
    seq![top] + Seq::new(decls.len(), |i: int| decl_name(decls, i))
}

/// Build the tree of a machine from its top state and its declared states, in the order of
/// their declaration: the top state gets id 0, the state declared at `i` gets id `i + 1`.
/// The first state declared twice, else the first with an unknown superstate, else the first
/// whose superstate link closes a cycle among the states declared up to it, is reported.
pub fn build_tree(top: &str, decls: &Vec<StateDecl>) -> (r: Result<StateTree, MetadataError>)
    ensures
        r matches Err(MetadataError::DuplicateState(i)) ==> i < decls@.len() && is_duplicate(
            decls_view(decls@),
            i as int,
        ) && forall|j: int| 0 <= j < i ==> !#[trigger] is_duplicate(decls_view(decls@), j),
        r matches Err(MetadataError::UnknownSuperstate(i)) ==> i < decls@.len() && no_duplicates(
            decls_view(decls@),
        ) && !super_known(decls_view(decls@), top@, i as int) && forall|j: int|
            0 <= j < i ==> #[trigger] super_known(decls_view(decls@), top@, j),
        r matches Err(MetadataError::GraphCycle(i)) ==> i < decls@.len() && no_duplicates(decls_view(decls@))
            && supers_known(decls_view(decls@), top@) && closes_cycle(
            decl_parents(decls_view(decls@), top@),
            (i + 1) as usize,
        ) && forall|j: int|
            0 <= j < i ==> !#[trigger] closes_cycle(
                decl_parents(decls_view(decls@), top@),
                (j + 1) as usize,
            ),
        r matches Ok(t) ==> {
            &&& no_duplicates(decls_view(decls@))
            &&& supers_known(decls_view(decls@), top@)
            &&& forall|j: int|
                0 <= j < decls@.len() ==> !#[trigger] closes_cycle(
                    decl_parents(decls_view(decls@), top@),
                    (j + 1) as usize,
                )
            &&& is_tree(decl_parents(decls_view(decls@), top@))
            &&& t.wf()
            &&& t.parents_view() == decl_parents(decls_view(decls@), top@)
            &&& t.names_view() == decl_names(decls_view(decls@), top@)
        },
{
    let n = decls.len();
    // no state is declared twice
    let mut i: usize = 0;
    while i < n
        invariant
            n == decls@.len(),
            i <= n,
            forall|k: int| 0 <= k < i ==> !#[trigger] is_duplicate(decls_view(decls@), k),
        decreases n - i,
    {
        let mut j: usize = 0;
        while j < i
            invariant
                n == decls@.len(),
                j <= i < n,
                forall|k: int| 0 <= k < i ==> !#[trigger] is_duplicate(decls_view(decls@), k),
                forall|k: int| 0 <= k < j ==> decl_name(decls_view(decls@), k) != decl_name(decls_view(decls@), i as int),
            decreases i - j,
        {
            if decls[j].name == decls[i].name {
                assert(decl_name(decls_view(decls@), j as int) == decl_name(decls_view(decls@), i as int));
                return Err(MetadataError::DuplicateState(i));
            }
            j = j + 1;
        }
        i = i + 1;
    }
    // every superstate is known
    let top_name = top.to_owned();
    let mut parents: Vec<usize> = Vec::new();
    parents.push(0);
    let mut i: usize = 0;
    while i < n
        invariant
            n == decls@.len(),
            i <= n,
            no_duplicates(decls_view(decls@)),
            top_name@ == top@,
            parents@.len() == i + 1,
            parents@[0] == 0,
            forall|k: int| 0 <= k < i ==> #[trigger] super_known(decls_view(decls@), top@, k),
            forall|k: int|
                0 <= k < i ==> parents@[k + 1] == #[trigger] decl_parent(decls_view(decls@), top@, k),
            forall|k: int| 0 <= k <= i ==> #[trigger] parents@[k] <= n,
        decreases n - i,
    {
        let d = &decls[i];
        if d.superstate == d.name {
            return Err(MetadataError::UnknownSuperstate(i));
        }
        let p = match resolve_name(&top_name, decls, &d.superstate) {
            Some(p) => p,
            None => {
                return Err(MetadataError::UnknownSuperstate(i));
            },
        };
        parents.push(p);
        i = i + 1;
    }
    proof {
        assert(parents@ =~= decl_parents(decls_view(decls@), top@));
    }
    // no superstate link closes a cycle, taking the states in the order of their declaration
    let mut i: usize = 0;
    while i < n
        invariant
            n == decls@.len(),
            i <= n,
            parents@ == decl_parents(decls_view(decls@), top@),
            parents@.len() == n + 1,
            no_duplicates(decls_view(decls@)),
            supers_known(decls_view(decls@), top@),
            forall|k: int| 0 <= k <= n ==> #[trigger] parents@[k] <= n,
            forall|k: int| 0 <= k < i ==> !#[trigger] closes_cycle(parents@, (k + 1) as usize),
        decreases n - i,
    {
        if !leaves_prefix(&parents, i + 1) {
            return Err(MetadataError::GraphCycle(i));
        }
        i = i + 1;
    }
    let mut names: Vec<String> = Vec::new();
    names.push(top.to_owned());
    let mut i: usize = 0;
    while i < n
        invariant
            n == decls@.len(),
            i <= n,
            names@.len() == i + 1,
            names@[0]@ == top@,
            forall|k: int| 0 <= k < i ==> #[trigger] names@[k + 1]@ == decl_name(decls_view(decls@), k),
        decreases n - i,
    {
        names.push(decls[i].name.clone());
        i = i + 1;
    }
    proof {
        assert forall|k: usize| 1 <= k < parents@.len() implies !#[trigger] closes_cycle(
            parents@,
            k,
        ) by {
            assert(!closes_cycle(parents@, ((k - 1) + 1) as usize));
        }
        lemma_acyclic_is_tree(parents@);
        let dn = decl_names(decls_view(decls@), top@);
        let nv = names@.map_values(|s: String| s@);
        assert forall|k: int| 0 <= k < nv.len() implies nv[k] == dn[k] by {
            if k > 0 {
                assert(names@[(k - 1) + 1]@ == decl_name(decls_view(decls@), k - 1));
            }
        }
        assert(nv =~= dn);
    }
    match StateTree::new(names, parents) {
        Some(t) => Ok(t),
        None => {
            // cannot happen: the links form a tree
            proof {
                assert(false);
            }
            Err(MetadataError::GraphCycle(0))
        },
    }
}

/// The superstate links followed up from the state declared at `i`, as indices of
/// declarations: the state itself, then the state its superstate names, and so on. The walk
/// stops when it comes back to the state declared at `i` (a cycle, whose states it then lists
/// with that state at both ends), at a superstate that names no declared state (the top state,
/// say), or after as many links as there are declarations.
pub fn superstate_chain(decls: &Vec<StateDecl>, i: usize) -> (r: Vec<usize>)
    requires
        i < decls@.len(),
    ensures
        1 <= r@.len() <= decls@.len() + 1,
        r@[0] == i,
        forall|k: int| 0 <= k < r@.len() ==> #[trigger] r@[k] < decls@.len(),
        forall|k: int|
            0 <= k < r@.len() - 1 ==> decl_name(decls_view(decls@), #[trigger] r@[k + 1] as int)
                == decl_super(decls_view(decls@), r@[k] as int),
        forall|k: int| 0 < k < r@.len() - 1 ==> #[trigger] r@[k] != i,
        ({
            let last = r@[r@.len() - 1];
            ||| r@.len() > 1 && last == i
            ||| forall|j: int|
                0 <= j < decls@.len() ==> #[trigger] decl_name(decls_view(decls@), j) != decl_super(
                    decls_view(decls@),
                    last as int,
                )
            ||| r@.len() == decls@.len() + 1
        }),
{
    let n = decls.len();
    let mut r: Vec<usize> = Vec::new();
    r.push(i);
    let mut cur: usize = i;
    loop
        invariant_except_break
            r@.len() <= n,
            r@[r@.len() - 1] == cur,
            forall|k: int| 0 < k < r@.len() ==> #[trigger] r@[k] != i,
        invariant
            n == decls@.len(),
            i < n,
            cur < n,
            1 <= r@.len() <= n + 1,
            r@[0] == i,
            forall|k: int| 0 <= k < r@.len() ==> #[trigger] r@[k] < n,
            forall|k: int|
                0 <= k < r@.len() - 1 ==> decl_name(decls_view(decls@), #[trigger] r@[k + 1] as int)
                    == decl_super(decls_view(decls@), r@[k] as int),
            forall|k: int| 0 < k < r@.len() - 1 ==> #[trigger] r@[k] != i,
        ensures
            1 <= r@.len() <= n + 1,
            r@[0] == i,
            forall|k: int| 0 <= k < r@.len() ==> #[trigger] r@[k] < n,
            forall|k: int|
                0 <= k < r@.len() - 1 ==> decl_name(decls_view(decls@), #[trigger] r@[k + 1] as int)
                    == decl_super(decls_view(decls@), r@[k] as int),
            forall|k: int| 0 < k < r@.len() - 1 ==> #[trigger] r@[k] != i,
            ({
                let last = r@[r@.len() - 1];
                ||| r@.len() > 1 && last == i
                ||| forall|j: int|
                    0 <= j < n ==> #[trigger] decl_name(decls_view(decls@), j) != decl_super(
                        decls_view(decls@),
                        last as int,
                    )
                ||| r@.len() == n + 1
            }),
        decreases n + 1 - r@.len(),
    {
        let mut j: usize = 0;
        let mut found: Option<usize> = None;
        while j < n
            invariant_except_break
                found is None,
            invariant
                n == decls@.len(),
                cur < n,
                j <= n,
                forall|k: int|
                    0 <= k < j ==> #[trigger] decl_name(decls_view(decls@), k) != decl_super(
                        decls_view(decls@),
                        cur as int,
                    ),
            ensures
                found matches Some(f) ==> f < n && decl_name(decls_view(decls@), f as int)
                    == decl_super(decls_view(decls@), cur as int),
                found is None ==> forall|k: int|
                    0 <= k < n ==> #[trigger] decl_name(decls_view(decls@), k) != decl_super(
                        decls_view(decls@),
                        cur as int,
                    ),
            decreases n - j,
        {
            if decls[j].name == decls[cur].superstate {
                found = Some(j);
                break;
            }
            j = j + 1;
        }
        match found {
            None => {
                break;
            },
            Some(f) => {
                let ghost before = r@;
                r.push(f);
                proof {
                    assert forall|k: int| 0 < k < r@.len() - 1 implies #[trigger] r@[k] != i by {
                        assert(r@[k] == before[k]);
                    }
                    assert forall|k: int| 0 <= k < r@.len() - 1 implies decl_name(
                        decls_view(decls@),
                        #[trigger] r@[k + 1] as int,
                    ) == decl_super(decls_view(decls@), r@[k] as int) by {
                        if k < before.len() - 1 {
                            assert(r@[k + 1] == before[k + 1]);
                        }
                    }
                }
                if f == i || r.len() > n {
                    break;
                }
                cur = f;
            },
        }
    }
    r
}

/// The id that a superstate name stands for, if any.
fn resolve_name(top: &String, decls: &Vec<StateDecl>, s: &String) -> (r: Option<usize>)
    requires
        no_duplicates(decls_view(decls@)),
    ensures
        r == resolve(decls_view(decls@), top@, s@),
        r matches Some(p) ==> p <= decls@.len(),
{
    if *s == *top {
        return Some(0);
    }
    let mut j: usize = 0;
    while j < decls.len()
        invariant
            j <= decls@.len(),
            s@ != top@,
            no_duplicates(decls_view(decls@)),
            forall|k: int| 0 <= k < j ==> decl_name(decls_view(decls@), k) != s@,
        decreases decls@.len() - j,
    {
        if decls[j].name == *s {
            proof {
                assert(decl_name(decls_view(decls@), j as int) == s@);
                let c = choose|k: int| 0 <= k < decls@.len() && decl_name(decls_view(decls@), k) == s@;
                if c > j {
                    assert(decl_name(decls_view(decls@), j as int) == decl_name(decls_view(decls@), c));
                    assert(is_duplicate(decls_view(decls@), c));
                }
                assert(c == j);
            }
            return Some(j + 1);
        }
        j = j + 1;
    }
    None
}

/// The substates of `i` among the states with ids below `j`, in id order.
pub open spec fn kids_below(tree: StateTree, i: usize, j: nat) -> Seq<usize>
    decreases j,
{
    if j <= 1 {
        Seq::empty()
    } else {
        let k = (j - 1) as usize;
        kids_below(tree, i, (j - 1) as nat) + if tree.parent(k) == i {
            seq![k]
        } else {
            Seq::empty()
        }
    }
}

/// The substates of `i`, in id order.
pub open spec fn children(tree: StateTree, i: usize) -> Seq<usize> {
    kids_below(tree, i, tree.size())
}

/// The indentation of a chart line, one column per level: a bar where that level has more
/// states below.
pub open spec fn pad(levels: Seq<bool>) -> Seq<char>
    decreases levels.len(),
{
    if levels.len() == 0 {
        Seq::empty()
    } else {
        pad(levels.drop_last()) + if levels.last() {
            "\u{2502}  "@
        } else {
            "   "@
        }
    }
}

/// Each column of a chart line's indentation depends on its own level alone: three characters
/// per level, a bar and two spaces (`"\u{2502}  "`) where that level has more states below, and
/// three spaces where it has none.
pub proof fn lemma_pad_columns(levels: Seq<bool>)
    ensures
        pad(levels).len() == 3 * levels.len(),
        forall|i: int|
            0 <= i < levels.len() ==> #[trigger] pad(levels).subrange(3 * i, 3 * i + 3) == if levels[i] {
                "\u{2502}  "@
            } else {
                "   "@
            },
    decreases levels.len(),
{
    reveal_strlit("\u{2502}  ");
    reveal_strlit("   ");
    if levels.len() > 0 {
        let init = levels.drop_last();
        lemma_pad_columns(init);
        let p = pad(init);
        let col = if levels.last() {
            "\u{2502}  "@
        } else {
            "   "@
        };
        assert(pad(levels) == p + col);
        assert forall|i: int| 0 <= i < levels.len() implies #[trigger] pad(levels).subrange(
            3 * i,
            3 * i + 3,
        ) == if levels[i] {
            "\u{2502}  "@
        } else {
            "   "@
        } by {
            if i < init.len() {
                assert(pad(levels).subrange(3 * i, 3 * i + 3) =~= p.subrange(3 * i, 3 * i + 3));
                assert(init[i] == levels[i]);
            } else {
                assert(pad(levels).subrange(3 * i, 3 * i + 3) =~= col);
            }
        }
    }
}

/// The chart lines of state `i` and, `fuel` levels deep, its substates.
pub open spec fn node_chart(
    tree: StateTree,
    i: usize,
    levels: Seq<bool>,
    last: bool,
    fuel: nat,
) -> Seq<char>
    decreases fuel, 0nat,
{
    "\n"@ + pad(levels) + (if last {
        "\u{2514}\u{2500} "@
    } else {
        "\u{251C}\u{2500} "@
    }) + tree.name(i) + if fuel == 0 {
        Seq::empty()
    } else {
        list_chart(tree, children(tree, i), levels.push(!last), (fuel - 1) as nat)
    }
}

/// The chart lines of the states `cs`, siblings in this order.
pub open spec fn list_chart(tree: StateTree, cs: Seq<usize>, levels: Seq<bool>, fuel: nat) -> Seq<
    char,
>
    decreases fuel, cs.len(),
{
    if cs.len() == 0 {
        Seq::empty()
    } else {
        node_chart(tree, cs[0], levels, cs.len() == 1, fuel) + list_chart(
            tree,
            cs.drop_first(),
            levels,
            fuel,
        )
    }
}

/// The text chart of a tree of states: the top state, then each substate on a line of its
/// own below its superstate, indented one level per superstate.
pub open spec fn chart(tree: StateTree) -> Seq<char> {
    tree.name(0) + list_chart(tree, children(tree, 0), Seq::empty(), tree.size())
}

/// The substates of `i`, in id order.
pub fn children_of(tree: &StateTree, i: usize) -> (r: Vec<usize>)
    requires
        tree.wf(),
    ensures
        r@ == children(*tree, i),
        forall|k: int| 0 <= k < r@.len() ==> #[trigger] r@[k] < tree.size(),
{
    let n = tree.len();
    let mut r: Vec<usize> = Vec::new();
    let mut j: usize = 1;
    while j < n
        invariant
            n == tree.size(),
            tree.wf(),
            1 <= j <= n,
            r@ == kids_below(*tree, i, j as nat),
            forall|k: int| 0 <= k < r@.len() ==> #[trigger] r@[k] < j,
        decreases n - j,
    {
        let ghost before = r@;
        if tree.parent_of(j) == i {
            r.push(j);
        }
        proof {
            let k = j;
            assert(kids_below(*tree, i, (j + 1) as nat) == kids_below(*tree, i, j as nat) + if tree.parent(k) == i {
                seq![k]
            } else {
                Seq::<usize>::empty()
            });
            assert forall|k: int| 0 <= k < r@.len() implies #[trigger] r@[k] < j + 1 by {
                if k < before.len() {
                    assert(r@[k] == before[k]);
                }
            }
        }
        j = j + 1;
    }
    if n <= 1 {
        assert(kids_below(*tree, i, n as nat) =~= Seq::<usize>::empty());
    }
    r
}

/// The indentation of a chart line.
fn pad_of(levels: &Vec<bool>) -> (r: String)
    ensures
        r@ == pad(levels@),
{
    let mut r = String::new();
    let mut k: usize = 0;
    while k < levels.len()
        invariant
            k <= levels@.len(),
            r@ == pad(levels@.take(k as int)),
        decreases levels@.len() - k,
    {
        proof {
            assert(levels@.take(k + 1 as int).drop_last() =~= levels@.take(k as int));
        }
        if levels[k] {
            r.append("\u{2502}  ");
        } else {
            r.append("   ");
        }
        k = k + 1;
    }
    assert(levels@.take(levels@.len() as int) =~= levels@);
    r
}

/// The chart lines of state `i` and its substates.
fn node_chart_of(tree: &StateTree, i: usize, levels: &mut Vec<bool>, last: bool, fuel: usize) -> (r:
    String)
    requires
        tree.wf(),
        i < tree.size(),
    ensures
        r@ == node_chart(*tree, i, old(levels)@, last, fuel as nat),
        final(levels)@ == old(levels)@,
    decreases fuel, 0nat,
{
    let mut r = String::new();
    r.append("\n");
    let p = pad_of(levels);
    r.append(p.as_str());
    if last {
        r.append("\u{2514}\u{2500} ");
    } else {
        r.append("\u{251C}\u{2500} ");
    }
    r.append(tree.name_of(i));
    if fuel > 0 {
        let cs = children_of(tree, i);
        levels.push(!last);
        let rest = list_chart_of(tree, &cs, 0, levels, fuel - 1);
        let _ = levels.pop();
        r.append(rest.as_str());
        proof {
            assert(cs@.skip(0) =~= cs@);
        }
    } else {
        proof {
            assert(r@ =~= r@ + Seq::<char>::empty());
        }
    }
    proof {
        assert(levels@ =~= old(levels)@);
    }
    r
}

/// The chart lines of the states `cs` from index `k` on.
fn list_chart_of(
    tree: &StateTree,
    cs: &Vec<usize>,
    k: usize,
    levels: &mut Vec<bool>,
    fuel: usize,
) -> (r: String)
    requires
        tree.wf(),
        k <= cs@.len(),
        forall|j: int| 0 <= j < cs@.len() ==> #[trigger] cs@[j] < tree.size(),
    ensures
        r@ == list_chart(*tree, cs@.skip(k as int), old(levels)@, fuel as nat),
        final(levels)@ == old(levels)@,
    decreases fuel, cs@.len() - k,
{
    if k >= cs.len() {
        return String::new();
    }
    let last = k + 1 == cs.len();
    let mut r = node_chart_of(tree, cs[k], levels, last, fuel);
    let rest = list_chart_of(tree, cs, k + 1, levels, fuel);
    r.append(rest.as_str());
    proof {
        let s = cs@.skip(k as int);
        assert(s.drop_first() =~= cs@.skip(k + 1 as int));
        assert(s[0] == cs@[k as int]);
    }
    r
}

/// The order in which the chart of a cycle draws a superstate chain: its first state, then,
/// when the chain comes back to that state, the states of the chain from its last but one
/// back to its second, each the substate of the one drawn before it.
pub open spec fn cycle_order(chain: Seq<usize>) -> Seq<usize> {
    if chain.len() > 1 && chain.last() == chain[0] {
        seq![chain[0]] + chain.subrange(1, chain.len() - 1).reverse()
    } else {
        chain.take(1)
    }
}

/// The chart lines of the declared states `order`, each one level below the one before.
pub open spec fn cycle_lines(decls: Seq<(Seq<char>, Seq<char>)>, order: Seq<usize>) -> Seq<char>
    decreases order.len(),
{
    if order.len() == 0 {
        Seq::empty()
    } else {
        cycle_lines(decls, order.drop_last()) + "\n"@ + pad(
            Seq::new((order.len() - 1) as nat, |i: int| false),
        ) + "\u{2514}\u{2500} "@ + decl_name(decls, order.last() as int)
    }
}

/// The chart lines, under the superstate, of a cycle of superstate links given by `chain` (as
/// [`superstate_chain`] finds it): the state whose link closes the cycle, then the states below
/// it around the cycle.
pub fn cycle_chart(decls: &Vec<StateDecl>, chain: &Vec<usize>) -> (r: String)
    requires
        1 <= chain@.len(),
        forall|k: int| 0 <= k < chain@.len() ==> #[trigger] chain@[k] < decls@.len(),
    ensures
        r@ == cycle_lines(decls_view(decls@), cycle_order(chain@)),
{
    let n = chain.len();
    let mut order: Vec<usize> = Vec::new();
    order.push(chain[0]);
    if n > 1 && chain[n - 1] == chain[0] {
        let mut j = n - 1;
        while j > 1
            invariant
                n == chain@.len(),
                1 <= j <= n - 1,
                order@ == seq![chain@[0]] + chain@.subrange(j as int, n - 1).reverse(),
            decreases j,
        {
            j = j - 1;
            order.push(chain[j]);
            proof {
                assert(chain@.subrange(j as int, n - 1).reverse() =~= chain@.subrange(
                    j + 1,
                    n - 1,
                ).reverse().push(chain@[j as int]));
                assert(order@ =~= seq![chain@[0]] + chain@.subrange(j as int, n - 1).reverse());
            }
        }
    } else {
        proof {
            assert(order@ =~= chain@.take(1));
        }
    }
    assert(order@ =~= cycle_order(chain@));
    assert forall|k: int| 0 <= k < order@.len() implies #[trigger] order@[k] < decls@.len() by {
        if k > 0 {
            assert(order@[k] == chain@[n - 1 - k]);
        }
    }
    let mut r = String::new();
    let mut levels: Vec<bool> = Vec::new();
    let mut d: usize = 0;
    while d < order.len()
        invariant
            d <= order@.len(),
            forall|k: int| 0 <= k < order@.len() ==> #[trigger] order@[k] < decls@.len(),
            levels@ =~= Seq::new(d as nat, |i: int| false),
            r@ == cycle_lines(decls_view(decls@), order@.take(d as int)),
        decreases order@.len() - d,
    {
        r.append("\n");
        let p = pad_of(&levels);
        r.append(p.as_str());
        r.append("\u{2514}\u{2500} ");
        r.append(decls[order[d]].name.as_str());
        levels.push(false);
        proof {
            let t = order@.take(d + 1 as int);
            assert(t.drop_last() =~= order@.take(d as int));
            assert(t.last() == order@[d as int]);
        }
        d = d + 1;
    }
    proof {
        assert(order@.take(order@.len() as int) =~= order@);
    }
    r
}

/// The text chart of a tree of states.
pub fn state_chart(tree: &StateTree) -> (r: String)
    requires
        tree.wf(),
    ensures
        r@ == chart(*tree),
{
    let mut r = String::new();
    r.append(tree.name_of(0));
    let cs = children_of(tree, 0);
    let mut levels: Vec<bool> = Vec::new();
    let rest = list_chart_of(tree, &cs, 0, &mut levels, tree.len());
    r.append(rest.as_str());
    proof {
        assert(cs@.skip(0) =~= cs@);
    }
    r
}

} // verus!
