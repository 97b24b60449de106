//! Reading a state machine module: the items it declares, whether they make a state machine,
//! and, when they do, the metadata that the machine is generated from.
//!
//! A module is given as a [`ModuleSummary`]: its items in order, each reduced to what the checks
//! read. The checks run in a fixed order and the first failure is reported, by the index of the
//! item it concerns.
use vstd::prelude::*;

use crate::metadata::{
    build_tree, decl_name, decl_names, decl_parents, decl_super, decls_view, is_duplicate, no_duplicates, super_known,
    supers_known, MetadataError, StateDecl,
};
use crate::tree::{closes_cycle, is_tree, StateTree};

verus! {

/// The superstate argument of a `Substate` impl, as written.
pub enum SuperArg {
    /// A single state name, as in `Substate<Top>`.
    Name(String),
    /// One argument that is not a plain name.
    NotAName,
    /// Angle brackets holding other than one argument.
    WrongCount,
    /// No argument at all.
    Missing,
    /// Parenthesized arguments.
    Parenthesized,
}

/// The arguments of a `Substate` trait path, as written.
pub enum SuperArgs {
    /// No arguments.
    Bare,
    /// Arguments in parentheses.
    Parenthesized,
    /// Arguments in angle brackets, each a plain type name (`Some`) or something else (`None`).
    Angled(Vec<Option<String>>),
}

/// The superstate argument that the arguments of a `Substate` trait path give: exactly one
/// plain name in angle brackets names the superstate; anything else is an error of its own.
pub fn superstate_arg(args: SuperArgs) -> (r: SuperArg)
    ensures
        args is Bare ==> r is Missing,
        args is Parenthesized ==> r is Parenthesized,
        args matches SuperArgs::Angled(v) ==> if v@.len() != 1 {
            r is WrongCount
        } else {
            match v@[0] {
                Some(n) => r matches SuperArg::Name(m) && m@ == n@,
                None => r is NotAName,
            }
        },
{
    match args {
        SuperArgs::Bare => SuperArg::Missing,
        SuperArgs::Parenthesized => SuperArg::Parenthesized,
        SuperArgs::Angled(mut v) => {
            if v.len() != 1 {
                SuperArg::WrongCount
            } else {
                match v.pop() {
                    Some(Some(n)) => SuperArg::Name(n),
                    _ => SuperArg::NotAName,
                }
            }
        },
    }
}

/// An item of a state machine module, reduced to what the checks read.
pub enum ModItem {
    /// A struct definition, and whether it has fields.
    Struct { name: String, has_fields: bool },
    /// A module: how many `machine_module` attributes it carries, whether the attribute has
    /// arguments, and whether it is written inline with empty braces.
    Module { name: String, machine_attrs: usize, attr_has_args: bool, empty_braces: bool },
    /// An impl of `StateMachineEvent`, on a plain name (`Some`) or on another type (`None`).
    EventImpl { target: Option<String> },
    /// An impl of `TopState`, and the names of the associated types it defines.
    TopStateImpl { target: Option<String>, assoc_types: Vec<String> },
    /// An impl of `Substate`: its target, whether the impl has generic parameters, its
    /// superstate argument, the associated types and the functions it defines.
    SubstateImpl {
        target: Option<String>,
        generic: bool,
        superstate: SuperArg,
        assoc_types: Vec<String>,
        fns: Vec<String>,
    },
    /// Anything else.
    Other,
}

/// A module marked as a state machine: whether its items are written inline, and the items.
pub struct ModuleSummary {
    pub inline: bool,
    pub items: Vec<ModItem>,
}

/// Why a module does not make a state machine. Each index is that of the item concerned.
#[derive(PartialEq, Eq, Structural, Clone, Copy, Debug)]
pub enum UnpackError {
    /// The module's items are not written inline, or there are none.
    NotInline,
    /// A second `StateMachineEvent` impl.
    MultipleEvents(usize),
    /// A `StateMachineEvent` impl on something other than a plain name.
    EventNotPlain(usize),
    /// A module with more than one `machine_module` attribute.
    MultipleMachineAttrs(usize),
    /// A `machine_module` attribute with arguments.
    MachineAttrArgs(usize),
    /// A second machine module.
    MultipleMachineModules(usize),
    /// A machine module that is not inline with empty braces.
    MachineModuleNotEmpty(usize),
    /// A second `TopState` impl.
    MultipleTopStates(usize),
    /// A `TopState` impl on something other than a plain name.
    TopStateNotPlain(usize),
    /// A `Substate` impl with generic parameters.
    SubstateGeneric(usize),
    /// A `Substate` impl on something other than a plain name.
    SubstateNotPlain(usize),
    /// A `Substate` superstate argument list of other than one argument.
    SuperstateArgCount(usize),
    /// A `Substate` superstate argument that is not a plain name.
    SuperstateNotAName(usize),
    /// A `Substate` impl without a superstate argument.
    SuperstateMissing(usize),
    /// A `Substate` impl with parenthesized arguments.
    SuperstateParenthesized(usize),
    /// A second `Substate` impl for the same state.
    DuplicateSubstate(usize),
    /// A `Substate` impl defining the associated type at the second index.
    ReservedSubstateType(usize, usize),
    /// The `TopState` impl defining the associated type at the second index.
    ReservedTopStateType(usize, usize),
    /// A state whose struct has fields and whose impl does not define `enter`.
    EnterRequiredFields(usize),
    /// A state whose struct is not defined in the module and whose impl does not define
    /// `enter`.
    EnterRequiredForeign(usize),
    /// No `TopState` impl.
    NoTopState,
    /// A state whose superstate is itself, or neither the top state nor another state.
    UnknownSuperstate(usize),
    /// No machine module.
    NoMachineModule,
    /// A state whose superstate link closes a cycle among the states declared up to it.
    GraphCycle(usize),
}

/// The text of an optional name.
pub open spec fn opt_view(o: Option<String>) -> Option<Seq<char>> {
    match o {
        Some(s) => Some(s@),
        None => None,
    }
}

/// The kinds of item that the passes look for.
pub enum ItemKind {
    /// A `StateMachineEvent` impl.
    Event,
    /// A `TopState` impl.
    Top,
    /// A module carrying the `machine_module` attribute.
    MachineMod,
    /// A `Substate` impl.
    Substate,
}

/// Item `j` is of kind `k`.
pub open spec fn has_kind(items: Seq<ModItem>, j: int, k: ItemKind) -> bool {
    match k {
        ItemKind::Event => items[j] is EventImpl,
        ItemKind::Top => items[j] is TopStateImpl,
        ItemKind::MachineMod => items[j] matches ModItem::Module { machine_attrs, .. }
            && machine_attrs > 0,
        ItemKind::Substate => items[j] is SubstateImpl,
    }
}

/// The name that impl `j` is written on, if it is a plain name.
pub open spec fn target_of(items: Seq<ModItem>, j: int) -> Option<Seq<char>> {
    match items[j] {
        ModItem::EventImpl { target } => opt_view(target),
        ModItem::TopStateImpl { target, .. } => opt_view(target),
        ModItem::SubstateImpl { target, .. } => opt_view(target),
        _ => None,
    }
}

/// The index of the first item of kind `k` among the first `n`.
pub open spec fn first_of(items: Seq<ModItem>, k: ItemKind, n: nat) -> Option<usize>
    decreases n,
{
    if n == 0 {
        None
    } else {
        match first_of(items, k, (n - 1) as nat) {
            Some(j) => Some(j),
            None => if has_kind(items, n - 1, k) {
                Some((n - 1) as usize)
            } else {
                None
            },
        }
    }
}

/// The error at the least `i < n` that has one.
pub open spec fn first_error(f: spec_fn(int) -> Option<UnpackError>, n: nat) -> Option<
    UnpackError,
>
    decreases n,
{
    if n == 0 {
        None
    } else {
        match first_error(f, (n - 1) as nat) {
            Some(e) => Some(e),
            None => f(n - 1),
        }
    }
}

/// What the first pass over the items, which looks for the event type, finds wrong with
/// item `i`.
pub open spec fn event_error(items: Seq<ModItem>, i: int) -> Option<UnpackError> {
    if has_kind(items, i, ItemKind::Event) {
        if exists|j: int| 0 <= j < i && #[trigger] has_kind(items, j, ItemKind::Event) {
            Some(UnpackError::MultipleEvents(i as usize))
        } else if target_of(items, i) is None {
            Some(UnpackError::EventNotPlain(i as usize))
        } else {
            None
        }
    } else {
        None
    }
}

/// What the second pass over the items finds wrong with item `i`.
pub open spec fn item_error(items: Seq<ModItem>, i: int) -> Option<UnpackError> {
    match items[i] {
        ModItem::Module { machine_attrs, attr_has_args, empty_braces, .. } => if machine_attrs
            == 0 {
            None
        } else if machine_attrs > 1 {
            Some(UnpackError::MultipleMachineAttrs(i as usize))
        } else if attr_has_args {
            Some(UnpackError::MachineAttrArgs(i as usize))
        } else if exists|j: int| 0 <= j < i && #[trigger] has_kind(items, j, ItemKind::MachineMod) {
            Some(UnpackError::MultipleMachineModules(i as usize))
        } else if !empty_braces {
            Some(UnpackError::MachineModuleNotEmpty(i as usize))
        } else {
            None
        },
        ModItem::TopStateImpl { target, .. } => if exists|j: int|
            0 <= j < i && #[trigger] has_kind(items, j, ItemKind::Top) {
            Some(UnpackError::MultipleTopStates(i as usize))
        } else if target is None {
            Some(UnpackError::TopStateNotPlain(i as usize))
        } else {
            None
        },
        ModItem::SubstateImpl { target, generic, superstate, .. } => if generic {
            Some(UnpackError::SubstateGeneric(i as usize))
        } else if target is None {
            Some(UnpackError::SubstateNotPlain(i as usize))
        } else {
            match superstate {
                SuperArg::Name(_) => if exists|j: int|
                    0 <= j < i && #[trigger] has_kind(items, j, ItemKind::Substate) && target_of(items, j)
                        == opt_view(target) {
                    Some(UnpackError::DuplicateSubstate(i as usize))
                } else {
                    None
                },
                SuperArg::NotAName => Some(UnpackError::SuperstateNotAName(i as usize)),
                SuperArg::WrongCount => Some(UnpackError::SuperstateArgCount(i as usize)),
                SuperArg::Missing => Some(UnpackError::SuperstateMissing(i as usize)),
                SuperArg::Parenthesized => Some(UnpackError::SuperstateParenthesized(i as usize)),
            }
        },
        _ => None,
    }
}

/// The first-pass check of every item.
pub open spec fn event_errors(items: Seq<ModItem>) -> spec_fn(int) -> Option<UnpackError> {
    |i: int| event_error(items, i)
}

/// The second-pass check of every item.
pub open spec fn item_errors(items: Seq<ModItem>) -> spec_fn(int) -> Option<UnpackError> {
    |i: int| item_error(items, i)
}

/// The indices of the `Substate` impls among the first `n` items, in order.
pub open spec fn substate_ids(items: Seq<ModItem>, n: nat) -> Seq<usize>
    decreases n,
{
    if n == 0 {
        Seq::empty()
    } else {
        substate_ids(items, (n - 1) as nat) + if has_kind(items, n - 1, ItemKind::Substate) {
            seq![(n - 1) as usize]
        } else {
            Seq::empty()
        }
    }
}

/// What is wrong with the items as such, before their states are looked at together: the
/// first problem of the first pass, else the first of the second.
pub open spec fn unpack_error(m: ModuleSummary) -> Option<UnpackError> {
    if !m.inline || m.items@.len() == 0 {
        Some(UnpackError::NotInline)
    } else {
        match first_error(event_errors(m.items@), m.items@.len()) {
            Some(e) => Some(e),
            None => first_error(item_errors(m.items@), m.items@.len()),
        }
    }
}

/// The first item of a kind, if any, and the absence of earlier ones.
pub proof fn lemma_first_of(items: Seq<ModItem>, k: ItemKind, n: nat)
    requires
        n <= usize::MAX,
    ensures
        first_of(items, k, n) matches Some(j) ==> j < n && has_kind(items, j as int, k)
            && forall|i: int| 0 <= i < j ==> !#[trigger] has_kind(items, i, k),
        first_of(items, k, n) is None ==> forall|i: int|
            0 <= i < n ==> !#[trigger] has_kind(items, i, k),
    decreases n,
{
    if n > 0 {
        lemma_first_of(items, k, (n - 1) as nat);
    }
}

/// The error at the least index that has one, and the absence of earlier ones.
pub proof fn lemma_first_error(f: spec_fn(int) -> Option<UnpackError>, n: nat)
    ensures
        first_error(f, n) is None <==> forall|k: int| 0 <= k < n ==> #[trigger] f(k) is None,
        first_error(f, n) matches Some(e) ==> exists|i: int|
            0 <= i < n && #[trigger] f(i) == Some(e) && forall|k: int|
                0 <= k < i ==> #[trigger] f(k) is None,
    decreases n,
{
    if n > 0 {
        lemma_first_error(f, (n - 1) as nat);
        if first_error(f, (n - 1) as nat) is None && f(n - 1) is Some {
            assert(f(n - 1) == first_error(f, n));
        }
    }
}

/// The indices of the `Substate` impls are increasing and are exactly those below `n`.
pub proof fn lemma_substate_ids(items: Seq<ModItem>, n: nat)
    requires
        n <= usize::MAX,
    ensures
        forall|k: int|
            0 <= k < substate_ids(items, n).len() ==> #[trigger] substate_ids(items, n)[k] < n
                && has_kind(items, substate_ids(items, n)[k] as int, ItemKind::Substate),
        forall|a: int, b: int|
            0 <= a < b < substate_ids(items, n).len() ==> #[trigger] substate_ids(items, n)[a]
                < #[trigger] substate_ids(items, n)[b],
        forall|j: int|
            0 <= j < n && #[trigger] has_kind(items, j, ItemKind::Substate) ==> substate_ids(items, n).contains(
                j as usize,
            ),
    decreases n,
{
    if n > 0 {
        lemma_substate_ids(items, (n - 1) as nat);
        let prev = substate_ids(items, (n - 1) as nat);
        let cur = substate_ids(items, n);
        assert forall|j: int| 0 <= j < n && #[trigger] has_kind(items, j, ItemKind::Substate) implies cur.contains(
            j as usize,
        ) by {
            if j < n - 1 {
                let k = choose|k: int| 0 <= k < prev.len() && prev[k] == j as usize;
                assert(cur[k] == j as usize);
            } else {
                assert(cur[prev.len() as int] == j as usize);
            }
        }
    }
}

/// A first error, once found among the first `m` checks, stays the first.
pub proof fn lemma_first_error_stays(f: spec_fn(int) -> Option<UnpackError>, m: nat, n: nat)
    requires
        m <= n,
        first_error(f, m) is Some,
    ensures
        first_error(f, n) == first_error(f, m),
    decreases n,
{
    if n > m {
        lemma_first_error_stays(f, m, (n - 1) as nat);
    }
}

/// The first-pass check of item `i`, given the first event impl before it.
fn event_check(items: &Vec<ModItem>, i: usize, event: Option<usize>) -> (r: Option<UnpackError>)
    requires
        i < items@.len(),
        event == first_of(items@, ItemKind::Event, i as nat),
    ensures
        r == event_error(items@, i as int),
{
    proof {
        lemma_first_of(items@, ItemKind::Event, i as nat);
    }
    if let ModItem::EventImpl { target } = &items[i] {
        if let Some(j) = event {
            assert(has_kind(items@, j as int, ItemKind::Event));
            return Some(UnpackError::MultipleEvents(i));
        }
        if target.is_none() {
            return Some(UnpackError::EventNotPlain(i));
        }
    }
    None
}

/// The second-pass check of item `i`, given the first top state impl and the first machine
/// module before it.
fn item_check(
    items: &Vec<ModItem>,
    i: usize,
    top: Option<usize>,
    machine_mod: Option<usize>,
) -> (r: Option<UnpackError>)
    requires
        i < items@.len(),
        top == first_of(items@, ItemKind::Top, i as nat),
        machine_mod == first_of(items@, ItemKind::MachineMod, i as nat),
    ensures
        r == item_error(items@, i as int),
{
    let ghost s = items@;
    proof {
        lemma_first_of(s, ItemKind::Top, i as nat);
        lemma_first_of(s, ItemKind::MachineMod, i as nat);
    }
    match &items[i] {
        ModItem::Module { machine_attrs, attr_has_args, empty_braces, .. } => {
            if *machine_attrs == 0 {
                None
            } else if *machine_attrs > 1 {
                Some(UnpackError::MultipleMachineAttrs(i))
            } else if *attr_has_args {
                Some(UnpackError::MachineAttrArgs(i))
            } else if let Some(j) = machine_mod {
                assert(has_kind(s, j as int, ItemKind::MachineMod));
                Some(UnpackError::MultipleMachineModules(i))
            } else if !*empty_braces {
                Some(UnpackError::MachineModuleNotEmpty(i))
            } else {
                None
            }
        },
        ModItem::TopStateImpl { target, .. } => {
            if let Some(j) = top {
                assert(has_kind(s, j as int, ItemKind::Top));
                Some(UnpackError::MultipleTopStates(i))
            } else if target.is_none() {
                Some(UnpackError::TopStateNotPlain(i))
            } else {
                None
            }
        },
        ModItem::SubstateImpl { target, generic, superstate, .. } => {
            if *generic {
                return Some(UnpackError::SubstateGeneric(i));
            }
            let name = match target {
                Some(t) => t,
                None => {
                    return Some(UnpackError::SubstateNotPlain(i));
                },
            };
            match superstate {
                SuperArg::Name(_) => {},
                SuperArg::NotAName => {
                    return Some(UnpackError::SuperstateNotAName(i));
                },
                SuperArg::WrongCount => {
                    return Some(UnpackError::SuperstateArgCount(i));
                },
                SuperArg::Missing => {
                    return Some(UnpackError::SuperstateMissing(i));
                },
                SuperArg::Parenthesized => {
                    return Some(UnpackError::SuperstateParenthesized(i));
                },
            }
            let ghost dup = exists|k: int|
                0 <= k < i && #[trigger] has_kind(s, k, ItemKind::Substate) && target_of(s, k)
                    == Some(name@);
            assert(item_error(s, i as int) == if dup {
                Some(UnpackError::DuplicateSubstate(i))
            } else {
                None
            });
            let mut j: usize = 0;
            while j < i
                invariant
                    s == items@,
                    item_error(s, i as int) == if dup {
                        Some(UnpackError::DuplicateSubstate(i))
                    } else {
                        None
                    },
                    dup == exists|k: int|
                        0 <= k < i && #[trigger] has_kind(s, k, ItemKind::Substate) && target_of(
                            s,
                            k,
                        ) == Some(name@),
                    j <= i < s.len(),
                    s[i as int] is SubstateImpl,
                    target_of(s, i as int) == Some(name@),
                    forall|k: int|
                        0 <= k < j ==> !(#[trigger] has_kind(s, k, ItemKind::Substate) && target_of(s, k) == Some(
                            name@,
                        )),
                decreases i - j,
            {
                if let ModItem::SubstateImpl { target: Some(other), .. } = &items[j] {
                    if *other == *name {
                        assert(has_kind(s, j as int, ItemKind::Substate) && target_of(s, j as int) == Some(name@));
                        assert(item_error(s, i as int) == Some(UnpackError::DuplicateSubstate(i)));
                        return Some(UnpackError::DuplicateSubstate(i));
                    }
                }
                j = j + 1;
            }
            None
        },
        _ => None,
    }
}

/// The first two passes over the items: where the event, top state and machine module
/// impls are, and which items are `Substate` impls.
pub struct Unpacked {
    pub event: Option<usize>,
    pub top: Option<usize>,
    pub machine_mod: Option<usize>,
    pub states: Vec<usize>,
}

/// Run the first two passes over the items of a module.
pub fn unpack(module: &ModuleSummary) -> (r: Result<Unpacked, UnpackError>)
    ensures
        match r {
            Err(e) => unpack_error(*module) == Some(e),
            Ok(u) => {
                &&& unpack_error(*module) is None
                &&& u.event == first_of(module.items@, ItemKind::Event, module.items@.len())
                &&& u.top == first_of(module.items@, ItemKind::Top, module.items@.len())
                &&& u.machine_mod == first_of(
                    module.items@,
                    ItemKind::MachineMod,
                    module.items@.len(),
                )
                &&& u.states@ == substate_ids(module.items@, module.items@.len())
            },
        },
{
    let items = &module.items;
    let n = items.len();
    if !module.inline || n == 0 {
        return Err(UnpackError::NotInline);
    }
    let ghost s = items@;
    // first pass: the event type
    let mut event: Option<usize> = None;
    let mut i: usize = 0;
    while i < n
        invariant
            n == s.len(),
            s == module.items@,
            items@ == s,
            module.inline,
            n > 0,
            i <= n,
            first_error(event_errors(s), i as nat) is None,
            event == first_of(s, ItemKind::Event, i as nat),
        decreases n - i,
    {
        proof {
            lemma_first_of(s, ItemKind::Event, i as nat);
            assert(event_errors(s)(i as int) == event_error(s, i as int));
        }
        if let Some(e) = event_check(items, i, event) {
            proof {
                lemma_first_error_stays(event_errors(s), (i + 1) as nat, n as nat);
            }
            return Err(e);
        }
        if let ModItem::EventImpl { .. } = &items[i] {
            event = Some(i);
        }
        i = i + 1;
    }
    // second pass: modules, top state and substates
    let mut top: Option<usize> = None;
    let mut machine_mod: Option<usize> = None;
    let mut states: Vec<usize> = Vec::new();
    let mut i: usize = 0;
    while i < n
        invariant
            n == s.len(),
            s == module.items@,
            items@ == s,
            module.inline,
            n > 0,
            i <= n,
            first_error(event_errors(s), n as nat) is None,
            first_error(item_errors(s), i as nat) is None,
            event == first_of(s, ItemKind::Event, n as nat),
            top == first_of(s, ItemKind::Top, i as nat),
            machine_mod == first_of(s, ItemKind::MachineMod, i as nat),
            states@ == substate_ids(s, i as nat),
        decreases n - i,
    {
        proof {
            lemma_first_of(s, ItemKind::Top, i as nat);
            lemma_first_of(s, ItemKind::MachineMod, i as nat);
            assert(item_errors(s)(i as int) == item_error(s, i as int));
        }
        if let Some(e) = item_check(items, i, top, machine_mod) {
            proof {
                lemma_first_error_stays(item_errors(s), (i + 1) as nat, n as nat);
            }
            return Err(e);
        }
        match &items[i] {
            ModItem::Module { machine_attrs, .. } => {
                if *machine_attrs > 0 && machine_mod.is_none() {
                    machine_mod = Some(i);
                }
            },
            ModItem::TopStateImpl { .. } => {
                if top.is_none() {
                    top = Some(i);
                }
            },
            ModItem::SubstateImpl { .. } => {
                states.push(i);
            },
            _ => {},
        }
        i = i + 1;
    }
    Ok(Unpacked { event, top, machine_mod, states })
}

/// The `Substate` impls of the module, in order: state `k` (id `k + 1`) is declared by item
/// `state_ids(items)[k]`.
pub open spec fn state_ids(items: Seq<ModItem>) -> Seq<usize> {
    substate_ids(items, items.len())
}

/// The name that impl `j` is written on (empty when it is not a plain name).
pub open spec fn impl_name(items: Seq<ModItem>, j: int) -> Seq<char> {
    match target_of(items, j) {
        Some(t) => t,
        None => Seq::empty(),
    }
}

/// The superstate named by `Substate` impl `j` (empty when it names none).
pub open spec fn impl_super(items: Seq<ModItem>, j: int) -> Seq<char> {
    match items[j] {
        ModItem::SubstateImpl { superstate: SuperArg::Name(s), .. } => s@,
        _ => Seq::empty(),
    }
}

/// The associated types that impl `j` defines.
pub open spec fn impl_assoc(items: Seq<ModItem>, j: int) -> Seq<String> {
    match items[j] {
        ModItem::TopStateImpl { assoc_types, .. } => assoc_types@,
        ModItem::SubstateImpl { assoc_types, .. } => assoc_types@,
        _ => Seq::empty(),
    }
}

/// The functions that impl `j` defines.
pub open spec fn impl_fns(items: Seq<ModItem>, j: int) -> Seq<String> {
    match items[j] {
        ModItem::SubstateImpl { fns, .. } => fns@,
        _ => Seq::empty(),
    }
}

/// An associated type that a `Substate` impl must leave to the generated code.
pub open spec fn reserved_for_substate(t: Seq<char>) -> bool {
    t == "Context"@ || t == "State"@ || t == "Event"@
}

/// An associated type that the `TopState` impl must leave to the generated code.
pub open spec fn reserved_for_top(t: Seq<char>) -> bool {
    t == "State"@ || t == "Event"@
}

/// The check of the associated type at index `t` of impl `j` (the top state's when `top`).
pub open spec fn reserved_type_error(items: Seq<ModItem>, j: int, top: bool, t: int) -> Option<
    UnpackError,
> {
    let ty = impl_assoc(items, j)[t]@;
    if top && reserved_for_top(ty) {
        Some(UnpackError::ReservedTopStateType(j as usize, t as usize))
    } else if !top && reserved_for_substate(ty) {
        Some(UnpackError::ReservedSubstateType(j as usize, t as usize))
    } else {
        None
    }
}

/// The checks of the associated types of impl `j`.
pub open spec fn reserved_type_errors(items: Seq<ModItem>, j: int, top: bool) -> spec_fn(
    int,
) -> Option<UnpackError> {
    |t: int| reserved_type_error(items, j, top, t)
}

/// The first reserved associated type that impl `j` defines.
pub open spec fn reserved_error(items: Seq<ModItem>, j: int, top: bool) -> Option<UnpackError> {
    first_error(reserved_type_errors(items, j, top), impl_assoc(items, j).len())
}

/// The associated type check of every state.
pub open spec fn state_reserved_errors(items: Seq<ModItem>) -> spec_fn(int) -> Option<
    UnpackError,
> {
    |k: int| reserved_error(items, state_ids(items)[k] as int, false)
}

/// The first reserved associated type defined by a `Substate` impl, else by the `TopState`
/// impl.
pub open spec fn assoc_error(items: Seq<ModItem>) -> Option<UnpackError> {
    match first_error(state_reserved_errors(items), state_ids(items).len()) {
        Some(e) => Some(e),
        None => match first_of(items, ItemKind::Top, items.len()) {
            Some(t) => reserved_error(items, t as int, true),
            None => None,
        },
    }
}

/// Whether the last struct named `name` among the first `n` items has fields; `None` when
/// there is no such struct.
pub open spec fn struct_def(items: Seq<ModItem>, name: Seq<char>, n: nat) -> Option<bool>
    decreases n,
{
    if n == 0 {
        None
    } else {
        match items[n - 1] {
            ModItem::Struct { name: s, has_fields } => if s@ == name {
                Some(has_fields)
            } else {
                struct_def(items, name, (n - 1) as nat)
            },
            _ => struct_def(items, name, (n - 1) as nat),
        }
    }
}

/// `Substate` impl `j` defines `enter`.
pub open spec fn defines_enter(items: Seq<ModItem>, j: int) -> bool {
    exists|f: int| 0 <= f < impl_fns(items, j).len() && #[trigger] impl_fns(items, j)[f]@ == "enter"@
}

/// The state declared by impl `j` gets a generated `enter`: it defines none and its struct,
/// defined in the module, has no fields.
pub open spec fn autogen_enter(items: Seq<ModItem>, j: int) -> bool {
    !defines_enter(items, j) && struct_def(items, impl_name(items, j), items.len()) == Some(false)
}

/// The `enter` check of the state declared by impl `j`.
pub open spec fn enter_error(items: Seq<ModItem>, j: int) -> Option<UnpackError> {
    if defines_enter(items, j) {
        None
    } else {
        match struct_def(items, impl_name(items, j), items.len()) {
            None => Some(UnpackError::EnterRequiredForeign(j as usize)),
            Some(true) => Some(UnpackError::EnterRequiredFields(j as usize)),
            Some(false) => None,
        }
    }
}

/// The `enter` check of every state.
pub open spec fn enter_errors(items: Seq<ModItem>) -> spec_fn(int) -> Option<UnpackError> {
    |k: int| enter_error(items, state_ids(items)[k] as int)
}

/// The states as declared: each one's name and its superstate's name.
pub open spec fn state_decls(items: Seq<ModItem>) -> Seq<(Seq<char>, Seq<char>)> {
    Seq::new(
        state_ids(items).len(),
        |k: int| (impl_name(items, state_ids(items)[k] as int), impl_super(items, state_ids(items)[k] as int)),
    )
}

/// The superstate check of every state, the top state being named `top`.
pub open spec fn superstate_errors(items: Seq<ModItem>, top: Seq<char>) -> spec_fn(int) -> Option<
    UnpackError,
> {
    |k: int| if super_known(state_decls(items), top, k) {
        None
    } else {
        Some(UnpackError::UnknownSuperstate(state_ids(items)[k]))
    }
}

/// The cycle check of every state, the top state being named `top`.
pub open spec fn cycle_errors(items: Seq<ModItem>, top: Seq<char>) -> spec_fn(int) -> Option<
    UnpackError,
> {
    |k: int| if closes_cycle(decl_parents(state_decls(items), top), (k + 1) as usize) {
        Some(UnpackError::GraphCycle(state_ids(items)[k]))
    } else {
        None
    }
}

/// What is wrong with the states of items that passed the first two passes: the checks of
/// associated types, of `enter`, of the top state, of superstates, of the machine module and
/// of cycles, in this order.
pub open spec fn state_error(items: Seq<ModItem>) -> Option<UnpackError> {
    let n = state_ids(items).len();
    match assoc_error(items) {
        Some(e) => Some(e),
        None => match first_error(enter_errors(items), n) {
            Some(e) => Some(e),
            None => match first_of(items, ItemKind::Top, items.len()) {
                None => Some(UnpackError::NoTopState),
                Some(t) => {
                    let top = impl_name(items, t as int);
                    match first_error(superstate_errors(items, top), n) {
                        Some(e) => Some(e),
                        None => if first_of(items, ItemKind::MachineMod, items.len()) is None {
                            Some(UnpackError::NoMachineModule)
                        } else {
                            first_error(cycle_errors(items, top), n)
                        },
                    }
                },
            },
        },
    }
}

/// What is wrong with a module, if anything: the first problem found.
pub open spec fn metadata_error(m: ModuleSummary) -> Option<UnpackError> {
    match unpack_error(m) {
        Some(e) => Some(e),
        None => state_error(m.items@),
    }
}

/// An associated type named `Context`, `State` or `Event`, which a `Substate` impl must leave
/// to the generated code.
pub open spec fn substate_keeps_out(t: Seq<char>) -> bool {
    set!["Context"@, "State"@, "Event"@].contains(t)
}

/// A module in which nothing is wrong with the items as such is rejected, with the reserved
/// type error of a `Substate` impl, as soon as one of its `Substate` impls defines an associated
/// type named `Context`, `State` or `Event`.
pub proof fn lemma_substate_reserved_rejected(m: ModuleSummary, j: int, t: int)
    requires
        m.items@.len() <= usize::MAX,
        unpack_error(m) is None,
        0 <= j < m.items@.len(),
        m.items@[j] is SubstateImpl,
        0 <= t < impl_assoc(m.items@, j).len(),
        impl_assoc(m.items@, j)[t]@ == "Context"@ || impl_assoc(m.items@, j)[t]@ == "State"@
            || impl_assoc(m.items@, j)[t]@ == "Event"@,
    ensures
        metadata_error(m) matches Some(UnpackError::ReservedSubstateType(_, _)),
{
    let items = m.items@;
    let ids = state_ids(items);
    lemma_substate_ids(items, items.len());
    assert(has_kind(items, j, ItemKind::Substate));
    assert(ids.contains(j as usize));
    let k = choose|k: int| 0 <= k < ids.len() && ids[k] == j as usize;
    let f = reserved_type_errors(items, j, false);
    assert(f(t) is Some);
    lemma_first_error(f, impl_assoc(items, j).len());
    let g = state_reserved_errors(items);
    assert(g(k) == reserved_error(items, j, false));
    lemma_first_error(g, ids.len());
    let e = first_error(g, ids.len())->0;
    let i = choose|i: int| 0 <= i < ids.len() && #[trigger] g(i) == Some(e) && forall|q: int|
        0 <= q < i ==> #[trigger] g(q) is None;
    let h = reserved_type_errors(items, ids[i] as int, false);
    assert(reserved_error(items, ids[i] as int, false) == Some(e));
    lemma_first_error(h, impl_assoc(items, ids[i] as int).len());
    let t2 = choose|t2: int| 0 <= t2 < impl_assoc(items, ids[i] as int).len() && #[trigger] h(t2) == Some(e)
        && forall|q: int| 0 <= q < t2 ==> #[trigger] h(q) is None;
    assert(e matches UnpackError::ReservedSubstateType(_, _));
    assert(assoc_error(items) == Some(e));
}

/// A module in which nothing is wrong with the items as such and no `Substate` impl defines a
/// reserved associated type is rejected, with the reserved type error of the top state, when
/// its `TopState` impl defines an associated type named `State` or `Event`.
pub proof fn lemma_top_reserved_rejected(m: ModuleSummary, top: usize, t: int)
    requires
        m.items@.len() <= usize::MAX,
        unpack_error(m) is None,
        forall|j: int, u: int|
            0 <= j < m.items@.len() && m.items@[j] is SubstateImpl && 0 <= u < impl_assoc(
                m.items@,
                j,
            ).len() ==> !substate_keeps_out(#[trigger] impl_assoc(m.items@, j)[u]@),
        first_of(m.items@, ItemKind::Top, m.items@.len()) == Some(top),
        0 <= t < impl_assoc(m.items@, top as int).len(),
        impl_assoc(m.items@, top as int)[t]@ == "State"@ || impl_assoc(m.items@, top as int)[t]@
            == "Event"@,
    ensures
        metadata_error(m) matches Some(UnpackError::ReservedTopStateType(_, _)),
{
    let items = m.items@;
    let ids = state_ids(items);
    lemma_substate_ids(items, items.len());
    let g = state_reserved_errors(items);
    assert forall|k: int| 0 <= k < ids.len() implies #[trigger] g(k) is None by {
        let j = ids[k] as int;
        assert(has_kind(items, j, ItemKind::Substate));
        let f = reserved_type_errors(items, j, false);
        assert forall|u: int| 0 <= u < impl_assoc(items, j).len() implies #[trigger] f(u) is None by {
            assert(!substate_keeps_out(impl_assoc(items, j)[u]@));
        }
        lemma_first_error(f, impl_assoc(items, j).len());
    }
    lemma_first_error(g, ids.len());
    let f = reserved_type_errors(items, top as int, true);
    assert(f(t) is Some);
    lemma_first_error(f, impl_assoc(items, top as int).len());
    let e = reserved_error(items, top as int, true)->0;
    let t2 = choose|t2: int| 0 <= t2 < impl_assoc(items, top as int).len() && #[trigger] f(t2) == Some(e)
        && forall|q: int| 0 <= q < t2 ==> #[trigger] f(q) is None;
    assert(e matches UnpackError::ReservedTopStateType(_, _));
    assert(assoc_error(items) == Some(e));
}

/// A module that passes the check defines none of the associated types left to the generated
/// code: no `Substate` impl defines `Context`, `State` or `Event`, and its `TopState` impl
/// defines neither `State` nor `Event`.
pub proof fn lemma_checked_keeps_reserved_out(m: ModuleSummary)
    requires
        m.items@.len() <= usize::MAX,
        metadata_error(m) is None,
    ensures
        forall|j: int, u: int|
            0 <= j < m.items@.len() && m.items@[j] is SubstateImpl && 0 <= u < impl_assoc(
                m.items@,
                j,
            ).len() ==> #[trigger] impl_assoc(m.items@, j)[u]@ != "Context"@ && impl_assoc(
                m.items@,
                j,
            )[u]@ != "State"@ && impl_assoc(m.items@, j)[u]@ != "Event"@,
        forall|top: usize, u: int|
            first_of(m.items@, ItemKind::Top, m.items@.len()) == Some(top) && 0 <= u
                < impl_assoc(m.items@, top as int).len() ==> #[trigger] impl_assoc(
                m.items@,
                top as int,
            )[u]@ != "State"@ && impl_assoc(m.items@, top as int)[u]@ != "Event"@,
{
    let items = m.items@;
    assert(unpack_error(m) is None);
    assert forall|j: int, u: int|
        0 <= j < items.len() && items[j] is SubstateImpl && 0 <= u < impl_assoc(items, j).len()
            implies #[trigger] impl_assoc(items, j)[u]@ != "Context"@ && impl_assoc(items, j)[u]@
        != "State"@ && impl_assoc(items, j)[u]@ != "Event"@ by {
        if impl_assoc(items, j)[u]@ == "Context"@ || impl_assoc(items, j)[u]@ == "State"@
            || impl_assoc(items, j)[u]@ == "Event"@ {
            lemma_substate_reserved_rejected(m, j, u);
        }
    }
    assert forall|top: usize, u: int|
        first_of(items, ItemKind::Top, items.len()) == Some(top) && 0 <= u < impl_assoc(
            items,
            top as int,
        ).len() implies #[trigger] impl_assoc(items, top as int)[u]@ != "State"@ && impl_assoc(
        items,
        top as int,
    )[u]@ != "Event"@ by {
        if impl_assoc(items, top as int)[u]@ == "State"@ || impl_assoc(items, top as int)[u]@
            == "Event"@ {
            assert forall|j: int, w: int|
                0 <= j < items.len() && items[j] is SubstateImpl && 0 <= w < impl_assoc(
                    items,
                    j,
                ).len() implies !substate_keeps_out(#[trigger] impl_assoc(items, j)[w]@) by {}
            lemma_top_reserved_rejected(m, top, u);
        }
    }
}

/// After the first two passes, every state impl is a plain name with a plain superstate name,
/// and no two states share a name.
pub proof fn lemma_valid_states(items: Seq<ModItem>)
    requires
        items.len() <= usize::MAX,
        first_error(item_errors(items), items.len()) is None,
    ensures
        forall|k: int|
            0 <= k < state_ids(items).len() ==> {
                &&& #[trigger] state_ids(items)[k] < items.len()
                &&& items[state_ids(items)[k] as int] matches ModItem::SubstateImpl {
                    target: Some(_),
                    superstate: SuperArg::Name(_),
                    ..
                }
            },
        no_duplicates(state_decls(items)),
{
    let ids = state_ids(items);
    let ds = state_decls(items);
    lemma_substate_ids(items, items.len());
    lemma_first_error(item_errors(items), items.len());
    assert forall|k: int| 0 <= k < ids.len() implies {
        &&& #[trigger] ids[k] < items.len()
        &&& items[ids[k] as int] matches ModItem::SubstateImpl {
            target: Some(_),
            superstate: SuperArg::Name(_),
            ..
        }
    } by {
        assert(item_errors(items)(ids[k] as int) is None);
    }
    assert forall|i: int| 0 <= i < ds.len() implies !#[trigger] is_duplicate(ds, i) by {
        if is_duplicate(ds, i) {
            let j = choose|j: int| 0 <= j < i && ds[j].0 == ds[i].0;
            let a = ids[j] as int;
            let b = ids[i] as int;
            assert(a < b);
            assert(item_errors(items)(b) is None);
            assert(item_errors(items)(a) is None);
            assert(has_kind(items, a, ItemKind::Substate));
            assert(target_of(items, a) == target_of(items, b));
        }
    }
}

/// `t` is an associated type reserved for the generated code (of the top state when `top`).
fn is_reserved(t: &String, top: bool) -> (r: bool)
    ensures
        r == if top {
            reserved_for_top(t@)
        } else {
            reserved_for_substate(t@)
        },
{
    let state = "State".to_owned();
    let event = "Event".to_owned();
    if *t == state || *t == event {
        return true;
    }
    if top {
        return false;
    }
    let context = "Context".to_owned();
    *t == context
}

/// The first reserved associated type that impl `j` defines.
fn reserved_check(items: &Vec<ModItem>, j: usize, top: bool) -> (r: Option<UnpackError>)
    requires
        j < items@.len(),
    ensures
        r == reserved_error(items@, j as int, top),
{
    let types = match &items[j] {
        ModItem::TopStateImpl { assoc_types, .. } => assoc_types,
        ModItem::SubstateImpl { assoc_types, .. } => assoc_types,
        _ => {
            return None;
        },
    };
    let ghost f = reserved_type_errors(items@, j as int, top);
    let mut t: usize = 0;
    while t < types.len()
        invariant
            types@ == impl_assoc(items@, j as int),
            t <= types@.len(),
            f == reserved_type_errors(items@, j as int, top),
            first_error(f, t as nat) is None,
        decreases types@.len() - t,
    {
        proof {
            assert(f(t as int) == reserved_type_error(items@, j as int, top, t as int));
        }
        if is_reserved(&types[t], top) {
            proof {
                lemma_first_error_stays(f, (t + 1) as nat, types@.len());
            }
            return Some(
                if top {
                    UnpackError::ReservedTopStateType(j, t)
                } else {
                    UnpackError::ReservedSubstateType(j, t)
                },
            );
        }
        t = t + 1;
    }
    None
}

/// Whether the last struct named `name` in the module has fields, if there is one.
fn struct_fields(items: &Vec<ModItem>, name: &String) -> (r: Option<bool>)
    ensures
        r == struct_def(items@, name@, items@.len()),
{
    let mut r: Option<bool> = None;
    let mut i: usize = 0;
    while i < items.len()
        invariant
            i <= items@.len(),
            r == struct_def(items@, name@, i as nat),
        decreases items@.len() - i,
    {
        if let ModItem::Struct { name: s, has_fields } = &items[i] {
            if *s == *name {
                r = Some(*has_fields);
            }
        }
        i = i + 1;
    }
    r
}

/// The name that impl `j` is written on.
fn impl_target(items: &Vec<ModItem>, j: usize) -> (r: String)
    requires
        j < items@.len(),
        target_of(items@, j as int) is Some,
    ensures
        r@ == impl_name(items@, j as int),
{
    match &items[j] {
        ModItem::EventImpl { target: Some(t) } => t.clone(),
        ModItem::TopStateImpl { target: Some(t), .. } => t.clone(),
        ModItem::SubstateImpl { target: Some(t), .. } => t.clone(),
        _ => String::new(),
    }
}

/// The `enter` check of the state declared by impl `j`; when it passes, whether that state
/// gets a generated `enter`.
fn enter_check(items: &Vec<ModItem>, j: usize) -> (r: Result<bool, UnpackError>)
    requires
        j < items@.len(),
        items@[j as int] matches ModItem::SubstateImpl { target: Some(_), .. },
    ensures
        match r {
            Err(e) => enter_error(items@, j as int) == Some(e),
            Ok(b) => enter_error(items@, j as int) is None && b == autogen_enter(items@, j as int),
        },
{
    let fns = match &items[j] {
        ModItem::SubstateImpl { fns, .. } => fns,
        _ => {
            return Ok(false);
        },
    };
    let enter = "enter".to_owned();
    let mut f: usize = 0;
    while f < fns.len()
        invariant
            fns@ == impl_fns(items@, j as int),
            f <= fns@.len(),
            enter@ == "enter"@,
            forall|g: int| 0 <= g < f ==> #[trigger] fns@[g]@ != "enter"@,
        decreases fns@.len() - f,
    {
        if fns[f] == enter {
            assert(defines_enter(items@, j as int));
            return Ok(false);
        }
        f = f + 1;
    }
    let name = impl_target(items, j);
    match struct_fields(items, &name) {
        None => Err(UnpackError::EnterRequiredForeign(j)),
        Some(true) => Err(UnpackError::EnterRequiredFields(j)),
        Some(false) => Ok(true),
    }
}

/// The declarations of the states: each one's name and its superstate's name.
fn state_decl_list(items: &Vec<ModItem>, states: &Vec<usize>) -> (r: Vec<StateDecl>)
    requires
        states@ == state_ids(items@),
        forall|k: int|
            0 <= k < states@.len() ==> {
                &&& #[trigger] states@[k] < items@.len()
                &&& items@[states@[k] as int] matches ModItem::SubstateImpl {
                    target: Some(_),
                    superstate: SuperArg::Name(_),
                    ..
                }
            },
    ensures
        decls_view(r@) == state_decls(items@),
{
    let mut r: Vec<StateDecl> = Vec::new();
    let mut k: usize = 0;
    while k < states.len()
        invariant
            states@ == state_ids(items@),
            forall|k: int|
                0 <= k < states@.len() ==> {
                    &&& #[trigger] states@[k] < items@.len()
                    &&& items@[states@[k] as int] matches ModItem::SubstateImpl {
                        target: Some(_),
                        superstate: SuperArg::Name(_),
                        ..
                    }
                },
            k <= states@.len(),
            r@.len() == k,
            forall|m: int|
                0 <= m < k ==> #[trigger] r@[m].name@ == state_decls(items@)[m].0
                    && r@[m].superstate@ == state_decls(items@)[m].1,
        decreases states@.len() - k,
    {
        let j = states[k];
        if let ModItem::SubstateImpl { target: Some(t), superstate: SuperArg::Name(sup), .. } =
            &items[j] {
            r.push(StateDecl { name: t.clone(), superstate: sup.clone() });
        }
        k = k + 1;
    }
    assert(decls_view(r@) =~= state_decls(items@));
    r
}

/// The superstate of state `k` is another state or the top state named `top`.
fn superstate_check(decls: &Vec<StateDecl>, top: &String, k: usize) -> (r: bool)
    requires
        k < decls@.len(),
    ensures
        r == super_known(decls_view(decls@), top@, k as int),
{
    let ghost dv = decls_view(decls@);
    let d = &decls[k];
    if d.superstate == d.name {
        return false;
    }
    if d.superstate == *top {
        return true;
    }
    let mut m: usize = 0;
    while m < decls.len()
        invariant
            dv == decls_view(decls@),
            m <= decls@.len(),
            k < decls@.len(),
            d == decls@[k as int],
            d.superstate@ != top@,
            d.superstate@ != d.name@,
            forall|i: int| 0 <= i < m ==> #[trigger] dv[i].0 != d.superstate@,
        decreases decls@.len() - m,
    {
        if decls[m].name == d.superstate {
            assert(dv[m as int].0 == d.superstate@);
            assert(decl_name(dv, m as int) == d.superstate@);
            assert(decl_super(dv, k as int) == d.superstate@);
            assert(decl_name(dv, k as int) == d.name@);
            return true;
        }
        m = m + 1;
    }
    false
}

/// What a state machine is generated from: its name, where its event type, top state and
/// machine module are declared, the impl declaring each state, which states get a generated
/// `enter`, and the tree of its states.
pub struct Metadata {
    pub name: String,
    pub event: Option<usize>,
    pub top: usize,
    pub machine_mod: usize,
    /// The item that declares state `k + 1`, for each `k`.
    pub states: Vec<usize>,
    /// Whether state `k + 1` gets a generated `enter`, for each `k`.
    pub autogen_enter: Vec<bool>,
    pub tree: StateTree,
}

/// Check a state machine module named `name` and collect what its machine is generated from.
/// The first problem found is reported; see [`metadata_error`] for the order of the checks.
pub fn build_metadata(name: String, module: &ModuleSummary) -> (r: Result<Metadata, UnpackError>)
    ensures
        match r {
            Err(e) => metadata_error(*module) == Some(e),
            Ok(md) => {
                let items = module.items@;
                let top = impl_name(items, md.top as int);
                &&& metadata_error(*module) is None
                &&& md.name@ == name@
                &&& md.event == first_of(items, ItemKind::Event, items.len())
                &&& first_of(items, ItemKind::Top, items.len()) == Some(md.top)
                &&& first_of(items, ItemKind::MachineMod, items.len()) == Some(md.machine_mod)
                &&& md.states@ == state_ids(items)
                &&& md.autogen_enter@ == Seq::new(
                    state_ids(items).len(),
                    |k: int| autogen_enter(items, state_ids(items)[k] as int),
                )
                &&& md.tree.wf()
                &&& is_tree(md.tree.parents_view())
                &&& md.tree.parents_view() == decl_parents(state_decls(items), top)
                &&& md.tree.names_view() == decl_names(state_decls(items), top)
            },
        },
{
    let u = match unpack(module) {
        Ok(u) => u,
        Err(e) => {
            return Err(e);
        },
    };
    let items = &module.items;
    let ghost s = items@;
    let ilen = items.len();
    let n = u.states.len();
    proof {
        assert(s.len() <= usize::MAX);
        lemma_valid_states(s);
        assert(metadata_error(*module) == state_error(s));
    }
    // associated types
    let mut k: usize = 0;
    while k < n
        invariant
            s == items@,
            metadata_error(*module) == state_error(s),
            first_error(item_errors(s), s.len()) is None,
            n == u.states@.len(),
            u.states@ == state_ids(s),
            forall|k: int| 0 <= k < n ==> #[trigger] state_ids(s)[k] < s.len(),
            k <= n,
            first_error(state_reserved_errors(s), k as nat) is None,
        decreases n - k,
    {
        proof {
            assert(state_reserved_errors(s)(k as int) == reserved_error(
                s,
                u.states@[k as int] as int,
                false,
            ));
        }
        if let Some(e) = reserved_check(items, u.states[k], false) {
            proof {
                lemma_first_error_stays(state_reserved_errors(s), (k + 1) as nat, n as nat);
                assert(assoc_error(s) == Some(e));
            }
            return Err(e);
        }
        k = k + 1;
    }
    proof {
        lemma_first_of(s, ItemKind::Top, s.len());
    }
    if let Some(t) = u.top {
        if let Some(e) = reserved_check(items, t, true) {
            return Err(e);
        }
    }
    assert(assoc_error(s) is None);
    // enter
    let mut autogen: Vec<bool> = Vec::new();
    let mut k: usize = 0;
    while k < n
        invariant
            s == items@,
            metadata_error(*module) == state_error(s),
            first_error(item_errors(s), s.len()) is None,
            n == u.states@.len(),
            u.states@ == state_ids(s),
            forall|k: int|
                0 <= k < n ==> {
                    &&& #[trigger] state_ids(s)[k] < s.len()
                    &&& s[state_ids(s)[k] as int] matches ModItem::SubstateImpl {
                        target: Some(_),
                        superstate: SuperArg::Name(_),
                        ..
                    }
                },
            k <= n,
            assoc_error(s) is None,
            first_error(enter_errors(s), k as nat) is None,
            autogen@.len() == k,
            forall|m: int|
                0 <= m < k ==> #[trigger] autogen@[m] == autogen_enter(s, state_ids(s)[m] as int),
        decreases n - k,
    {
        proof {
            assert(enter_errors(s)(k as int) == enter_error(s, u.states@[k as int] as int));
        }
        match enter_check(items, u.states[k]) {
            Err(e) => {
                proof {
                    lemma_first_error_stays(enter_errors(s), (k + 1) as nat, n as nat);
                }
                return Err(e);
            },
            Ok(b) => {
                autogen.push(b);
            },
        }
        k = k + 1;
    }
    // the top state
    let t = match u.top {
        Some(t) => t,
        None => {
            return Err(UnpackError::NoTopState);
        },
    };
    proof {
        lemma_first_error(item_errors(s), s.len());
        assert(item_errors(s)(t as int) is None);
    }
    let top_name = impl_target(items, t);
    // superstates
    let decls = state_decl_list(items, &u.states);
    let ghost ds = state_decls(s);
    let mut k: usize = 0;
    while k < n
        invariant
            s == items@,
            metadata_error(*module) == state_error(s),
            first_error(item_errors(s), s.len()) is None,
            n == u.states@.len(),
            u.states@ == state_ids(s),
            ds == state_decls(s),
            decls_view(decls@) == ds,
            ds.len() == n,
            k <= n,
            assoc_error(s) is None,
            first_error(enter_errors(s), n as nat) is None,
            first_of(s, ItemKind::Top, s.len()) == Some(t),
            top_name@ == impl_name(s, t as int),
            first_error(superstate_errors(s, top_name@), k as nat) is None,
        decreases n - k,
    {
        if !superstate_check(&decls, &top_name, k) {
            proof {
                assert(superstate_errors(s, top_name@)(k as int) == Some(
                    UnpackError::UnknownSuperstate(u.states@[k as int]),
                ));
                lemma_first_error_stays(superstate_errors(s, top_name@), (k + 1) as nat, n as nat);
            }
            return Err(UnpackError::UnknownSuperstate(u.states[k]));
        }
        proof {
            assert(superstate_errors(s, top_name@)(k as int) is None);
        }
        k = k + 1;
    }
    proof {
        lemma_first_error(superstate_errors(s, top_name@), n as nat);
        assert forall|k: int| 0 <= k < ds.len() implies #[trigger] super_known(
            ds,
            top_name@,
            k,
        ) by {
            assert(superstate_errors(s, top_name@)(k) is None);
        }
    }
    // the machine module
    let machine_mod = match u.machine_mod {
        Some(m) => m,
        None => {
            return Err(UnpackError::NoMachineModule);
        },
    };
    // cycles
    let ghost cyc = cycle_errors(s, top_name@);
    proof {
        lemma_first_error(cyc, n as nat);
    }
    match build_tree(top_name.as_str(), &decls) {
        Ok(tree) => {
            proof {
                assert forall|k: int| 0 <= k < n implies #[trigger] cyc(k) is None by {
                    assert(!closes_cycle(tree.parents_view(), (k + 1) as usize));
                }
                assert(autogen@ =~= Seq::new(
                    state_ids(s).len(),
                    |k: int| autogen_enter(s, state_ids(s)[k] as int),
                ));
            }
            Ok(
                Metadata {
                    name,
                    event: u.event,
                    top: t,
                    machine_mod,
                    states: u.states,
                    autogen_enter: autogen,
                    tree,
                },
            )
        },
        Err(MetadataError::GraphCycle(k)) => {
            proof {
                assert(cyc(k as int) == Some(UnpackError::GraphCycle(u.states@[k as int])));
                assert forall|j: int| 0 <= j < k implies #[trigger] cyc(j) is None by {
                    assert(!closes_cycle(decl_parents(ds, top_name@), (j + 1) as usize));
                }
                lemma_first_error(cyc, k as nat);
                lemma_first_error_stays(cyc, (k + 1) as nat, n as nat);
            }
            Err(UnpackError::GraphCycle(u.states[k]))
        },
        Err(_) => {
            // cannot happen: every state has another name and a known superstate
            proof {
                assert(false);
            }
            Err(UnpackError::NoMachineModule)
        },
    }
}

/// The text of each segment of a path.
pub open spec fn segments_view(path: Seq<String>) -> Seq<Seq<char>> {
    path.map_values(|s: String| s@)
}

/// A path names `name` when it is `name` itself or `moku::name`.
pub open spec fn path_names(path: Seq<Seq<char>>, name: Seq<char>) -> bool {
    ||| path.len() == 1 && path[0] == name
    ||| path.len() == 2 && path[0] == "moku"@ && path[1] == name
}

/// Does the path with these segments name `name`, as `name` or `moku::name`?
pub fn path_matches(path: &Vec<String>, name: &str) -> (r: bool)
    ensures
        r == path_names(segments_view(path@), name@),
{
    let name = name.to_owned();
    if path.len() == 1 {
        path[0] == name
    } else if path.len() == 2 {
        let moku = "moku".to_owned();
        path[0] == moku && path[1] == name
    } else {
        false
    }
}

/// The indices, in order, of the paths among the first `n` that name `name`.
pub open spec fn naming(paths: Seq<Seq<String>>, name: Seq<char>, n: nat) -> Seq<usize>
    decreases n,
{
    if n == 0 {
        Seq::empty()
    } else {
        naming(paths, name, (n - 1) as nat) + if path_names(segments_view(paths[n - 1]), name) {
            seq![(n - 1) as usize]
        } else {
            Seq::empty()
        }
    }
}

/// The indices of the attributes, given by their paths, that name `name`.
pub fn filter_attributes(paths: &Vec<Vec<String>>, name: &str) -> (r: Vec<usize>)
    ensures
        r@ == naming(paths@.map_values(|p: Vec<String>| p@), name@, paths@.len()),
{
    let ghost ps = paths@.map_values(|p: Vec<String>| p@);
    let mut r: Vec<usize> = Vec::new();
    let mut i: usize = 0;
    while i < paths.len()
        invariant
            ps == paths@.map_values(|p: Vec<String>| p@),
            i <= paths@.len(),
            r@ == naming(ps, name@, i as nat),
        decreases paths@.len() - i,
    {
        if path_matches(&paths[i], name) {
            r.push(i);
        }
        proof {
            assert(ps[i as int] == paths@[i as int]@);
        }
        i = i + 1;
    }
    r
}

} // verus!
