// Reading state machine modules: the cases that must not compile, each error of the checks, and
// the metadata of modules that pass.

use moku::metadata::{
    build_tree, cycle_chart, machine_name, state_chart, superstate_chain, with_suffix,
    MetadataError, StateDecl, STATE_CHART_NAME,
};
use moku::tree::{Move, StateTree};
use moku::unpack::{
    build_metadata, filter_attributes, path_matches, superstate_arg, ModItem, ModuleSummary, SuperArg,
    SuperArgs, UnpackError,
};

fn module(items: Vec<ModItem>) -> ModuleSummary {
    ModuleSummary { inline: true, items }
}

fn machine_mod(name: &str) -> ModItem {
    ModItem::Module {
        name: name.to_string(),
        machine_attrs: 1,
        attr_has_args: false,
        empty_braces: true,
    }
}

fn plain_mod(name: &str) -> ModItem {
    ModItem::Module {
        name: name.to_string(),
        machine_attrs: 0,
        attr_has_args: false,
        empty_braces: false,
    }
}

fn unit_struct(name: &str) -> ModItem {
    ModItem::Struct {
        name: name.to_string(),
        has_fields: false,
    }
}

fn struct_with_fields(name: &str) -> ModItem {
    ModItem::Struct {
        name: name.to_string(),
        has_fields: true,
    }
}

fn top_state(name: &str) -> ModItem {
    ModItem::TopStateImpl {
        target: Some(name.to_string()),
        assoc_types: vec![],
    }
}

fn event(name: &str) -> ModItem {
    ModItem::EventImpl {
        target: Some(name.to_string()),
    }
}

fn substate(name: &str, superstate: &str) -> ModItem {
    ModItem::SubstateImpl {
        target: Some(name.to_string()),
        generic: false,
        superstate: SuperArg::Name(superstate.to_string()),
        assoc_types: vec![],
        fns: vec![],
    }
}

fn substate_with_enter(name: &str, superstate: &str) -> ModItem {
    ModItem::SubstateImpl {
        target: Some(name.to_string()),
        generic: false,
        superstate: SuperArg::Name(superstate.to_string()),
        assoc_types: vec![],
        fns: vec!["enter".to_string(), "update".to_string()],
    }
}

fn error_of(items: Vec<ModItem>) -> Option<UnpackError> {
    build_metadata("Blinky".to_string(), &module(items)).err()
}

#[test]
fn compile_fail_compile_fail() {
    // an event impl on a generic type
    assert_eq!(
        error_of(vec![
            machine_mod("machine"),
            unit_struct("Event"),
            ModItem::EventImpl { target: None },
            unit_struct("Top"),
            top_state("Top"),
        ]),
        Some(UnpackError::EventNotPlain(2))
    );

    // two event types
    assert_eq!(
        error_of(vec![
            machine_mod("machine"),
            unit_struct("EventA"),
            event("EventA"),
            unit_struct("EventB"),
            event("EventB"),
            unit_struct("Top"),
            top_state("Top"),
        ]),
        Some(UnpackError::MultipleEvents(4))
    );

    // a machine_module attribute with a value
    assert_eq!(
        error_of(vec![ModItem::Module {
            name: "machine".to_string(),
            machine_attrs: 1,
            attr_has_args: true,
            empty_braces: true,
        }]),
        Some(UnpackError::MachineAttrArgs(0))
    );

    // two machine modules
    assert_eq!(
        error_of(vec![machine_mod("machine"), machine_mod("other_machine")]),
        Some(UnpackError::MultipleMachineModules(1))
    );

    // a machine module with items
    assert_eq!(
        error_of(vec![ModItem::Module {
            name: "machine".to_string(),
            machine_attrs: 1,
            attr_has_args: false,
            empty_braces: false,
        }]),
        Some(UnpackError::MachineModuleNotEmpty(0))
    );

    // a state whose struct is defined outside the module, without enter
    assert_eq!(
        error_of(vec![
            machine_mod("machine"),
            unit_struct("Top"),
            top_state("Top"),
            substate("Bottom", "Top"),
        ]),
        Some(UnpackError::EnterRequiredForeign(3))
    );

    // two superstate arguments
    assert_eq!(
        error_of(vec![
            machine_mod("machine"),
            unit_struct("Top"),
            top_state("Top"),
            ModItem::SubstateImpl {
                target: Some("Bottom".to_string()),
                generic: false,
                superstate: SuperArg::WrongCount,
                assoc_types: vec![],
                fns: vec![],
            },
        ]),
        Some(UnpackError::SuperstateArgCount(3))
    );

    // one state with two superstates
    assert_eq!(
        error_of(vec![
            machine_mod("machine"),
            unit_struct("Top"),
            top_state("Top"),
            unit_struct("Middle"),
            substate("Middle", "Top"),
            unit_struct("Bottom"),
            substate("Bottom", "Top"),
            substate("Bottom", "Middle"),
        ]),
        Some(UnpackError::DuplicateSubstate(7))
    );

    // two top states
    assert_eq!(
        error_of(vec![
            machine_mod("machine"),
            unit_struct("Top"),
            top_state("Top"),
            unit_struct("OtherTop"),
            top_state("OtherTop"),
        ]),
        Some(UnpackError::MultipleTopStates(4))
    );

    // a state with fields, without enter
    assert_eq!(
        error_of(vec![
            machine_mod("machine"),
            unit_struct("Top"),
            top_state("Top"),
            struct_with_fields("Bottom"),
            substate("Bottom", "Top"),
        ]),
        Some(UnpackError::EnterRequiredFields(4))
    );

    // a state impl on a type alias, not on the struct
    assert_eq!(
        error_of(vec![
            machine_mod("machine"),
            unit_struct("Top"),
            top_state("Top"),
            unit_struct("Bottom"),
            ModItem::Other,
            substate("BottomTy", "Top"),
        ]),
        Some(UnpackError::EnterRequiredForeign(5))
    );

    // no superstate argument
    assert_eq!(
        error_of(vec![
            machine_mod("state_machine"),
            unit_struct("Top"),
            top_state("Top"),
            ModItem::SubstateImpl {
                target: Some("Bottom".to_string()),
                generic: false,
                superstate: SuperArg::Missing,
                assoc_types: vec![],
                fns: vec![],
            },
        ]),
        Some(UnpackError::SuperstateMissing(3))
    );

    // a state impl with generic parameters
    assert_eq!(
        error_of(vec![
            machine_mod("machine"),
            unit_struct("Top"),
            top_state("Top"),
            struct_with_fields("Bottom"),
            ModItem::SubstateImpl {
                target: None,
                generic: true,
                superstate: SuperArg::Name("Top".to_string()),
                assoc_types: vec![],
                fns: vec![],
            },
        ]),
        Some(UnpackError::SubstateGeneric(4))
    );

    // a state impl on a reference
    assert_eq!(
        error_of(vec![
            machine_mod("machine"),
            unit_struct("Top"),
            top_state("Top"),
            unit_struct("Bottom"),
            ModItem::SubstateImpl {
                target: None,
                generic: false,
                superstate: SuperArg::Name("Top".to_string()),
                assoc_types: vec![],
                fns: vec![],
            },
        ]),
        Some(UnpackError::SubstateNotPlain(4))
    );

    // a top state defining the event type
    assert_eq!(
        error_of(vec![
            machine_mod("machine"),
            unit_struct("Top"),
            ModItem::TopStateImpl {
                target: Some("Top".to_string()),
                assoc_types: vec!["Event".to_string()],
            },
        ]),
        Some(UnpackError::ReservedTopStateType(2, 0))
    );

    // two states that are each other's superstate
    assert_eq!(
        error_of(vec![
            machine_mod("machine"),
            unit_struct("Top"),
            top_state("Top"),
            unit_struct("Foo"),
            substate("Foo", "Bar"),
            unit_struct("Bar"),
            substate("Bar", "Foo"),
        ]),
        Some(UnpackError::GraphCycle(6))
    );

    // a longer cycle of superstates
    assert_eq!(
        error_of(vec![
            machine_mod("machine"),
            unit_struct("Top"),
            top_state("Top"),
            unit_struct("Foo"),
            substate("Foo", "Beef"),
            unit_struct("Bar"),
            substate("Bar", "Foo"),
            unit_struct("Fizz"),
            substate("Fizz", "Foo"),
            unit_struct("Buzz"),
            substate("Buzz", "Fizz"),
            unit_struct("Dead"),
            substate("Dead", "Buzz"),
            unit_struct("Beef"),
            substate("Beef", "Dead"),
        ]),
        Some(UnpackError::GraphCycle(14))
    );

    // no machine module
    assert_eq!(
        error_of(vec![unit_struct("Top"), top_state("Top")]),
        Some(UnpackError::NoMachineModule)
    );
}

#[test]
fn module_not_inline() {
    let summary = ModuleSummary {
        inline: false,
        items: vec![machine_mod("machine")],
    };
    assert_eq!(
        build_metadata("Blinky".to_string(), &summary).err(),
        Some(UnpackError::NotInline)
    );
    assert_eq!(error_of(vec![]), Some(UnpackError::NotInline));
}

#[test]
fn module_errors_by_kind() {
    // two machine_module attributes on one module
    assert_eq!(
        error_of(vec![ModItem::Module {
            name: "machine".to_string(),
            machine_attrs: 2,
            attr_has_args: false,
            empty_braces: true,
        }]),
        Some(UnpackError::MultipleMachineAttrs(0))
    );

    // a top state impl on a type that is not a plain name
    assert_eq!(
        error_of(vec![
            machine_mod("machine"),
            ModItem::TopStateImpl {
                target: None,
                assoc_types: vec![],
            },
        ]),
        Some(UnpackError::TopStateNotPlain(1))
    );

    // superstate arguments that are not a single name
    for (arg, expected) in [
        (SuperArg::NotAName, UnpackError::SuperstateNotAName(3)),
        (SuperArg::Parenthesized, UnpackError::SuperstateParenthesized(3)),
    ] {
        assert_eq!(
            error_of(vec![
                machine_mod("machine"),
                unit_struct("Top"),
                top_state("Top"),
                ModItem::SubstateImpl {
                    target: Some("Bottom".to_string()),
                    generic: false,
                    superstate: arg,
                    assoc_types: vec![],
                    fns: vec![],
                },
            ]),
            Some(expected)
        );
    }

    // a substate defining an associated type of the generated code
    assert_eq!(
        error_of(vec![
            machine_mod("machine"),
            unit_struct("Top"),
            top_state("Top"),
            unit_struct("Bottom"),
            ModItem::SubstateImpl {
                target: Some("Bottom".to_string()),
                generic: false,
                superstate: SuperArg::Name("Top".to_string()),
                assoc_types: vec!["Helper".to_string(), "Context".to_string()],
                fns: vec![],
            },
        ]),
        Some(UnpackError::ReservedSubstateType(4, 1))
    );

    // no top state
    assert_eq!(
        error_of(vec![machine_mod("machine"), unit_struct("Foo"), substate("Foo", "Top")]),
        Some(UnpackError::NoTopState)
    );

    // a superstate that is no state, and a state that is its own superstate
    assert_eq!(
        error_of(vec![
            machine_mod("machine"),
            unit_struct("Top"),
            top_state("Top"),
            unit_struct("Foo"),
            substate("Foo", "Top"),
            unit_struct("Bar"),
            substate("Bar", "Nowhere"),
        ]),
        Some(UnpackError::UnknownSuperstate(6))
    );
    assert_eq!(
        error_of(vec![
            machine_mod("machine"),
            unit_struct("Top"),
            top_state("Top"),
            unit_struct("Foo"),
            substate("Foo", "Foo"),
        ]),
        Some(UnpackError::UnknownSuperstate(4))
    );
}

#[test]
fn module_errors_come_in_order() {
    // the event pass comes before every other check
    assert_eq!(
        error_of(vec![
            machine_mod("machine"),
            machine_mod("other"),
            event("A"),
            event("B"),
        ]),
        Some(UnpackError::MultipleEvents(3))
    );
    // a missing enter is reported before a missing top state
    assert_eq!(
        error_of(vec![machine_mod("machine"), struct_with_fields("Foo"), substate("Foo", "Top")]),
        Some(UnpackError::EnterRequiredFields(2))
    );
    // an unknown superstate is reported before a missing machine module
    assert_eq!(
        error_of(vec![unit_struct("Top"), top_state("Top"), unit_struct("Foo"), substate("Foo", "Bar")]),
        Some(UnpackError::UnknownSuperstate(3))
    );
}

#[test]
fn module_metadata() {
    let items = vec![
        machine_mod("machine"),
        ModItem::Other,
        unit_struct("Top"),
        top_state("Top"),
        event("Event"),
        struct_with_fields("Enabled"),
        substate_with_enter("Enabled", "Top"),
        unit_struct("Disabled"),
        substate("Disabled", "Top"),
        unit_struct("LedOn"),
        substate("LedOn", "Enabled"),
        plain_mod("helpers"),
        unit_struct("LedOff"),
        substate_with_enter("LedOff", "Enabled"),
    ];
    let md = match build_metadata("Blinky".to_string(), &module(items)) {
        Ok(md) => md,
        Err(e) => panic!("unexpected error {:?}", e),
    };
    assert_eq!(md.name, "Blinky");
    assert_eq!(md.event, Some(4));
    assert_eq!(md.top, 3);
    assert_eq!(md.machine_mod, 0);
    assert_eq!(md.states, vec![6, 8, 10, 13]);
    assert_eq!(md.autogen_enter, vec![false, true, true, false]);
    assert_eq!(
        state_chart(&md.tree),
        "Top
├─ Enabled
│  ├─ LedOn
│  └─ LedOff
└─ Disabled"
    );
}

#[test]
fn module_without_event() {
    let md = match build_metadata(
        "Tester".to_string(),
        &module(vec![machine_mod("machine"), unit_struct("Top"), top_state("Top")]),
    ) {
        Ok(md) => md,
        Err(e) => panic!("unexpected error {:?}", e),
    };
    assert_eq!(md.event, None);
    assert!(md.states.is_empty());
    assert_eq!(state_chart(&md.tree), "Top");
}

fn decls(pairs: &[(&str, &str)]) -> Vec<StateDecl> {
    pairs
        .iter()
        .map(|(name, superstate)| StateDecl {
            name: name.to_string(),
            superstate: superstate.to_string(),
        })
        .collect()
}

#[test]
fn tree_errors() {
    assert_eq!(
        build_tree("Top", &decls(&[("A", "Top"), ("B", "A"), ("A", "Top")])).err(),
        Some(MetadataError::DuplicateState(2))
    );
    assert_eq!(
        build_tree("Top", &decls(&[("A", "Top"), ("B", "C")])).err(),
        Some(MetadataError::UnknownSuperstate(1))
    );
    assert_eq!(
        build_tree("Top", &decls(&[("A", "A")])).err(),
        Some(MetadataError::UnknownSuperstate(0))
    );
    assert_eq!(
        build_tree("Top", &decls(&[("A", "Top"), ("B", "C"), ("C", "B")])).err(),
        Some(MetadataError::GraphCycle(2))
    );
    // the cycle is reported at the state whose link closes it, in the order of declaration
    assert_eq!(
        build_tree("Top", &decls(&[("B", "C"), ("A", "Top"), ("C", "D"), ("D", "B")])).err(),
        Some(MetadataError::GraphCycle(3))
    );
    assert_eq!(
        build_tree("Top", &decls(&[("A", "A2"), ("A2", "A")])).err(),
        Some(MetadataError::GraphCycle(1))
    );
}

#[test]
fn tree_shape() {
    let tree = build_tree("Top", &decls(&[("A", "Top"), ("AA", "A"), ("B", "Top")])).unwrap();
    assert_eq!(tree.len(), 4);
    assert_eq!(tree.parent_of(2), 1);
    assert_eq!(tree.depth_of(2), 2);
    assert_eq!(tree.name_of(3), "B");
    assert_eq!(tree.path_to(2), vec![0, 1, 2]);
    assert!(tree.ancestor(0, 2));
    assert!(tree.ancestor(1, 2));
    assert!(!tree.ancestor(2, 2));
    assert!(!tree.ancestor(3, 2));
    assert!(tree.is_active(&vec![0, 1, 2], 1));
    assert!(!tree.is_active(&vec![0, 1, 2], 3));
}

#[test]
fn tree_moves() {
    let tree = build_tree("Top", &decls(&[("A", "Top"), ("AA", "A"), ("B", "Top")])).unwrap();
    // from AA towards B: exit AA, exit A, enter B
    assert_eq!(tree.next_move(&vec![0, 1, 2], 3, false), Move::Exit);
    assert_eq!(tree.next_move(&vec![0, 1], 3, false), Move::Exit);
    assert_eq!(tree.next_move(&vec![0], 3, false), Move::Enter(3));
    // an active target is left alone, unless the transition is exact
    assert_eq!(tree.next_move(&vec![0, 1, 2], 1, false), Move::Stay);
    assert_eq!(tree.next_move(&vec![0, 1, 2], 1, true), Move::Exit);
    assert_eq!(tree.next_move(&vec![0, 1], 1, true), Move::Exit);
    assert_eq!(tree.next_move(&vec![0], 1, true), Move::Enter(1));
    // the top state is re-initialised, not exited
    assert_eq!(tree.next_move(&vec![0, 1], 0, true), Move::Exit);
    assert_eq!(tree.next_move(&vec![0], 0, true), Move::InitTop);
}

#[test]
fn trees_from_links() {
    let names = |n: usize| (0..n).map(|i| format!("S{i}")).collect::<Vec<String>>();
    assert!(StateTree::new(names(3), vec![0, 0, 1]).is_some());
    assert!(StateTree::new(names(3), vec![0, 2, 1]).is_none());
    assert!(StateTree::new(names(2), vec![1, 0]).is_none());
    assert!(StateTree::new(names(2), vec![0, 5]).is_none());
    assert!(StateTree::new(names(2), vec![0, 0, 0]).is_none());
    assert!(StateTree::new(names(0), vec![]).is_none());
}

#[test]
fn names() {
    assert_eq!(machine_name("blinky", None), "Blinky");
    assert_eq!(machine_name("my_machine", None), "MyMachine");
    assert_eq!(machine_name("named", Some("Kikai")), "Kikai");
    assert_eq!(STATE_CHART_NAME, "STATE_CHART");
    assert_eq!(with_suffix("Blinky", "MachineBuilder"), "BlinkyMachineBuilder");
    assert_eq!(with_suffix("Enabled", "Superstates"), "EnabledSuperstates");
}

fn path(segments: &[&str]) -> Vec<String> {
    segments.iter().map(|s| s.to_string()).collect()
}

#[test]
fn paths_naming_items() {
    assert!(path_matches(&path(&["Substate"]), "Substate"));
    assert!(path_matches(&path(&["moku", "Substate"]), "Substate"));
    assert!(!path_matches(&path(&["other", "Substate"]), "Substate"));
    assert!(!path_matches(&path(&["moku", "inner", "Substate"]), "Substate"));
    assert!(!path_matches(&path(&["TopState"]), "Substate"));
    assert!(!path_matches(&path(&[]), "Substate"));
}

#[test]
fn attributes_naming_items() {
    let attrs = vec![
        path(&["doc"]),
        path(&["machine_module"]),
        path(&["moku", "machine_module"]),
        path(&["cfg", "machine_module"]),
    ];
    assert_eq!(filter_attributes(&attrs, "machine_module"), vec![1, 2]);
    assert_eq!(filter_attributes(&attrs, "superstate"), Vec::<usize>::new());
}

fn decl(name: &str, superstate: &str) -> StateDecl {
    StateDecl { name: name.to_string(), superstate: superstate.to_string() }
}

#[test]
fn superstate_chain_follows_a_cycle() {
    let decls = vec![decl("Foo", "Bar"), decl("Bar", "Foo")];
    assert_eq!(superstate_chain(&decls, 1), vec![1, 0, 1]);
    assert_eq!(superstate_chain(&decls, 0), vec![0, 1, 0]);
    let three = vec![decl("A", "C"), decl("B", "A"), decl("C", "B")];
    assert_eq!(superstate_chain(&three, 2), vec![2, 1, 0, 2]);
}

#[test]
fn superstate_chain_stops_at_the_top() {
    let decls = vec![decl("A", "Top"), decl("B", "A"), decl("C", "B")];
    assert_eq!(superstate_chain(&decls, 2), vec![2, 1, 0]);
    assert_eq!(superstate_chain(&decls, 0), vec![0]);
}

#[test]
fn superstate_chain_stops_outside_a_cycle() {
    // `X` leads into the cycle of `Foo` and `Bar` without being on it
    let decls = vec![decl("Foo", "Bar"), decl("Bar", "Foo"), decl("X", "Foo")];
    assert_eq!(superstate_chain(&decls, 2), vec![2, 0, 1, 0]);
}

#[test]
fn cycle_chart_draws_the_cycle_under_the_superstate() {
    let decls = vec![decl("Foo", "Bar"), decl("Bar", "Foo")];
    let chain = superstate_chain(&decls, 1);
    assert_eq!(cycle_chart(&decls, &chain), "\n\u{2514}\u{2500} Bar\n   \u{2514}\u{2500} Foo");
    let three = vec![decl("A", "C"), decl("B", "A"), decl("C", "B")];
    let chain = superstate_chain(&three, 2);
    assert_eq!(
        cycle_chart(&three, &chain),
        "\n\u{2514}\u{2500} C\n   \u{2514}\u{2500} A\n      \u{2514}\u{2500} B"
    );
    let open = vec![decl("A", "Top")];
    assert_eq!(cycle_chart(&open, &superstate_chain(&open, 0)), "\n\u{2514}\u{2500} A");
}

#[test]
fn superstate_arguments_are_classified() {
    assert!(matches!(superstate_arg(SuperArgs::Bare), SuperArg::Missing));
    assert!(matches!(superstate_arg(SuperArgs::Parenthesized), SuperArg::Parenthesized));
    assert!(matches!(superstate_arg(SuperArgs::Angled(vec![])), SuperArg::WrongCount));
    assert!(matches!(
        superstate_arg(SuperArgs::Angled(vec![Some("A".to_string()), None])),
        SuperArg::WrongCount
    ));
    assert!(matches!(superstate_arg(SuperArgs::Angled(vec![None])), SuperArg::NotAName));
    match superstate_arg(SuperArgs::Angled(vec![Some("Top".to_string())])) {
        SuperArg::Name(n) => assert_eq!(n, "Top"),
        _ => panic!("expected a name"),
    }
}
