# moku

Hierarchical state machines, verified with Verus.

A machine has a tree of states with a single top state that is always active. One state is
current; it and all its superstates are active. A transition exits, deepest first, the active
states that are not superstates of its target, enters the states on the way down to the target,
and runs the target's initial transition; exits, entries and initial transitions may redirect
it. Updates run deepest first, top-down updates top first, and events bubble from the current
state up until a state drops them or asks for a transition.

## Layout

- `src/tree.rs`: the tree of states, the active path, and the plan of a transition, with the
  proofs that a transition nobody redirects ends on exactly the path to its target and that
  superstate links of which none closes a cycle form a tree.
- `src/internal.rs`: the machinery that runs a machine (`TopNode`) over the actions of its
  states (`SubstateEnum`), with a record of the calls it makes and the answers they got. Each
  action states which answers it may give, and every recorded answer is one of them. The
  record names the depth at which each update, top-down update and event reached its state,
  which is the state's own depth, and each action keeps the data of the active states fitting
  the states they belong to. The outcome of a transition is stated over the record: the record is the run of the transition's
  plan over the recorded answers (`run_log`), which ends with the states then active; when no
  recorded answer redirects it, the calls are exactly those that `transition_calls` lists and
  the machine ends on the path to the target. An update or top-down update pass is replayed
  the same way (`update_log`): each update of the pending state, then the record of the
  transition it asked for, and so on until no state is pending. Events are stated over the
  record too.
- `src/machine.rs`: a generic machine and its builder, implementing the public traits of
  `src/lib.rs`.
- `src/metadata.rs`: building the tree from declared states (duplicates, unknown superstates,
  cycles), the chain of superstate links that a cycle is reported with and its chart lines,
  the text chart of a tree, and the names of generated items.
- `src/unpack.rs`: the checks of a state machine module, given as a summary of its items
  (superstate arguments included), and the metadata its machine is generated from.
- `src/blinky.rs`: Blinky, a machine written out by hand.
- `app/lib.rs`: the attribute over token streams: reads a module with `syn`, reports what the
  library finds wrong, and writes the machine's code with `quote`.
- `tests/`: behaviour of machines, the module checks, Blinky.
