# aera

The verified core of a Rust runtime in the style of AERA, a system that
learns causal models of entities and their variables and plans commands by
chaining those models backward from a goal and forward from the current
state. This crate holds the part of that runtime that the library states and
proves: the matching, instantiation, deduction and abduction that models are
built from, backward chaining from a goal, the merging of the models that
forward chaining tries, the comparisons used when learned models are
merged, and the runtime's decisions between steps. Model formation itself
(extracting patterns from observations and building new models and
composite states) and the search that forward chaining makes through the
merged models are not part of it.

`src/` is the library, verified with Verus. Values are a type parameter:
how two values compare, how a value reads as a vector of values and how a
vector becomes a value are passed in as functions, and every contract speaks
of what those functions answer.

- `str_map` — insertion-ordered maps keyed by strings (or pairs of
  strings), specified by a `Map` view and the sequence of their entries.
- `strings` — prefix tests, lexicographic order and decimal rendering over
  `Seq<char>`.
- `types` — patterns with their bindings, cloning, filling and flattening;
  facts, variable patterns, commands (and the commands sent to the
  controller), composite states, functions with their evaluation, and models
  with the bindings that parameterise them; time patterns, entity patterns,
  entity variable keys, and the system (its models, composite states and
  entities by class) with its state (variable values, composite state
  instances and time).
- `types::instances` — binding models: from an instantiation among the
  system's models, from the instances of a composite state, backward from
  the instantiation they bring about; deduction, abduction of sub-goals,
  the model a reuse model reuses, the command a causal model executes and
  the state it predicts.
- `types::state_instances` — every choice of entities of the declared
  classes for a composite state, and the instances of composite states in
  a state of the world.
- `interfaces` — the table of communication ids shared with the controller,
  and the little-endian decoding and framing of the bytes it exchanges.
- `runtime::pattern_matching` — comparing patterns, matching values against
  patterns while collecting bindings, extracting the values bindings take,
  combining the bound values of two patterns, and matching instantiations,
  commands, variable patterns and model sides.
- `runtime::learning` — the binding maps and fresh names used to compare
  and merge learned models, comparing causal models with and without a
  mapping of their bindings, comparing the effects of two pairs of models
  into a merged composite state, and the names of new models.
- `runtime::runtime_main` — the clock step, and the decisions the runtime
  takes between steps: when the current goal counts as achieved, whether to
  send a babble command or plan for the goal, and what to send after
  planning.
- `runtime::utils` — the system's models by kind, the instances of all its
  composite states in a state, and the values its assumption and state
  prediction models give from those instances.
- `runtime::simulation::backward` — backward chaining: the instantiations
  of causal and assumption models that abduction finds for a goal and, level
  by level up to a fixed depth, for the sub-goals they leave, with the
  variations of a sub-goal that each ordering of its facts gives from the
  current state.
- `runtime::simulation::forward` — the instantiations that requirement
  models give from the composite state instances of a state, merging them
  with those that backward chaining found for a goal, and following the
  goal path through a tree of forward chaining nodes to the commands to
  send.

`app/` is the program around it: logging, the TCP link to the controller,
the value type with its floating-point comparison and arithmetic, which it
hands to the library's functions, a seed of models and goals, and the
runtime loop that reads the state, asks the library what to do, chains
backward from the goal and sends the command decided on.
