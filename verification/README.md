# lib — verified analysis core for React components

A Verus library holding the data structures and passes of a static analyzer
for React function components, each with a contract proved by Verus:

- `cfg`, `cfg_builder`, `dominance`, `worklist`, `splice`, `remap`: control-flow
  graphs, their construction, dominators, reachability, splicing a callee body
  into a call site, and the label/id shift a splice applies;
- `expr`, `stmt`, `free_vars`, `bindings`, `text`, `source_range`: the IR, the
  paths a body reads, binding lookups, and source positions;
- `hooks`, `hook_calls`, `hook_registry`, `function_registry`, `registry`,
  `component*`, `module`, `symbol_graph`, `program_result`: hook entries and
  registries, component identities, the module table and the symbol graph;
- `setters`, `setter_walk`, `slot_writers`, `may_written`, `seeds`,
  `triggers`, `written`: which state setters a body reaches and in which
  phase, which slot each write lands in and which slots may be written at
  all, effect seeds, and which slot moves which effect dep;
- `expand`: custom-hook expansion, which replaces a custom hook the run
  holds by its relabelled entries and splices its body at the call's marker;
- `control`, `render_deps`, `registrations`: control dependence by
  reachability, the variables a handler reaches only behind a test of its
  own parameters, and the dependence lattice;
- `report`: the counts a run's report opens with (warnings in all, files
  flagged, warnings per rule and per severity).

`tests/` exercises the library on concrete inputs.

Not part of this crate: the JavaScript parser front end and the walker over
its syntax tree, the floating-point interval fixpoint and the threshold-based
CFG analyzer, and the file runner with its serialized reports, which depend
on an outside parser, on floating point or on file I/O; the runner's
counting is here, over the facts of each file's result. Where one of the
passes here needs a value of the floating-point domain (a library hook's
summary, what an effect dep's value is versioned by), it takes it as a
parameter. The forward render-dependence analysis over a component body
(the evaluator over the dependence lattice) and the registration/cleanup
pairing are not implemented here.
