# air_mir

The middle intermediate representation (MIR) of the AirScript compiler as a verified library:
the constraint graph, its passes and its evaluators, with contracts proved by Verus.

## Layout

- `src/graph.rs`, `src/ir.rs`, `src/link.rs`: the graph. Ops, roots, node views and owner views
  live in arenas and name each other by slot; `Graph::wf` is the invariant every operation keeps.
- `src/views.rs`, `src/create.rs`, `src/mutation.rs`, `src/bus.rs`, `src/registry.rs`: making
  ops and roots, their node and owner views, buses, and the name tables of functions, evaluators
  and buses.
- `src/interner.rs`, `src/passes/cse.rs`: interning and common subexpression elimination.
- `src/passes/constant_propagation.rs`: constant folding and accessor resolution.
- `src/passes/inlining.rs`, `src/passes/index_projection.rs`: the deciding parts of inlining
  (the order of inlining, the unpacking of evaluator arguments) and of index projection.
- `src/eval.rs`, `src/quad_eval.rs`, `src/quad_felt.rs`: evaluation at random points, over the
  base field and its quadratic extension.
- `src/builder.rs`: the state machine behind the `Builder` derive.
- `src/utils.rs`, `src/debug.rs`, `src/span.rs`, `src/owner_id.rs`, `src/value.rs`: statistics,
  shareability, root extraction, debug text and the values the graph holds.
- `app/`: the `Builder` derive's code generation, the error type with its `Display`, and the
  statistics log.
- `tests/`: scenarios on hand-built graphs.
