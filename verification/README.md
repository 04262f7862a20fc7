# rusty_taskflow

A DAG task-flow framework: tasks are committed into a flow, wired to the
outputs of other tasks, ordered into topological layers and run layer by
layer, each layer's tasks concurrently. Shared components (singletons and
factories) reach every task through a context; flows can also be described
in TOML and turned into builder code; a data-driven runtime starts each
processor as soon as the data it waits for are published.

Layout:

- `src/` — the verified library (Verus): the flow and its layering
  (`tf/flow.rs`, `dag.rs`), the component registry, the task registry,
  the flow-file code generator (`codegen.rs`), the task attribute's
  expansion (`task_macro.rs`), the data-driven template, runtime counters
  and completion bookkeeping (`data_driven_tf/`), and the example and
  benchmark tasks.
- `tests/` — tests of the library.
- `app/` — the runtime around it: tokio execution, the component
  inventory, file reading and TOML parsing for the code generator, the
  attribute's token handling, and the data-driven runtime's spawning.
