# onnxruntime-mlx

The core of an ONNX Runtime execution provider for Apple's MLX, written in Verus: which nodes of a
graph the provider claims and in which groups, how a claimed group becomes a plan, which of its
paths a call takes, how control flow is unrolled, and what is recorded about all of it.

## Layout

- `src/` is the verified library.
  - Graphs: `raw_graph`, `ort_graph`, `snapshot`, `ir` and `snapshot_laws` take a snapshot of the
    host's graph; `ir` holds the calls into `onnx-runtime-ir`.
  - Claims: `capability` decides what is claimed. It rests on `cluster`, `partition`, `boundary`
    and `span`, and these on `digraph`, `topology`, `visit`, `peel`, `reach`, `bitset`,
    `union_find`, `merge`, `grouping` and `quotient`. `cluster_laws`, `claim_laws` and
    `capability_laws` state what holds of claims: they are uniform, and where every reader is listed
    after what it reads, they are convex and fusing them all leaves no cycle. `chain_laws` states
    that both ways to form clusters agree on a chain.
  - Plans: `planner`, `plan_builder`, `sidecars`, `init_data`, `init_scope`, `shape_const`, `plan`,
    `plan_contents` and `plan_laws`.
  - Runs: `runtime` chooses paths and guards the thread that owns a subgraph; `ops` claims and
    unrolls `If`, `Loop` and `Scan`; `status` words what the host is told.
  - Records: `tracer`, `tracer_spans`, `trace`, `trace_args`, `trace_export`, `summary`, `report`,
    `tables`, `declined`, `rejection` and `capture`.
- `tests/` runs the library.
- `app/` is the plugin around it: reading the host's graphs, calling MLX and Metal, writing traces.
