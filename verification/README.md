# model-check (verified)

A model checking library with explicit-state exploration and property
verification. Every function of the library carries a contract, and a proof
that it meets it.

Layout of `src/`:

| Module       | What it holds |
|--------------|---------------|
| `state`      | `VarMap` (state variables), `State`, `StateGraph` and its view |
| `model`      | `GraphModel`: paths, reachability, distance layers, and their lemmas |
| `transition` | `Transition` with optional guards |
| `property`   | `Property`, `PropertyResult`, the condition language (`eval_condition`) |
| `explorer`   | breadth-first and depth-first exploration, shortest paths, state queries |
| `checker`    | `ModelChecker`: reachability, invariant and liveness checks, statistics |
| `laws`       | proof functions that relate several operations |
| `text`, `seqs` | helpers on characters and sequences |

The tests under `tests/` run the library on concrete models.
