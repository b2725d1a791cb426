# annp

The discrete logic of a set of continual-learning experiments, verified with
Verus: what the streams hold, in which order things are shown and asked, where a
weight stands, and how results are counted.

- `src/` is the library. Every function states its behaviour in a contract.
  - `corpus`: text out of JSON documents, the tokenizer model's wire format and
    its merges, the vocabulary that a run keeps.
  - `run`: the Markov source, its coders, needles in a haystack and the plan of
    the measurements.
  - `edge`, `topo`, `ring`, `routing`: small worlds of nodes and the memories on
    their edges.
  - `sdr`: relational facts, the graphs and walks they come from, the shapes of
    the memories that learn them, and the schedule of teaching and probing.
  - `e0`, `grow`, `head`, `baseline`, `next`, `topology`, `cycle`, `load`,
    `activity`, `rank`, `sorted`, `window`, `grid`, `probe`: the counting and
    ordering that the other experiments rest on.
- `tests/` runs the library on concrete values.
- `app/` is the command line: floating point, random numbers, files and the
  console. It is ordinary Rust and is not verified.
