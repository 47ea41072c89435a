# graph_coloring

Graph colouring on simple undirected graphs of at most 64 vertices, each
vertex's neighbours held in one `u64`. Three algorithms:

- `brute_force_k_coloring`: tries every assignment of the colours `0..k`, in
  lexicographic order, and checks each one once complete;
- `dsatur_k_coloring`: exact backtracking that always branches on the
  uncoloured vertex whose neighbours use the most distinct colours;
- `welsh_powell_coloring`: the greedy heuristic that takes vertices by
  decreasing degree.

Every function in `src/` is verified with Verus against its contract:

- `graph`: the graph type, its view and constructors;
- `random`: SplitMix64 and the pseudo-random graph it draws;
- `bits`: facts about single-word bit sets;
- `coloring`: what a (k-)colouring is, the validator, the colour count of a
  colouring, the result types;
- `brute_force`, `dsatur`, `welsh_powell`: the three algorithms, each with a
  specification of its exact result and counters;
- `laws`: properties that relate the algorithms;
- `clock`: the timing calls, which are trusted.

`app/` is the command-line program (`coloring`, or `coloring benchmark` for the
CSV benchmark table); it holds the parts that work with floating point.
