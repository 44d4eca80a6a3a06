# ternary-timbre (verified core)

Timbre analysis characterizes an agent's output style by four features:
rhythm ratio (coefficient of variation of output lengths), dynamic range
(densest minus sparsest output), syncopation index (share of outputs that break
the trend of the two before them) and density (distinct words over words).

`src/` is a Verus library holding the exact, integer-valued part of that work,
each function proved against its contract:

- `text`: Unicode whitespace, word splitting and distinct-word counting;
- `spread`: the exact terms of the coefficient of variation of the lengths;
- `syncopation`: the number of outputs off the trend;
- `density`: the densest and sparsest output, compared as fractions;
- `outputs`: the summary of a set of outputs;
- `cluster`, `style`: single-linkage clustering (agents joined by a chain of
  close pairs share a cluster) and the clusters with their labels and members;
- `evolution`: the snapshots at which a style shift happens.

`app/` builds the floating-point profiles, distances, clustering threshold and
evolution tracking on top of it. `tests/` exercises the library.
