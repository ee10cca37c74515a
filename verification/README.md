# anofox-bayes-core

A catalog of Bayesian model families for planning questions: demand, durations, payment
delays, churn, price elasticities, anomalies, and the spread of a group.

`src/` is the library, verified with Verus. It reads a request and a relation, decides which
rows are used, names the parameters, lays out the coordinates an engine moves in, states each
reported parameter as a formula over them, and decides whether the answer may be acted on.
Numbers are carried by their bits, so that they can be compared and classified but not
computed with.

| Module | Holds |
|---|---|
| `config`, `data`, `panel` | the request and its slots; the relation, its usable rows and its groups |
| `reading` | the columns and rows that a fit reads, which decide the model |
| `catalog` | the eight families |
| `bridge` | the verdict on what a statistics package replies to a censored fit |
| `draws`, `formula` | names of parameters; how each is computed from coordinates |
| `readiness`, `errors`, `types` | verdicts, faults and their messages |
| `scatter` | the layout of draws sampled group by group |
| `double`, `text` | numbers by their bits; text |

`app/` computes: log densities, gradients, conjugate updates, factorisations, draws. It hands
the results to the library, which judges them.

`tests/` runs the library.

One function is trusted rather than proved: `scatter_rows` in `scatter`, which hands rows to
`rayon`.
