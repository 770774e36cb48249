# gugen

Explainable planning support for inorganic solid-state synthesis, written in
Verus: every function of the library under `src/` carries a contract that the
verifier proves, and every quantity is an exact rational (`Frac`).

## Layout

- `src/frac.rs`, `numtheory.rs`, `linalg.rs`, `rref.rs`, `scaling.rs` — exact
  rationals, gcd/lcm, and the row reduction behind reaction balancing.
- `src/composition.rs`, `reaction.rs`, `balance.rs` — element compositions,
  balanced reactions with element conservation, and the balancer.
- `src/process.rs`, `condition_precedents.rs`, `evidence.rs`,
  `literature_evidence.rs` — heating conditions and how cited precedents and
  cross-DOI literature evidence resolve them; `literature_conditions.rs`
  holds the small curated table of cited firing conditions.
- `src/literature_observations.rs`, `keyed.rs` — the literature-observation
  corpus: observations identified by an integer content key, deduplicated to
  the lowest corpus record index and ordered by key, queried by exact target
  and precursor set.
- `src/commercial_catalog/` — commercial precursor offers: the formula
  parser, CSV and JSON catalog loading, composition matching by normalized
  ratio, hard constraints, purchase quantities, the per-row ranking, the
  exact and heuristic combination searches, the named ranking policies and
  the Pareto frontier.
- `src/clock.rs`, `doctor.rs`, `text.rs`, `lex.rs` — text helpers, RFC 3339
  time stamps and the diagnostics report.
- `app/` — the command-line front end (argument parsing, file reading, JSON
  parsing and printing).
- `tests/` — the test suite, run against the compiled library.
