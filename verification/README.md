# skill_learning

A verified library for learning skills from task executions. Experiences (what was asked,
which skill and tools handled it, how it ended) are collected in a bounded buffer; recurring
tool sequences, commands and file types are extracted from the successful ones; skills are
generated from the patterns seen often enough; and feedback on the skills updates per-skill
metrics that rank them for later contexts.

Scores are a type parameter `S`: the library records, counts, orders and selects, and takes
the arithmetic on scores (means, rates, thresholds, order keys) as functions from its caller.

## Layout

- `src/` — the library, verified with Verus.
  - `experience.rs` — experiences and the bounded collector.
  - `pattern.rs` — pattern extraction and the pattern store.
  - `generator.rs` — workflow and command skills, usage counters, suggestions, top skills.
  - `feedback.rs` — feedback records, per-skill metrics, context adjustments, ranking.
  - `engine.rs` — the engine that ties the components together, with sessions.
  - `laws.rs` — properties that span operations (buffer order, store growth, unique names,
    ranking order, sessions, counters).
  - `text.rs`, `seqs.rs`, `stamps.rs` — character and sequence operations, identifiers and
    clock readings.
- `tests/` — tests of the library with `f32` scores.
- `app/` — an async, shareable engine with `f32` scores, the score formulas, and
  serializable copies of the records.
