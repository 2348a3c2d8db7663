# Long nardy engine with proofs

A rules engine for long nardy (длинные нарды) whose core is verified with
Verus, plus the floating-point evaluation, search, training and browser
front ends built on it.

Layout:

- `src/` — the verified library: board model, legal move generation (with
  the head rule, the first-turn doubles exception, the six-prime rule and
  bear-off), scoring, the doubling cube, match play, the exact heuristic,
  self-play and benchmark loops with a deterministic xorshift generator,
  bear-off state helpers, and the plain-text notations (position lines,
  turn keys, move notation, `.MAT` transcripts) with their round-trip laws.
- `tests/` — tests of the library.
- `app/` — the training/benchmark command-line program and the browser
  engine: neural nets, position encoders, n-ply search, cube analysis,
  the bear-off database and JSON transfer shapes. These work in floating
  point or with outside crates and call the library for all rules.
