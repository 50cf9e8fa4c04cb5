# cplib

A library of competitive-programming data structures and algorithms, written in Verus: every
function of the library carries a contract, and Verus proves that the code meets it.

- `src/` — the library.
  - Data structures: `dsu` (union-find), `segtree` (segment tree over a monoid), `fenwick`,
    `ranges` (sets of half-open intervals), `vec2d` (a 2D array in one buffer).
  - Sequences: `kmp` (pattern search), `rle` (run-length encoding), `permutation` (next and
    previous permutation, arrangements of a multiset), `compress` (sorting, coordinate
    compression), `fibonacci`, `scanner` (whitespace-separated tokens).
  - Queries: `mo` (Mo's algorithm over a Hilbert-curve order), `div_conquer` (square-root
    decomposition with per-block caches), and the window states and block summaries used with
    them: `distinct_count`, `range_mode`, `inversions`, `letter_count`, `median_distance`,
    `window_stats`, `blocks`.
  - `tasks`: the computations behind individual judge problems, each stated exactly.
- `tests/` — tests against concrete values and brute force.
- `app/` — a judge driver: `cplib-judge <problem>` reads a problem's input on standard input,
  calls the library and prints the answer.
