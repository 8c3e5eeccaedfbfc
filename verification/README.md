# map_loader_wasm

Puzzle generation for a path game: a single path must visit every open cell of
a square board exactly once, moving between cardinal neighbours, and numbered
waypoints pin the path down until it is the only solution.

The library (`src/`) is verified with Verus:

- `grid`: the board, its cell numbering and neighbour lists, and the facts
  about neighbours the proofs use.
- `rng`: the seeded xorshift generator, with its range and shuffle.
- `solver`: the covering-path check and the waypoint-constrained search. The
  search is proven sound (every reported path is a solution), duplicate-free,
  and complete whenever it was neither capped nor out of steps, so a count of
  one proves a unique solution. Its whole report is pinned down: the walks it
  visits come in one fixed order, the solutions it reports are the first ones
  in that order, and the number of visits follows; two reports that meet the
  contract are the same (`lemma_search_result_unique`).
- `generator`: board size and budget, candidate walks, fallback layout,
  waypoint placement and the generation state machine. Every finished puzzle
  is proven to carry a covering path, well-spaced hints on that path, and,
  unless it is reported as a fallback, a unique solution under its hints. Each
  step of the state machine is specified as a function of its visible state
  (the generator's state, the counters, the candidates kept) and of the scores
  handed in, so the puzzle a request yields is fixed by the request and the
  scores.
- integer statistics (turns, side-by-side obstacles, obstacle spread totals,
  hint legs) that the floating-point scores are computed from.

`app/` holds what stays outside the proofs: the WebAssembly entry point, the
serde shapes of requests and responses, the clock that bounds generation, and
the floating-point statistics that rank candidates and grade the puzzle.
