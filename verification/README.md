# dobutsu_count

Counts the reachable positions of Dobutsu Shogi (animal shogi) and solves the game by
retrograde analysis, with the logic verified by Verus.

The library is the 5 × 3 variant: five rows of three squares. The board size is fixed
(`ROWS = 5`, `COLS = 3`), and the specifications and proofs are written for that board; the
standard 4 × 3 game is not covered.

## Layout

- `src/` — the verified library.
  - `encoding` — positions packed into a `u128` (4 bits per square, 2 bits per hand count).
  - `symmetry` — left-right reflection, canonical representatives, and the side-to-move flip.
  - `rules` — the starting position, piece moves, terminal positions and successor generation.
  - `sorted` — sorted vectors of positions: merge, difference, de-duplication, binary search.
  - `search` — breadth-first search of the reachable positions.
  - `csr` — the reverse move graph in compressed sparse row form.
  - `retro` — retrograde propagation of wins and losses.
  - `solve` — classification, the whole pipeline, and what a solution is.
  - `layouts` — every starting layout of the eight pieces.
  - `merge` — the steps of merging a level of the disk-based search.
  - `codec` — the 16-byte on-disk form of a position.
  - `material` — the pieces a position holds, kept by every move.
  - `mirror` — a position and its mirror image have the same successors.
  - `mirror_count` — they even have each successor the same number of times.
  - `pieces` — a move keeps the number of pieces on the board and in hand, and swaps the
    lion counts of the two sides.
  - `par` — the calls into rayon's parallel iterators and sort.
- `tests/` — tests on concrete positions and small graphs.
- `app/` — the command line: the in-memory solver (default), `full-solve` (every starting
  layout, CSV output) and `disk-bfs` (file-based search for large boards).
