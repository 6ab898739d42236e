# hexfish

An engine for hexagonal six-in-a-row: two players place stones on an
unbounded hexagonal grid (axial coordinates `[q, r]`), X one stone in the
first turn, then each player two stones per turn; six in a row along a hex
axis wins.

`src/` is the verified library, checked by Verus:

- `board` — the board, its rules (`play`, `check_win`), the game record and
  the drawing of the board;
- `notation`, `game_record`, `round_trip` — writing the game notation,
  reading it back, and the proof that a record reads back as its moves;
- `engine` — the incremental position the search reads: window tallies,
  counts of pure windows, cell scores, the free cells next to a stone and
  the Zobrist hash, kept up to date stone by stone; import of a record;
- `windows`, `neighbours`, `hashing` — the mathematical model of those
  structures;
- `selection`, `candidates` — the ranking of the best free cells and the
  candidate moves of a position;
- `fxhash` — the `rustc_hash` collections and the `rand` generator behind
  trusted wrappers.

`app/` is the command-line front end and the alpha-beta search, whose
evaluation and move ordering are floating point.
