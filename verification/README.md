# pathagon_engine

A verified engine for Pathagon, the connection game in which each side tries
to join its two edges of the board with an orthogonal chain of its pieces,
captures by custodial flanking, and relocates pieces once its reserve is spent.

The library in `src/` is written in Verus. Every public function carries a
contract over mathematical models (bitboards read as sets of squares, games as
sequences of moves), and Verus proves each body against it:

- `bitboard`, `geometry`, `rules`, `model`: the board, legal moves, captures,
  relocations, winning chains (shortest chains by breadth-first search), and
  the canonical position key under the board's symmetries.
- `search`: the evaluation (exact over the connection distance, the largest
  group and the other weighted features, and zero-sum), move ordering,
  alpha-beta search with a transposition table, the tactical guard and filter,
  and the breadth baseline. For the plain search and the search under a
  caller's root order, a search that completes its depth is proved to return
  the beam-limited minimax value and the first move in action order that
  reaches it; for the searches that order moves by table hints, killers and
  history, only legality, the budget and the score bounds are proved.
- `golden_table`, `golden_book`, `golden`: sorted outcome tables and proven
  action books read from bytes, layered lookups.
- `tablebase`, `frontier`, `promotion`, `ring`, `ground_truth`, `evidence`:
  retrograde solving of small positions, frontier extraction from won games,
  the check a solved ring row passes before it joins the golden data, and the
  records used to train and judge agents.
- `selfplay`, `sampling`, `runtime`, `pathfinder`, `contract`, `text`: seeded
  matches between agents, sampled training actions, the JSON-facing runtime,
  and plain-text formats.

`app/` holds what Verus does not see: JSON with serde, files, and the clock.
`tests/` runs the library on concrete positions.
