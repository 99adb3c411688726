# ugo

A Go engine whose rules, record keeping, scoring, positional analysis and searching
opponent are verified with Verus.

- `src/board.rs`, `chain.rs`, `rules.rs`: points, positions, chains, and the rules of play.
- `src/history.rs`, `record.rs`, `game.rs`: the record of a game and what its entries stand
  for, undo and redo, set-up stones, snapshots.
- `src/score.rs`: points at the end of a game.
- `src/reading.rs`, `census.rs`, `influence.rs`, `estimate.rs`: reading out captures, the
  census of chains, influence, territory and estimates.
- `src/random.rs`, `opening.rs`, `candidates.rs`, `search.rs`, `advisor.rs`: the searching
  opponent.
- `src/liveness.rs`, `laws.rs`, `symmetry.rs`, `minimax.rs`, `advice.rs`: what holds of the
  chains, of the rules and the record, of the analysis under an exchange of colours, of the
  pruned search, and of every piece of advice.
- `app/`: the same functions behind a C interface, for one game held by the process.
- `tests/`: games and positions with known results.

A position is a `Position`, its mathematical view a `Pos`; the whole engine is a `Game`, viewed
as a `State`. The functions that a host calls start with `ugo_`; each is specified by a function
on states, such as `played`, `undone` or `advised`.
