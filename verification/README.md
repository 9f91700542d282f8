# Tonnesjakk

Rules and engine of Tonnesjakk, a barrel race on a six by six board. White
brings four barrels from the bottom row to the top row, black the other way, and
each side may once place a pail that the other side's barrels cannot jump.

`src/` is the library. Verus verifies all of it, and every function whose result
does not hang on the clock or on other threads carries a contract:

- `rules` is the mathematical model of the game; `board` and `bitboard` are the
  two boards, and `movegen`, `play`, `convert` and `mirror` work on them;
  `move_order` says in which order moves are listed.
- `phase`, `retrograde`, `packed`, `packed_solve` and `tablebase` solve and read
  endgame tables; `table_symmetry` and `table_agreement` prove what the tables
  have to do with each other, `table_play` what they say of play.
- `race` and `heuristic` evaluate by hand-tuned terms (`race_bounds` and
  `heuristic_mirror` hold laws of theirs); `features`, `network`,
  `inference` and `incremental` are the integer part of a neural network.
- `engine`, `search`, `quiesce` and `deepening` are the alpha-beta search;
  `quiet` says what quiescence computes, `forced` and `proven_wins` what a
  winning score proves, `quick_wins` what becomes of a win one move away, and
  `plain_search` what a search without pruning finds. `walk`, `quiet_walk` and
  `root_walk` say step by step what a search with all its pruning does, and
  `stack_law` that it leaves the network's accumulators as it found them.
- `tree`, `subtree`, `mcts`, `mcts_batch` and `selfplay` are the Monte Carlo
  search and the games played with it; `judged` says what the answers of an
  appraiser mean for the tree, `turns` how each turn of a game is played, and
  `equal_replies` and `equal_runs` that equal answers give equal searches.

`app/` holds what needs floating point, files, threads or Python.
