# hexo_ai

Search library and desktop client for **HeXO**, infinite hexagonal
tic-tac-toe (six in a row, two stones per turn), built on the
`hexo_engine` crate. The library is written in Verus; its contracts are
proved by the verifier.

## Layout

- `src/` — the verified library
  - `player.rs`, `board.rs` — players, axial coordinates, a stone table
  - `lines.rs` — runs of stones along the three hex axes; win detection
  - `tactics.rs` — the one-ply scan for an immediate win or block
  - `engine.rs` — what the library reads of `hexo_engine::GameState`
  - `rng.rs`, `parallel.rs` — the random generator and the thread pool
  - `rollout.rs` — the line-biased random playout
  - `tree.rs` — one Monte Carlo search tree
  - `search.rs` — root-parallel search: tactics first, then trees, merged
  - `winline.rs` — the winning line shown at the end of a game
  - `client.rs` — modes, turn logic, per-frame controller decisions, labels
- `app/` — the egui desktop client (`main`, rendering, input, the AI worker
  thread, and the floating-point UCB1 score handed to the search)
- `tests/` — tests of the library

## Running

The client opens a 1100×800 window; the AI plays blue (O) by default.
Modes: hotseat, you as X or O against the AI, AI against AI. The AI's
iteration budget is set in the sidebar (1k–200k, default 50k).
