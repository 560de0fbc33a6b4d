//! HeXO (infinite hexagonal six-in-a-row) search library.
//!
//! The game itself is played by the `hexo_engine` crate; this library holds
//! the logic that sits on top of it: reading lines of stones, the one-ply
//! tactical scan, the biased rollout, the Monte Carlo search tree, the
//! merging of root-parallel searches, and the turn logic of the desktop client.
pub mod player;
pub mod board;
pub mod lines;
pub mod engine;
pub mod tactics;
pub mod rng;
pub mod rollout;
pub mod tree;
pub mod parallel;
pub mod search;
pub mod winline;
pub mod client;
