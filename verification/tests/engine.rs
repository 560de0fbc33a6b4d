//! The engine's answers as the library reads them, observed through the
//! library's public functions.
use std::sync::atomic::AtomicBool;

use hexo_ai::player::Player;
use hexo_ai::rollout::{line_candidates, pick_rollout_move, simulate};
use hexo_ai::tactics::find_immediate_tactical;
use hexo_ai::tree::run_one_tree;
use hexo_ai::winline::winning_line;
use hexo_engine::{GameConfig, GameState};
use rand::SeedableRng;
use rand_chacha::ChaCha8Rng;

fn won_game() -> GameState {
    let cfg = GameConfig { win_length: 4, placement_radius: 3, max_moves: 80 };
    let mut g = GameState::with_config(cfg);
    for c in [(3, -1), (3, 1), (1, 0), (2, 0), (-1, 3), (1, -3), (3, 0)] {
        g.apply_move(c).unwrap();
    }
    g
}

#[test]
fn rollout_places_stones_and_reads_the_winner() {
    // apply_move, current_player, is_terminal and winner through `simulate`.
    let cfg = GameConfig { win_length: 2, placement_radius: 1, max_moves: 10 };
    let mut g = GameState::with_config(cfg);
    let mut rng = ChaCha8Rng::seed_from_u64(4);
    let outcome = simulate(&mut g, &mut rng, Player::P2);
    assert!(g.is_terminal());
    assert!(g.move_count() >= 2);
    let expected = match g.winner() {
        Some(hexo_engine::Player::P2) => 1,
        Some(hexo_engine::Player::P1) => -1,
        None => 0,
    };
    assert_eq!(outcome, expected);
}

#[test]
fn candidates_use_the_placed_stones_and_legal_cells() {
    // placed_stones and legal_contains through `line_candidates`.
    let w = won_game();
    let c = line_candidates(&w, Player::P1);
    assert!(!c.is_empty());
    assert!(c.iter().all(|cell| w.legal_moves_set().contains(cell)));
    assert!(!c.contains(&(1, 0)));
    assert!(c.contains(&(4, 0)));
}

#[test]
fn rollout_pick_comes_from_the_legal_set() {
    // legal_cells, legal_is_empty and choose_coord through `pick_rollout_move`.
    let g = GameState::new();
    let mut rng = ChaCha8Rng::seed_from_u64(8);
    for _ in 0..50 {
        let c = pick_rollout_move(&g, Player::P2, u32::MAX, &mut rng).unwrap();
        assert!(g.legal_moves_set().contains(&c));
        assert_ne!(c, (0, 0));
    }
}

#[test]
fn tree_expands_sorted_legal_moves_of_a_copy() {
    // clone_state, legal_moves and random_below through `run_one_tree`.
    let g = GameState::new();
    let off = AtomicBool::new(false);
    let before = g.placed_stones().len();
    let (r, runs) = run_one_tree(&g, Player::P2, 30, Some(5), &off, &|_, v, _| u32::MAX - v);
    assert_eq!(g.placed_stones().len(), before);
    assert_eq!(runs, 30);
    assert_eq!(r.len(), 30);
    assert!(r.iter().all(|&(m, v)| v == 1 && g.legal_moves_set().contains(&m)));
}

#[test]
fn tactics_and_winning_line_read_the_win_length() {
    // win_length and winner through `find_immediate_tactical` and `winning_line`.
    let cfg = GameConfig { win_length: 3, placement_radius: 3, max_moves: 80 };
    let mut g = GameState::with_config(cfg);
    g.apply_move((0, 1)).unwrap();
    g.apply_move((0, 2)).unwrap();
    // P2 has two in a row on the r axis: (0,3) or (0,0)... (0,0) is P1's, so (0,3) wins.
    assert_eq!(find_immediate_tactical(&g, Player::P2), Some((0, 3)));
    assert_eq!(winning_line(&g), None);
    assert_eq!(winning_line(&won_game()).map(|l| l.len()), Some(4));
}
