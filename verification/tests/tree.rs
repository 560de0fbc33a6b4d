use std::sync::atomic::AtomicBool;

use hexo_ai::search::{iterations_per_tree, merge_root_visits, tree_count, tree_seed};
use hexo_ai::player::Player;
use hexo_ai::tree::run_one_tree;
use hexo_engine::{GameConfig, GameState};

/// A selection rule that prefers the least visited child.
fn fewest_visits(_parent: u32, visits: u32, _total: i64) -> u32 {
    u32::MAX - visits
}

fn small() -> GameConfig {
    GameConfig { win_length: 4, placement_radius: 2, max_moves: 30 }
}

#[test]
fn tree_returns_distinct_legal_root_moves_within_budget() {
    let g = GameState::with_config(small());
    let cancel = AtomicBool::new(false);
    let (r, runs) = run_one_tree(&g, Player::P2, 300, Some(11), &cancel, &fewest_visits);
    assert_eq!(runs, 300);
    assert!(!r.is_empty());
    let total: u64 = r.iter().map(|&(_, v)| v as u64).sum();
    assert!(total <= 300);
    // Every simulation but one per unexplored child goes through a root child.
    assert_eq!(total, 300);
    for (i, &(m, v)) in r.iter().enumerate() {
        assert!(g.legal_moves_set().contains(&m));
        assert!(v >= 1);
        assert!(r[i + 1..].iter().all(|&(n, _)| n != m));
    }
}

#[test]
fn tree_with_one_iteration_expands_one_root_move() {
    let g = GameState::with_config(small());
    let cancel = AtomicBool::new(false);
    let (r, runs) = run_one_tree(&g, Player::P2, 1, Some(3), &cancel, &fewest_visits);
    assert_eq!(runs, 1);
    assert_eq!(r.len(), 1);
    assert_eq!(r[0].1, 1);
}

#[test]
fn cancelled_or_empty_tree_has_no_root_moves() {
    let g = GameState::with_config(small());
    let cancel = AtomicBool::new(true);
    assert_eq!(run_one_tree(&g, Player::P2, 1000, Some(3), &cancel, &fewest_visits), (vec![], 0));
    let off = AtomicBool::new(false);
    assert_eq!(run_one_tree(&g, Player::P2, 0, Some(3), &off, &fewest_visits), (vec![], 0));
}

#[test]
fn tree_of_a_finished_game_has_no_root_moves() {
    let cfg = GameConfig { win_length: 4, placement_radius: 3, max_moves: 80 };
    let mut g = GameState::with_config(cfg);
    for c in [(3, -1), (3, 1), (1, 0), (2, 0), (-1, 3), (1, -3), (3, 0)] {
        g.apply_move(c).unwrap();
    }
    let off = AtomicBool::new(false);
    // The simulations still run, but none has a root move to go through.
    assert_eq!(run_one_tree(&g, Player::P2, 50, Some(3), &off, &fewest_visits), (vec![], 50));
}

#[test]
fn root_moves_are_all_tried_before_any_is_revisited() {
    let g = GameState::with_config(small());
    let legal = g.legal_moves().len();
    assert_eq!(legal, 18);
    let off = AtomicBool::new(false);
    // Fewer simulations than legal moves: one new root move each, once visited.
    let (r, runs) = run_one_tree(&g, Player::P2, 10, Some(4), &off, &|_, v, _| v);
    assert_eq!(runs, 10);
    assert_eq!(r.len(), 10);
    assert!(r.iter().all(|&(_, v)| v == 1));
    // More simulations than legal moves: every legal move is expanded.
    let (r, runs) = run_one_tree(&g, Player::P2, 40, Some(4), &off, &|_, v, _| v);
    assert_eq!(runs, 40);
    assert_eq!(r.len(), legal);
    assert_eq!(r.iter().map(|&(_, v)| v).sum::<u32>(), 40);
}

#[test]
fn seeded_trees_are_reproducible() {
    let g = GameState::with_config(small());
    let off = AtomicBool::new(false);
    let a = run_one_tree(&g, Player::P2, 200, Some(21), &off, &fewest_visits);
    let b = run_one_tree(&g, Player::P2, 200, Some(21), &off, &fewest_visits);
    assert_eq!(a, b);
}

#[test]
fn merge_sums_visits_per_move() {
    let trees = vec![
        vec![((0, 1), 5), ((1, 0), 3)],
        vec![((1, 0), 4), ((2, 2), 7)],
        vec![],
    ];
    // (1,0): 7, (2,2): 7, (0,1): 5; the tie goes to the last one first seen.
    assert_eq!(merge_root_visits(&trees), Some((2, 2)));
    let trees = vec![vec![((0, 1), 5), ((1, 0), 3)], vec![((1, 0), 4)]];
    assert_eq!(merge_root_visits(&trees), Some((1, 0)));
    let empty: Vec<Vec<((i32, i32), u32)>> = vec![vec![], vec![]];
    assert_eq!(merge_root_visits(&empty), None);
    assert_eq!(merge_root_visits(&Vec::new()), None);
}

#[test]
fn merge_sums_large_counts_up_to_the_limit() {
    let half = u32::MAX / 2;
    let trees = vec![vec![((0, 1), half)], vec![((0, 1), half + 1)], vec![((5, 5), u32::MAX - 1)]];
    assert_eq!(merge_root_visits(&trees), Some((0, 1)));
}

#[test]
fn budget_split_and_seeds() {
    assert_eq!(iterations_per_tree(50_000, 8), 6_250);
    assert_eq!(iterations_per_tree(10, 3), 3);
    assert_eq!(iterations_per_tree(2, 2), 1);
    assert_eq!(iterations_per_tree(0, 1), 0);
    assert_eq!(tree_count(0, 50_000), 1);
    assert_eq!(tree_count(12, 50_000), 12);
    assert_eq!(tree_count(8, 3), 3);
    assert_eq!(tree_count(8, 0), 1);
    assert_eq!(tree_seed(Some(40), 2), Some(42));
    assert_eq!(tree_seed(Some(u64::MAX), 1), Some(0));
    assert_eq!(tree_seed(None, 5), None);
}
