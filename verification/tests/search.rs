use std::sync::atomic::{AtomicBool, Ordering};

use hexo_ai::board::Coord;
use hexo_ai::search::choose_move_with;
use hexo_engine::{GameConfig, GameState, Player};

/// Orders `f32` scores (never NaN here) as `u32` keys.
fn order_key(x: f32) -> u32 {
    let bits = (x + 0.0).to_bits();
    if bits & 0x8000_0000 != 0 { !bits } else { bits | 0x8000_0000 }
}

/// The UCB1 selection score with exploration constant `c`.
fn ucb1(c: f32) -> impl Fn(u32, u32, i64) -> u32 + Sync {
    move |parent_visits: u32, visits: u32, total: i64| {
        let ln_n = f32::ln(parent_visits as f32);
        let q = if visits == 0 { 0.0 } else { total as f32 / visits as f32 };
        let u = c * (ln_n / (visits.max(1) as f32)).sqrt();
        order_key(q + u)
    }
}

fn play(cfg: GameConfig, coords: &[Coord]) -> GameState {
    let mut g = GameState::with_config(cfg);
    for &c in coords {
        g.apply_move(c)
            .unwrap_or_else(|e| panic!("test setup move {:?} illegal: {:?}", c, e));
    }
    g
}

fn cancel_off() -> AtomicBool {
    AtomicBool::new(false)
}

fn small() -> GameConfig {
    GameConfig {
        win_length: 4,
        placement_radius: 3,
        max_moves: 80,
    }
}

#[test]
fn mcts_finds_immediate_win() {
    let g = play(
        small(),
        &[(3, 0), (3, 1), (-2, 2), (-1, 2), (4, 0), (4, 1), (0, 2)],
    );
    assert_eq!(g.current_player(), Some(Player::P1));
    assert_eq!(g.moves_remaining_this_turn(), 1);
    assert!(!g.is_terminal());

    let mv = choose_move_with(&g, 5_000, Some(42), &cancel_off(), &ucb1(std::f32::consts::SQRT_2))
        .expect("non-terminal -> Some");
    assert!(
        mv == (-3, 2) || mv == (1, 2),
        "expected immediate winning move at (-3,2) or (1,2), got {:?}",
        mv
    );
}

#[test]
fn mcts_blocks_opponent_immediate_win() {
    let g = play(
        small(),
        &[(-1, -2), (0, -2), (3, 0), (3, 1), (1, -2), (4, 0)],
    );
    assert!(
        !g.is_terminal(),
        "setup terminated early; rewrite play sequence"
    );
    assert_eq!(g.current_player(), Some(Player::P1));

    let mv = choose_move_with(&g, 100_000, Some(7), &cancel_off(), &ucb1(std::f32::consts::SQRT_2))
        .expect("non-terminal -> Some");
    let blocks = [(-2, -2), (2, -2)];
    assert!(
        blocks.contains(&mv),
        "expected MCTS to block at one of {:?}, got {:?}",
        blocks,
        mv
    );
}

#[test]
fn mcts_handles_terminal_root() {
    let g = play(
        small(),
        &[(3, -1), (3, 1), (1, 0), (2, 0), (-1, 3), (1, -3), (3, 0)],
    );
    assert!(g.is_terminal(), "setup did not terminate; check sequence");

    assert_eq!(
        choose_move_with(&g, 50_000, None, &cancel_off(), &ucb1(std::f32::consts::SQRT_2)),
        None
    );
}

#[test]
fn mcts_respects_cancel() {
    let g = GameState::new();
    let cancel = AtomicBool::new(true);
    let start = std::time::Instant::now();
    let _ = choose_move_with(&g, u32::MAX, Some(1), &cancel, &ucb1(1.4));
    assert!(
        start.elapsed().as_secs() < 5,
        "choose_move did not honor cancel"
    );
    cancel.store(false, Ordering::Relaxed);
}

#[test]
fn search_without_tactics_returns_a_legal_move() {
    let g = play(small(), &[(1, 0), (0, 1)]);
    let mv = choose_move_with(&g, 200, Some(3), &cancel_off(), &ucb1(std::f32::consts::SQRT_2))
        .expect("a search that ran returns a move");
    assert!(g.legal_moves_set().contains(&mv));
}

#[test]
fn cancelled_search_without_tactics_returns_none() {
    let g = play(small(), &[(1, 0), (0, 1)]);
    let cancel = AtomicBool::new(true);
    assert_eq!(choose_move_with(&g, 1_000, Some(3), &cancel, &ucb1(1.4)), None);
}
