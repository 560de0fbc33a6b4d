use hexo_ai::player::Player;
use rand::RngCore;
use rand::SeedableRng;
use rand_chacha::ChaCha8Rng;
use hexo_ai::rollout::{line_bias_hit, line_candidates, pick_rollout_move, simulate};
use hexo_engine::{GameConfig, GameState};

fn rng_from(seed: u64) -> ChaCha8Rng {
    ChaCha8Rng::seed_from_u64(seed)
}

#[test]
fn line_bias_threshold_matches_four_in_five() {
    // A draw's top 24 bits below 13421773 (= 0.8 as an f32, times 2^24) extend a line.
    assert!(line_bias_hit(0));
    assert!(line_bias_hit(13_421_772u32 << 8));
    assert!(line_bias_hit((13_421_772u32 << 8) | 0xFF));
    assert!(!line_bias_hit(13_421_773u32 << 8));
    assert!(!line_bias_hit(u32::MAX));
    // The same cut as the f32 comparison.
    for top in [0u32, 1, 13_421_771, 13_421_772, 13_421_773, 16_777_215] {
        let f = top as f32 * (1.0 / 16_777_216.0);
        assert_eq!(line_bias_hit(top << 8), f < 0.8f32);
    }
}

#[test]
fn candidates_are_legal_cells_next_to_own_stones() {
    let g = GameState::new(); // P1 at origin, P2 to move.
    let p1 = line_candidates(&g, Player::P1);
    let mut sorted = p1.clone();
    sorted.sort();
    assert_eq!(sorted, vec![(-1, 0), (-1, 1), (0, -1), (0, 1), (1, -1), (1, 0)]);
    assert!(line_candidates(&g, Player::P2).is_empty());
}

#[test]
fn candidates_list_a_cell_once_per_adjacent_stone() {
    let mut g = GameState::new();
    g.apply_move((2, 0)).unwrap(); // P2
    g.apply_move((5, 5)).unwrap(); // P2
    // (1,0) touches P1's (0,0) only; P2's (2,0) touches (1,0) as well.
    let p2 = line_candidates(&g, Player::P2);
    assert_eq!(p2.iter().filter(|&&c| c == (1, 0)).count(), 1);
    assert_eq!(p2.len(), 12);
}

#[test]
fn picked_rollout_move_is_legal_and_extends_when_asked() {
    let g = GameState::new();
    let mut rng = rng_from(9);
    for _ in 0..20 {
        let c = pick_rollout_move(&g, Player::P1, 0, &mut rng).unwrap();
        assert!(g.legal_moves_set().contains(&c));
        assert!([(-1, 0), (-1, 1), (0, -1), (0, 1), (1, -1), (1, 0)].contains(&c));
        let any = pick_rollout_move(&g, Player::P2, 0, &mut rng).unwrap();
        assert!(g.legal_moves_set().contains(&any));
        // The last draw below 0.8 still extends a line.
        let edge = pick_rollout_move(&g, Player::P1, 0xCCCC_CCFF, &mut rng).unwrap();
        assert!([(-1, 0), (-1, 1), (0, -1), (0, 1), (1, -1), (1, 0)].contains(&edge));
    }
}

#[test]
fn rollout_plays_to_the_end_and_scores_the_winner() {
    let cfg = GameConfig { win_length: 3, placement_radius: 2, max_moves: 40 };
    for seed in 0..10u64 {
        let mut g = GameState::with_config(cfg);
        let start = g.placed_stones().len();
        let mut rng = rng_from(seed);
        let outcome = simulate(&mut g, &mut rng, Player::P1);
        assert!(g.is_terminal());
        assert!(g.placed_stones().len() > start);
        let expected = match g.winner() {
            Some(hexo_engine::Player::P1) => 1,
            Some(hexo_engine::Player::P2) => -1,
            None => 0,
        };
        assert_eq!(outcome, expected);
    }
}

#[test]
fn rollout_of_a_finished_game_changes_nothing() {
    let cfg = GameConfig { win_length: 4, placement_radius: 3, max_moves: 80 };
    let mut g = GameState::with_config(cfg);
    for c in [(3, -1), (3, 1), (1, 0), (2, 0), (-1, 3), (1, -3), (3, 0)] {
        g.apply_move(c).unwrap();
    }
    let stones = g.placed_stones();
    let mut rng = rng_from(1);
    assert_eq!(simulate(&mut g, &mut rng, Player::P1), 1);
    assert_eq!(simulate(&mut g, &mut rng, Player::P2), -1);
    assert_eq!(g.move_count(), 7);
    let after = g.placed_stones();
    assert_eq!(after.len(), stones.len());
    assert!(stones.iter().all(|s| after.contains(s)));
    // Nothing was drawn from the generator.
    assert_eq!(rng.next_u32(), rng_from(1).next_u32());
}

#[test]
fn rollout_stays_within_the_draw_cap_and_keeps_the_configuration() {
    let cfg = GameConfig { win_length: 6, placement_radius: 2, max_moves: 12 };
    for seed in 0..10u64 {
        let mut g = GameState::with_config(cfg);
        g.apply_move((1, 0)).unwrap();
        let start = g.move_count();
        let mut rng = rng_from(seed);
        simulate(&mut g, &mut rng, Player::P2);
        assert!(g.move_count() >= start);
        assert!(g.move_count() <= 12);
        assert!(g.is_terminal());
        assert_eq!(g.config().placement_radius, 2);
        assert_eq!(g.config().win_length, 6);
        assert_eq!(g.config().max_moves, 12);
    }
}

#[test]
fn same_seed_same_rollout_from_copies_of_one_state() {
    let cfg = GameConfig { win_length: 4, placement_radius: 2, max_moves: 60 };
    let g = GameState::with_config(cfg);
    let mut a = g.clone();
    let mut b = g.clone();
    let oa = simulate(&mut a, &mut rng_from(77), Player::P2);
    let ob = simulate(&mut b, &mut rng_from(77), Player::P2);
    assert_eq!(oa, ob);
    assert_eq!(a.placed_stones(), b.placed_stones());
    assert_eq!(a.move_count(), b.move_count());
}
