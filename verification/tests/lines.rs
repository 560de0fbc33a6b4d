use hexo_ai::board::{key_of, StoneMap};
use hexo_ai::lines::is_immediate_win_at;
use hexo_ai::player::Player;
use hexo_ai::tactics::{find_immediate_tactical, find_tactical};
use hexo_engine::{GameConfig, GameState};

fn board(stones: &[((i32, i32), Player)]) -> StoneMap {
    StoneMap::from_stones(&stones.to_vec())
}

#[test]
fn keys_are_distinct_for_neighbouring_and_extreme_cells() {
    assert_eq!(key_of((0, 0)), 0x8000_0000_8000_0000);
    assert_eq!(key_of((i32::MIN, i32::MIN)), 0);
    assert_eq!(key_of((i32::MAX, i32::MAX)), u64::MAX);
    assert_ne!(key_of((1, 0)), key_of((0, 1)));
    assert_ne!(key_of((-1, 0)), key_of((0, -1)));
}

#[test]
fn stone_map_later_entry_wins() {
    let m = board(&[((2, 3), Player::P1), ((2, 3), Player::P2), ((0, 0), Player::P1)]);
    assert_eq!(m.get((2, 3)), Some(Player::P2));
    assert_eq!(m.get((0, 0)), Some(Player::P1));
    assert_eq!(m.get((3, 2)), None);
}

#[test]
fn three_in_a_row_plus_one_wins_at_length_four() {
    let m = board(&[((0, 0), Player::P1), ((1, 0), Player::P1), ((2, 0), Player::P1)]);
    assert!(is_immediate_win_at(&m, (3, 0), Player::P1, 4));
    assert!(is_immediate_win_at(&m, (-1, 0), Player::P1, 4));
    assert!(!is_immediate_win_at(&m, (4, 0), Player::P1, 4));
    assert!(!is_immediate_win_at(&m, (3, 0), Player::P2, 4));
    assert!(!is_immediate_win_at(&m, (3, 0), Player::P1, 5));
}

#[test]
fn gap_filling_move_joins_both_sides() {
    // P2 at (0,-1),(0,0) and (0,2): (0,1) joins them into four along the r axis.
    let m = board(&[((0, -1), Player::P2), ((0, 0), Player::P2), ((0, 2), Player::P2)]);
    assert!(is_immediate_win_at(&m, (0, 1), Player::P2, 4));
    assert!(!is_immediate_win_at(&m, (0, 1), Player::P2, 5));
}

#[test]
fn diagonal_axis_counts_and_opponent_stone_blocks() {
    let m = board(&[
        ((1, -1), Player::P1),
        ((2, -2), Player::P1),
        ((-1, 1), Player::P2),
    ]);
    assert!(is_immediate_win_at(&m, (0, 0), Player::P1, 3));
    assert!(!is_immediate_win_at(&m, (0, 0), Player::P1, 4));
    // The (1,1) direction is not an axis of the hex grid.
    let d = board(&[((1, 1), Player::P1), ((2, 2), Player::P1)]);
    assert!(!is_immediate_win_at(&d, (0, 0), Player::P1, 3));
}

#[test]
fn walk_stops_at_the_edge_of_the_coordinate_range() {
    let m = board(&[((i32::MAX, 0), Player::P1), ((i32::MAX - 1, 0), Player::P1)]);
    assert!(is_immediate_win_at(&m, (i32::MAX - 2, 0), Player::P1, 3));
    assert!(!is_immediate_win_at(&m, (i32::MAX - 2, 0), Player::P1, 4));
}

#[test]
fn win_length_one_or_zero_is_always_met() {
    let m = board(&[]);
    assert!(is_immediate_win_at(&m, (5, 5), Player::P1, 1));
    assert!(is_immediate_win_at(&m, (5, 5), Player::P2, 0));
}

#[test]
fn tactical_scan_prefers_own_win_over_block() {
    let m = board(&[
        ((0, 0), Player::P1),
        ((1, 0), Player::P1),
        ((0, 3), Player::P2),
        ((1, 3), Player::P2),
    ]);
    let legal = vec![(-1, 3), (2, 0), (2, 3)];
    // (-1,3) blocks P2, (2,0) wins for P1: the win comes first.
    assert_eq!(find_tactical(&m, &legal, Player::P1, 3), Some((2, 0)));
    // For P2 the first winning cell in the list is (-1,3).
    assert_eq!(find_tactical(&m, &legal, Player::P2, 3), Some((-1, 3)));
}

#[test]
fn tactical_scan_blocks_when_it_cannot_win() {
    let m = board(&[((0, 3), Player::P2), ((1, 3), Player::P2), ((0, 0), Player::P1)]);
    let legal = vec![(5, 5), (2, 3)];
    assert_eq!(find_tactical(&m, &legal, Player::P1, 3), Some((2, 3)));
}

#[test]
fn tactical_scan_finds_nothing_on_a_quiet_board() {
    let m = board(&[((0, 0), Player::P1), ((5, 0), Player::P2)]);
    let legal = vec![(1, 0), (6, 0), (3, 3)];
    assert_eq!(find_tactical(&m, &legal, Player::P1, 3), None);
    assert_eq!(find_tactical(&m, &legal, Player::P1, 2), Some((1, 0)));
}

#[test]
fn tactical_scan_of_an_engine_state() {
    let cfg = GameConfig { win_length: 4, placement_radius: 3, max_moves: 80 };
    let mut g = GameState::with_config(cfg);
    for c in [(3, 0), (3, 1), (-2, 2), (-1, 2), (4, 0), (4, 1), (0, 2)] {
        g.apply_move(c).unwrap();
    }
    let mv = find_immediate_tactical(&g, Player::P1).expect("P1 has a winning move");
    assert!(mv == (-3, 2) || mv == (1, 2));
    // P2 must block one of the same cells.
    let block = find_immediate_tactical(&g, Player::P2).expect("P2 sees the threat");
    assert!(block == (-3, 2) || block == (1, 2));
    let fresh = GameState::new();
    assert_eq!(find_immediate_tactical(&fresh, Player::P2), None);
}
