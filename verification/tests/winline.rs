use hexo_ai::player::Player;
use hexo_ai::winline::{winning_line, winning_line_in};
use hexo_engine::{GameConfig, GameState};

#[test]
fn finds_the_run_of_the_winner() {
    let stones = vec![
        ((0, 0), Player::P1),
        ((0, 1), Player::P2),
        ((1, 0), Player::P1),
        ((2, 0), Player::P1),
        ((5, 5), Player::P2),
    ];
    let line = winning_line_in(&stones, Player::P1, 3).expect("three in a row");
    assert_eq!(line, vec![(0, 0), (1, 0), (2, 0)]);
    assert_eq!(winning_line_in(&stones, Player::P1, 4), None);
    assert_eq!(winning_line_in(&stones, Player::P2, 2), None);
}

#[test]
fn line_may_run_along_the_diagonal_axis() {
    let stones = vec![((3, -3), Player::P2), ((1, -1), Player::P2), ((2, -2), Player::P2)];
    let line = winning_line_in(&stones, Player::P2, 3).expect("diagonal run");
    assert_eq!(line, vec![(1, -1), (2, -2), (3, -3)]);
}

#[test]
fn winning_line_of_a_finished_game() {
    let cfg = GameConfig { win_length: 4, placement_radius: 3, max_moves: 80 };
    let mut g = GameState::with_config(cfg);
    assert_eq!(winning_line(&g), None);
    for c in [(3, -1), (3, 1), (1, 0), (2, 0), (-1, 3), (1, -3), (3, 0)] {
        g.apply_move(c).unwrap();
    }
    assert_eq!(winning_line(&g), Some(vec![(0, 0), (1, 0), (2, 0), (3, 0)]));
}
