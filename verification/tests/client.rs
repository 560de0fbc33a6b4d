use hexo_ai::client::{
    ghost_rgba, is_ai_turn, is_human_turn, mode_label, player_label, player_rgb, result_label, should_spawn,
    tick_frame, tick_step, FrameAction, Mode, TickStep, WorkerPoll,
};
use hexo_ai::player::Player;
use hexo_engine::GameState;

#[test]
fn default_mode_is_human_as_x() {
    assert_eq!(Mode::default(), Mode::HumanVsAi { human_is: Player::P1 });
}

#[test]
fn who_moves_in_each_mode() {
    let hva = Mode::HumanVsAi { human_is: Player::P2 };
    assert!(is_ai_turn(hva, Some(Player::P1)));
    assert!(!is_ai_turn(hva, Some(Player::P2)));
    assert!(is_human_turn(hva, Some(Player::P2)));
    assert!(!is_human_turn(hva, Some(Player::P1)));
    assert!(is_human_turn(Mode::Hotseat, Some(Player::P1)));
    assert!(!is_ai_turn(Mode::Hotseat, Some(Player::P2)));
    assert!(is_ai_turn(Mode::AiVsAi, Some(Player::P2)));
    assert!(!is_human_turn(Mode::AiVsAi, Some(Player::P1)));
    for m in [Mode::Hotseat, Mode::AiVsAi, hva] {
        assert!(!is_ai_turn(m, None));
        assert!(!is_human_turn(m, None));
    }
}

#[test]
fn tick_decisions() {
    assert_eq!(tick_step(true, false, WorkerPoll::Pending), TickStep::StopWorker);
    assert_eq!(tick_step(false, true, WorkerPoll::Delivered((1, 2))), TickStep::StopWorker);
    assert_eq!(tick_step(false, false, WorkerPoll::Pending), TickStep::Wait);
    assert_eq!(tick_step(false, false, WorkerPoll::Delivered((1, 2))), TickStep::Apply((1, 2)));
    assert_eq!(tick_step(false, false, WorkerPoll::Disconnected), TickStep::DropWorker);
    assert_eq!(tick_step(false, false, WorkerPoll::NoWorker), TickStep::Continue);
    assert!(should_spawn(false, Mode::AiVsAi, Some(Player::P1)));
    assert!(!should_spawn(true, Mode::AiVsAi, Some(Player::P1)));
    assert!(!should_spawn(false, Mode::Hotseat, Some(Player::P1)));
}

#[test]
fn labels_and_colours() {
    assert_eq!(mode_label(Mode::Hotseat), "Hotseat (2 humans)");
    assert_eq!(mode_label(Mode::HumanVsAi { human_is: Player::P1 }), "You (X) vs AI");
    assert_eq!(mode_label(Mode::HumanVsAi { human_is: Player::P2 }), "You (O) vs AI");
    assert_eq!(mode_label(Mode::AiVsAi), "AI vs AI");
    assert_eq!(player_label(Player::P1), "X (orange)");
    assert_eq!(player_label(Player::P2), "O (blue)");
    assert_eq!(result_label(Some(Player::P1)), "X (orange) wins!");
    assert_eq!(result_label(Some(Player::P2)), "O (blue) wins!");
    assert_eq!(result_label(None), "Draw — move limit reached");
    assert_eq!(player_rgb(Player::P1), (0xE0, 0x7A, 0x2A));
    assert_eq!(ghost_rgba(Some(Player::P2)), Some((0x3F, 0xA0, 0xD6, 90)));
    assert_eq!(ghost_rgba(None), None);
    assert_eq!(Player::P1.opponent(), Player::P2);
    assert_eq!(Player::P2.opponent(), Player::P1);
}

#[test]
fn frame_keeps_a_search_running_exactly_on_the_ai_turn() {
    // A new game: P2 is to move.
    let human_x = Mode::HumanVsAi { human_is: Player::P1 };
    let mut g = GameState::new();
    assert_eq!(tick_frame(&mut g, false, human_x, WorkerPoll::NoWorker), FrameAction::Proceed { placed: None, spawn: true });
    assert_eq!(tick_frame(&mut g, false, human_x, WorkerPoll::Pending), FrameAction::Wait);
    assert_eq!(tick_frame(&mut g, true, human_x, WorkerPoll::Pending), FrameAction::StopWorker);
    // The AI's first stone is played; P2 still has one to place.
    assert_eq!(
        tick_frame(&mut g, false, human_x, WorkerPoll::Delivered((1, 0))),
        FrameAction::Proceed { placed: Some((1, 0)), spawn: true }
    );
    assert_eq!(g.move_count(), 1);
    // A refused move (occupied cell) is not played.
    assert_eq!(
        tick_frame(&mut g, false, human_x, WorkerPoll::Delivered((1, 0))),
        FrameAction::Proceed { placed: None, spawn: true }
    );
    // After the second stone it is the human's turn: no new search.
    assert_eq!(
        tick_frame(&mut g, false, human_x, WorkerPoll::Delivered((2, 0))),
        FrameAction::Proceed { placed: Some((2, 0)), spawn: false }
    );
    assert_eq!(tick_frame(&mut g, false, human_x, WorkerPoll::Disconnected), FrameAction::Proceed { placed: None, spawn: false });
    assert_eq!(tick_frame(&mut g, false, Mode::Hotseat, WorkerPoll::NoWorker), FrameAction::Proceed { placed: None, spawn: false });
}
