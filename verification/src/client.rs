//! The turn logic of the desktop client: who plays in each mode, what the
//! per-frame controller does with the AI worker, and the texts and colours
//! shown for each player.
use hexo_engine::GameState;
use vstd::prelude::*;
use crate::board::Coord;
use crate::engine::{apply_move, current_player, game_to_move, is_terminal, playable, view_after_move, view_of};
use crate::player::Player;

verus! {

/// Who plays which side.
#[derive(Debug, Clone, Copy, PartialEq, Eq, Structural)]
pub enum Mode {
    /// Two humans share one mouse.
    Hotseat,
    /// A human plays `human_is`, the AI the other side.
    HumanVsAi { human_is: Player },
    /// Two AI instances play each other.
    AiVsAi,
}

impl Default for Mode {
    /// The human plays X (P1) against the AI.
    fn default() -> (m: Mode)
        ensures
            m == (Mode::HumanVsAi { human_is: Player::P1 }),
    {
        Mode::HumanVsAi { human_is: Player::P1 }
    }
}

/// The AI is to move: the game goes on, and the mover is played by the AI.
pub open spec fn ai_moves(mode: Mode, to_move: Option<Player>) -> bool {
    match to_move {
        None => false,
        Some(p) => match mode {
            Mode::Hotseat => false,
            Mode::HumanVsAi { human_is } => p != human_is,
            Mode::AiVsAi => true,
        },
    }
}

/// A human is to move: the game goes on, and the mover is played by a human.
pub open spec fn human_moves(mode: Mode, to_move: Option<Player>) -> bool {
    match to_move {
        None => false,
        Some(p) => match mode {
            Mode::Hotseat => true,
            Mode::HumanVsAi { human_is } => p == human_is,
            Mode::AiVsAi => false,
        },
    }
}

/// Whether the AI should move now, given the player to move (`None` when
/// the game is over).
pub fn is_ai_turn(mode: Mode, to_move: Option<Player>) -> (r: bool)
    ensures
        r == ai_moves(mode, to_move),
{
    let p = match to_move {
        Some(p) => p,
        None => return false,
    };
    match mode {
        Mode::Hotseat => false,
        Mode::HumanVsAi { human_is } => p != human_is,
        Mode::AiVsAi => true,
    }
}

/// Whether a click may place a stone now, given the player to move.
pub fn is_human_turn(mode: Mode, to_move: Option<Player>) -> (r: bool)
    ensures
        r == human_moves(mode, to_move),
{
    let p = match to_move {
        Some(p) => p,
        None => return false,
    };
    match mode {
        Mode::Hotseat => true,
        Mode::HumanVsAi { human_is } => p == human_is,
        Mode::AiVsAi => false,
    }
}

/// While a game goes on, exactly one of a human and the AI is to move.
pub proof fn lemma_one_mover(mode: Mode, to_move: Option<Player>)
    ensures
        to_move is Some ==> (ai_moves(mode, to_move) != human_moves(mode, to_move)),
        to_move is None ==> !ai_moves(mode, to_move) && !human_moves(mode, to_move),
{
}

/// What the AI worker reported this frame.
#[derive(Debug, Clone, Copy, PartialEq, Eq)]
pub enum WorkerPoll {
    /// No worker is running.
    NoWorker,
    /// The worker is still thinking.
    Pending,
    /// The worker chose this move.
    Delivered(Coord),
    /// The worker is gone without an answer.
    Disconnected,
}

/// The first decision of a frame.
#[derive(Debug, Clone, Copy, PartialEq, Eq)]
pub enum TickStep {
    /// Cancel and drop any worker; do nothing else this frame.
    StopWorker,
    /// Ask for a repaint soon and wait for the worker.
    Wait,
    /// Play the delivered move (if the engine accepts it), drop the worker,
    /// then consider spawning.
    Apply(Coord),
    /// Drop the worker, then consider spawning.
    DropWorker,
    /// No worker: consider spawning.
    Continue,
}

/// The per-frame decision: a finished game or a pause stops any running
/// worker; otherwise the worker's report is handled.
pub fn tick_step(game_over: bool, paused: bool, poll: WorkerPoll) -> (r: TickStep)
    ensures
        r == (if game_over || paused {
            TickStep::StopWorker
        } else {
            match poll {
                WorkerPoll::NoWorker => TickStep::Continue,
                WorkerPoll::Pending => TickStep::Wait,
                WorkerPoll::Delivered(c) => TickStep::Apply(c),
                WorkerPoll::Disconnected => TickStep::DropWorker,
            }
        }),
{
    if game_over {
        return TickStep::StopWorker;
    }
    if paused {
        return TickStep::StopWorker;
    }
    match poll {
        WorkerPoll::NoWorker => TickStep::Continue,
        WorkerPoll::Pending => TickStep::Wait,
        WorkerPoll::Delivered(c) => TickStep::Apply(c),
        WorkerPoll::Disconnected => TickStep::DropWorker,
    }
}

/// A new worker is spawned when none runs and the AI is to move.
pub fn should_spawn(worker_running: bool, mode: Mode, to_move: Option<Player>) -> (r: bool)
    ensures
        r == (!worker_running && ai_moves(mode, to_move)),
{
    !worker_running && is_ai_turn(mode, to_move)
}

/// What the client does with the AI worker at the end of a frame.
#[derive(Debug, Clone, Copy, PartialEq, Eq)]
pub enum FrameAction {
    /// Cancel and drop any worker; nothing else this frame.
    StopWorker,
    /// Keep the running worker and ask for a repaint soon.
    Wait,
    /// Drop any worker; `placed` is the AI move that was played this frame,
    /// if any; start a new search when `spawn`.
    Proceed { placed: Option<Coord>, spawn: bool },
}

/// After the frame's action `a`, a search is running: the waiting worker
/// was kept, or a new one is started.
pub open spec fn search_runs_after(a: FrameAction) -> bool {
    match a {
        FrameAction::Wait => true,
        FrameAction::Proceed { spawn, .. } => spawn,
        FrameAction::StopWorker => false,
    }
}

/// One frame of the client's game loop, given the worker's report: a
/// finished game or a pause stops any worker; a pending worker is waited
/// for; a delivered move is played when the engine accepts it; then,
/// with no worker left, a new search starts exactly when the AI is to move.
pub fn tick_frame(game: &mut GameState, paused: bool, mode: Mode, poll: WorkerPoll) -> (a: FrameAction)
    ensures
        ({
            let over = game_to_move(*old(game)) is None;
            &&& (over || paused) ==> a == FrameAction::StopWorker && *final(game) == *old(game)
            &&& !over && !paused && poll == WorkerPoll::Pending ==> a == FrameAction::Wait && *final(game) == *old(game)
            &&& !over && !paused && poll != WorkerPoll::Pending ==> (a matches FrameAction::Proceed { placed, spawn } && {
                &&& spawn == ai_moves(mode, game_to_move(*final(game)))
                &&& match poll {
                    WorkerPoll::Delivered(c) => if playable(view_of(*old(game)), c) {
                        placed == Some(c) && view_of(*final(game)) == view_after_move(view_of(*old(game)), c)
                    } else {
                        placed is None && *final(game) == *old(game)
                    },
                    _ => placed is None && *final(game) == *old(game),
                }
            })
            &&& !over && !paused ==> (search_runs_after(a)
                <==> (poll == WorkerPoll::Pending || ai_moves(mode, game_to_move(*final(game)))))
            &&& search_runs_after(a) && poll != WorkerPoll::Pending ==> ai_moves(mode, game_to_move(*final(game)))
        }),
{
    let placed: Option<Coord> = match tick_step(is_terminal(game), paused, poll) {
        TickStep::StopWorker => {
            return FrameAction::StopWorker;
        },
        TickStep::Wait => {
            return FrameAction::Wait;
        },
        TickStep::Apply(c) => {
            match apply_move(game, c) {
                Ok(()) => Some(c),
                Err(_) => None,
            }
        },
        TickStep::DropWorker => None,
        TickStep::Continue => None,
    };
    let spawn = should_spawn(false, mode, current_player(game));
    FrameAction::Proceed { placed, spawn }
}

/// The label of a mode in the selector.
pub fn mode_label(m: Mode) -> (r: &'static str)
    ensures
        r@ == match m {
            Mode::Hotseat => "Hotseat (2 humans)"@,
            Mode::HumanVsAi { human_is: Player::P1 } => "You (X) vs AI"@,
            Mode::HumanVsAi { human_is: Player::P2 } => "You (O) vs AI"@,
            Mode::AiVsAi => "AI vs AI"@,
        },
{
    match m {
        Mode::Hotseat => "Hotseat (2 humans)",
        Mode::HumanVsAi { human_is: Player::P1 } => "You (X) vs AI",
        Mode::HumanVsAi { human_is: Player::P2 } => "You (O) vs AI",
        Mode::AiVsAi => "AI vs AI",
    }
}

/// How the status line names a player.
pub fn player_label(p: Player) -> (r: &'static str)
    ensures
        r@ == match p {
            Player::P1 => "X (orange)"@,
            Player::P2 => "O (blue)"@,
        },
{
    match p {
        Player::P1 => "X (orange)",
        Player::P2 => "O (blue)",
    }
}

/// The status line of a finished game.
pub fn result_label(winner: Option<Player>) -> (r: &'static str)
    ensures
        r@ == match winner {
            Some(Player::P1) => "X (orange) wins!"@,
            Some(Player::P2) => "O (blue) wins!"@,
            None => "Draw — move limit reached"@,
        },
{
    match winner {
        Some(Player::P1) => "X (orange) wins!",
        Some(Player::P2) => "O (blue) wins!",
        None => "Draw — move limit reached",
    }
}

/// The stone colour of a player as RGB: orange `#E07A2A` for X, blue
/// `#3FA0D6` for O.
pub fn player_rgb(p: Player) -> (r: (u8, u8, u8))
    ensures
        r == match p {
            Player::P1 => (0xE0u8, 0x7Au8, 0x2Au8),
            Player::P2 => (0x3Fu8, 0xA0u8, 0xD6u8),
        },
{
    match p {
        Player::P1 => (0xE0, 0x7A, 0x2A),
        Player::P2 => (0x3F, 0xA0, 0xD6),
    }
}

/// The translucent hover colour (RGBA) for the player to move: the stone
/// colour at alpha 90; none once the game is over.
pub fn ghost_rgba(to_move: Option<Player>) -> (r: Option<(u8, u8, u8, u8)>)
    ensures
        r == match to_move {
            Some(Player::P1) => Some((0xE0u8, 0x7Au8, 0x2Au8, 90u8)),
            Some(Player::P2) => Some((0x3Fu8, 0xA0u8, 0xD6u8, 90u8)),
            None => None::<(u8, u8, u8, u8)>,
        },
{
    match to_move {
        Some(p) => {
            let (r, g, b) = player_rgb(p);
            Some((r, g, b, 90))
        },
        None => None,
    }
}

} // verus!
