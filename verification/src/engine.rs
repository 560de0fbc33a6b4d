//! The game state of the `hexo_engine` crate, as this library sees it.
//!
//! `GameState` is opaque to the verifier. What the library reads of it is
//! named below, one name per getter of the engine, and the wrappers that
//! call the engine state what those getters return and how `apply_move`
//! changes them, as the engine's source shows.
use hexo_engine::GameState;
use vstd::prelude::*;
use crate::board::{Coord, stones_map};
use crate::lines::completes_line;
use crate::player::{Player, other};

verus! {

#[verifier::external_type_specification]
#[verifier::external_body]
pub struct ExGameState(GameState);

/// The stones on the board (`GameState::placed_stones`), as a map from cell to owner.
pub uninterp spec fn game_stones(g: GameState) -> Map<Coord, Player>;

/// The engine's set of legal cells (`GameState::legal_moves_set`).
pub uninterp spec fn game_legal(g: GameState) -> Set<Coord>;

/// The player to move, `None` once the game is over (`GameState::current_player`).
pub uninterp spec fn game_to_move(g: GameState) -> Option<Player>;

/// The winner, if any (`GameState::winner`).
pub uninterp spec fn game_winner(g: GameState) -> Option<Player>;

/// Stones placed so far, not counting the opening stone (`GameState::move_count`).
pub uninterp spec fn game_move_count(g: GameState) -> u32;

/// Stones in a row needed to win (`GameConfig::win_length` of the state's config).
pub uninterp spec fn game_win_length(g: GameState) -> u8;

/// The draw cap on placements (`GameConfig::max_moves` of the state's config).
pub uninterp spec fn game_max_moves(g: GameState) -> u32;

/// Stones the player to move still places this turn (`GameState::moves_remaining_this_turn`).
pub uninterp spec fn game_moves_left(g: GameState) -> u8;

/// Hex distance from the stones within which cells are legal
/// (`GameConfig::placement_radius` of the state's config).
pub uninterp spec fn game_radius(g: GameState) -> i32;

/// Everything the engine's getters report of a game state.
pub struct GameView {
    pub stones: Map<Coord, Player>,
    pub legal: Set<Coord>,
    pub to_move: Option<Player>,
    pub moves_left: u8,
    pub winner: Option<Player>,
    pub move_count: u32,
    pub win_length: u8,
    pub radius: i32,
    pub max_moves: u32,
}

/// The view of a game state through the engine's getters.
pub open spec fn view_of(g: GameState) -> GameView {
    GameView {
        stones: game_stones(g),
        legal: game_legal(g),
        to_move: game_to_move(g),
        moves_left: game_moves_left(g),
        winner: game_winner(g),
        move_count: game_move_count(g),
        win_length: game_win_length(g),
        radius: game_radius(g),
        max_moves: game_max_moves(g),
    }
}

/// The view of the state after the engine accepts a placement at `c` in a
/// state with view `v` (`GameState::apply_move`): the engine computes the
/// new board, legal cells, winner, turn and count from these values alone.
pub uninterp spec fn view_after_move(v: GameView, c: Coord) -> GameView;

/// The hex distance between two cells: the largest of `|dq|`, `|dr|` and
/// `|dq + dr|` for the axial difference `(dq, dr)`.
pub open spec fn hex_distance(a: Coord, b: Coord) -> int {
    let dq = b.0 - a.0;
    let dr = b.1 - a.1;
    let s = dq + dr;
    let adq = if dq < 0 { -dq } else { dq };
    let adr = if dr < 0 { -dr } else { dr };
    let as_ = if s < 0 { -s } else { s };
    if adq >= adr && adq >= as_ { adq } else if adr >= as_ { adr } else { as_ }
}

/// The legal cells after a stone at `c`: the old ones but `c`, and every
/// empty cell (on the new board `stones`) within `radius` of `c`.
pub open spec fn legal_after(legal: Set<Coord>, stones: Map<Coord, Player>, c: Coord, radius: int) -> Set<Coord> {
    Set::new(|d: Coord| (legal.contains(d) && d != c) || (hex_distance(c, d) <= radius && !stones.contains_key(d)))
}

/// `c` lies at least `margin` cells inside the range of `i32` on both axes.
pub open spec fn inside_by(c: Coord, margin: int) -> bool {
    i32::MIN + margin <= c.0 <= i32::MAX - margin && i32::MIN + margin <= c.1 <= i32::MAX - margin
}

/// The engine accepts a placement at `c` in a state with view `v`.
pub open spec fn playable(v: GameView, c: Coord) -> bool {
    v.to_move is Some && !v.stones.contains_key(c) && v.legal.contains(c)
}

/// Lexicographic order on coordinates.
pub open spec fn coord_lt(a: Coord, b: Coord) -> bool {
    a.0 < b.0 || (a.0 == b.0 && a.1 < b.1)
}

/// Why the engine refused a placement (`hexo_engine::MoveError`).
#[derive(Debug, Clone, Copy, PartialEq, Eq, Structural)]
pub enum MoveRejected {
    /// The game has already ended.
    GameOver,
    /// The cell already holds a stone.
    CellOccupied,
    /// The cell is not within the placement radius of any stone.
    OutOfRange,
}

/// `GameState::clone`: a copy with the same board, turn, counters and config.
#[verifier::external_body]
pub(crate) fn clone_state(g: &GameState) -> (r: GameState)
    ensures
        game_stones(r) == game_stones(*g),
        game_legal(r) == game_legal(*g),
        game_to_move(r) == game_to_move(*g),
        game_moves_left(r) == game_moves_left(*g),
        game_winner(r) == game_winner(*g),
        game_move_count(r) == game_move_count(*g),
        game_win_length(r) == game_win_length(*g),
        game_radius(r) == game_radius(*g),
        game_max_moves(r) == game_max_moves(*g),
{
    g.clone()
}

/// `GameState::is_terminal`: true exactly when no player is to move. While
/// the game goes on, fewer placements than the draw cap have been made, and
/// once it is over no more than the cap have been (the count starts at 0,
/// the cap is at least 1, a placement is only accepted while the game goes
/// on, and the engine ends the game when the count reaches the cap).
#[verifier::external_body]
pub(crate) fn is_terminal(g: &GameState) -> (r: bool)
    ensures
        r == (game_to_move(*g) is None),
        !r ==> game_move_count(*g) < game_max_moves(*g),
        r ==> game_move_count(*g) <= game_max_moves(*g),
{
    g.is_terminal()
}

/// `GameState::current_player`.
#[verifier::external_body]
pub(crate) fn current_player(g: &GameState) -> (r: Option<Player>)
    ensures
        r == game_to_move(*g),
{
    match g.current_player() {
        Some(hexo_engine::Player::P1) => Some(Player::P1),
        Some(hexo_engine::Player::P2) => Some(Player::P2),
        None => None,
    }
}

/// `GameState::winner`.
#[verifier::external_body]
pub(crate) fn winner(g: &GameState) -> (r: Option<Player>)
    ensures
        r == game_winner(*g),
{
    match g.winner() {
        Some(hexo_engine::Player::P1) => Some(Player::P1),
        Some(hexo_engine::Player::P2) => Some(Player::P2),
        None => None,
    }
}

/// `GameState::config().win_length`; the engine refuses configurations
/// with fewer than 2.
#[verifier::external_body]
pub(crate) fn win_length(g: &GameState) -> (r: u8)
    ensures
        r == game_win_length(*g),
        r >= 2,
{
    g.config().win_length
}

/// `GameState::legal_moves`: no move once the game is over, otherwise each
/// legal cell once, in lexicographic order. No legal cell holds a stone.
#[verifier::external_body]
pub(crate) fn legal_moves(g: &GameState) -> (r: Vec<Coord>)
    ensures
        game_to_move(*g) is None ==> r@.len() == 0,
        game_to_move(*g) is Some ==> r@.to_set() == game_legal(*g),
        forall|i: int| 0 <= i < r@.len() ==> !game_stones(*g).contains_key(#[trigger] r@[i]),
        forall|i: int, j: int| 0 <= i < j < r@.len() ==> coord_lt(#[trigger] r@[i], #[trigger] r@[j]),
{
    g.legal_moves()
}

/// `GameState::legal_moves_set`, each cell once, in the set's own
/// (unspecified) iteration order. No legal cell holds a stone.
#[verifier::external_body]
pub(crate) fn legal_cells(g: &GameState) -> (r: Vec<Coord>)
    ensures
        r@.to_set() == game_legal(*g),
        r@.no_duplicates(),
        forall|i: int| 0 <= i < r@.len() ==> !game_stones(*g).contains_key(#[trigger] r@[i]),
{
    g.legal_moves_set().iter().copied().collect()
}

/// `GameState::legal_moves_set().contains(c)`; a legal cell holds no stone.
#[verifier::external_body]
pub(crate) fn legal_contains(g: &GameState, c: Coord) -> (r: bool)
    ensures
        r == game_legal(*g).contains(c),
        r ==> !game_stones(*g).contains_key(c),
{
    g.legal_moves_set().contains(&c)
}

/// `GameState::legal_moves_set().is_empty()`.
#[verifier::external_body]
pub(crate) fn legal_is_empty(g: &GameState) -> (r: bool)
    ensures
        r == (game_legal(*g) == Set::<Coord>::empty()),
{
    g.legal_moves_set().is_empty()
}

/// `GameState::placed_stones`: each stone once, in unspecified order.
#[verifier::external_body]
pub(crate) fn placed_stones(g: &GameState) -> (r: Vec<(Coord, Player)>)
    ensures
        stones_map(r@) == game_stones(*g),
        forall|i: int, j: int| 0 <= i < j < r@.len() ==> (#[trigger] r@[i]).0 != (#[trigger] r@[j]).0,
{
    g.placed_stones()
        .into_iter()
        .map(|(c, p)| match p {
            hexo_engine::Player::P1 => (c, Player::P1),
            hexo_engine::Player::P2 => (c, Player::P2),
        })
        .collect()
}

/// `GameState::apply_move`: refused when the game is over, when the cell
/// is occupied, or when it is not a legal cell, in that order, leaving the
/// state unchanged; otherwise the mover's stone is placed at `c` and the
/// move count goes up by one, under the same configuration, and the new
/// state's view is `view_after_move` of the old view and `c`. Of that new
/// view the engine's rules give: the mover wins exactly when the stone
/// completes a line of the win length (stated where the engine's walk from
/// `c` stays inside `i32`); the game ends on a win or when the count
/// reaches the cap; otherwise the mover places a second stone, or the turn
/// passes after two; the legal cells lose `c` and gain the empty cells
/// within the radius of `c` (stated where those cells lie inside `i32`).
#[verifier::external_body]
pub(crate) fn apply_move(g: &mut GameState, c: Coord) -> (r: Result<(), MoveRejected>)
    ensures
        match r {
            Ok(()) => {
                &&& game_to_move(*old(g)) is Some
                &&& !game_stones(*old(g)).contains_key(c)
                &&& game_legal(*old(g)).contains(c)
                &&& game_stones(*final(g)) == game_stones(*old(g)).insert(c, game_to_move(*old(g))->0)
                &&& game_move_count(*final(g)) == game_move_count(*old(g)) + 1
                &&& game_win_length(*final(g)) == game_win_length(*old(g))
                &&& game_max_moves(*final(g)) == game_max_moves(*old(g))
                &&& game_radius(*final(g)) == game_radius(*old(g))
                &&& game_moves_left(*old(g)) == 1 || game_moves_left(*old(g)) == 2
                &&& (game_to_move(*final(g)) is None) == (game_winner(*final(g)) is Some
                    || game_move_count(*final(g)) >= game_max_moves(*final(g)))
                &&& game_winner(*final(g)) is Some ==> game_winner(*final(g)) == game_to_move(*old(g))
                &&& inside_by(c, 256) ==> (game_winner(*final(g)) is Some <==> completes_line(
                    game_stones(*old(g)), c, game_to_move(*old(g))->0, game_win_length(*old(g)) as int))
                &&& game_to_move(*final(g)) is None ==> game_moves_left(*final(g)) == 0
                &&& game_to_move(*final(g)) is Some && game_moves_left(*old(g)) == 2
                    ==> game_to_move(*final(g)) == game_to_move(*old(g)) && game_moves_left(*final(g)) == 1
                &&& game_to_move(*final(g)) is Some && game_moves_left(*old(g)) == 1
                    ==> game_to_move(*final(g)) == Some(other(game_to_move(*old(g))->0)) && game_moves_left(*final(g)) == 2
                &&& game_radius(*old(g)) <= 0x1000_0000 && inside_by(c, game_radius(*old(g)) as int)
                    ==> game_legal(*final(g)) == legal_after(game_legal(*old(g)), game_stones(*final(g)), c, game_radius(*old(g)) as int)
                &&& view_of(*final(g)) == view_after_move(view_of(*old(g)), c)
            },
            Err(MoveRejected::GameOver) => game_to_move(*old(g)) is None && *final(g) == *old(g),
            Err(MoveRejected::CellOccupied) => {
                &&& game_to_move(*old(g)) is Some
                &&& game_stones(*old(g)).contains_key(c)
                &&& *final(g) == *old(g)
            },
            Err(MoveRejected::OutOfRange) => {
                &&& game_to_move(*old(g)) is Some
                &&& !game_stones(*old(g)).contains_key(c)
                &&& !game_legal(*old(g)).contains(c)
                &&& *final(g) == *old(g)
            },
        },
{
    match g.apply_move(c) {
        Ok(()) => Ok(()),
        Err(hexo_engine::MoveError::GameOver) => Err(MoveRejected::GameOver),
        Err(hexo_engine::MoveError::CellOccupied) => Err(MoveRejected::CellOccupied),
        Err(hexo_engine::MoveError::OutOfRange) => Err(MoveRejected::OutOfRange),
    }
}

} // verus!
