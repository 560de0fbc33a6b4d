//! The two players of HeXO.
use vstd::prelude::*;

verus! {

/// A player: `P1` (X, orange) opens at the origin, `P2` (O, blue) answers.
#[derive(Debug, Clone, Copy, PartialEq, Eq, Hash, Structural)]
pub enum Player {
    P1,
    P2,
}

/// The other player.
pub open spec fn other(p: Player) -> Player {
    match p {
        Player::P1 => Player::P2,
        Player::P2 => Player::P1,
    }
}

impl Player {
    /// Returns the opposing player.
    pub fn opponent(self) -> (r: Player)
        ensures
            r == other(self),
            r != self,
    {
        match self {
            Player::P1 => Player::P2,
            Player::P2 => Player::P1,
        }
    }
}

} // verus!
