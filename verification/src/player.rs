//! Sides of the board and a participant's role in a game.

use vstd::prelude::*;

verus! {

#[derive(Debug, Clone, Copy, PartialEq, Eq, Structural)]
pub enum Side {
    White,
    Black,
}

pub open spec fn other_side(s: Side) -> Side {
    match s {
        Side::White => Side::Black,
        Side::Black => Side::White,
    }
}

impl Side {
    pub fn opposite(&self) -> (o: Side)
        ensures
            o == other_side(*self),
            o != *self,
    {
        match self {
            Side::White => Side::Black,
            Side::Black => Side::White,
        }
    }
}

/// Taking the opposite side twice gives back the side one started from.
pub proof fn opposite_is_an_involution(s: Side)
    ensures
        other_side(other_side(s)) == s,
        other_side(s) != s,
{
}

#[derive(Debug, Clone, Copy, PartialEq, Eq, Structural)]
pub enum PlayerRole {
    Player(Side),
    Spectator,
}

pub open spec fn role_side(r: PlayerRole) -> Option<Side> {
    match r {
        PlayerRole::Player(s) => Some(s),
        PlayerRole::Spectator => None,
    }
}

impl PlayerRole {
    /// The side this participant plays, `None` for a spectator.
    pub fn color(&self) -> (c: Option<Side>)
        ensures
            c == role_side(*self),
    {
        match self {
            PlayerRole::Player(side) => Some(*side),
            PlayerRole::Spectator => None,
        }
    }

    /// The role of whoever plays `side`.
    pub fn from_side(side: Side) -> (r: PlayerRole)
        ensures
            r == PlayerRole::Player(side),
    {
        PlayerRole::Player(side)
    }
}

} // verus!
