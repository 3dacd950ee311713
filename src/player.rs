use vstd::prelude::*;

verus! {

/// One of the two colours of stone.
#[derive(Debug, Clone, Copy, PartialEq, Eq, Structural)]
pub enum Player {
    Black,
    White,
}

impl Player {
    /// The colour that plays against `self`.
    pub open spec fn opponent_spec(self) -> Player {
        match self {
            Player::Black => Player::White,
            Player::White => Player::Black,
        }
    }

    /// The other colour.
    pub fn opponent(self) -> (r: Player)
        ensures
            r == self.opponent_spec(),
            r != self,
    {
        match self {
            Player::Black => Player::White,
            Player::White => Player::Black,
        }
    }

    /// The colour's name in lower case.
    pub fn name(&self) -> (r: &'static str)
        ensures
            r@ == (match *self {
                Player::Black => "black"@,
                Player::White => "white"@,
            }),
    {
        proof {
            reveal_strlit("black");
            reveal_strlit("white");
        }
        match self {
            Player::Black => "black",
            Player::White => "white",
        }
    }
}

/// `!player` is the other colour.
impl core::ops::Not for Player {
    type Output = Player;

    fn not(self) -> (r: Player) {
        self.opponent()
    }
}

impl vstd::std_specs::ops::NotSpecImpl for Player {
    open spec fn obeys_not_spec() -> bool {
        true
    }

    open spec fn not_req(self) -> bool {
        true
    }

    open spec fn not_spec(self) -> Player {
        self.opponent_spec()
    }
}

} // verus!

verus! {

/// A stone of colour `player` placed at `coord`.
#[derive(Debug, Clone, Copy, PartialEq, Eq, Structural)]
pub struct PlaceStoneMove {
    pub player: Player,
    pub coord: crate::coordinate::FlexibleCoordinate,
}

/// One turn: a stone is placed, or the player passes.
#[derive(Debug, Clone, Copy, PartialEq, Eq, Structural)]
pub enum Move {
    PlaceStone(PlaceStoneMove),
    Skip { player: Player },
}

} // verus!
