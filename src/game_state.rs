use vstd::prelude::*;

use crate::fixed_board::{dead_stones, packed_can_place, Board};
use crate::coordinate::Coordinate;
use crate::player::Player;

verus! {

/// `a + b`, or `u32::MAX` when that does not fit.
pub open spec fn add_capped(a: int, b: int) -> u32 {
    if a + b > u32::MAX {
        u32::MAX
    } else {
        (a + b) as u32
    }
}

/// A position of a game on the 19x19 board: the board, the stones each colour has captured
/// and the colour to play. A move makes a new position and leaves this one as it was.
#[derive(Debug, Clone, Copy)]
pub struct GameState {
    board: Board,
    captured_black: u32,
    captured_white: u32,
    current_player: Player,
}

impl GameState {
    /// The board.
    pub closed spec fn board_spec(&self) -> Board {
        self.board
    }

    /// The number of stones that `p` has captured.
    pub closed spec fn captures(&self, p: Player) -> u32 {
        match p {
            Player::Black => self.captured_black,
            Player::White => self.captured_white,
        }
    }

    /// The colour to play.
    pub closed spec fn current(&self) -> Player {
        self.current_player
    }

    /// The state is consistent.
    pub closed spec fn wf(&self) -> bool {
        self.board.wf()
    }

    /// Whether the colour to play may put a stone on the point.
    pub open spec fn legal(&self, i: int) -> bool {
        &&& 0 <= i < 361
        &&& !self.board_spec().stones(Player::Black).contains(i)
        &&& !self.board_spec().stones(Player::White).contains(i)
        &&& packed_can_place(
            self.board_spec().stones(self.current()),
            self.board_spec().stones(self.current().opponent_spec()),
            i,
        )
    }

    /// The empty board with black to play.
    pub fn init() -> (r: GameState)
        ensures
            r.wf(),
            r.board_spec().stones(Player::Black) == Set::<int>::empty(),
            r.board_spec().stones(Player::White) == Set::<int>::empty(),
            r.captures(Player::Black) == 0,
            r.captures(Player::White) == 0,
            r.current() == Player::Black,
    {
        GameState {
            board: Board::init(),
            current_player: Player::Black,
            captured_black: 0,
            captured_white: 0,
        }
    }

    /// The colour to play.
    pub fn current_player(&self) -> (r: Player)
        ensures
            r == self.current(),
    {
        self.current_player
    }

    /// The board drawn as text, one line per column `x`: `X ` for black, `O ` for white and
    /// `_ ` for an empty point.
    pub fn to_text(&self) -> (r: String)
        ensures
            r@ == crate::display::grid_text(
                self.board_spec().stones(Player::Black),
                self.board_spec().stones(Player::White),
                ("X "@, "O "@, "_ "@),
                19,
            ),
    {
        self.board.to_text()
    }

    /// The board.
    pub fn board(&self) -> (r: Board)
        ensures
            r == self.board_spec(),
    {
        self.board
    }

    /// The position after the colour to play puts a stone on `place`, or `None` when that is
    /// not allowed. Groups left without liberties are taken off, the opponent's first.
    pub fn make_move(&self, place: Coordinate) -> (r: Option<GameState>)
        requires
            self.wf(),
            place.wf(),
        ensures
            !self.legal(place.index as int) ==> r is None,
            self.legal(place.index as int) ==> (r matches Some(next) && {
                let p = self.current();
                let own = self.board_spec().stones(p).insert(place.index as int);
                let opp = self.board_spec().stones(p.opponent_spec());
                let dead_opp = dead_stones(opp, own.union(opp));
                let dead_own = dead_stones(own, own.union(opp.difference(dead_opp)));
                let (by_black, by_white) = match p {
                    Player::Black => (dead_opp.len(), dead_own.len()),
                    Player::White => (dead_own.len(), dead_opp.len()),
                };
                &&& next.wf()
                &&& next.board_spec().stones(p.opponent_spec()) == opp.difference(dead_opp)
                &&& next.board_spec().stones(p) == own.difference(dead_own)
                &&& next.captures(Player::Black) == add_capped(
                    self.captures(Player::Black) as int,
                    by_black as int,
                )
                &&& next.captures(Player::White) == add_capped(
                    self.captures(Player::White) as int,
                    by_white as int,
                )
                &&& next.current() == p.opponent_spec()
            }),
    {
        if !self.is_legal_move(place) {
            return None;
        }
        let mut new_board = self.board.with_move(place, self.current_player);
        let (c_b, c_w) = new_board.clean_taken_pieces(self.current_player);
        Some(
            GameState {
                board: new_board,
                captured_black: self.captured_black.saturating_add(c_b),
                captured_white: self.captured_white.saturating_add(c_w),
                current_player: self.current_player.opponent(),
            },
        )
    }

    /// Every point the colour to play may put a stone on, in increasing order.
    pub fn get_legal_moves(&self) -> (r: Vec<Coordinate>)
        requires
            self.wf(),
        ensures
            forall|k: int| 0 <= k < r@.len() ==> (#[trigger] r@[k]).wf() && self.legal(r@[k].index as int),
            forall|i: int| self.legal(i) ==> exists|k: int| 0 <= k < r@.len() && (#[trigger] r@[k]).index == i,
            forall|a: int, b: int| 0 <= a < b < r@.len() ==> (#[trigger] r@[a]).index < (#[trigger] r@[b]).index,
    {
        let mut out: Vec<Coordinate> = Vec::new();
        let mut i: u16 = 0;
        while i < 361
            invariant
                i <= 361,
                self.wf(),
                forall|k: int| 0 <= k < out@.len() ==> (#[trigger] out@[k]).wf() && self.legal(out@[k].index as int) && out@[k].index < i,
                forall|j: int| 0 <= j < i && self.legal(j) ==> exists|k: int| 0 <= k < out@.len() && (#[trigger] out@[k]).index == j,
                forall|a: int, b: int| 0 <= a < b < out@.len() ==> (#[trigger] out@[a]).index < (#[trigger] out@[b]).index,
            decreases 361 - i,
        {
            let coord = Coordinate::from_index(i);
            if self.is_legal_move(coord) {
                let ghost before = out@;
                out.push(coord);
                proof {
                    assert forall|j: int| 0 <= j < i + 1 && self.legal(j) implies exists|k: int| 0 <= k < out@.len() && (#[trigger] out@[k]).index == j by {
                        if j < i {
                            let k = choose|k: int| 0 <= k < before.len() && (#[trigger] before[k]).index == j;
                            assert(out@[k] == before[k]);
                        } else {
                            assert(out@[before.len() as int].index == j);
                        }
                    }
                }
            }
            i += 1;
        }
        out
    }

    /// Whether the colour to play may put a stone on `place`: the point is empty and the move
    /// keeps a liberty or captures.
    pub fn is_legal_move(&self, place: Coordinate) -> (r: bool)
        requires
            self.wf(),
            place.wf(),
        ensures
            r == self.legal(place.index as int),
    {
        if !self.board.is_free(place) {
            return false;
        }
        self.board.can_place_at(place, self.current_player)
    }
}

} // verus!
