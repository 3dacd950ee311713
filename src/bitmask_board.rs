use vstd::prelude::*;

use crate::board::{BoardModel, BoardPlacementError, BoardClearError, FlexibleBoard, Group};
use crate::coordinate::{in_bounds, FlexibleCoordinate};
use crate::flexible_bitmask::FlexibleBitMask;
use crate::player::{PlaceStoneMove, Player};

verus! {

/// A board that keeps one bit grid per colour.
#[derive(Debug, Clone, PartialEq, Eq)]
pub struct BitMaskBoard<TBitMask: FlexibleBitMask> {
    width: u16,
    height: u16,
    black_mask: TBitMask,
    white_mask: TBitMask,
}

/// `position` holds a stone of `p` at `c`, and `c` comes before row `y`, column `x`.
pub open spec fn placed_before(
    position: Seq<Vec<Option<Player>>>,
    p: Player,
    c: FlexibleCoordinate,
    w: int,
    h: int,
    y: int,
    x: int,
) -> bool {
    &&& in_bounds(c, w, h)
    &&& (c.y < y || (c.y == y && c.x < x))
    &&& position[c.y as int]@[c.x as int] == Some(p)
}

impl<TBitMask: FlexibleBitMask> BitMaskBoard<TBitMask> {
    /// An empty board on two grids made by `mask_factory`, which must make empty grids of one
    /// size.
    pub fn new<TMaskFactory: Fn() -> TBitMask>(mask_factory: TMaskFactory) -> (r: Self)
        requires
            mask_factory.requires(()),
            forall|m: TBitMask| #[trigger]
                mask_factory.ensures((), m) ==> m.wf() && m.cells() == Set::<
                    FlexibleCoordinate,
                >::empty(),
            forall|a: TBitMask, b: TBitMask|
                #[trigger] mask_factory.ensures((), a) && #[trigger] mask_factory.ensures((), b)
                    ==> a.width() == b.width() && a.height() == b.height(),
        ensures
            r.wf(),
            r.model().black == Set::<FlexibleCoordinate>::empty(),
            r.model().white == Set::<FlexibleCoordinate>::empty(),
            forall|m: TBitMask| #[trigger]
                mask_factory.ensures((), m) ==> r.model().width == m.width() && r.model().height
                    == m.height(),
            exists|m: TBitMask| #[trigger] mask_factory.ensures((), m),
    {
        let white_mask = mask_factory();
        let black_mask = mask_factory();
        let size = white_mask.get_size();
        assert(mask_factory.ensures((), white_mask));
        Self { width: size.0, height: size.1, white_mask, black_mask }
    }
    /// A board on grids made by `mask_factory` holding the stones of `position`, where
    /// `position[y][x]` is the stone at `(x, y)`; the rows must match the grids' size.
    pub fn from_position<TMaskFactory: Fn() -> TBitMask>(
        mask_factory: TMaskFactory,
        position: Vec<Vec<Option<Player>>>,
    ) -> (r: Self)
        requires
            mask_factory.requires(()),
            forall|m: TBitMask| #[trigger]
                mask_factory.ensures((), m) ==> m.wf() && m.cells() == Set::<
                    FlexibleCoordinate,
                >::empty() && m.height() == position@.len() && forall|j: int|
                    0 <= j < position@.len() ==> (#[trigger] position@[j])@.len() == m.width(),
            forall|a: TBitMask, b: TBitMask|
                #[trigger] mask_factory.ensures((), a) && #[trigger] mask_factory.ensures((), b)
                    ==> a.width() == b.width() && a.height() == b.height(),
        ensures
            r.wf(),
            r.model().height == position@.len(),
            forall|c: FlexibleCoordinate| #[trigger]
                r.model().black.contains(c) == (in_bounds(
                    c,
                    r.model().width as int,
                    r.model().height as int,
                ) && position@[c.y as int]@[c.x as int] == Some(Player::Black)),
            forall|c: FlexibleCoordinate| #[trigger]
                r.model().white.contains(c) == (in_bounds(
                    c,
                    r.model().width as int,
                    r.model().height as int,
                ) && position@[c.y as int]@[c.x as int] == Some(Player::White)),
    {
        let mut board = Self::new(mask_factory);
        let (width, height) = board.get_size();
        proof {
            let m = choose|m: TBitMask| #[trigger] mask_factory.ensures((), m);
            assert(mask_factory.ensures((), m));
        }
        let mut y: u16 = 0;
        while y < height
            invariant
                board.wf(),
                board.model().width == width,
                board.model().height == height,
                height == position@.len(),
                forall|j: int| 0 <= j < position@.len() ==> (#[trigger] position@[j])@.len() == width,
                y <= height,
                forall|c: FlexibleCoordinate| #[trigger]
                    board.model().black.contains(c) == placed_before(position@, Player::Black, c, width as int, height as int, y as int, 0),
                forall|c: FlexibleCoordinate| #[trigger]
                    board.model().white.contains(c) == placed_before(position@, Player::White, c, width as int, height as int, y as int, 0),
            decreases height - y,
        {
            let row = &position[y as usize];
            let mut x: u16 = 0;
            while x < width
                invariant
                    board.wf(),
                    board.model().width == width,
                    board.model().height == height,
                    height == position@.len(),
                    y < height,
                    *row == position@[y as int],
                    row@.len() == width,
                    x <= width,
                    forall|c: FlexibleCoordinate| #[trigger]
                        board.model().black.contains(c) == placed_before(position@, Player::Black, c, width as int, height as int, y as int, x as int),
                    forall|c: FlexibleCoordinate| #[trigger]
                        board.model().white.contains(c) == placed_before(position@, Player::White, c, width as int, height as int, y as int, x as int),
                decreases width - x,
            {
                let coord = FlexibleCoordinate { x, y };
                if let Some(player) = row[x as usize] {
                    let _ = board.set_player_at(&coord, &player);
                }
                proof {
                    assert forall|c: FlexibleCoordinate| #[trigger]
                        board.model().black.contains(c) == placed_before(position@, Player::Black, c, width as int, height as int, y as int, x + 1) by {}
                    assert forall|c: FlexibleCoordinate| #[trigger]
                        board.model().white.contains(c) == placed_before(position@, Player::White, c, width as int, height as int, y as int, x + 1) by {}
                }
                x += 1;
            }
            proof {
                assert forall|c: FlexibleCoordinate| #[trigger]
                    board.model().black.contains(c) == placed_before(position@, Player::Black, c, width as int, height as int, y + 1, 0) by {}
                assert forall|c: FlexibleCoordinate| #[trigger]
                    board.model().white.contains(c) == placed_before(position@, Player::White, c, width as int, height as int, y + 1, 0) by {}
            }
            y += 1;
        }
        board
    }
}

impl<TBitMask: FlexibleBitMask> FlexibleBoard for BitMaskBoard<TBitMask> {
    closed spec fn model(&self) -> BoardModel {
        BoardModel {
            width: self.width as nat,
            height: self.height as nat,
            black: self.black_mask.cells(),
            white: self.white_mask.cells(),
        }
    }

    closed spec fn wf(&self) -> bool {
        &&& self.black_mask.wf()
        &&& self.white_mask.wf()
        &&& self.black_mask.width() == self.width
        &&& self.black_mask.height() == self.height
        &&& self.white_mask.width() == self.width
        &&& self.white_mask.height() == self.height
        &&& self.black_mask.cells().disjoint(self.white_mask.cells())
    }

    proof fn lemma_board_facts(&self) {
        self.black_mask.lemma_cells_on_board();
        self.white_mask.lemma_cells_on_board();
    }

    fn get_size(&self) -> (r: (u16, u16)) {
        (self.width, self.height)
    }

    fn get_player_at(&self, coord: &FlexibleCoordinate) -> (r: Option<Player>) {
        if self.black_mask.get_bit_at(coord) {
            return Some(Player::Black);
        } else if self.white_mask.get_bit_at(coord) {
            return Some(Player::White);
        }
        None
    }

    fn set_player_at(&mut self, coord: &FlexibleCoordinate, player: &Player) -> (r: Result<
        (),
        BoardPlacementError,
    >) {
        let occupied_by = self.get_player_at(coord);
        if let Some(occupying_player) = occupied_by {
            return Err(BoardPlacementError::CoordinateOccupied { occupied_by: occupying_player });
        }
        match player {
            Player::Black => self.black_mask.set_bit_at(coord, true),
            Player::White => self.white_mask.set_bit_at(coord, true),
        }
        Ok(())
    }

    fn clear_at(&mut self, coord: &FlexibleCoordinate) -> (r: Result<(), BoardClearError>) {
        let occupied_by = self.get_player_at(coord);
        if let Some(occupying_player) = occupied_by {
            match occupying_player {
                Player::Black => self.black_mask.set_bit_at(coord, false),
                Player::White => self.white_mask.set_bit_at(coord, false),
            }
            return Ok(());
        }
        Err(BoardClearError::CoordinateEmpty)
    }

    fn find_group(&self, coord: &FlexibleCoordinate) -> (r: Option<Group>) {
        let player = self.get_player_at(coord)?;
        let m = PlaceStoneMove { player, coord: *coord };
        Some(self.predict_group(&m))
    }

    fn predict_group(&self, m: &PlaceStoneMove) -> (r: Group) {
        let coordinates = match m.player {
            Player::Black => self.black_mask.flood_fill(m.coord),
            Player::White => self.white_mask.flood_fill(m.coord),
        };
        Group { player: m.player, coordinates }
    }
}

} // verus!
