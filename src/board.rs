use vstd::prelude::*;

use crate::coordinate::{adjacent, component, in_bounds, FlexibleCoordinate};
use crate::coordinate_set::{grown, CoordinateSet};
use crate::display::DisplayFlexibleboard;
use crate::flexible_bitmask::rectangle;
use crate::player::{PlaceStoneMove, Player};

verus! {

/// A maximal set of connected stones of one colour.
#[derive(Debug)]
pub struct Group {
    pub player: Player,
    pub coordinates: CoordinateSet,
}

/// Why a stone could not be placed.
#[derive(Debug, Clone, Copy, PartialEq, Eq, Structural)]
pub enum BoardPlacementError {
    /// The point already holds a stone of `occupied_by`.
    CoordinateOccupied { occupied_by: Player },
}

/// Why a point could not be cleared.
#[derive(Debug, Clone, Copy, PartialEq, Eq, Structural)]
pub enum BoardClearError {
    /// The point holds no stone.
    CoordinateEmpty,
}

/// What a board holds, as mathematics: its size and the points of each colour.
pub struct BoardModel {
    pub width: nat,
    pub height: nat,
    pub black: Set<FlexibleCoordinate>,
    pub white: Set<FlexibleCoordinate>,
}

impl BoardModel {
    /// Stones lie on the board, no point holds both colours, and the size fits in `u16`.
    pub open spec fn wf(self) -> bool {
        &&& self.black.subset_of(rectangle(self.width as int, self.height as int))
        &&& self.white.subset_of(rectangle(self.width as int, self.height as int))
        &&& self.black.disjoint(self.white)
        &&& self.width <= u16::MAX
        &&& self.height <= u16::MAX
    }

    /// The points that hold a stone of `p`.
    pub open spec fn stones(self, p: Player) -> Set<FlexibleCoordinate> {
        match p {
            Player::Black => self.black,
            Player::White => self.white,
        }
    }

    /// The colour of the stone at `c`, if any.
    pub open spec fn occupant(self, c: FlexibleCoordinate) -> Option<Player> {
        if self.black.contains(c) {
            Some(Player::Black)
        } else if self.white.contains(c) {
            Some(Player::White)
        } else {
            None
        }
    }

    /// The empty points of the board next to the points of `s`, leaving out `s` itself.
    pub open spec fn liberties(self, s: Set<FlexibleCoordinate>) -> Set<FlexibleCoordinate> {
        grown(s, self.width as int, self.height as int).difference(s).filter(
            |c: FlexibleCoordinate| self.occupant(c) is None,
        )
    }

    /// The group that a stone of `p` at `c` belongs to, or would belong to if placed there.
    pub open spec fn group_at(self, p: Player, c: FlexibleCoordinate) -> Set<FlexibleCoordinate> {
        component(self.stones(p), c)
    }

    /// `n` is an opponent stone next to the move whose group has no liberty but the move's
    /// point.
    pub open spec fn is_captured_by(self, m: PlaceStoneMove, n: FlexibleCoordinate) -> bool {
        &&& self.stones(m.player.opponent_spec()).contains(n)
        &&& adjacent(m.coord, n)
        &&& self.liberties(self.group_at(m.player.opponent_spec(), n)).subset_of(set![m.coord])
    }

    /// The opponent stones that the move takes off the board.
    pub open spec fn captured_stones(self, m: PlaceStoneMove) -> Set<FlexibleCoordinate> {
        Set::new(
            |c: FlexibleCoordinate|
                exists|n: FlexibleCoordinate|
                    #[trigger] self.is_captured_by(m, n) && self.group_at(
                        m.player.opponent_spec(),
                        n,
                    ).contains(c),
        )
    }

    /// Whether the group that the move would form has no liberty before anything is captured.
    pub open spec fn is_suicide(self, m: PlaceStoneMove) -> bool {
        self.liberties(self.group_at(m.player, m.coord)) == Set::<FlexibleCoordinate>::empty()
    }
}

/// `n`, or `u16::MAX` when `n` does not fit.
pub open spec fn capped(n: int) -> u16 {
    if n > u16::MAX {
        u16::MAX
    } else {
        n as u16
    }
}

/// Growing a set of points of the board stays on the board.
pub proof fn lemma_grown_on_board(s: Set<FlexibleCoordinate>, w: int, h: int)
    requires
        s.subset_of(rectangle(w, h)),
    ensures
        grown(s, w, h).subset_of(rectangle(w, h)),
{
}

/// The grown single point, without the point itself, is its set of neighbours on the board.
pub proof fn lemma_neighbours(c: FlexibleCoordinate, w: int, h: int, n: FlexibleCoordinate)
    requires
        in_bounds(c, w, h),
    ensures
        grown(set![c], w, h).remove(c).contains(n) == (adjacent(c, n) && in_bounds(n, w, h)),
{
    if n.x < u16::MAX && set![c].contains(FlexibleCoordinate { x: (n.x + 1) as u16, y: n.y }) {
        assert(c.x == n.x + 1 && c.y == n.y);
    }
    if 0 < n.x < w && set![c].contains(FlexibleCoordinate { x: (n.x - 1) as u16, y: n.y }) {
        assert(c.x + 1 == n.x && c.y == n.y);
    }
    if n.y < u16::MAX && set![c].contains(FlexibleCoordinate { x: n.x, y: (n.y + 1) as u16 }) {
        assert(c.y == n.y + 1 && c.x == n.x);
    }
    if 0 < n.y < h && set![c].contains(FlexibleCoordinate { x: n.x, y: (n.y - 1) as u16 }) {
        assert(c.y + 1 == n.y && c.x == n.x);
    }
    if adjacent(c, n) && in_bounds(n, w, h) {
        if n.x == c.x + 1 {
            assert(FlexibleCoordinate { x: (n.x - 1) as u16, y: n.y } == c);
        } else if c.x == n.x + 1 {
            assert(FlexibleCoordinate { x: (n.x + 1) as u16, y: n.y } == c);
        } else if n.y == c.y + 1 {
            assert(FlexibleCoordinate { x: n.x, y: (n.y - 1) as u16 } == c);
        } else {
            assert(FlexibleCoordinate { x: n.x, y: (n.y + 1) as u16 } == c);
        }
    }
}

/// A group lies on the board when its seed does.
pub proof fn lemma_group_on_board(b: BoardModel, p: Player, c: FlexibleCoordinate)
    requires
        b.wf(),
        in_bounds(c, b.width as int, b.height as int),
    ensures
        b.group_at(p, c).subset_of(rectangle(b.width as int, b.height as int)),
        b.group_at(p, c).contains(c),
{
    crate::coordinate::lemma_component_within(b.stones(p), c);
}

/// A Go board of some size that holds black and white stones.
pub trait FlexibleBoard: Sized {
    /// The size of the board and its stones.
    spec fn model(&self) -> BoardModel;

    /// The representation is consistent.
    spec fn wf(&self) -> bool;

    /// Stones lie on the board, and no point holds stones of both colours.
    proof fn lemma_board_facts(&self)
        requires
            self.wf(),
        ensures
            self.model().wf(),
    ;

    /// The size of the board as `(width, height)`.
    fn get_size(&self) -> (r: (u16, u16))
        requires
            self.wf(),
        ensures
            r.0 == self.model().width,
            r.1 == self.model().height,
    ;

    /// The colour of the stone at a point of the board, if any.
    fn get_player_at(&self, coord: &FlexibleCoordinate) -> (r: Option<Player>)
        requires
            self.wf(),
            in_bounds(*coord, self.model().width as int, self.model().height as int),
        ensures
            r == self.model().occupant(*coord),
    ;

    /// Puts a stone of `player` on an empty point.
    fn set_player_at(&mut self, coord: &FlexibleCoordinate, player: &Player) -> (r: Result<
        (),
        BoardPlacementError,
    >)
        requires
            old(self).wf(),
            in_bounds(*coord, old(self).model().width as int, old(self).model().height as int),
        ensures
            final(self).wf(),
            final(self).model().width == old(self).model().width,
            final(self).model().height == old(self).model().height,
            match old(self).model().occupant(*coord) {
                Some(p) => {
                    &&& r == Err::<(), BoardPlacementError>(
                        BoardPlacementError::CoordinateOccupied { occupied_by: p },
                    )
                    &&& final(self).model() == old(self).model()
                },
                None => {
                    &&& r is Ok
                    &&& final(self).model().stones(*player) == old(self).model().stones(*player).insert(*coord)
                    &&& final(self).model().stones(player.opponent_spec()) == old(self).model().stones(
                        player.opponent_spec(),
                    )
                },
            },
    ;

    /// Takes the stone off a point.
    fn clear_at(&mut self, coord: &FlexibleCoordinate) -> (r: Result<(), BoardClearError>)
        requires
            old(self).wf(),
            in_bounds(*coord, old(self).model().width as int, old(self).model().height as int),
        ensures
            final(self).wf(),
            final(self).model().width == old(self).model().width,
            final(self).model().height == old(self).model().height,
            match old(self).model().occupant(*coord) {
                Some(p) => {
                    &&& r is Ok
                    &&& final(self).model().stones(p) == old(self).model().stones(p).remove(*coord)
                    &&& final(self).model().stones(p.opponent_spec()) == old(self).model().stones(
                        p.opponent_spec(),
                    )
                },
                None => {
                    &&& r == Err::<(), BoardClearError>(BoardClearError::CoordinateEmpty)
                    &&& final(self).model() == old(self).model()
                },
            },
    ;

    /// The group of the stone at a point of the board; `None` on an empty point.
    fn find_group(&self, coord: &FlexibleCoordinate) -> (r: Option<Group>)
        requires
            self.wf(),
            in_bounds(*coord, self.model().width as int, self.model().height as int),
        ensures
            match self.model().occupant(*coord) {
                None => r is None,
                Some(p) => r matches Some(g) && g.player == p && g.coordinates@ == self.model().group_at(p, *coord),
            },
    ;

    /// The group that the stone of a move would belong to, without placing it.
    fn predict_group(&self, m: &PlaceStoneMove) -> (r: Group)
        requires
            self.wf(),
            in_bounds(m.coord, self.model().width as int, self.model().height as int),
        ensures
            r.player == m.player,
            r.coordinates@ == self.model().group_at(m.player, m.coord),
    ;

    /// The board as text: see [`DisplayFlexibleboard::render`].
    fn display(&self) -> (r: DisplayFlexibleboard<'_, Self>)
        ensures
            *r.0 == *self,
    {
        DisplayFlexibleboard(self)
    }

    /// The empty points next to the group.
    fn get_liberties(&self, group: &Group) -> (r: CoordinateSet)
        requires
            self.wf(),
            group.coordinates@.subset_of(
                rectangle(self.model().width as int, self.model().height as int),
            ),
        ensures
            r@ == self.model().liberties(group.coordinates@),
    {
        proof {
            self.lemma_board_facts();
        }
        let ghost b = self.model();
        let grown_set = group.coordinates.grow(self.get_size());
        let possible = grown_set.subtract(&group.coordinates);
        let items = possible.into_iter();
        proof {
            lemma_grown_on_board(group.coordinates@, b.width as int, b.height as int);
        }
        let mut res = CoordinateSet::empty();
        let mut i: usize = 0;
        while i < items.len()
            invariant
                self.wf(),
                b == self.model(),
                b.wf(),
                i <= items@.len(),
                items@.to_set() == grown(group.coordinates@, b.width as int, b.height as int).difference(group.coordinates@),
                grown(group.coordinates@, b.width as int, b.height as int).subset_of(
                    rectangle(b.width as int, b.height as int),
                ),
                res@ == items@.subrange(0, i as int).to_set().filter(
                    |c: FlexibleCoordinate| b.occupant(c) is None,
                ),
            decreases items@.len() - i,
        {
            let c = items[i];
            proof {
                assert(items@.to_set().contains(c));
                assert(items@.subrange(0, i + 1) == items@.subrange(0, i as int).push(c));
                assert forall|d: FlexibleCoordinate|
                    #![trigger items@.subrange(0, i + 1).contains(d)]
                    items@.subrange(0, i + 1).contains(d) == (items@.subrange(0, i as int).contains(d)
                        || d == c) by {
                    crate::coordinate_set::lemma_push_contains(items@.subrange(0, i as int), c, d);
                }
            }
            if self.get_player_at(&c).is_none() {
                res.insert(c);
            }
            assert(res@ =~= items@.subrange(0, i + 1).to_set().filter(
                |c: FlexibleCoordinate| b.occupant(c) is None,
            ));
            i += 1;
        }
        assert(items@.subrange(0, items@.len() as int) == items@);
        assert(res@ =~= b.liberties(group.coordinates@));
        res
    }

    /// Takes every stone of `coords` off the board and says how many were taken (at most
    /// `u16::MAX`); fails, and changes nothing, when one of the points holds no stone.
    fn capture(&mut self, coords: &CoordinateSet) -> (r: Result<u16, BoardClearError>)
        requires
            old(self).wf(),
            coords@.subset_of(
                rectangle(old(self).model().width as int, old(self).model().height as int),
            ),
        ensures
            final(self).wf(),
            final(self).model().width == old(self).model().width,
            final(self).model().height == old(self).model().height,
            if coords@.subset_of(old(self).model().black.union(old(self).model().white)) {
                &&& coords@.finite()
                &&& r == Ok::<u16, BoardClearError>(capped(coords@.len() as int))
                &&& final(self).model().black == old(self).model().black.difference(coords@)
                &&& final(self).model().white == old(self).model().white.difference(coords@)
            } else {
                &&& r == Err::<u16, BoardClearError>(BoardClearError::CoordinateEmpty)
                &&& final(self).model() == old(self).model()
            },
    {
        proof {
            self.lemma_board_facts();
        }
        let ghost b = self.model();
        let items = coords.iter();
        let mut i: usize = 0;
        while i < items.len()
            invariant
                self.wf(),
                b == self.model(),
                i <= items@.len(),
                items@.to_set() == coords@,
                coords@.subset_of(rectangle(b.width as int, b.height as int)),
                forall|j: int| 0 <= j < i ==> #[trigger] b.occupant(items@[j]) is Some,
            decreases items@.len() - i,
        {
            proof {
                assert(items@.to_set().contains(items@[i as int]));
            }
            if self.get_player_at(&items[i]).is_none() {
                proof {
                    assert(!b.black.union(b.white).contains(items@[i as int]));
                }
                return Err(BoardClearError::CoordinateEmpty);
            }
            i += 1;
        }
        proof {
            assert forall|c: FlexibleCoordinate| coords@.contains(c) implies b.black.union(b.white).contains(c) by {
                assert(items@.to_set().contains(c));
                let j = choose|j: int| 0 <= j < items@.len() && items@[j] == c;
                assert(b.occupant(items@[j]) is Some);
            }
        }
        let mut i: usize = 0;
        while i < items.len()
            invariant
                self.wf(),
                self.model().width == b.width,
                self.model().height == b.height,
                i <= items@.len(),
                items@.to_set() == coords@,
                coords@.subset_of(rectangle(b.width as int, b.height as int)),
                coords@.subset_of(b.black.union(b.white)),
                b.wf(),
                self.model().black == b.black.difference(items@.subrange(0, i as int).to_set()),
                self.model().white == b.white.difference(items@.subrange(0, i as int).to_set()),
            decreases items@.len() - i,
        {
            let c = items[i];
            proof {
                assert(items@.to_set().contains(c));
                assert(items@.subrange(0, i + 1) == items@.subrange(0, i as int).push(c));
                assert forall|d: FlexibleCoordinate|
                    #![trigger items@.subrange(0, i + 1).contains(d)]
                    items@.subrange(0, i + 1).contains(d) == (items@.subrange(0, i as int).contains(d)
                        || d == c) by {
                    crate::coordinate_set::lemma_push_contains(items@.subrange(0, i as int), c, d);
                }
            }
            if self.get_player_at(&c).is_some() {
                let _ = self.clear_at(&c);
            }
            proof {
                assert(self.model().black =~= b.black.difference(items@.subrange(0, i + 1).to_set()));
                assert(self.model().white =~= b.white.difference(items@.subrange(0, i + 1).to_set()));
            }
            i += 1;
        }
        assert(items@.subrange(0, items@.len() as int) == items@);
        let n = coords.len();
        if n > u16::MAX as usize {
            Ok(u16::MAX)
        } else {
            Ok(n as u16)
        }
    }

    /// Whether the group that the move would form has no liberty, before anything is
    /// captured.
    fn is_potential_suicide(&self, m: &PlaceStoneMove) -> (r: bool)
        requires
            self.wf(),
            in_bounds(m.coord, self.model().width as int, self.model().height as int),
        ensures
            r == self.model().is_suicide(*m),
    {
        proof {
            self.lemma_board_facts();
            lemma_group_on_board(self.model(), m.player, m.coord);
        }
        let potential_group = self.predict_group(m);
        let liberties = self.get_liberties(&potential_group);
        liberties.is_empty()
    }

    /// The opponent groups next to the move that would be left without liberties once the
    /// stone is placed, each listed once.
    fn find_groups_to_capture_from_move(&self, m: &PlaceStoneMove) -> (r: Vec<Group>)
        requires
            self.wf(),
            in_bounds(m.coord, self.model().width as int, self.model().height as int),
        ensures
            forall|k: int|
                #![trigger r@[k]]
                0 <= k < r@.len() ==> r@[k].player == m.player.opponent_spec() && exists|
                    n: FlexibleCoordinate,
                |
                    #[trigger] self.model().is_captured_by(*m, n) && r@[k].coordinates@
                        == self.model().group_at(m.player.opponent_spec(), n),
            forall|n: FlexibleCoordinate| #[trigger]
                self.model().is_captured_by(*m, n) ==> exists|k: int|
                    0 <= k < r@.len() && (#[trigger] r@[k]).coordinates@.contains(n),
            forall|k1: int, k2: int|
                0 <= k1 < k2 < r@.len() ==> (#[trigger] r@[k1]).coordinates@ != (
                #[trigger] r@[k2]).coordinates@,
    {
        proof {
            self.lemma_board_facts();
        }
        let ghost b = self.model();
        let opponent = m.player.opponent();
        let seed = vec![m.coord];
        proof {
            assert(seed@.to_set() =~= set![m.coord]) by {
                assert(seed@[0] == m.coord);
            }
        }
        let mut neighbours = CoordinateSet::new(seed).grow(self.get_size());
        neighbours.remove(&m.coord);
        let items = neighbours.into_iter();
        let mut res: Vec<Group> = Vec::new();
        let mut i: usize = 0;
        while i < items.len()
            invariant
                self.wf(),
                b == self.model(),
                b.wf(),
                in_bounds(m.coord, b.width as int, b.height as int),
                opponent == m.player.opponent_spec(),
                i <= items@.len(),
                items@.to_set() == grown(set![m.coord], b.width as int, b.height as int).remove(m.coord),
                forall|k: int|
                    #![trigger res@[k]]
                    0 <= k < res@.len() ==> res@[k].player == opponent && exists|
                        n: FlexibleCoordinate,
                    |
                        #[trigger] b.is_captured_by(*m, n) && res@[k].coordinates@ == b.group_at(
                            opponent,
                            n,
                        ),
                forall|j: int|
                    0 <= j < i && #[trigger] b.is_captured_by(*m, items@[j]) ==> exists|k: int|
                        0 <= k < res@.len() && (#[trigger] res@[k]).coordinates@.contains(items@[j]),
                forall|k1: int, k2: int|
                    0 <= k1 < k2 < res@.len() ==> (#[trigger] res@[k1]).coordinates@ != (
                    #[trigger] res@[k2]).coordinates@,
            decreases items@.len() - i,
        {
            let n = items[i];
            let ghost res_start = res@;
            proof {
                assert(items@.to_set().contains(n));
                lemma_neighbours(m.coord, b.width as int, b.height as int, n);
            }
            let is_opponent = match self.get_player_at(&n) {
                Some(p) => p == opponent,
                None => false,
            };
            if is_opponent {
                let mut known = false;
                let mut k: usize = 0;
                while k < res.len()
                    invariant
                        k <= res@.len(),
                        known == exists|j: int| 0 <= j < k && (#[trigger] res@[j]).coordinates@.contains(n),
                    decreases res@.len() - k,
                {
                    if res[k].coordinates.contains(&n) {
                        known = true;
                    }
                    k += 1;
                }
                if !known {
                    if let Some(group) = self.find_group(&n) {
                        proof {
                            lemma_group_on_board(b, opponent, n);
                        }
                        let mut libs = self.get_liberties(&group);
                        libs.remove(&m.coord);
                        if libs.is_empty() {
                            proof {
                                assert(b.liberties(group.coordinates@).subset_of(set![m.coord])) by {
                                    assert forall|c: FlexibleCoordinate| b.liberties(group.coordinates@).contains(c) implies c == m.coord by {
                                        if c != m.coord {
                                            assert(libs@.contains(c));
                                        }
                                    }
                                }
                                assert(b.is_captured_by(*m, n));
                                assert(group.coordinates@.contains(n));
                            }
                            let ghost before = res@;
                            res.push(group);
                            proof {
                                assert forall|k: int|
                                    #![trigger res@[k]]
                                    0 <= k < res@.len() implies res@[k].player == opponent && exists|
                                        x: FlexibleCoordinate,
                                    |
                                        #[trigger] b.is_captured_by(*m, x) && res@[k].coordinates@ == b.group_at(
                                            opponent,
                                            x,
                                        ) by {
                                    if k < before.len() {
                                        assert(res@[k] == before[k]);
                                    } else {
                                        assert(b.is_captured_by(*m, n));
                                    }
                                }
                                assert forall|k1: int, k2: int|
                                    0 <= k1 < k2 < res@.len() implies (#[trigger] res@[k1]).coordinates@ != (
                                    #[trigger] res@[k2]).coordinates@ by {
                                    assert(res@[k1] == before[k1]);
                                    if k2 < before.len() {
                                        assert(res@[k2] == before[k2]);
                                    } else {
                                        assert(!before[k1].coordinates@.contains(n));
                                    }
                                }
                            }
                        } else {
                            proof {
                                assert(exists|c: FlexibleCoordinate| libs@.contains(c)) by {
                                    if !(exists|c: FlexibleCoordinate| libs@.contains(c)) {
                                        assert(libs@ =~= Set::<FlexibleCoordinate>::empty());
                                    }
                                }
                                let c = choose|c: FlexibleCoordinate| libs@.contains(c);
                                if b.is_captured_by(*m, n) {
                                    assert(b.liberties(group.coordinates@).contains(c));
                                }
                            }
                        }
                    }
                }
            }
            proof {
                assert(res@ == res_start || res@ == res_start.push(res@.last()));
                assert(b.is_captured_by(*m, n) ==> exists|k: int|
                    0 <= k < res@.len() && (#[trigger] res@[k]).coordinates@.contains(n));
                assert forall|j: int|
                    0 <= j < i + 1 && #[trigger] b.is_captured_by(*m, items@[j]) implies exists|k: int|
                        0 <= k < res@.len() && (#[trigger] res@[k]).coordinates@.contains(items@[j]) by {
                    if j < i {
                        let k = choose|k: int|
                            0 <= k < res_start.len() && (#[trigger] res_start[k]).coordinates@.contains(items@[j]);
                        assert(res@[k] == res_start[k]);
                    }
                }
            }
            i += 1;
        }
        proof {
            assert forall|n: FlexibleCoordinate| #[trigger] b.is_captured_by(*m, n) implies exists|k: int|
                0 <= k < res@.len() && (#[trigger] res@[k]).coordinates@.contains(n) by {
                lemma_neighbours(m.coord, b.width as int, b.height as int, n);
                assert(items@.to_set().contains(n));
                let j = choose|j: int| 0 <= j < items@.len() && items@[j] == n;
                assert(b.is_captured_by(*m, items@[j]));
            }
        }
        res
    }
}

} // verus!
