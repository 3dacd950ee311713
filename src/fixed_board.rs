use vstd::prelude::*;

use crate::bitmask::{all_positions, flooded, grown_once, touches, BitMask};
use crate::coordinate::Coordinate;
use crate::player::Player;

verus! {

/// The stones of `stones` connected to point `i`, with a stone at `i` counted in.
pub open spec fn packed_group(stones: Set<int>, i: int) -> Set<int> {
    flooded(set![i], all_positions().difference(stones.insert(i)))
}

/// Whether `n` is one of the four neighbours of point `i` on the 19x19 board.
pub open spec fn next_to(i: int, n: int) -> bool {
    0 <= n < 361 && n != i && touches(set![i], n)
}

/// Whether a stone of the side owning `own` may go on the empty point `i`: its group keeps a
/// liberty, or some neighbouring group of `opp` is left without one.
pub open spec fn packed_can_place(own: Set<int>, opp: Set<int>, i: int) -> bool {
    let occupied = own.union(opp).insert(i);
    ||| grown_once(packed_group(own, i), occupied) != Set::<int>::empty()
    ||| exists|n: int|
        #![trigger opp.contains(n), next_to(i, n)]
        opp.contains(n) && next_to(i, n) && grown_once(packed_group(opp, n), occupied) == Set::<
            int,
        >::empty()
}

/// The stones of `stones` whose group has no liberty among the points outside `occupied`.
pub open spec fn dead_stones(stones: Set<int>, occupied: Set<int>) -> Set<int> {
    Set::new(
        |j: int|
            stones.contains(j) && grown_once(packed_group(stones, j), occupied) == Set::<
                int,
            >::empty(),
    )
}

/// The stones of `stones` whose group has no liberty outside `occupied`. Points are visited
/// in increasing order and each group is flooded once: its stones are then marked processed.
fn find_dead(stones: BitMask, occupied: BitMask) -> (r: BitMask)
    requires
        stones.wf(),
    ensures
        r@ == dead_stones(stones@, occupied@),
        r.wf(),
{
    let outside = stones.complement();
    let mut processed = BitMask::init();
    let mut dead = BitMask::init();
    let mut j: usize = 0;
    while j < 361
        invariant
            j <= 361,
            stones.wf(),
            outside@ == all_positions().difference(stones@),
            processed@.subset_of(stones@),
            forall|k: int| #[trigger] processed@.contains(k) ==> packed_group(stones@, k).subset_of(processed@),
            forall|k: int| 0 <= k < j && #[trigger] stones@.contains(k) ==> processed@.contains(k),
            forall|k: int| #[trigger] dead@.contains(k) == (processed@.contains(k) && dead_stones(stones@, occupied@).contains(k)),
        decreases 361 - j,
    {
        if stones.bit_at(j) && !processed.bit_at(j) {
            assert(all_positions().difference(stones@.insert(j as int)) =~= outside@);
            let group = BitMask::from_coord(Coordinate::from_index(j as u16)).flood_fill(outside);
            let ghost g = packed_group(stones@, j as int);
            assert(group@ == g);
            let ghost old_processed = processed@;
            let ghost old_dead = dead@;
            processed = processed.or(group);
            let no_liberty = group.flood_fill_step(occupied).is_empty();
            if no_liberty {
                dead = dead.or(group);
            }
            proof {
                assert forall|k: int| g.contains(k) implies stones@.contains(k) && packed_group(stones@, k) == g by {
                    assert(0 <= k < 361);
                    assert(stones@.contains(k));
                    crate::laws::lemma_packed_group_shared(stones@, j as int, k);
                }
                assert forall|k: int| #[trigger] processed@.contains(k) implies packed_group(stones@, k).subset_of(processed@) by {
                    if old_processed.contains(k) {
                        assert(packed_group(stones@, k).subset_of(old_processed));
                    }
                }
                assert forall|k: int| #[trigger] dead@.contains(k) == (processed@.contains(k) && dead_stones(stones@, occupied@).contains(k)) by {
                    if g.contains(k) {
                        assert(packed_group(stones@, k) == g);
                    } else {
                        assert(dead@.contains(k) == old_dead.contains(k));
                    }
                }
            }
        }
        j += 1;
    }
    assert forall|k: int| stones@.contains(k) implies processed@.contains(k) by {
        assert(0 <= k < 361);
    }
    assert(dead@ =~= dead_stones(stones@, occupied@));
    dead
}

/// The 19x19 board as two packed masks, one per colour.
#[derive(Debug, Clone, Copy)]
pub struct Board {
    black: BitMask,
    white: BitMask,
}

impl Board {
    /// The points holding a stone of `p`.
    pub closed spec fn stones(&self, p: Player) -> Set<int> {
        match p {
            Player::Black => self.black@,
            Player::White => self.white@,
        }
    }

    /// Only board points hold stones, and never stones of both colours.
    pub closed spec fn wf(&self) -> bool {
        &&& self.black.wf()
        &&& self.white.wf()
        &&& self.black@.disjoint(self.white@)
    }

    /// Stones lie on the 361 points and the two colours never share one.
    pub proof fn lemma_wf(&self)
        requires
            self.wf(),
        ensures
            self.stones(Player::Black).disjoint(self.stones(Player::White)),
            forall|i: int| #[trigger] self.stones(Player::Black).contains(i) ==> 0 <= i < 361,
            forall|i: int| #[trigger] self.stones(Player::White).contains(i) ==> 0 <= i < 361,
    {
    }

    /// The empty board.
    pub fn init() -> (r: Board)
        ensures
            r.wf(),
            r.stones(Player::Black) == Set::<int>::empty(),
            r.stones(Player::White) == Set::<int>::empty(),
    {
        Board { black: BitMask::init(), white: BitMask::init() }
    }

    /// The board drawn as text, one line per column `x`: `X ` for black, `O ` for white and
    /// `_ ` for an empty point.
    pub fn to_text(&self) -> (r: String)
        ensures
            r@ == crate::display::grid_text(
                self.stones(Player::Black),
                self.stones(Player::White),
                ("X "@, "O "@, "_ "@),
                19,
            ),
    {
        crate::display::render_grid(&self.black, &self.white, ("X ", "O ", "_ "))
    }

    fn masks(&self, p: Player) -> (r: (BitMask, BitMask))
        ensures
            r.0@ == self.stones(p),
            r.1@ == self.stones(p.opponent_spec()),
    {
        match p {
            Player::Black => (self.black, self.white),
            Player::White => (self.white, self.black),
        }
    }

    /// The colour of the stone on a point, if any.
    pub fn get_piece_at(&self, coord: Coordinate) -> (r: Option<Player>)
        requires
            coord.wf(),
        ensures
            r == (if self.stones(Player::Black).contains(coord.index as int) {
                Some(Player::Black)
            } else if self.stones(Player::White).contains(coord.index as int) {
                Some(Player::White)
            } else {
                None
            }),
    {
        if self.black.is_set(coord) {
            Some(Player::Black)
        } else if self.white.is_set(coord) {
            Some(Player::White)
        } else {
            None
        }
    }

    /// Whether a point holds no stone.
    pub fn is_free(&self, coord: Coordinate) -> (r: bool)
        requires
            coord.wf(),
        ensures
            r == (!self.stones(Player::Black).contains(coord.index as int) && !self.stones(
                Player::White,
            ).contains(coord.index as int)),
    {
        !self.black.is_set(coord) && !self.white.is_set(coord)
    }

    /// This board with a stone of `player` added on an empty point.
    pub fn with_move(&self, coord: Coordinate, player: Player) -> (r: Board)
        requires
            self.wf(),
            coord.wf(),
            !self.stones(Player::Black).contains(coord.index as int),
            !self.stones(Player::White).contains(coord.index as int),
        ensures
            r.wf(),
            r.stones(player) == self.stones(player).insert(coord.index as int),
            r.stones(player.opponent_spec()) == self.stones(player.opponent_spec()),
    {
        match player {
            Player::Black => Board { black: self.black.with_bit(coord.index as usize), white: self.white },
            Player::White => Board { black: self.black, white: self.white.with_bit(coord.index as usize) },
        }
    }

    /// Whether `player` may put a stone on the empty point `coord`: the stone's group still
    /// touches an empty point, or it leaves a neighbouring opponent group without one.
    pub fn can_place_at(&self, coord: Coordinate, player: Player) -> (r: bool)
        requires
            self.wf(),
            coord.wf(),
        ensures
            r == packed_can_place(
                self.stones(player),
                self.stones(player.opponent_spec()),
                coord.index as int,
            ),
    {
        let (own, opp) = self.masks(player);
        let i = coord.index as usize;
        let own_after = own.with_bit(i);
        let occupied = own_after.or(opp);
        let ghost occ = self.stones(player).union(self.stones(player.opponent_spec())).insert(i as int);
        assert(occupied@ =~= occ);
        let start = BitMask::from_coord(coord);
        let outside_own = own_after.complement();
        assert(all_positions().difference(own@.insert(i as int)) =~= outside_own@);
        let group = start.flood_fill(outside_own);
        assert(group@ == packed_group(own@, i as int));
        if !group.flood_fill_step(occupied).is_empty() {
            return true;
        }
        let around = start.flood_fill_step(BitMask::init());
        let mut n: usize = 0;
        while n < 361
            invariant
                n <= 361,
                i < 361,
                i == coord.index,
                occupied@ == occ,
                occ == self.stones(player).union(self.stones(player.opponent_spec())).insert(i as int),
                opp@ == self.stones(player.opponent_spec()),
                around@ == grown_once(set![i as int], Set::<int>::empty()),
                forall|k: int|
                    0 <= k < n && #[trigger] opp@.contains(k) && next_to(i as int, k)
                        ==> grown_once(packed_group(opp@, k), occ) != Set::<int>::empty(),
            decreases 361 - n,
        {
            if n != i && around.bit_at(n) && opp.bit_at(n) {
                let outside_opp = opp.complement();
                assert(all_positions().difference(opp@.insert(n as int)) =~= outside_opp@);
                let enemy = BitMask::from_coord(Coordinate::from_index(n as u16)).flood_fill(
                    outside_opp,
                );
                assert(enemy@ == packed_group(opp@, n as int));
                if enemy.flood_fill_step(occupied).is_empty() {
                    assert(opp@.contains(n as int) && next_to(i as int, n as int));
                    assert(grown_once(packed_group(opp@, n as int), occ) == Set::<int>::empty());
                    assert(self.stones(player.opponent_spec()).contains(n as int));
                    assert(occ == self.stones(player).union(self.stones(player.opponent_spec())).insert(coord.index as int));
                    return true;
                }
            }
            n += 1;
        }
        false
    }

    /// Takes off the board every group of the opponent of `current_player` left without a
    /// liberty, then every group of `current_player` left without one. Returns the stones
    /// taken by black and by white.
    pub fn clean_taken_pieces(&mut self, current_player: Player) -> (r: (u32, u32))
        requires
            old(self).wf(),
        ensures
            final(self).wf(),
            ({
                let own = old(self).stones(current_player);
                let opp = old(self).stones(current_player.opponent_spec());
                let dead_opp = dead_stones(opp, own.union(opp));
                let dead_own = dead_stones(own, own.union(opp.difference(dead_opp)));
                &&& final(self).stones(current_player.opponent_spec()) == opp.difference(dead_opp)
                &&& final(self).stones(current_player) == own.difference(dead_own)
                &&& dead_opp.finite()
                &&& dead_own.finite()
                &&& dead_opp.len() <= 384
                &&& dead_own.len() <= 384
                &&& r == (match current_player {
                    Player::Black => (dead_opp.len() as u32, dead_own.len() as u32),
                    Player::White => (dead_own.len() as u32, dead_opp.len() as u32),
                })
            }),
    {
        let (own, opp) = self.masks(current_player);
        let dead_opp = find_dead(opp, own.or(opp));
        let opp_left = opp.and(dead_opp.complement());
        let dead_own = find_dead(own, own.or(opp_left));
        let own_left = own.and(dead_own.complement());
        let taken_from_opp = dead_opp.count_ones();
        let taken_from_own = dead_own.count_ones();
        proof {
            crate::bitmask::lemma_view_finite(dead_opp);
            crate::bitmask::lemma_view_finite(dead_own);
            assert(opp_left@ =~= opp@.difference(dead_opp@));
            assert(own_left@ =~= own@.difference(dead_own@));
        }
        match current_player {
            Player::Black => {
                self.black = own_left;
                self.white = opp_left;
                (taken_from_opp, taken_from_own)
            },
            Player::White => {
                self.white = own_left;
                self.black = opp_left;
                (taken_from_own, taken_from_opp)
            },
        }
    }
}

} // verus!
