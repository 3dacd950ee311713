use vstd::prelude::*;

use crate::board::{capped, BoardModel, FlexibleBoard, Group};
use crate::coordinate::{in_bounds, lemma_component_shared, lemma_component_within, FlexibleCoordinate};
use crate::coordinate_set::CoordinateSet;
use crate::flexible_bitmask::{lemma_rectangle_finite, rectangle};
use crate::player::{Move, PlaceStoneMove, Player};

verus! {

/// Why a move was refused.
#[derive(Debug, Clone, Copy, PartialEq, Eq, Structural)]
pub enum MoveError {
    /// The point already holds a stone of `occupied_by`.
    CoordinateOccupied { occupied_by: Player },
    /// The stone would have no liberty and would capture nothing.
    Suicide,
}

/// A game as mathematics: the board, the captures of each colour and the colour to play.
pub struct GameModel {
    pub board: BoardModel,
    pub black_captures: u16,
    pub white_captures: u16,
    pub current: Player,
}

/// The game after move `m`, or the error that refuses it.
pub open spec fn play(g: GameModel, m: Move) -> Result<GameModel, MoveError> {
    match m {
        Move::Skip { .. } => Ok(GameModel { current: g.current.opponent_spec(), ..g }),
        Move::PlaceStone(pm) => {
            let b = g.board;
            let taken = b.captured_stones(pm);
            if let Some(p) = b.occupant(pm.coord) {
                Err(MoveError::CoordinateOccupied { occupied_by: p })
            } else if taken == Set::<FlexibleCoordinate>::empty() && b.is_suicide(pm) {
                Err(MoveError::Suicide)
            } else {
                let black = match pm.player {
                    Player::Black => b.black.insert(pm.coord),
                    Player::White => b.black.difference(taken),
                };
                let white = match pm.player {
                    Player::White => b.white.insert(pm.coord),
                    Player::Black => b.white.difference(taken),
                };
                Ok(
                    GameModel {
                        board: BoardModel { black, white, ..b },
                        black_captures: match pm.player {
                            Player::Black => capped(g.black_captures + taken.len()),
                            Player::White => g.black_captures,
                        },
                        white_captures: match pm.player {
                            Player::White => capped(g.white_captures + taken.len()),
                            Player::Black => g.white_captures,
                        },
                        ..g
                    },
                )
            }
        },
    }
}

/// Whether the move may be handed to [`Game::make_move`]: a stone must go on the board.
pub open spec fn on_board(g: GameModel, m: Move) -> bool {
    m matches Move::PlaceStone(pm) ==> in_bounds(pm.coord, g.board.width as int, g.board.height as int)
}

/// The game after the moves in order, or `None` when one of them is off the board or refused.
pub open spec fn replay(g: GameModel, moves: Seq<Move>) -> Option<GameModel>
    decreases moves.len(),
{
    if moves.len() == 0 {
        Some(g)
    } else {
        match replay(g, moves.drop_last()) {
            Some(h) => if on_board(h, moves.last()) {
                match play(h, moves.last()) {
                    Ok(n) => Some(n),
                    Err(_) => None,
                }
            } else {
                None
            },
            None => None,
        }
    }
}

/// A game on a board of any size: the board, the stones each colour has captured and the
/// colour to play. Moves change it in place.
pub struct Game<TBoard: FlexibleBoard> {
    board: TBoard,
    captured_by_black: u16,
    captured_by_white: u16,
    current_player: Player,
}

impl<TBoard: FlexibleBoard> Game<TBoard> {
    /// The board.
    pub closed spec fn board_spec(&self) -> TBoard {
        self.board
    }

    /// The number of stones that `p` has captured.
    pub closed spec fn captures(&self, p: Player) -> u16 {
        match p {
            Player::Black => self.captured_by_black,
            Player::White => self.captured_by_white,
        }
    }

    /// The colour to play.
    pub closed spec fn current(&self) -> Player {
        self.current_player
    }

    /// The game as mathematics.
    pub open spec fn model(&self) -> GameModel {
        GameModel {
            board: self.board_spec().model(),
            black_captures: self.captures(Player::Black),
            white_captures: self.captures(Player::White),
            current: self.current(),
        }
    }

    /// A game starts on the given board with no captures and black to play.
    pub fn new(board: TBoard) -> (r: Self)
        ensures
            r.board_spec() == board,
            r.captures(Player::Black) == 0,
            r.captures(Player::White) == 0,
            r.current() == Player::Black,
    {
        Game { board, captured_by_black: 0, captured_by_white: 0, current_player: Player::Black }
    }

    /// The board.
    pub fn get_board(&self) -> (r: &TBoard)
        ensures
            *r == self.board_spec(),
    {
        &self.board
    }

    /// The number of stones black has captured.
    pub fn captured_by_black(&self) -> (r: u16)
        ensures
            r == self.captures(Player::Black),
    {
        self.captured_by_black
    }

    /// The number of stones white has captured.
    pub fn captured_by_white(&self) -> (r: u16)
        ensures
            r == self.captures(Player::White),
    {
        self.captured_by_white
    }

    /// The colour to play.
    pub fn current_player(&self) -> (r: Player)
        ensures
            r == self.current(),
    {
        self.current_player
    }

    /// Plays a move. A stone goes only on an empty point, and not where its group would have
    /// no liberty unless it captures; the opponent groups it leaves without liberties are
    /// taken off first and counted for the mover. A pass hands the turn over.
    pub fn make_move(&mut self, m: &Move) -> (r: Result<(), MoveError>)
        requires
            old(self).board_spec().wf(),
            m matches Move::PlaceStone(pm) ==> in_bounds(
                pm.coord,
                old(self).board_spec().model().width as int,
                old(self).board_spec().model().height as int,
            ),
        ensures
            final(self).board_spec().wf(),
            match play(old(self).model(), *m) {
                Ok(next) => r is Ok && final(self).model() == next,
                Err(e) => r == Err::<(), MoveError>(e) && *final(self) == *old(self),
            },
    {
        match m {
            Move::PlaceStone(place_stone_move) => {
                let coord = place_stone_move.coord;
                let player = place_stone_move.player;
                let ghost b = self.board.model();
                proof {
                    self.board.lemma_board_facts();
                }
                if let Some(occupied_by) = self.board.get_player_at(&coord) {
                    return Err(MoveError::CoordinateOccupied { occupied_by });
                }
                let groups_to_capture = self.board.find_groups_to_capture_from_move(
                    place_stone_move,
                );
                proof {
                    lemma_taken_is_union(b, *place_stone_move, groups_to_capture@);
                }
                if groups_to_capture.len() == 0 {
                    let is_suicide = self.board.is_potential_suicide(place_stone_move);
                    if is_suicide {
                        return Err(MoveError::Suicide);
                    }
                }
                let taken = collect_stones(&groups_to_capture);
                proof {
                    assert(taken@ =~= b.captured_stones(*place_stone_move));
                    assert(taken@.subset_of(b.stones(player.opponent_spec())));
                    assert(taken@.subset_of(rectangle(b.width as int, b.height as int)));
                }
                let captured = match self.board.capture(&taken) {
                    Ok(n) => n,
                    Err(_) => 0,
                };
                proof {
                    assert(taken@.subset_of(b.black.union(b.white)));
                }
                match player {
                    Player::Black => {
                        self.captured_by_black = self.captured_by_black.saturating_add(captured)
                    },
                    Player::White => {
                        self.captured_by_white = self.captured_by_white.saturating_add(captured)
                    },
                }
                proof {
                    assert(!taken@.contains(coord));
                }
                let _ = self.board.set_player_at(&coord, &player);
                proof {
                    let a = self.board.model();
                    assert(a.stones(player) =~= b.stones(player).insert(coord));
                    assert(a.stones(player.opponent_spec()) =~= b.stones(player.opponent_spec()).difference(taken@));
                    lemma_rectangle_finite(b.width as int, b.height as int);
                    vstd::set_lib::lemma_len_subset(taken@, rectangle(b.width as int, b.height as int));
                    match player {
                        Player::Black => {
                            assert(a.black == b.black.insert(coord));
                            assert(a.white == b.white.difference(taken@));
                        },
                        Player::White => {
                            assert(a.white == b.white.insert(coord));
                            assert(a.black == b.black.difference(taken@));
                        },
                    }
                }
                Ok(())
            },
            Move::Skip { .. } => {
                self.current_player = self.current_player.opponent();
                Ok(())
            },
        }
    }
}

/// The stones the move captures are those of the groups that `find_groups_to_capture_from_move`
/// lists, and there are none exactly when it lists none.
proof fn lemma_taken_is_union(b: BoardModel, m: PlaceStoneMove, groups: Seq<Group>)
    requires
        b.wf(),
        forall|k: int|
            #![trigger groups[k]]
            0 <= k < groups.len() ==> groups[k].player == m.player.opponent_spec() && exists|
                n: FlexibleCoordinate,
            |
                #[trigger] b.is_captured_by(m, n) && groups[k].coordinates@ == b.group_at(
                    m.player.opponent_spec(),
                    n,
                ),
        forall|n: FlexibleCoordinate| #[trigger]
            b.is_captured_by(m, n) ==> exists|k: int|
                0 <= k < groups.len() && (#[trigger] groups[k]).coordinates@.contains(n),
    ensures
        forall|c: FlexibleCoordinate| #[trigger]
            b.captured_stones(m).contains(c) == exists|k: int|
                0 <= k < groups.len() && (#[trigger] groups[k]).coordinates@.contains(c),
        (groups.len() == 0) == (b.captured_stones(m) == Set::<FlexibleCoordinate>::empty()),
        b.captured_stones(m).subset_of(b.stones(m.player.opponent_spec())),
        !b.captured_stones(m).contains(m.coord) || b.occupant(m.coord) is Some,
{
    let opp = m.player.opponent_spec();
    assert forall|c: FlexibleCoordinate| #[trigger]
        b.captured_stones(m).contains(c) == exists|k: int|
            0 <= k < groups.len() && (#[trigger] groups[k]).coordinates@.contains(c) by {
        if b.captured_stones(m).contains(c) {
            let n = choose|n: FlexibleCoordinate|
                #[trigger] b.is_captured_by(m, n) && b.group_at(opp, n).contains(c);
            let k = choose|k: int| 0 <= k < groups.len() && (#[trigger] groups[k]).coordinates@.contains(n);
            let n2 = choose|n2: FlexibleCoordinate|
                #[trigger] b.is_captured_by(m, n2) && groups[k].coordinates@ == b.group_at(opp, n2);
            lemma_component_shared(b.stones(opp), n2, n);
        }
        if exists|k: int| 0 <= k < groups.len() && (#[trigger] groups[k]).coordinates@.contains(c) {
            let k = choose|k: int| 0 <= k < groups.len() && (#[trigger] groups[k]).coordinates@.contains(c);
            let n2 = choose|n2: FlexibleCoordinate|
                #[trigger] b.is_captured_by(m, n2) && groups[k].coordinates@ == b.group_at(opp, n2);
        }
    }
    if groups.len() == 0 {
        assert forall|c: FlexibleCoordinate| !b.captured_stones(m).contains(c) by {}
        assert(b.captured_stones(m) =~= Set::<FlexibleCoordinate>::empty());
    } else {
        let n2 = choose|n2: FlexibleCoordinate|
            #[trigger] b.is_captured_by(m, n2) && groups[0].coordinates@ == b.group_at(opp, n2);
        lemma_component_within(b.stones(opp), n2);
        assert(b.captured_stones(m).contains(n2));
    }
    assert forall|c: FlexibleCoordinate| b.captured_stones(m).contains(c) implies b.stones(opp).contains(c) by {
        let n = choose|n: FlexibleCoordinate|
            #[trigger] b.is_captured_by(m, n) && b.group_at(opp, n).contains(c);
        lemma_component_within(b.stones(opp), n);
    }
}

/// All points of all the groups, as one set.
fn collect_stones(groups: &Vec<Group>) -> (r: CoordinateSet)
    ensures
        forall|c: FlexibleCoordinate| #[trigger]
            r@.contains(c) == exists|k: int|
                0 <= k < groups@.len() && (#[trigger] groups@[k]).coordinates@.contains(c),
{
    let mut taken = CoordinateSet::empty();
    let mut k: usize = 0;
    while k < groups.len()
        invariant
            k <= groups@.len(),
            forall|c: FlexibleCoordinate| #[trigger]
                taken@.contains(c) == exists|j: int|
                    0 <= j < k && (#[trigger] groups@[j]).coordinates@.contains(c),
        decreases groups@.len() - k,
    {
        let items = groups[k].coordinates.iter();
        let ghost before = taken@;
        let mut i: usize = 0;
        while i < items.len()
            invariant
                i <= items@.len(),
                items@.to_set() == groups@[k as int].coordinates@,
                taken@ == before.union(items@.subrange(0, i as int).to_set()),
            decreases items@.len() - i,
        {
            proof {
                assert(items@.subrange(0, i + 1) == items@.subrange(0, i as int).push(items@[i as int]));
                assert forall|d: FlexibleCoordinate|
                    #![trigger items@.subrange(0, i + 1).contains(d)]
                    items@.subrange(0, i + 1).contains(d) == (items@.subrange(0, i as int).contains(d)
                        || d == items@[i as int]) by {
                    crate::coordinate_set::lemma_push_contains(items@.subrange(0, i as int), items@[i as int], d);
                }
            }
            taken.insert(items[i]);
            assert(taken@ =~= before.union(items@.subrange(0, i + 1).to_set()));
            i += 1;
        }
        proof {
            assert(items@.subrange(0, items@.len() as int) == items@);
            assert forall|c: FlexibleCoordinate| #[trigger]
                taken@.contains(c) == exists|j: int|
                    0 <= j < k + 1 && (#[trigger] groups@[j]).coordinates@.contains(c) by {
                if taken@.contains(c) && !before.contains(c) {
                    assert(groups@[k as int].coordinates@.contains(c));
                }
                if exists|j: int| 0 <= j < k + 1 && (#[trigger] groups@[j]).coordinates@.contains(c) {
                    let j = choose|j: int| 0 <= j < k + 1 && (#[trigger] groups@[j]).coordinates@.contains(c);
                    if j == k {
                        assert(items@.to_set().contains(c));
                    }
                }
            }
        }
        k += 1;
    }
    taken
}

} // verus!
