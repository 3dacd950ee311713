use vstd::prelude::*;

use crate::board::{BoardModel, FlexibleBoard};
use crate::coordinate::FlexibleCoordinate;
use crate::game::{replay, Game, GameModel};
use crate::player::{Move, Player};

verus! {

/// A recorded game: the board size and the moves in the order they were played.
pub struct ParsedGame {
    pub width: u16,
    pub height: u16,
    pub moves: Vec<Move>,
}

/// A fresh game on an empty board of the given size, black to play.
pub open spec fn fresh_game(width: nat, height: nat) -> GameModel {
    GameModel {
        board: BoardModel {
            width,
            height,
            black: Set::<FlexibleCoordinate>::empty(),
            white: Set::<FlexibleCoordinate>::empty(),
        },
        black_captures: 0,
        white_captures: 0,
        current: Player::Black,
    }
}

impl ParsedGame {
    /// Plays the recorded moves on an empty board made by `board_factory` for the recorded
    /// size; `None` when a move is off the board or refused.
    pub fn run<TBoardFactory: Fn((u16, u16)) -> TBoard, TBoard: FlexibleBoard>(
        &self,
        board_factory: TBoardFactory,
    ) -> (r: Option<Game<TBoard>>)
        requires
            board_factory.requires(((self.width, self.height),)),
            forall|b: TBoard| #[trigger]
                board_factory.ensures(((self.width, self.height),), b) ==> b.wf() && b.model()
                    == fresh_game(self.width as nat, self.height as nat).board,
        ensures
            match replay(fresh_game(self.width as nat, self.height as nat), self.moves@) {
                Some(end) => r matches Some(g) && g.model() == end && g.board_spec().wf(),
                None => r is None,
            },
    {
        let board = board_factory((self.width, self.height));
        let mut game = Game::new(board);
        let ghost start = fresh_game(self.width as nat, self.height as nat);
        let mut i: usize = 0;
        proof {
            assert(self.moves@.subrange(0, 0).len() == 0);
        }
        while i < self.moves.len()
            invariant
                i <= self.moves@.len(),
                start == fresh_game(self.width as nat, self.height as nat),
                game.board_spec().wf(),
                replay(start, self.moves@.subrange(0, i as int)) == Some(game.model()),
            decreases self.moves@.len() - i,
        {
            let m = &self.moves[i];
            proof {
                let pre = self.moves@.subrange(0, i + 1);
                assert(pre.drop_last() == self.moves@.subrange(0, i as int));
                assert(pre.last() == *m);
            }
            let (w, h) = game.get_board().get_size();
            let fits = match m {
                Move::PlaceStone(pm) => pm.coord.x < w && pm.coord.y < h,
                Move::Skip { .. } => true,
            };
            if !fits {
                proof {
                    lemma_replay_stuck(start, self.moves@, i as int);
                }
                return None;
            }
            match game.make_move(m) {
                Ok(()) => {},
                Err(_) => {
                    proof {
                        lemma_replay_stuck(start, self.moves@, i as int);
                    }
                    return None;
                },
            }
            i += 1;
        }
        proof {
            assert(self.moves@.subrange(0, self.moves@.len() as int) == self.moves@);
        }
        Some(game)
    }
}

/// Once a replay stops, replaying more moves never resumes it.
proof fn lemma_replay_stuck(g: GameModel, moves: Seq<Move>, i: int)
    requires
        0 <= i < moves.len(),
        replay(g, moves.subrange(0, i + 1)) is None,
    ensures
        replay(g, moves) is None,
    decreases moves.len() - i,
{
    if i + 1 == moves.len() {
        assert(moves.subrange(0, i + 1) == moves);
    } else {
        assert(moves.subrange(0, i + 2).drop_last() == moves.subrange(0, i + 1));
        lemma_replay_stuck(g, moves, i + 1);
    }
}

} // verus!
