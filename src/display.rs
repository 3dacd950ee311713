use vstd::prelude::*;

use crate::bitmask::BitMask;
use crate::board::{BoardModel, FlexibleBoard};
use crate::coordinate::{Coordinate, FlexibleCoordinate};
use crate::player::Player;

verus! {

/// How one point is drawn: two blanks when empty, a black or a white disc otherwise.
pub open spec fn point_text(o: Option<Player>) -> Seq<char> {
    match o {
        None => "  "@,
        Some(Player::Black) => "⚫"@,
        Some(Player::White) => "⚪"@,
    }
}

/// The first `n` points of row `y`, drawn left to right.
pub open spec fn row_text(b: BoardModel, y: int, n: int) -> Seq<char>
    decreases n,
{
    if n <= 0 {
        Seq::empty()
    } else {
        row_text(b, y, n - 1) + point_text(
            b.occupant(FlexibleCoordinate { x: (n - 1) as u16, y: y as u16 }),
        )
    }
}

/// The first `rows` rows of the board, each ended by a newline.
pub open spec fn board_text(b: BoardModel, rows: int) -> Seq<char>
    decreases rows,
{
    if rows <= 0 {
        Seq::empty()
    } else {
        board_text(b, rows - 1) + row_text(b, rows - 1, b.width as int) + "\n"@
    }
}

/// A board seen as text.
pub struct DisplayFlexibleboard<'a, T: FlexibleBoard>(pub &'a T);

impl<'a, T: FlexibleBoard> DisplayFlexibleboard<'a, T> {
    /// Every point of the board, row by row.
    pub fn render(&self) -> (r: String)
        requires
            self.0.wf(),
        ensures
            r@ == board_text(self.0.model(), self.0.model().height as int),
    {
        let board = self.0;
        let ghost b = board.model();
        proof {
            reveal_strlit("  ");
            reveal_strlit("⚫");
            reveal_strlit("⚪");
            reveal_strlit("\n");
        }
        let size = board.get_size();
        let mut out = String::new();
        let mut y: u16 = 0;
        while y < size.1
            invariant
                board.wf(),
                b == board.model(),
                size.0 == b.width,
                size.1 == b.height,
                y <= size.1,
                out@ == board_text(b, y as int),
            decreases size.1 - y,
        {
            let ghost start = out@;
            let mut x: u16 = 0;
            while x < size.0
                invariant
                    board.wf(),
                    b == board.model(),
                    size.0 == b.width,
                    size.1 == b.height,
                    y < size.1,
                    x <= size.0,
                    out@ == start + row_text(b, y as int, x as int),
                decreases size.0 - x,
            {
                let text = match board.get_player_at(&FlexibleCoordinate { x, y }) {
                    None => "  ",
                    Some(Player::Black) => "⚫",
                    Some(Player::White) => "⚪",
                };
                out.append(text);
                assert(out@ =~= start + row_text(b, y as int, x + 1));
                x += 1;
            }
            out.append("\n");
            assert(out@ =~= board_text(b, y + 1));
            y += 1;
        }
        out
    }
}

/// How one point of a grid of marks is drawn.
pub open spec fn mark_text(black: Set<int>, white: Set<int>, marks: (Seq<char>, Seq<char>, Seq<char>), i: int) -> Seq<char> {
    if black.contains(i) {
        marks.0
    } else if white.contains(i) {
        marks.1
    } else {
        marks.2
    }
}

/// The first `n` points of column `c` of the 19x19 board.
pub open spec fn grid_row_text(black: Set<int>, white: Set<int>, marks: (Seq<char>, Seq<char>, Seq<char>), c: int, n: int) -> Seq<char>
    decreases n,
{
    if n <= 0 {
        Seq::empty()
    } else {
        grid_row_text(black, white, marks, c, n - 1) + mark_text(black, white, marks, c * 19 + n - 1)
    }
}

/// The first `rows` columns of the 19x19 board, one line each.
pub open spec fn grid_text(black: Set<int>, white: Set<int>, marks: (Seq<char>, Seq<char>, Seq<char>), rows: int) -> Seq<char>
    decreases rows,
{
    if rows <= 0 {
        Seq::empty()
    } else {
        grid_text(black, white, marks, rows - 1) + grid_row_text(black, white, marks, rows - 1, 19) + "\n"@
    }
}

/// Draws the 19x19 board one column `x` per line, with `marks.0` on the points of `black`,
/// `marks.1` on those of `white` and `marks.2` elsewhere.
pub fn render_grid(black: &BitMask, white: &BitMask, marks: (&str, &str, &str)) -> (r: String)
    ensures
        r@ == grid_text(black@, white@, (marks.0@, marks.1@, marks.2@), 19),
{
    proof {
        reveal_strlit("\n");
    }
    let ghost m = (marks.0@, marks.1@, marks.2@);
    let mut out = String::new();
    let mut i: u16 = 0;
    while i < 19
        invariant
            i <= 19,
            m == (marks.0@, marks.1@, marks.2@),
            out@ == grid_text(black@, white@, m, i as int),
        decreases 19 - i,
    {
        let ghost start = out@;
        let mut j: u16 = 0;
        while j < 19
            invariant
                i < 19,
                j <= 19,
                m == (marks.0@, marks.1@, marks.2@),
                out@ == start + grid_row_text(black@, white@, m, i as int, j as int),
            decreases 19 - j,
        {
            let index = Coordinate::init(i, j);
            let text = if black.is_set(index) {
                marks.0
            } else if white.is_set(index) {
                marks.1
            } else {
                marks.2
            };
            out.append(text);
            assert(out@ =~= start + grid_row_text(black@, white@, m, i as int, j + 1));
            j += 1;
        }
        out.append("\n");
        assert(out@ =~= grid_text(black@, white@, m, i + 1));
        i += 1;
    }
    out
}

} // verus!
