use vstd::prelude::*;

use crate::bitmask::{
    all_positions, flooded, grown_once, is_closed_region, lemma_grown_monotone, lemma_row_join,
    open_points, packed_cells, shifted_up, touches, BitMask,
};
use crate::bits::word_bit;
use crate::board::{BoardModel, FlexibleBoard};
use crate::coordinate::{
    adjacent, component, in_bounds, is_closed_group, lemma_component_closed,
    lemma_component_within, FlexibleCoordinate,
};
use crate::coordinate_set::grown;
use crate::fixed_board::{next_to, packed_can_place, packed_group, Board};
use crate::game::{on_board, play, GameModel, MoveError};
use crate::player::{Move, PlaceStoneMove, Player};

verus! {

/// No point of a consistent board holds a black and a white stone at once.
pub proof fn law_colours_disjoint<B: FlexibleBoard>(b: &B)
    requires
        b.wf(),
    ensures
        b.model().black.disjoint(b.model().white),
{
    b.lemma_board_facts();
}

/// No point of a consistent 19x19 board holds a black and a white stone at once.
pub proof fn law_fixed_colours_disjoint(b: Board)
    requires
        b.wf(),
    ensures
        b.stones(Player::Black).disjoint(b.stones(Player::White)),
{
    b.lemma_wf();
}

/// Every accepted move keeps a consistent game consistent: stones stay on the board and the
/// two colours stay apart.
pub proof fn law_play_keeps_board_consistent(g: GameModel, m: Move)
    requires
        g.board.wf(),
        on_board(g, m),
    ensures
        play(g, m) matches Ok(next) ==> next.board.wf(),
{
    if let Move::PlaceStone(pm) = m {
        let b = g.board;
        if b.occupant(pm.coord) is None {
            assert(!b.black.contains(pm.coord) && !b.white.contains(pm.coord));
        }
    }
}

/// A stone on an occupied point is refused with the colour that holds it, and the game does
/// not change.
pub proof fn law_occupied_point_refused(g: GameModel, pm: PlaceStoneMove)
    requires
        g.board.occupant(pm.coord) is Some,
    ensures
        play(g, Move::PlaceStone(pm)) == Err::<GameModel, MoveError>(
            MoveError::CoordinateOccupied { occupied_by: g.board.occupant(pm.coord)->0 },
        ),
{
}

/// A stone that would have no liberty and captures nothing is refused as suicide.
pub proof fn law_suicide_refused(g: GameModel, pm: PlaceStoneMove)
    requires
        g.board.occupant(pm.coord) is None,
        g.board.captured_stones(pm) == Set::<FlexibleCoordinate>::empty(),
        g.board.is_suicide(pm),
    ensures
        play(g, Move::PlaceStone(pm)) == Err::<GameModel, MoveError>(MoveError::Suicide),
{
}

/// A stone that leaves a neighbouring opponent group without liberties is accepted, even when
/// it would have no liberty itself; the whole group leaves the board and is counted for the
/// mover.
pub proof fn law_capture_takes_whole_group(g: GameModel, pm: PlaceStoneMove, n: FlexibleCoordinate)
    requires
        g.board.wf(),
        g.board.occupant(pm.coord) is None,
        g.board.is_captured_by(pm, n),
    ensures
        play(g, Move::PlaceStone(pm)) matches Ok(next) && {
            let opp = pm.player.opponent_spec();
            let group = g.board.group_at(opp, n);
            &&& group.subset_of(g.board.captured_stones(pm))
            &&& next.board.stones(opp).disjoint(group)
            &&& next.board.stones(pm.player) == g.board.stones(pm.player).insert(pm.coord)
        },
{
    let opp = pm.player.opponent_spec();
    assert(g.board.captured_stones(pm).contains(n)) by {
        crate::coordinate::lemma_component_within(g.board.stones(opp), n);
    }
    assert forall|c: FlexibleCoordinate| g.board.group_at(opp, n).contains(c) implies g.board.captured_stones(pm).contains(c) by {
        assert(g.board.is_captured_by(pm, n));
    }
}

/// The diamond of points at most two steps from `c`.
pub open spec fn diamond(c: FlexibleCoordinate) -> Set<FlexibleCoordinate> {
    Set::new(
        |d: FlexibleCoordinate|
            (if d.x >= c.x { d.x - c.x } else { c.x - d.x }) + (if d.y >= c.y { d.y - c.y } else { c.y - d.y }) <= 2,
    )
}

/// Growing a single point twice, away from the edges, gives the 13 points at most two steps
/// from it.
pub proof fn law_grow_twice_is_diamond(c: FlexibleCoordinate, w: int, h: int)
    requires
        2 <= c.x,
        c.x + 2 < w,
        2 <= c.y,
        c.y + 2 < h,
        w <= u16::MAX,
        h <= u16::MAX,
    ensures
        grown(grown(set![c], w, h), w, h) == diamond(c),
        diamond(c).finite(),
        diamond(c).len() == 13,
{
    let p = |dx: int, dy: int| FlexibleCoordinate { x: (c.x + dx) as u16, y: (c.y + dy) as u16 };
    let listed = set![
        p(0, 0), p(1, 0), p(-1, 0), p(0, 1), p(0, -1),
        p(2, 0), p(-2, 0), p(0, 2), p(0, -2),
        p(1, 1), p(1, -1), p(-1, 1), p(-1, -1),
    ];
    assert(grown(grown(set![c], w, h), w, h) =~= diamond(c));
    assert(diamond(c) =~= listed);
    assert(listed.len() == 13);
}

/// Growing a corner point keeps to the board: the point and its two neighbours on it.
pub proof fn law_grow_corner_clamps(w: int, h: int)
    requires
        2 <= w <= u16::MAX,
        2 <= h <= u16::MAX,
    ensures
        grown(set![FlexibleCoordinate { x: 0, y: 0 }], w, h) == set![
            FlexibleCoordinate { x: 0, y: 0 },
            FlexibleCoordinate { x: 1, y: 0 },
            FlexibleCoordinate { x: 0, y: 1 },
        ],
{
    assert(grown(set![FlexibleCoordinate { x: 0, y: 0 }], w, h) =~= set![
        FlexibleCoordinate { x: 0, y: 0 },
        FlexibleCoordinate { x: 1, y: 0 },
        FlexibleCoordinate { x: 0, y: 1 },
    ]);
}

/// Shifting left by 64 moves each word, unchanged, into the next one.
pub proof fn law_shift_by_a_word(m: BitMask, r: BitMask, w: int, k: u64)
    requires
        r@ == shifted_up(m@, 64),
        0 <= w < 5,
        k < 64,
    ensures
        word_bit(r.0@[w + 1], k) == word_bit(m.0@[w], k),
{
    let i = 64 * (w + 1) + k;
    assert(r@.contains(i) == m@.contains(i - 64));
    crate::bitmask::lemma_index_join(w + 1, k as int);
    crate::bitmask::lemma_index_join(w, k as int);
}

/// Shifting left by one carries the top bit of each word into the bottom bit of the next.
pub proof fn law_shift_carries_across_words(m: BitMask, r: BitMask, w: int)
    requires
        r@ == shifted_up(m@, 1),
        0 <= w < 5,
    ensures
        word_bit(r.0@[w + 1], 0) == word_bit(m.0@[w], 63),
{
    let i = 64 * (w + 1);
    assert(r@.contains(i) == m@.contains(i - 1));
    crate::bitmask::lemma_index_join(w + 1, 0);
    crate::bitmask::lemma_index_join(w, 63);
}

/// The points `(x, y)` of the 19x19 board whose index `x * 19 + y` lies in `s`.
pub open spec fn index_cells(s: Set<int>) -> Set<FlexibleCoordinate> {
    Set::new(|c: FlexibleCoordinate| in_bounds(c, 19, 19) && s.contains(c.x * 19 + c.y))
}

/// The point of the 19x19 board with index `j`.
pub open spec fn point_of(j: int) -> FlexibleCoordinate {
    FlexibleCoordinate { x: (j / 19) as u16, y: (j % 19) as u16 }
}

pub proof fn lemma_point_of_index(c: FlexibleCoordinate)
    requires
        in_bounds(c, 19, 19),
    ensures
        point_of(c.x * 19 + c.y) == c,
        0 <= c.x * 19 + c.y < 361,
        (c.x * 19 + c.y) % 19 == c.y,
{
    lemma_row_join(c.x as int, c.y as int);
}

pub proof fn lemma_index_of_point(j: int)
    requires
        0 <= j < 361,
    ensures
        in_bounds(point_of(j), 19, 19),
        point_of(j).x * 19 + point_of(j).y == j,
        point_of(j).x == j / 19,
        point_of(j).y == j % 19,
{
}

/// For a set bit `seed` of a mask, the packed flood fill from `seed` bounded by the clear bits
/// and the queue-based flood fill of the mask from `seed` reach the same points.
pub proof fn law_flood_fills_agree(m: BitMask, seed: FlexibleCoordinate)
    requires
        in_bounds(seed, 19, 19),
        packed_cells(m.0).contains(seed),
    ensures
        index_cells(flooded(set![seed.x * 19 + seed.y], all_positions().difference(m@)))
            == component(packed_cells(m.0), seed),
{
    assert(packed_cells(m.0) =~= index_cells(m@));
    lemma_flooded_is_component(m@, seed);
}

/// Flooding the points of `stones` from one of them reaches the points of its component.
pub proof fn lemma_flooded_is_component(stones: Set<int>, seed: FlexibleCoordinate)
    requires
        in_bounds(seed, 19, 19),
        stones.contains(seed.x * 19 + seed.y),
    ensures
        index_cells(flooded(set![seed.x * 19 + seed.y], all_positions().difference(stones)))
            == component(index_cells(stones), seed),
{
    let s = seed.x * 19 + seed.y;
    let borders = all_positions().difference(stones);
    let r = flooded(set![s], borders);
    let cells = index_cells(stones);
    let comp = component(cells, seed);
    lemma_point_of_index(seed);
    // The flooded region holds the seed and is closed.
    assert(r.contains(s)) by {
        assert(open_points(borders).contains(s));
    }
    assert(is_closed_region(r, borders)) by {
        assert forall|j: int| grown_once(r, borders).contains(j) implies r.contains(j) by {
            assert forall|t: Set<int>|
                #[trigger] is_closed_region(t, borders) && set![s].subset_of(t) implies t.contains(j) by {
                assert(r.subset_of(t));
                lemma_grown_monotone(r, t, borders);
            }
        }
    }
    // Every point connected to the seed is flooded.
    let x = index_cells(r);
    assert(is_closed_group(x, cells)) by {
        assert forall|a: FlexibleCoordinate, b: FlexibleCoordinate|
            #![trigger x.contains(a), cells.contains(b), adjacent(a, b)]
            x.contains(a) && cells.contains(b) && adjacent(a, b) implies x.contains(b) by {
            lemma_point_of_index(a);
            lemma_point_of_index(b);
            let ib = b.x * 19 + b.y;
            assert(stones.contains(ib));
            assert(touches(r, ib));
            assert(grown_once(r, borders).contains(ib));
        }
    }
    assert(x.contains(seed));
    assert forall|c: FlexibleCoordinate| comp.contains(c) implies x.contains(c) by {
        assert(is_closed_group(x, cells) && x.contains(seed));
    }
    // Every flooded point is connected to the seed.
    let t = Set::new(|j: int| 0 <= j < 361 && comp.contains(point_of(j)));
    lemma_component_within(cells, seed);
    lemma_component_closed(cells, seed);
    assert(t.contains(s));
    assert(is_closed_region(t, borders)) by {
        assert forall|j: int| grown_once(t, borders).contains(j) implies t.contains(j) by {
            lemma_index_of_point(j);
            let d = point_of(j);
            assert(cells.contains(d));
            if t.contains(j - 19) {
                lemma_index_of_point(j - 19);
                assert(adjacent(point_of(j - 19), d));
            } else if t.contains(j + 19) {
                lemma_index_of_point(j + 19);
                assert(adjacent(point_of(j + 19), d));
            } else if j % 19 != 0 && t.contains(j - 1) {
                lemma_index_of_point(j - 1);
                assert(adjacent(point_of(j - 1), d));
            } else if j % 19 != 18 && t.contains(j + 1) {
                lemma_index_of_point(j + 1);
                assert(adjacent(point_of(j + 1), d));
            }
        }
    }
    assert forall|c: FlexibleCoordinate| x.contains(c) implies comp.contains(c) by {
        lemma_point_of_index(c);
        assert(r.subset_of(t));
        assert(t.contains(c.x * 19 + c.y));
    }
    assert(x =~= comp);
}

/// Two stones in one flooded group flood to the same group.
pub proof fn lemma_packed_group_shared(stones: Set<int>, j: int, k: int)
    requires
        0 <= j < 361,
        0 <= k < 361,
        stones.contains(j),
        stones.contains(k),
        crate::fixed_board::packed_group(stones, j).contains(k),
    ensures
        crate::fixed_board::packed_group(stones, j) == crate::fixed_board::packed_group(stones, k),
{
    let borders = all_positions().difference(stones);
    assert(stones.insert(j) =~= stones);
    assert(stones.insert(k) =~= stones);
    let gj = flooded(set![j], borders);
    let gk = flooded(set![k], borders);
    lemma_index_of_point(j);
    lemma_index_of_point(k);
    let pj = point_of(j);
    let pk = point_of(k);
    lemma_flooded_is_component(stones, pj);
    lemma_flooded_is_component(stones, pk);
    let cells = index_cells(stones);
    assert(index_cells(gj).contains(pk));
    crate::coordinate::lemma_component_shared(cells, pj, pk);
    assert forall|i: int| gj.contains(i) == gk.contains(i) by {
        if gj.contains(i) || gk.contains(i) {
            lemma_index_of_point(i);
            assert(index_cells(gj).contains(point_of(i)) == index_cells(gk).contains(point_of(i)));
        }
    }
    assert(gj =~= gk);
}

/// Adding the seed to the cells does not change its component.
pub proof fn lemma_component_with_seed(cells: Set<FlexibleCoordinate>, seed: FlexibleCoordinate)
    ensures
        component(cells.insert(seed), seed) == component(cells, seed),
{
    assert forall|t: Set<FlexibleCoordinate>| t.contains(seed) implies #[trigger] is_closed_group(t, cells.insert(seed)) == is_closed_group(t, cells) by {
        if is_closed_group(t, cells) {
            assert forall|a: FlexibleCoordinate, b: FlexibleCoordinate|
                #![trigger t.contains(a), cells.insert(seed).contains(b), adjacent(a, b)]
                t.contains(a) && cells.insert(seed).contains(b) && adjacent(a, b) implies t.contains(b) by {
                if b != seed {
                    assert(cells.contains(b));
                }
            }
        }
        if is_closed_group(t, cells.insert(seed)) {
            assert forall|a: FlexibleCoordinate, b: FlexibleCoordinate|
                #![trigger t.contains(a), cells.contains(b), adjacent(a, b)]
                t.contains(a) && cells.contains(b) && adjacent(a, b) implies t.contains(b) by {
                assert(cells.insert(seed).contains(b));
            }
        }
    }
    assert forall|c: FlexibleCoordinate| component(cells.insert(seed), seed).contains(c) == component(cells, seed).contains(c) by {
        if component(cells.insert(seed), seed).contains(c) {
            assert forall|t: Set<FlexibleCoordinate>| #[trigger] is_closed_group(t, cells) && t.contains(seed) implies t.contains(c) by {
                assert(is_closed_group(t, cells.insert(seed)));
            }
        }
        if component(cells, seed).contains(c) {
            assert forall|t: Set<FlexibleCoordinate>| #[trigger] is_closed_group(t, cells.insert(seed)) && t.contains(seed) implies t.contains(c) by {
                assert(is_closed_group(t, cells));
            }
        }
    }
    assert(component(cells.insert(seed), seed) =~= component(cells, seed));
}

/// A point of the board touches a set of board points exactly when growing the points of
/// that set reaches it.
pub proof fn lemma_touches_is_grown(g: Set<int>, d: FlexibleCoordinate)
    requires
        in_bounds(d, 19, 19),
        forall|j: int| #[trigger] g.contains(j) ==> 0 <= j < 361,
    ensures
        touches(g, d.x * 19 + d.y) == grown(index_cells(g), 19, 19).contains(d),
{
    let j = d.x * 19 + d.y;
    let s = index_cells(g);
    lemma_point_of_index(d);
    let left = FlexibleCoordinate { x: (d.x - 1) as u16, y: d.y };
    let right = FlexibleCoordinate { x: (d.x + 1) as u16, y: d.y };
    let below = FlexibleCoordinate { x: d.x, y: (d.y - 1) as u16 };
    let above = FlexibleCoordinate { x: d.x, y: (d.y + 1) as u16 };
    if g.contains(j - 19) {
        lemma_index_of_point(j - 19);
        assert(s.contains(left));
    }
    if g.contains(j + 19) {
        lemma_index_of_point(j + 19);
        assert(s.contains(right));
    }
    if j % 19 != 0 && g.contains(j - 1) {
        lemma_index_of_point(j - 1);
        assert(s.contains(below));
    }
    if j % 19 != 18 && g.contains(j + 1) {
        lemma_index_of_point(j + 1);
        assert(s.contains(above));
    }
    if d.x > 0 && s.contains(left) {
        assert(g.contains(j - 19));
    }
    if d.x < u16::MAX && s.contains(right) {
        assert(g.contains(j + 19));
    }
    if d.y > 0 && s.contains(below) {
        assert(g.contains(j - 1));
    }
    if d.y < u16::MAX && s.contains(above) {
        assert(g.contains(j + 1));
    }
}

/// The 19x19 board holding the points of `black` and of `white`, as a board model.
pub open spec fn fixed_model(black: Set<int>, white: Set<int>) -> BoardModel {
    BoardModel { width: 19, height: 19, black: index_cells(black), white: index_cells(white) }
}

/// Board points only.
pub open spec fn on_fixed_board(s: Set<int>) -> bool {
    forall|j: int| #[trigger] s.contains(j) ==> 0 <= j < 361
}

/// Growing a group of points of `occupied` by one step onto empty points reaches nothing
/// exactly when the group has no liberty but `c` on the board model.
proof fn lemma_liberties_match(g: Set<int>, black: Set<int>, white: Set<int>, c: FlexibleCoordinate)
    requires
        in_bounds(c, 19, 19),
        on_fixed_board(g),
        on_fixed_board(black),
        on_fixed_board(white),
        g.subset_of(black.union(white).insert(c.x * 19 + c.y)),
    ensures
        (grown_once(g, black.union(white).insert(c.x * 19 + c.y)) == Set::<int>::empty())
            == fixed_model(black, white).liberties(index_cells(g)).subset_of(set![c]),
{
    let i = c.x * 19 + c.y;
    let occ = black.union(white).insert(i);
    let b = fixed_model(black, white);
    let s = index_cells(g);
    let l = grown_once(g, occ);
    lemma_point_of_index(c);
    assert forall|d: FlexibleCoordinate| #[trigger] b.liberties(s).contains(d) && d != c implies l.contains(d.x * 19 + d.y) by {
        assert(grown(s, 19, 19).contains(d));
        assert(in_bounds(d, 19, 19));
        lemma_point_of_index(d);
        lemma_touches_is_grown(g, d);
        if d.x * 19 + d.y == i {
            lemma_point_of_index(c);
            assert(point_of(i) == d);
        }
    }
    assert forall|j: int| #[trigger] l.contains(j) implies b.liberties(s).contains(point_of(j)) && point_of(j) != c by {
        lemma_index_of_point(j);
        let d = point_of(j);
        lemma_touches_is_grown(g, d);
        assert(!g.contains(j));
    }
    if l == Set::<int>::empty() {
        assert forall|d: FlexibleCoordinate| b.liberties(s).contains(d) implies set![c].contains(d) by {
            if d != c {
                assert(l.contains(d.x * 19 + d.y));
            }
        }
    } else {
        assert(exists|j: int| l.contains(j)) by {
            if !(exists|j: int| l.contains(j)) {
                assert(l =~= Set::<int>::empty());
            }
        }
        let j = choose|j: int| l.contains(j);
        assert(b.liberties(s).contains(point_of(j)));
    }
}

/// The fast engine's test for a legal stone agrees with the rules of the board model: a stone
/// on an empty point is allowed exactly when it captures something or is no suicide.
pub proof fn law_fixed_rule_matches(black: Set<int>, white: Set<int>, pm: PlaceStoneMove)
    requires
        on_fixed_board(black),
        on_fixed_board(white),
        black.disjoint(white),
        in_bounds(pm.coord, 19, 19),
        !black.contains(pm.coord.x * 19 + pm.coord.y),
        !white.contains(pm.coord.x * 19 + pm.coord.y),
    ensures
        ({
            let own = match pm.player {
                Player::Black => black,
                Player::White => white,
            };
            let opp = match pm.player {
                Player::Black => white,
                Player::White => black,
            };
            let b = fixed_model(black, white);
            packed_can_place(own, opp, pm.coord.x * 19 + pm.coord.y) == !(b.captured_stones(pm)
                == Set::<FlexibleCoordinate>::empty() && b.is_suicide(pm))
        }),
{
    let c = pm.coord;
    let i = c.x * 19 + c.y;
    let own = match pm.player {
        Player::Black => black,
        Player::White => white,
    };
    let opp = match pm.player {
        Player::Black => white,
        Player::White => black,
    };
    let b = fixed_model(black, white);
    let occ = black.union(white).insert(i);
    assert(own.union(opp).insert(i) =~= occ);
    lemma_point_of_index(c);
    assert(b.stones(pm.player) == index_cells(own));
    assert(b.stones(pm.player.opponent_spec()) == index_cells(opp));
    // The stone's own group.
    let g = packed_group(own, i);
    assert(index_cells(own.insert(i)) =~= index_cells(own).insert(c));
    lemma_flooded_is_component(own.insert(i), c);
    lemma_component_with_seed(index_cells(own), c);
    assert(index_cells(g) == b.group_at(pm.player, c));
    assert(on_fixed_board(g));
    assert(g.subset_of(occ)) by {
        assert forall|j: int| g.contains(j) implies occ.contains(j) by {}
    }
    lemma_liberties_match(g, black, white, c);
    lemma_component_within(b.stones(pm.player), c);
    assert(b.is_suicide(pm) == b.liberties(b.group_at(pm.player, c)).subset_of(set![c])) by {
        assert(!b.liberties(b.group_at(pm.player, c)).contains(c));
        if b.liberties(b.group_at(pm.player, c)).subset_of(set![c]) {
            assert(b.liberties(b.group_at(pm.player, c)) =~= Set::<FlexibleCoordinate>::empty());
        }
    }
    // Captures, from the packed side.
    assert forall|n: int|
        #![trigger opp.contains(n), next_to(i, n)]
        opp.contains(n) && next_to(i, n) implies (grown_once(packed_group(opp, n), occ)
            == Set::<int>::empty()) == b.is_captured_by(pm, point_of(n)) by {
        lemma_index_of_point(n);
        let np = point_of(n);
        assert(set![i].contains(i));
        assert(index_cells(set![i]) =~= set![c]) by {
            assert forall|e: FlexibleCoordinate| index_cells(set![i]).contains(e) implies e == c by {
                lemma_point_of_index(e);
            }
        }
        lemma_touches_is_grown(set![i], np);
        crate::board::lemma_neighbours(c, 19, 19, np);
        assert(opp.insert(n) =~= opp);
        lemma_flooded_is_component(opp, np);
        let gn = packed_group(opp, n);
        assert(index_cells(gn) == b.group_at(pm.player.opponent_spec(), np));
        assert(gn.subset_of(occ)) by {
            assert forall|j: int| gn.contains(j) implies occ.contains(j) by {}
        }
        lemma_liberties_match(gn, black, white, c);
    }
    // Captures, from the model side.
    if b.captured_stones(pm) != Set::<FlexibleCoordinate>::empty() {
        assert(exists|x: FlexibleCoordinate| b.captured_stones(pm).contains(x)) by {
            if !(exists|x: FlexibleCoordinate| b.captured_stones(pm).contains(x)) {
                assert(b.captured_stones(pm) =~= Set::<FlexibleCoordinate>::empty());
            }
        }
        let x = choose|x: FlexibleCoordinate| b.captured_stones(pm).contains(x);
        let np = choose|np: FlexibleCoordinate| #[trigger] b.is_captured_by(pm, np) && b.group_at(
            pm.player.opponent_spec(),
            np,
        ).contains(x);
        lemma_point_of_index(np);
        let n = np.x * 19 + np.y;
        crate::board::lemma_neighbours(c, 19, 19, np);
        assert(index_cells(set![i]) =~= set![c]) by {
            assert forall|e: FlexibleCoordinate| index_cells(set![i]).contains(e) implies e == c by {
                lemma_point_of_index(e);
            }
        }
        lemma_touches_is_grown(set![i], np);
        assert(opp.contains(n) && next_to(i, n));
    } else {
        assert forall|n: int|
            #![trigger opp.contains(n), next_to(i, n)]
            opp.contains(n) && next_to(i, n) implies grown_once(packed_group(opp, n), occ)
                != Set::<int>::empty() by {
            lemma_index_of_point(n);
            let np = point_of(n);
            if b.is_captured_by(pm, np) {
                lemma_component_within(b.stones(pm.player.opponent_spec()), np);
                assert(b.captured_stones(pm).contains(np));
            }
        }
    }
}

} // verus!
