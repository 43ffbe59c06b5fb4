//! The first position: which moves it offers, for every width of the board.

use crate::geometry::{Color, Coord, Move};
use crate::rules::{candidate, candidates, corner_color, fresh_board, BoardView};
use vstd::prelude::*;

verus! {

/// The legal ones among the first `j` candidates of a cell.
pub open spec fn kept(b: BoardView, color: Color, from: Coord, j: int) -> Seq<Move>
    decreases j,
{
    if j <= 0 {
        Seq::empty()
    } else if b.legal_move(candidate(from, j - 1), color) {
        kept(b, color, from, j - 1).push(candidate(from, j - 1))
    } else {
        kept(b, color, from, j - 1)
    }
}

proof fn lemma_kept(b: BoardView, color: Color, from: Coord, j: int)
    requires
        0 <= j <= 8,
    ensures
        candidates(from).take(j).filter(b.legal(color)) == kept(b, color, from, j),
    decreases j,
{
    let all = candidates(from);
    if j == 0 {
        all.take(0).lemma_filter_len(b.legal(color));
        assert(all.take(0).filter(b.legal(color)) =~= Seq::<Move>::empty());
    } else {
        lemma_kept(b, color, from, j - 1);
        let mv = candidate(from, j - 1);
        assert(all[j - 1] == mv);
        assert(all.take(j - 1).push(mv) =~= all.take(j));
        all.take(j - 1).lemma_filter_push(mv, b.legal(color));
    }
}

/// The moves listed for a cell are the legal ones among its eight candidates, one by one.
pub proof fn lemma_cell_moves_kept(b: BoardView, color: Color, from: Coord)
    ensures
        b.cell_moves(color, from) == kept(b, color, from, 8),
{
    lemma_kept(b, color, from, 8);
    assert(candidates(from).take(8) =~= candidates(from));
}

pub open spec fn at(x: int, y: int) -> Coord {
    Coord { x: x as i8, y: y as i8 }
}

/// The two moves that the first position offers from the corner `(cx, cy)`: one step
/// towards the middle of the board, then on along `x` or along `y`.
pub open spec fn corner_moves(width: int, cx: int, cy: int) -> Seq<Move> {
    let dx = if cx == 0 {
        1int
    } else {
        -1int
    };
    let dy = if cy == 0 {
        1int
    } else {
        -1int
    };
    seq![
        Move(at(cx, cy), at(cx + dx, cy + dy), at(cx + 2 * dx, cy + dy)),
        Move(at(cx, cy), at(cx + dx, cy + dy), at(cx + dx, cy + 2 * dy)),
    ]
}

/// The moves that the first position offers to a color: two from each of its corners.
pub open spec fn opening_moves(width: int, color: Color) -> Seq<Move> {
    match color {
        Color::Red => corner_moves(width, 0, 0) + corner_moves(width, width - 1, width - 1),
        Color::Blue => corner_moves(width, 0, width - 1) + corner_moves(width, width - 1, 0),
    }
}

/// The moves that the first position lists for one cell.
pub open spec fn opening_cell(width: int, color: Color, x: int, y: int) -> Seq<Move> {
    if corner_color(width, x, y) == Some(color) {
        corner_moves(width, x, y)
    } else {
        Seq::empty()
    }
}

proof fn lemma_opening_cell(width: int, color: Color, x: int, y: int)
    requires
        4 <= width <= 19,
        0 <= x < width,
        0 <= y < width,
    ensures
        fresh_board(width).cell_moves(color, at(x, y)) == opening_cell(width, color, x, y),
{
    let b = fresh_board(width);
    let from = at(x, y);
    lemma_cell_moves_kept(b, color, from);
    reveal_with_fuel(kept, 9);
    let c0 = candidate(from, 0);
    let c1 = candidate(from, 1);
    let c2 = candidate(from, 2);
    let c3 = candidate(from, 3);
    let c4 = candidate(from, 4);
    let c5 = candidate(from, 5);
    let c6 = candidate(from, 6);
    let c7 = candidate(from, 7);
    assert(b.cell(from) == b.cells[x][y]);
    if corner_color(width, x, y) == Some(color) {
        lemma_corner_legal(width, color, x, y, 0);
        lemma_corner_legal(width, color, x, y, 1);
        lemma_corner_legal(width, color, x, y, 2);
        lemma_corner_legal(width, color, x, y, 3);
        lemma_corner_legal(width, color, x, y, 4);
        lemma_corner_legal(width, color, x, y, 5);
        lemma_corner_legal(width, color, x, y, 6);
        lemma_corner_legal(width, color, x, y, 7);
        assert(kept(b, color, from, 8) =~= corner_moves(width, x, y));
    } else {
        assert(!b.legal_move(c0, color) && !b.legal_move(c1, color) && !b.legal_move(c2, color)
            && !b.legal_move(c3, color));
        assert(!b.legal_move(c4, color) && !b.legal_move(c5, color) && !b.legal_move(c6, color)
            && !b.legal_move(c7, color));
        assert(kept(b, color, from, 8) =~= Seq::<Move>::empty());
    }
}

/// Which of the eight candidates of a corner of the first position are legal: those that
/// stay on the board.
proof fn lemma_corner_legal(width: int, color: Color, x: int, y: int, j: int)
    requires
        4 <= width <= 19,
        0 <= x < width,
        0 <= y < width,
        0 <= j < 8,
        corner_color(width, x, y) == Some(color),
    ensures
        fresh_board(width).legal_move(candidate(at(x, y), j), color) <==> (candidate(
            at(x, y),
            j,
        ).1.on_board(width) && candidate(at(x, y), j).2.on_board(width)),
{
    let b = fresh_board(width);
    let mv = candidate(at(x, y), j);
    assert(b.cell(mv.0) == b.cells[x][y]);
    if mv.1.on_board(width) && mv.2.on_board(width) {
        assert(b.cell(mv.1) == b.cells[mv.1.x as int][mv.1.y as int]);
        assert(b.cell(mv.2) == b.cells[mv.2.x as int][mv.2.y as int]);
        assert(mv.well_shaped());
    }
}

proof fn lemma_opening_row(width: int, color: Color, x: int, y: int)
    requires
        4 <= width <= 19,
        0 <= x < width,
        0 <= y <= width,
    ensures
        fresh_board(width).row_moves(color, x, y) == (if y <= 0 {
            Seq::<Move>::empty()
        } else if y < width {
            opening_cell(width, color, x, 0)
        } else {
            opening_cell(width, color, x, 0) + opening_cell(width, color, x, width - 1)
        }),
    decreases y,
{
    let b = fresh_board(width);
    if y > 0 {
        lemma_opening_row(width, color, x, y - 1);
        lemma_opening_cell(width, color, x, y - 1);
        assert(at(x, y - 1) == (Coord { x: x as i8, y: (y - 1) as i8 }));
        let before = b.row_moves(color, x, y - 1);
        let here = opening_cell(width, color, x, y - 1);
        assert(b.row_moves(color, x, y) == before + here);
        if y == 1 {
            assert(before + here =~= here);
        } else if y < width {
            assert(here =~= Seq::<Move>::empty());
            assert(before + here =~= before);
        }
    }
}

proof fn lemma_opening_rows(width: int, color: Color, x: int)
    requires
        4 <= width <= 19,
        0 <= x <= width,
    ensures
        fresh_board(width).moves_before(color, x) == (if x <= 0 {
            Seq::<Move>::empty()
        } else if x < width {
            opening_cell(width, color, 0, 0) + opening_cell(width, color, 0, width - 1)
        } else {
            opening_cell(width, color, 0, 0) + opening_cell(width, color, 0, width - 1)
                + opening_cell(width, color, width - 1, 0) + opening_cell(
                width,
                color,
                width - 1,
                width - 1,
            )
        }),
    decreases x,
{
    let b = fresh_board(width);
    if x > 0 {
        lemma_opening_rows(width, color, x - 1);
        lemma_opening_row(width, color, x - 1, width);
        let before = b.moves_before(color, x - 1);
        let row = b.row_moves(color, x - 1, width);
        assert(b.moves_before(color, x) == before + row);
        if x == 1 {
            assert(before + row =~= row);
        } else if x < width {
            assert(row =~= Seq::<Move>::empty());
            assert(before + row =~= before);
        } else {
            assert(before + row =~= opening_cell(width, color, 0, 0) + opening_cell(
                width,
                color,
                0,
                width - 1,
            ) + opening_cell(width, color, width - 1, 0) + opening_cell(
                width,
                color,
                width - 1,
                width - 1,
            ));
        }
    }
}

/// On every board, the first position offers each color exactly the two moves from each
/// of its two corners, first those of the corner in row 0.
pub proof fn lemma_opening_moves(width: int, color: Color)
    requires
        4 <= width <= 19,
    ensures
        fresh_board(width).possible_moves(color) == opening_moves(width, color),
        fresh_board(width).possible_moves(color).len() == 4,
{
    lemma_opening_rows(width, color, width);
    assert(fresh_board(width).possible_moves(color) =~= opening_moves(width, color));
}

/// The move seen in the mirror that swaps the columns `y` and `W - 1 - y`.
pub open spec fn mirrored(width: int, mv: Move) -> Move {
    Move(
        at(mv.0.x as int, width - 1 - mv.0.y),
        at(mv.1.x as int, width - 1 - mv.1.y),
        at(mv.2.x as int, width - 1 - mv.2.y),
    )
}

/// The move turned by half a turn about the middle of the board.
pub open spec fn turned(width: int, mv: Move) -> Move {
    Move(
        at(width - 1 - mv.0.x, width - 1 - mv.0.y),
        at(width - 1 - mv.1.x, width - 1 - mv.1.y),
        at(width - 1 - mv.2.x, width - 1 - mv.2.y),
    )
}

/// The first position offers both colors the same number of moves, and Blue's moves are
/// Red's seen in the mirror that swaps the columns `y` and `W - 1 - y`, in the same order.
pub proof fn lemma_opening_mirror(width: int)
    requires
        4 <= width <= 19,
    ensures
        fresh_board(width).possible_moves(Color::Red).len() == fresh_board(width).possible_moves(
            Color::Blue,
        ).len(),
        forall|i: int|
            0 <= i < fresh_board(width).possible_moves(Color::Red).len() ==> fresh_board(
                width,
            ).possible_moves(Color::Blue)[i] == mirrored(
                width,
                #[trigger] fresh_board(width).possible_moves(Color::Red)[i],
            ),
{
    lemma_opening_moves(width, Color::Red);
    lemma_opening_moves(width, Color::Blue);
}

/// Half a turn about the middle of the board maps the moves that the first position
/// offers to a color onto themselves: the moves of one corner onto those of the other.
pub proof fn lemma_opening_half_turn(width: int, color: Color)
    requires
        4 <= width <= 19,
    ensures
        forall|i: int|
            0 <= i < 4 ==> fresh_board(width).possible_moves(color)[(i + 2) % 4] == turned(
                width,
                #[trigger] fresh_board(width).possible_moves(color)[i],
            ),
{
    lemma_opening_moves(width, color);
}

} // verus!
