//! The board: its cells and, for each color, the dual graph that gives the score.

use crate::geometry::{Color, Coord, Dir, Move};
use crate::graph::Graph;
use crate::grid::{CellView, Grid};
use crate::rules::{
    candidate, candidates, diagonal_dir, fresh_board, lemma_fresh_well_formed,
    lemma_listed_iff_legal, lemma_move_fills, lemma_move_keeps_well_formed, lemma_room,
    BoardView,
};
use vstd::prelude::*;

verus! {

/// The board of one game.
pub struct Board {
    width: u8,
    grids: Vec<Grid>,
    red: Graph,
    blue: Graph,
}

impl View for Board {
    type V = BoardView;

    closed spec fn view(&self) -> BoardView {
        BoardView {
            width: self.width as int,
            cells: Seq::new(
                self.width as nat,
                |x: int| Seq::new(self.width as nat, |y: int| self.cell_at(x, y)),
            ),
            red: self.red.links(),
            blue: self.blue.links(),
        }
    }
}

/// Cells of a board are told apart by their row-major index.
proof fn lemma_index_distinct(w: int, x1: int, y1: int, x2: int, y2: int)
    requires
        0 <= y1 < w,
        0 <= y2 < w,
        x1 * w + y1 == x2 * w + y2,
    ensures
        x1 == x2,
        y1 == y2,
{
    assert(x1 == x2) by (nonlinear_arith)
        requires
            0 <= y1 < w,
            0 <= y2 < w,
            x1 * w + y1 == x2 * w + y2,
    ;
}

proof fn lemma_index_bound(w: int, x: int, y: int)
    requires
        0 <= x < w,
        0 <= y < w,
    ensures
        0 <= x * w + y < w * w,
{
    assert(0 <= x * w + y < w * w) by (nonlinear_arith)
        requires
            0 <= x < w,
            0 <= y < w,
    ;
}

fn has_color(cell: Option<Color>, color: Color) -> (same: bool)
    ensures
        same == (cell == Some(color)),
{
    match cell {
        Some(c) => c == color,
        None => false,
    }
}

fn diagonal(k: usize) -> (d: Dir)
    requires
        k < 4,
    ensures
        d == diagonal_dir(k as int),
{
    if k == 0 {
        Dir(1, 1)
    } else if k == 1 {
        Dir(-1, 1)
    } else if k == 2 {
        Dir(-1, -1)
    } else {
        Dir(1, -1)
    }
}

/// The `j`-th of the eight moves that start at `from`.
fn candidate_move(from: Coord, j: usize) -> (mv: Move)
    requires
        j < 8,
        0 <= from.x <= 18,
        0 <= from.y <= 18,
    ensures
        mv == candidate(from, j as int),
{
    let d1 = diagonal(j / 2);
    let d2 = if j % 2 == 0 {
        Dir(d1.0, 0)
    } else {
        Dir(0, d1.1)
    };
    let middle = Coord::new(from.x + d1.0, from.y + d1.1);
    Move(from, middle, Coord::new(middle.x + d2.0, middle.y + d2.1))
}

impl Board {
    /// What the cell in row `x`, column `y` holds.
    pub closed spec fn cell_at(&self, x: int, y: int) -> CellView {
        self.grids[x * self.width + y]@
    }

    /// The board has all its cells, and its graphs fit its width.
    pub closed spec fn shaped(&self) -> bool {
        &&& 4 <= self.width <= 19
        &&& self.grids.len() == self.width * self.width
        &&& self.red.wf()
        &&& self.blue.wf()
        &&& self.red.side() == self.width - 1
        &&& self.blue.side() == self.width - 1
    }

    /// The invariant of a board: what `new` gives and every move keeps.
    pub closed spec fn wf(&self) -> bool {
        self.shaped() && self@.well_formed()
    }

    /// A well-formed board shows a well-formed view.
    pub proof fn lemma_view(&self)
        requires
            self.wf(),
        ensures
            self@.well_formed(),
    {
    }

    /// The board before the first move, with `width` lines: Red holds the corners `(0, 0)`
    /// and `(W - 1, W - 1)`, Blue the other two.
    pub fn new(width: usize) -> (board: Board)
        requires
            4 <= width <= 19,
        ensures
            board.wf(),
            board@ == fresh_board(width as int),
    {
        let mut grids: Vec<Grid> = Vec::new();
        let ghost w = width as int;
        assert(width * width <= 361) by (nonlinear_arith)
            requires
                width <= 19,
        ;
        let total: usize = width * width;
        let mut i: usize = 0;
        while i < total
            invariant
                i <= total,
                grids.len() == i,
                forall|k: int|
                    0 <= k < i ==> (#[trigger] grids[k])@.color is None && grids[k]@.roots
                        == Seq::<Dir>::empty(),
            decreases total - i,
        {
            grids.push(Grid::new());
            i += 1;
        }
        let mut board = Board {
            width: width as u8,
            grids,
            red: Graph::new(width),
            blue: Graph::new(width),
        };
        let last: i8 = (width - 1) as i8;
        board.color_cell(Coord::new(0, 0), Color::Red);
        board.color_cell(Coord::new(0, last), Color::Blue);
        board.color_cell(Coord::new(last, 0), Color::Blue);
        board.color_cell(Coord::new(last, last), Color::Red);
        proof {
            let fresh = fresh_board(w);
            assert forall|x: int, y: int| 0 <= x < w && 0 <= y < w implies board.cell_at(x, y)
                == fresh.cells[x][y] by {
                lemma_index_bound(w, x, y);
                assert(board.cell_at(x, y).roots =~= fresh.cells[x][y].roots);
            }
            assert forall|x: int| 0 <= x < w implies #[trigger] board@.cells[x] == fresh.cells[x] by {
                assert(board@.cells[x] =~= fresh.cells[x]);
            }
            assert(board@.cells =~= fresh.cells);
            lemma_fresh_well_formed(w);
        }
        board
    }

    /// The board before the first move, or nothing where the width is not between 4 and 19.
    pub fn try_new(width: usize) -> (board: Option<Board>)
        ensures
            board is Some <==> 4 <= width <= 19,
            board matches Some(b) ==> b.wf() && b@ == fresh_board(width as int),
    {
        if 4 <= width && width <= 19 {
            Some(Board::new(width))
        } else {
            None
        }
    }

    /// Number of lines of the board.
    pub fn width(&self) -> (w: usize)
        ensures
            w == self@.width,
    {
        self.width as usize
    }

    /// The cell at a position of the board.
    pub fn cell(&self, at: Coord) -> (cell: &Grid)
        requires
            self.wf(),
            at.on_board(self@.width),
        ensures
            cell@ == self@.cell(at),
    {
        &self.grids[self.cell_index(at)]
    }

    fn cell_index(&self, at: Coord) -> (idx: usize)
        requires
            self.shaped(),
            at.on_board(self.width as int),
        ensures
            idx == at.x * self.width + at.y,
            idx < self.grids.len(),
            self.grids[idx as int]@ == self.cell_at(at.x as int, at.y as int),
    {
        proof {
            lemma_index_bound(self.width as int, at.x as int, at.y as int);
            assert(at.x * self.width <= 18 * 19) by (nonlinear_arith)
                requires
                    0 <= at.x <= 18,
                    self.width <= 19,
            ;
            assert(0 <= at.x * self.width) by (nonlinear_arith)
                requires
                    0 <= at.x,
                    0 <= self.width,
            ;
        }
        (at.x as usize) * (self.width as usize) + (at.y as usize)
    }

    /// Puts a stone of the color on a cell.
    fn color_cell(&mut self, at: Coord, color: Color)
        requires
            old(self).shaped(),
            at.on_board(old(self).width as int),
        ensures
            final(self).shaped(),
            final(self).width == old(self).width,
            final(self).red == old(self).red,
            final(self).blue == old(self).blue,
            final(self).cell_at(at.x as int, at.y as int) == (CellView {
                color: Some(color),
                roots: old(self).cell_at(at.x as int, at.y as int).roots,
            }),
            forall|x: int, y: int|
                0 <= x < old(self).width && 0 <= y < old(self).width && !(x == at.x && y == at.y)
                    ==> #[trigger] final(self).cell_at(x, y) == old(self).cell_at(x, y),
    {
        let idx: usize = self.cell_index(at);
        self.grids[idx].set_color(color);
        proof {
            let w = self.width as int;
            assert forall|x: int, y: int|
                0 <= x < w && 0 <= y < w && !(x == at.x && y == at.y) implies #[trigger] self.cell_at(
                x,
                y,
            ) == old(self).cell_at(x, y) by {
                lemma_index_bound(w, x, y);
                if x * w + y == idx {
                    lemma_index_distinct(w, x, y, at.x as int, at.y as int);
                }
            }
        }
    }

    /// Adds a root to a cell.
    fn root_cell(&mut self, at: Coord, d: Dir)
        requires
            old(self).shaped(),
            at.on_board(old(self).width as int),
            old(self).cell_at(at.x as int, at.y as int).roots.len() < 4,
        ensures
            final(self).shaped(),
            final(self).width == old(self).width,
            final(self).red == old(self).red,
            final(self).blue == old(self).blue,
            final(self).cell_at(at.x as int, at.y as int) == (CellView {
                color: old(self).cell_at(at.x as int, at.y as int).color,
                roots: old(self).cell_at(at.x as int, at.y as int).roots.push(d),
            }),
            forall|x: int, y: int|
                0 <= x < old(self).width && 0 <= y < old(self).width && !(x == at.x && y == at.y)
                    ==> #[trigger] final(self).cell_at(x, y) == old(self).cell_at(x, y),
    {
        let idx: usize = self.cell_index(at);
        self.grids[idx].add_root(d);
        proof {
            let w = self.width as int;
            assert forall|x: int, y: int|
                0 <= x < w && 0 <= y < w && !(x == at.x && y == at.y) implies #[trigger] self.cell_at(
                x,
                y,
            ) == old(self).cell_at(x, y) by {
                lemma_index_bound(w, x, y);
                if x * w + y == idx {
                    lemma_index_distinct(w, x, y, at.x as int, at.y as int);
                }
            }
        }
    }

    /// Whether the move is legal for the color, that is, whether `possible_moves` lists it.
    pub fn is_valid_move(&self, next_move: Move, turn: Color) -> (ok: bool)
        requires
            self.wf(),
        ensures
            ok == self@.legal_move(next_move, turn),
            ok == self@.possible_moves(turn).contains(next_move),
    {
        proof {
            lemma_listed_iff_legal(self@, turn, next_move);
        }
        let w: i8 = self.width as i8;
        let Move(s1, s2, s3) = next_move;
        if !(0 <= s1.x && s1.x < w && 0 <= s1.y && s1.y < w) {
            return false;
        }
        if !(0 <= s2.x && s2.x < w && 0 <= s2.y && s2.y < w) {
            return false;
        }
        if !(0 <= s3.x && s3.x < w && 0 <= s3.y && s3.y < w) {
            return false;
        }
        let d1 = Dir(s2.x - s1.x, s2.y - s1.y);
        let d2 = Dir(s3.x - s2.x, s3.y - s2.y);
        if !((d1.0 == 1 || d1.0 == -1) && (d1.1 == 1 || d1.1 == -1)) {
            return false;
        }
        if !((d2.0 == d1.0 && d2.1 == 0) || (d2.0 == 0 && d2.1 == d1.1)) {
            return false;
        }
        assert(next_move.well_shaped());
        let first = &self.grids[self.cell_index(s1)];
        let middle = &self.grids[self.cell_index(s2)];
        let last = &self.grids[self.cell_index(s3)];
        assert(first@ == self@.cell(s1));
        assert(middle@ == self@.cell(s2));
        assert(last@ == self@.cell(s3));
        if !has_color(first.color(), turn) {
            return false;
        }
        if middle.color().is_some() {
            return false;
        }
        if !(last.color().is_none() || has_color(last.color(), turn)) {
            return false;
        }
        first.is_valid_root(d1) && middle.is_valid_root(Dir(-d1.0, -d1.1)) && middle.is_valid_root(
            d2,
        ) && last.is_valid_root(Dir(-d2.0, -d2.1))
    }

    /// Makes a legal move: puts the two new stones, adds each of the two roots at both its
    /// ends, and cuts in the mover's graph the links that the roots cross.
    pub fn apply_move(&mut self, next_move: Move, turn: Color)
        requires
            old(self).wf(),
            old(self)@.legal_move(next_move, turn),
        ensures
            final(self).wf(),
            final(self)@ == old(self)@.after_move(next_move, turn),
    {
        let Move(stone1, stone2, stone3) = next_move;
        let ghost before = self@;
        let ghost w = self.width as int;
        let d1 = Dir(stone2.x - stone1.x, stone2.y - stone1.y);
        let d2 = Dir(stone3.x - stone2.x, stone3.y - stone2.y);
        let b1 = Dir(stone1.x - stone2.x, stone1.y - stone2.y);
        let b2 = Dir(stone2.x - stone3.x, stone2.y - stone3.y);
        proof {
            assert(d1 == next_move.first_dir() && d2 == next_move.second_dir());
            assert(b1 == d1.reversed() && b2 == d2.reversed());
            assert(before.cells[stone1.x as int][stone1.y as int].well_formed());
            assert(before.cells[stone2.x as int][stone2.y as int].well_formed());
            assert(before.cells[stone3.x as int][stone3.y as int].well_formed());
            lemma_room(before.cell(stone1), d1);
            lemma_room(before.cell(stone3), b2);
            assert(before.open_segment(turn, stone1, d1)) by {
                let c = before.cell(stone1);
                if c.has_root(d1) {
                    let i = choose|i: int| 0 <= i < c.roots.len() && c.roots[i] == d1;
                    assert(c.roots[i].distance(d1) > 1);
                }
            }
            assert(before.open_segment(turn, stone2, d2)) by {
                let c = before.cell(stone3);
                if c.has_root(b2) {
                    let i = choose|i: int| 0 <= i < c.roots.len() && c.roots[i] == b2;
                    assert(c.roots[i].distance(b2) > 1);
                }
            }
        }

        self.color_cell(stone2, turn);
        self.color_cell(stone3, turn);

        self.root_cell(stone1, d1);
        self.root_cell(stone2, b1);
        self.root_cell(stone2, d2);
        self.root_cell(stone3, b2);

        let ghost laid = *self;

        // apply next_move to internal graph
        match turn {
            Color::Red => {
                self.red.apply_move(next_move)
            },
            Color::Blue => {
                self.blue.apply_move(next_move)
            },
        }
        proof {
            let after = before.after_move(next_move, turn);
            assert forall|x: int, y: int| 0 <= x < w && 0 <= y < w implies self.cell_at(x, y)
                == after.cells[x][y] by {
                assert(after.cells[x][y] == before.cell_after(next_move, turn, x, y));
                assert(before.cells[x][y] == old(self).cell_at(x, y));
                assert(self.cell_at(x, y) == laid.cell_at(x, y));
            }
            assert forall|x: int| 0 <= x < w implies #[trigger] self@.cells[x] == after.cells[x] by {
                assert(self@.cells[x] =~= after.cells[x]);
            }
            assert(self@.cells =~= after.cells);
            assert(self@ == after);
            lemma_move_keeps_well_formed(before, next_move, turn);
        }
    }

    /// The legal moves of a color, cell by cell in row-major order and for each cell in the
    /// order of the directions.
    pub fn possible_moves(&self, turn: Color) -> (moves: Vec<Move>)
        requires
            self.wf(),
        ensures
            moves@ == self@.possible_moves(turn),
            forall|i: int| 0 <= i < moves@.len() ==> self@.legal_move(#[trigger] moves@[i], turn),
            forall|mv: Move| self@.legal_move(mv, turn) ==> moves@.contains(mv),
    {
        let mut moves: Vec<Move> = Vec::new();
        let ghost b = self@;
        let w: i8 = self.width as i8;
        let mut x: i8 = 0;
        while x < w
            invariant
                self.wf(),
                b == self@,
                w == self.width,
                0 <= x <= w,
                moves@ == b.moves_before(turn, x as int),
            decreases w - x,
        {
            let mut y: i8 = 0;
            while y < w
                invariant
                    self.wf(),
                    b == self@,
                    w == self.width,
                    0 <= x < w,
                    0 <= y <= w,
                    moves@ == b.moves_before(turn, x as int) + b.row_moves(turn, x as int, y as int),
                decreases w - y,
            {
                let from = Coord::new(x, y);
                let ghost all = candidates(from);
                let ghost sofar = moves@;
                let mut j: usize = 0;
                proof {
                    assert(all.take(0) =~= Seq::<Move>::empty());
                    assert(all.take(0).filter(b.legal(turn)) =~= Seq::<Move>::empty()) by {
                        all.take(0).lemma_filter_len(b.legal(turn));
                    }
                    assert(sofar + Seq::<Move>::empty() =~= sofar);
                }
                while j < 8
                    invariant
                        self.wf(),
                        b == self@,
                        j <= 8,
                        0 <= x <= 18,
                        0 <= y <= 18,
                        from == (Coord { x, y }),
                        all == candidates(from),
                        moves@ == sofar + all.take(j as int).filter(b.legal(turn)),
                    decreases 8 - j,
                {
                    let mv = candidate_move(from, j);
                    proof {
                        assert(all[j as int] == mv);
                        assert(all.take(j as int).push(mv) =~= all.take(j + 1));
                        all.take(j as int).lemma_filter_push(mv, b.legal(turn));
                    }
                    if self.is_valid_move(mv, turn) {
                        moves.push(mv);
                        assert(moves@ =~= sofar + all.take(j + 1).filter(b.legal(turn)));
                    }
                    j += 1;
                }
                proof {
                    assert(all.take(8) =~= all);
                    assert(moves@ =~= b.moves_before(turn, x as int) + b.row_moves(
                        turn,
                        x as int,
                        y + 1,
                    ));
                }
                y += 1;
            }
            x += 1;
        }
        proof {
            assert forall|i: int| 0 <= i < moves@.len() implies self@.legal_move(
                #[trigger] moves@[i],
                turn,
            ) by {
                assert(moves@.contains(moves@[i]));
                lemma_listed_iff_legal(b, turn, moves@[i]);
            }
            assert forall|mv: Move| self@.legal_move(mv, turn) implies moves@.contains(mv) by {
                lemma_listed_iff_legal(b, turn, mv);
            }
        }
        moves
    }

    /// Makes the move if it is legal for the color, and says whether it did. Coordinates
    /// that no board has make no legal move.
    pub fn apply_move_if_possible(
        &mut self,
        x1: i32,
        y1: i32,
        x2: i32,
        y2: i32,
        x3: i32,
        y3: i32,
        color: Color,
    ) -> (done: bool)
        requires
            old(self).wf(),
        ensures
            final(self).wf(),
            done <==> is_coordinates(x1, y1, x2, y2, x3, y3) && old(self)@.possible_moves(
                color,
            ).contains(move_at(x1, y1, x2, y2, x3, y3)),
            done ==> final(self)@ == old(self)@.after_move(move_at(x1, y1, x2, y2, x3, y3), color),
            done ==> final(self)@ != old(self)@,
            !done ==> final(self)@ == old(self)@,
    {
        proof {
            lemma_listed_iff_legal(self@, color, move_at(x1, y1, x2, y2, x3, y3));
        }
        if !(fits(x1) && fits(y1) && fits(x2) && fits(y2) && fits(x3) && fits(y3)) {
            return false;
        }
        let next_move = Move(
            Coord::new(x1 as i8, y1 as i8),
            Coord::new(x2 as i8, y2 as i8),
            Coord::new(x3 as i8, y3 as i8),
        );
        if self.is_valid_move(next_move, color) {
            proof {
                lemma_move_fills(self@, next_move, color);
            }
            self.apply_move(next_move, color);
            true
        } else {
            false
        }
    }

    /// Whether the color has a legal move.
    pub fn can_move(&self, turn: Color) -> (can: bool)
        requires
            self.wf(),
        ensures
            can == (self@.possible_moves(turn).len() > 0),
            can == exists|mv: Move| self@.legal_move(mv, turn),
    {
        let moves = self.possible_moves(turn);
        proof {
            if moves@.len() > 0 {
                assert(self@.legal_move(moves@[0], turn));
            }
            assert forall|mv: Move| self@.legal_move(mv, turn) implies moves@.len() > 0 by {
                assert(moves@.contains(mv));
            }
        }
        moves.len() > 0
    }

    /// The game is over when neither color has a legal move.
    pub fn is_gameover(&self) -> (over: bool)
        requires
            self.wf(),
        ensures
            over == self@.game_over(),
    {
        !self.can_move(Color::Red) && !self.can_move(Color::Blue)
    }

    /// The score of a color: the number of connected regions of its graph that have more
    /// than four nodes. The board stays as it is.
    pub fn score(&mut self, color: Color) -> (score: u16)
        requires
            old(self).wf(),
        ensures
            final(self).wf(),
            final(self)@ == old(self)@,
            score == old(self)@.score(color),
    {
        let ghost laid = *self;
        let score = match color {
            Color::Red => self.red.score(),
            Color::Blue => self.blue.score(),
        };
        proof {
            let w = self.width as int;
            assert forall|x: int| 0 <= x < w implies #[trigger] self@.cells[x] == laid@.cells[x] by {
                assert forall|y: int| 0 <= y < w implies self.cell_at(x, y) == laid.cell_at(
                    x,
                    y,
                ) by {}
                assert(self@.cells[x] =~= laid@.cells[x]);
            }
            assert(self@.cells =~= laid@.cells);
        }
        score
    }

    /// Whether two boards hold the same stones and roots, cell by cell.
    pub fn same_cells(&self, other: &Board) -> (same: bool)
        requires
            self.wf(),
            other.wf(),
        ensures
            same == (self@.width == other@.width && self@.cells == other@.cells),
    {
        if self.width != other.width {
            return false;
        }
        let ghost w = self.width as int;
        let n: usize = self.grids.len();
        let mut i: usize = 0;
        while i < n
            invariant
                i <= n,
                self.wf(),
                other.wf(),
                w == self.width,
                w == other.width,
                n == self.grids.len(),
                n == other.grids.len(),
                forall|k: int| 0 <= k < i ==> (#[trigger] self.grids[k])@ == other.grids[k]@,
            decreases n - i,
        {
            if !self.grids[i].same_as(&other.grids[i]) {
                proof {
                    lemma_cell_of_index(w, i as int);
                    let x = i as int / w;
                    let y = i as int % w;
                    assert(self.cell_at(x, y) != other.cell_at(x, y));
                    assert(self@.cells[x][y] != other@.cells[x][y]);
                }
                return false;
            }
            i += 1;
        }
        proof {
            assert forall|x: int| 0 <= x < w implies #[trigger] self@.cells[x] == other@.cells[x] by {
                assert forall|y: int| 0 <= y < w implies self.cell_at(x, y) == other.cell_at(
                    x,
                    y,
                ) by {
                    lemma_index_bound(w, x, y);
                }
                assert(self@.cells[x] =~= other@.cells[x]);
            }
            assert(self@.cells =~= other@.cells);
        }
        true
    }
}

/// The six numbers are coordinates: each fits the type of a coordinate.
pub open spec fn is_coordinates(x1: i32, y1: i32, x2: i32, y2: i32, x3: i32, y3: i32) -> bool {
    &&& i8::MIN <= x1 <= i8::MAX && i8::MIN <= y1 <= i8::MAX
    &&& i8::MIN <= x2 <= i8::MAX && i8::MIN <= y2 <= i8::MAX
    &&& i8::MIN <= x3 <= i8::MAX && i8::MIN <= y3 <= i8::MAX
}

/// The move that six coordinates name.
pub open spec fn move_at(x1: i32, y1: i32, x2: i32, y2: i32, x3: i32, y3: i32) -> Move {
    Move(
        Coord { x: x1 as i8, y: y1 as i8 },
        Coord { x: x2 as i8, y: y2 as i8 },
        Coord { x: x3 as i8, y: y3 as i8 },
    )
}

/// Whether the number is a coordinate that a board can have.
fn fits(v: i32) -> (ok: bool)
    ensures
        ok == (0 <= v <= 18),
{
    0 <= v && v <= 18
}

/// Every index below `w * w` is the row-major index of a cell.
proof fn lemma_cell_of_index(w: int, i: int)
    requires
        0 < w,
        0 <= i < w * w,
    ensures
        0 <= i / w < w,
        0 <= i % w < w,
        i == (i / w) * w + i % w,
{
    vstd::arithmetic::div_mod::lemma_fundamental_div_mod(i, w);
    vstd::arithmetic::div_mod::lemma_mod_pos_bound(i, w);
    vstd::arithmetic::div_mod::lemma_div_pos_is_pos(i, w);
    let q = i / w;
    let r = i % w;
    assert(q < w && i == q * w + r) by (nonlinear_arith)
        requires
            0 <= i < w * w,
            0 < w,
            i == w * q + r,
            0 <= r < w,
            0 <= q,
    ;
}

impl Clone for Board {
    fn clone(&self) -> (copy: Self)
        ensures
            self.wf() ==> copy.wf() && copy@ == self@,
    {
        let mut grids: Vec<Grid> = Vec::new();
        let n: usize = self.grids.len();
        let mut i: usize = 0;
        while i < n
            invariant
                i <= n,
                n == self.grids.len(),
                grids.len() == i,
                forall|k: int| 0 <= k < i ==> (#[trigger] grids[k])@ == self.grids[k]@,
            decreases n - i,
        {
            grids.push(self.grids[i].clone());
            i += 1;
        }
        let copy = Board { width: self.width, grids, red: self.red.clone(), blue: self.blue.clone() };
        proof {
            if self.wf() {
                let w = self.width as int;
                assert forall|x: int| 0 <= x < w implies #[trigger] copy@.cells[x] == self@.cells[x] by {
                    assert forall|y: int| 0 <= y < w implies copy.cell_at(x, y) == self.cell_at(
                        x,
                        y,
                    ) by {
                        lemma_index_bound(w, x, y);
                    }
                    assert(copy@.cells[x] =~= self@.cells[x]);
                }
                assert(copy@.cells =~= self@.cells);
            }
        }
        copy
    }
}

} // verus!
