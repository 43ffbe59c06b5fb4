//! The rules of the game as mathematics: what a board holds, which moves are legal, what a
//! move does, and in which order the legal moves are listed.

use crate::components::{connected, lemma_regions_never_join, region_count, region_score};
use crate::dual::{
    full_links, lemma_cuts_disjoint, lemma_cuts_in_full, lemma_full_links_symmetric, move_cuts,
    node_count, segment_cuts, symmetric, within,
};
use crate::geometry::{stepped, Color, Coord, Dir, Move};
use crate::grid::CellView;
use vstd::prelude::*;

verus! {

/// What a board holds, as plain values: its cells, first by `x` and then by `y`, and for
/// each color the links of its dual graph that are left.
pub struct BoardView {
    pub width: int,
    pub cells: Seq<Seq<CellView>>,
    pub red: Set<(int, int)>,
    pub blue: Set<(int, int)>,
}

/// The four diagonal directions, in the order in which moves are listed.
pub open spec fn diagonal_dir(k: int) -> Dir {
    if k == 0 {
        Dir(1, 1)
    } else if k == 1 {
        Dir(-1i8, 1)
    } else if k == 2 {
        Dir(-1i8, -1i8)
    } else {
        Dir(1, -1i8)
    }
}

/// The `j`-th of the eight moves that start at `from`: diagonal `j / 2`, then along `x`
/// when `j` is even and along `y` when it is odd.
pub open spec fn candidate(from: Coord, j: int) -> Move {
    let d1 = diagonal_dir(j / 2);
    let d2 = if j % 2 == 0 {
        Dir(d1.0, 0)
    } else {
        Dir(0, d1.1)
    };
    let middle = stepped(from, d1);
    Move(from, middle, stepped(middle, d2))
}

pub open spec fn candidates(from: Coord) -> Seq<Move> {
    Seq::new(8, |j: int| candidate(from, j))
}

impl BoardView {
    pub open spec fn cell(self, at: Coord) -> CellView {
        self.cells[at.x as int][at.y as int]
    }

    /// Units per side of the dual graphs.
    pub open spec fn side(self) -> int {
        self.width - 1
    }

    pub open spec fn links(self, color: Color) -> Set<(int, int)> {
        match color {
            Color::Red => self.red,
            Color::Blue => self.blue,
        }
    }

    /// The stone at `at` has the color and a root in direction `d`.
    pub open spec fn placed(self, color: Color, at: Coord, d: Dir) -> bool {
        self.cell(at).color == Some(color) && self.cell(at).has_root(d)
    }

    /// The cell at `at` is on the board and has a root in direction `d`.
    pub open spec fn rooted(self, at: Coord, d: Dir) -> bool {
        at.on_board(self.width) && self.cell(at).has_root(d)
    }

    /// The root from `at` in direction `d` ends at a stone of the same color that holds it
    /// too, in the opposite direction.
    pub open spec fn held_at_both_ends(self, at: Coord, d: Dir) -> bool {
        &&& stepped(at, d).on_board(self.width)
        &&& self.cell(stepped(at, d)).has_root(d.reversed())
        &&& self.cell(stepped(at, d)).color == self.cell(at).color
    }

    /// The segment from `at` in direction `d` lies on the board and no root of the color
    /// runs along it, in either direction.
    pub open spec fn open_segment(self, color: Color, at: Coord, d: Dir) -> bool {
        &&& at.on_board(self.width)
        &&& stepped(at, d).on_board(self.width)
        &&& d.diagonal() || d.orthogonal()
        &&& !self.placed(color, at, d)
        &&& !self.placed(color, stepped(at, d), d.reversed())
    }

    /// The board has between 4 and 19 lines, every cell is well-formed, the links of both
    /// graphs go both ways between nodes of the graph, and the links that a root of a color
    /// would cut are still in that color's graph as long as no such root was laid.
    pub open spec fn well_formed(self) -> bool {
        &&& 4 <= self.width <= 19
        &&& symmetric(self.red) && within(self.red, node_count(self.side()))
        &&& symmetric(self.blue) && within(self.blue, node_count(self.side()))
        &&& self.cells.len() == self.width
        &&& forall|x: int| 0 <= x < self.width ==> (#[trigger] self.cells[x]).len() == self.width
        &&& forall|x: int, y: int|
            0 <= x < self.width && 0 <= y < self.width ==> (#[trigger] self.cells[x][y]).well_formed()
        &&& forall|at: Coord, d: Dir| #[trigger] self.rooted(at, d) ==> self.held_at_both_ends(at, d)
        &&& forall|color: Color, at: Coord, d: Dir| #[trigger]
            self.open_segment(color, at, d) ==> segment_cuts(self.side(), at, d).subset_of(
                self.links(color),
            )
    }

    /// The move is legal for the color: it starts at a stone of the color, its middle stone
    /// goes on an empty cell, its last stone on a cell that is empty or holds the color, it
    /// has the shape of a move, and every cell accepts the root that the move gives it.
    pub open spec fn legal_move(self, mv: Move, color: Color) -> bool {
        let d1 = mv.first_dir();
        let d2 = mv.second_dir();
        &&& mv.0.on_board(self.width)
        &&& mv.1.on_board(self.width)
        &&& mv.2.on_board(self.width)
        &&& mv.well_shaped()
        &&& self.cell(mv.0).color == Some(color)
        &&& self.cell(mv.1).color is None
        &&& (self.cell(mv.2).color is None || self.cell(mv.2).color == Some(color))
        &&& self.cell(mv.0).accepts(d1)
        &&& self.cell(mv.1).accepts(d1.reversed())
        &&& self.cell(mv.1).accepts(d2)
        &&& self.cell(mv.2).accepts(d2.reversed())
    }

    /// The test of legality for one color.
    pub open spec fn legal(self, color: Color) -> spec_fn(Move) -> bool {
        |mv: Move| self.legal_move(mv, color)
    }

    /// The legal moves that start at one cell, in the order of their directions.
    pub open spec fn cell_moves(self, color: Color, from: Coord) -> Seq<Move> {
        candidates(from).filter(self.legal(color))
    }

    /// The legal moves that start in row `x` at a cell before column `y`.
    pub open spec fn row_moves(self, color: Color, x: int, y: int) -> Seq<Move>
        decreases y,
    {
        if y <= 0 {
            Seq::empty()
        } else {
            self.row_moves(color, x, y - 1) + self.cell_moves(
                color,
                Coord { x: x as i8, y: (y - 1) as i8 },
            )
        }
    }

    /// The legal moves that start in a row before row `x`.
    pub open spec fn moves_before(self, color: Color, x: int) -> Seq<Move>
        decreases x,
    {
        if x <= 0 {
            Seq::empty()
        } else {
            self.moves_before(color, x - 1) + self.row_moves(color, x - 1, self.width)
        }
    }

    /// The legal moves of a color: cell by cell in row-major order, and for each cell in
    /// the order of the directions.
    pub open spec fn possible_moves(self, color: Color) -> Seq<Move> {
        self.moves_before(color, self.width)
    }

    /// The cell at `(x, y)` after the move.
    pub open spec fn cell_after(self, mv: Move, color: Color, x: int, y: int) -> CellView {
        let old = self.cells[x][y];
        if x == mv.0.x && y == mv.0.y {
            CellView { color: old.color, roots: old.roots.push(mv.first_dir()) }
        } else if x == mv.1.x && y == mv.1.y {
            CellView {
                color: Some(color),
                roots: old.roots.push(mv.first_dir().reversed()).push(mv.second_dir()),
            }
        } else if x == mv.2.x && y == mv.2.y {
            CellView { color: Some(color), roots: old.roots.push(mv.second_dir().reversed()) }
        } else {
            old
        }
    }

    /// The board after the color made the move: the two new stones, the two roots at both
    /// their ends, and the mover's graph without the links that the roots cut.
    pub open spec fn after_move(self, mv: Move, color: Color) -> BoardView {
        BoardView {
            width: self.width,
            cells: Seq::new(
                self.width as nat,
                |x: int| Seq::new(self.width as nat, |y: int| self.cell_after(mv, color, x, y)),
            ),
            red: if color == Color::Red {
                self.red.difference(move_cuts(self.side(), mv))
            } else {
                self.red
            },
            blue: if color == Color::Blue {
                self.blue.difference(move_cuts(self.side(), mv))
            } else {
                self.blue
            },
        }
    }

    /// Neither color has a legal move.
    pub open spec fn game_over(self) -> bool {
        self.possible_moves(Color::Red).len() == 0 && self.possible_moves(Color::Blue).len() == 0
    }

    /// The score of a color: the number of connected regions of its graph that have more
    /// than four nodes.
    pub open spec fn score(self, color: Color) -> nat {
        region_score(self.links(color), node_count(self.side()))
    }

    /// Number of empty cells in row `x` before column `y`.
    pub open spec fn empty_in_row(self, x: int, y: int) -> nat
        decreases y,
    {
        if y <= 0 {
            0
        } else {
            self.empty_in_row(x, y - 1) + if self.cells[x][y - 1].color is None {
                1nat
            } else {
                0nat
            }
        }
    }

    /// Number of empty cells in the rows before row `x`.
    pub open spec fn empty_before(self, x: int) -> nat
        decreases x,
    {
        if x <= 0 {
            0
        } else {
            self.empty_before(x - 1) + self.empty_in_row(x - 1, self.width)
        }
    }

    /// Number of empty cells of the board.
    pub open spec fn empty_cells(self) -> nat {
        self.empty_before(self.width)
    }
}

/// The color that a fresh board has at `(x, y)`: Red in the corners `(0, 0)` and
/// `(W - 1, W - 1)`, Blue in the other two.
pub open spec fn corner_color(width: int, x: int, y: int) -> Option<Color> {
    if (x == 0 && y == 0) || (x == width - 1 && y == width - 1) {
        Some(Color::Red)
    } else if (x == 0 && y == width - 1) || (x == width - 1 && y == 0) {
        Some(Color::Blue)
    } else {
        None
    }
}

/// The board before the first move.
pub open spec fn fresh_board(width: int) -> BoardView {
    BoardView {
        width,
        cells: Seq::new(
            width as nat,
            |x: int|
                Seq::new(
                    width as nat,
                    |y: int| CellView { color: corner_color(width, x, y), roots: Seq::empty() },
                ),
        ),
        red: full_links(width - 1),
        blue: full_links(width - 1),
    }
}

pub proof fn lemma_fresh_well_formed(width: int)
    requires
        4 <= width <= 19,
    ensures
        fresh_board(width).well_formed(),
{
    let b = fresh_board(width);
    assert(node_count(width - 1) <= 0x10000) by (nonlinear_arith)
        requires
            4 <= width <= 19,
    ;
    assert forall|color: Color, at: Coord, d: Dir| #[trigger]
        b.open_segment(color, at, d) implies segment_cuts(b.side(), at, d).subset_of(
        b.links(color),
    ) by {
        lemma_cuts_in_full(width - 1, at, d);
    }
    lemma_full_links_symmetric(width - 1);
}

/// A well-formed cell that accepts one more root has fewer than four.
pub proof fn lemma_room(cell: CellView, d: Dir)
    requires
        cell.well_formed(),
        d.valid(),
        cell.accepts(d),
    ensures
        cell.roots.len() < 4,
{
    if cell.roots.len() >= 4 {
        let a = cell.roots[0];
        let b = cell.roots[1];
        let c = cell.roots[2];
        let e = cell.roots[3];
        assert(a.valid() && b.valid() && c.valid() && e.valid());
        assert(a.distance(b) > 1 && a.distance(c) > 1 && a.distance(e) > 1);
        assert(b.distance(c) > 1 && b.distance(e) > 1 && c.distance(e) > 1);
        assert(a.distance(d) > 1 && b.distance(d) > 1 && c.distance(d) > 1 && e.distance(d) > 1);
        lemma_five_apart(a, b, c, e, d);
    }
}

/// No five directions are pairwise more than distance 1 apart: where four are, and three
/// of them are that far from a fifth, the fourth is within distance 1 of it.
proof fn lemma_five_apart(a: Dir, b: Dir, c: Dir, e: Dir, d: Dir)
    requires
        a.valid() && b.valid() && c.valid() && e.valid() && d.valid(),
        a.distance(b) > 1 && a.distance(c) > 1 && a.distance(e) > 1 && a.distance(d) > 1,
        b.distance(c) > 1 && b.distance(e) > 1 && b.distance(d) > 1,
        c.distance(e) > 1 && c.distance(d) > 1,
    ensures
        e.distance(d) <= 1,
{
}

/// A legal move leaves a well-formed board well-formed.
pub proof fn lemma_move_keeps_well_formed(b: BoardView, mv: Move, color: Color)
    requires
        b.well_formed(),
        b.legal_move(mv, color),
    ensures
        b.after_move(mv, color).well_formed(),
{
    let a = b.after_move(mv, color);
    let d1 = mv.first_dir();
    let d2 = mv.second_dir();
    let w = b.width;
    let cuts = move_cuts(b.side(), mv);
    assert(symmetric(cuts));
    assert(symmetric(b.links(color).difference(cuts))) by {
        assert forall|x: int, y: int| #[trigger]
            b.links(color).difference(cuts).contains((x, y)) implies b.links(color).difference(
            cuts,
        ).contains((y, x)) by {
            assert(b.links(color).contains((x, y)));
            assert(!cuts.contains((y, x)));
        }
    }
    assert forall|x: int, y: int| 0 <= x < w && 0 <= y < w implies (#[trigger] a.cells[x][y]).well_formed() by {
        let old = b.cells[x][y];
        assert(old.well_formed());
        assert(a.cells[x][y] == b.cell_after(mv, color, x, y));
    }
    assert forall|at: Coord, d: Dir| #[trigger] a.rooted(at, d) implies a.held_at_both_ends(
        at,
        d,
    ) by {
        lemma_root_held(b, mv, color, at, d);
    }
    assert forall|c: Color, at: Coord, d: Dir| #[trigger]
        a.open_segment(c, at, d) implies segment_cuts(a.side(), at, d).subset_of(a.links(c)) by {
        if b.placed(c, at, d) {
            lemma_placed_stays(b, mv, color, c, at, d);
        }
        if b.placed(c, stepped(at, d), d.reversed()) {
            lemma_placed_stays(b, mv, color, c, stepped(at, d), d.reversed());
        }
        assert(b.open_segment(c, at, d));
        if c == color {
            lemma_new_roots_placed(b, mv, color);
            lemma_cuts_disjoint(b.side(), at, d, mv.0, d1);
            lemma_cuts_disjoint(b.side(), at, d, mv.1, d2);
        }
    }
}

/// After a move every root is held at both its ends.
proof fn lemma_root_held(b: BoardView, mv: Move, color: Color, at: Coord, d: Dir)
    requires
        b.well_formed(),
        b.legal_move(mv, color),
        b.after_move(mv, color).rooted(at, d),
    ensures
        b.after_move(mv, color).held_at_both_ends(at, d),
{
    let a = b.after_move(mv, color);
    let d1 = mv.first_dir();
    let d2 = mv.second_dir();
    lemma_new_roots_placed(b, mv, color);
    let now = a.cell(at);
    assert(now == b.cell_after(mv, color, at.x as int, at.y as int));
    assert(b.cells[mv.1.x as int][mv.1.y as int].well_formed());
    assert(b.cells[at.x as int][at.y as int].well_formed());
    let i = choose|i: int| 0 <= i < now.roots.len() && now.roots[i] == d;
    if b.rooted(at, d) {
        assert(b.held_at_both_ends(at, d));
        let to = stepped(at, d);
        let there = b.cell(to);
        let k = choose|k: int| 0 <= k < there.roots.len() && there.roots[k] == d.reversed();
        assert(a.cell(to) == b.cell_after(mv, color, to.x as int, to.y as int));
        assert(a.cell(to).roots[k] == d.reversed());
        assert(b.cells[to.x as int][to.y as int].well_formed());
    } else {
        let old = b.cell(at);
        if i < old.roots.len() {
            assert(old.roots[i] == d);
            assert(old.has_root(d));
        }
        assert(a.cell(mv.0) == b.cell_after(mv, color, mv.0.x as int, mv.0.y as int));
        assert(a.cell(mv.1) == b.cell_after(mv, color, mv.1.x as int, mv.1.y as int));
        assert(a.cell(mv.2) == b.cell_after(mv, color, mv.2.x as int, mv.2.y as int));
    }
}

/// A root that was laid stays laid.
proof fn lemma_placed_stays(b: BoardView, mv: Move, color: Color, c: Color, at: Coord, d: Dir)
    requires
        b.well_formed(),
        b.legal_move(mv, color),
        at.on_board(b.width),
        b.placed(c, at, d),
    ensures
        b.after_move(mv, color).placed(c, at, d),
{
    let a = b.after_move(mv, color);
    let old = b.cell(at);
    let i = choose|i: int| 0 <= i < old.roots.len() && old.roots[i] == d;
    assert(a.cell(at) == b.cell_after(mv, color, at.x as int, at.y as int));
    assert(a.cell(at).roots[i] == d);
}

/// After a move its four roots are laid, one at each end of each segment.
proof fn lemma_new_roots_placed(b: BoardView, mv: Move, color: Color)
    requires
        b.well_formed(),
        b.legal_move(mv, color),
    ensures
        b.after_move(mv, color).placed(color, mv.0, mv.first_dir()),
        b.after_move(mv, color).placed(color, mv.1, mv.first_dir().reversed()),
        b.after_move(mv, color).placed(color, mv.1, mv.second_dir()),
        b.after_move(mv, color).placed(color, mv.2, mv.second_dir().reversed()),
{
    let a = b.after_move(mv, color);
    let c0 = a.cell(mv.0);
    let c1 = a.cell(mv.1);
    let c2 = a.cell(mv.2);
    assert(c0 == b.cell_after(mv, color, mv.0.x as int, mv.0.y as int));
    assert(c1 == b.cell_after(mv, color, mv.1.x as int, mv.1.y as int));
    assert(c2 == b.cell_after(mv, color, mv.2.x as int, mv.2.y as int));
    assert(c0.roots[c0.roots.len() - 1] == mv.first_dir());
    assert(c1.roots[c1.roots.len() - 2] == mv.first_dir().reversed());
    assert(c1.roots[c1.roots.len() - 1] == mv.second_dir());
    assert(c2.roots[c2.roots.len() - 1] == mv.second_dir().reversed());
}

/// What is in a sequence made of two is in one of the two.
pub proof fn lemma_concat_contains<T>(a: Seq<T>, b: Seq<T>, item: T)
    ensures
        (a + b).contains(item) <==> a.contains(item) || b.contains(item),
{
    let ab = a + b;
    if ab.contains(item) {
        let i = choose|i: int| 0 <= i < ab.len() && ab[i] == item;
        if i < a.len() {
            assert(a[i] == item);
        } else {
            assert(b[i - a.len()] == item);
        }
    }
    if a.contains(item) {
        let i = choose|i: int| 0 <= i < a.len() && a[i] == item;
        assert(ab[i] == item);
    }
    if b.contains(item) {
        let i = choose|i: int| 0 <= i < b.len() && b[i] == item;
        assert(ab[i + a.len()] == item);
    }
}

/// The moves listed for a cell are the legal moves that start there.
pub proof fn lemma_cell_moves(b: BoardView, color: Color, from: Coord, mv: Move)
    requires
        4 <= b.width <= 19,
    ensures
        b.cell_moves(color, from).contains(mv) <==> (mv.0 == from && b.legal_move(mv, color)),
{
    let all = candidates(from);
    let kept = b.cell_moves(color, from);
    if kept.contains(mv) {
        all.lemma_filter_contains_rev(b.legal(color), mv);
        let i = choose|i: int| 0 <= i < kept.len() && kept[i] == mv;
        all.lemma_filter_pred(b.legal(color), i);
        let j = choose|j: int| 0 <= j < all.len() && all[j] == mv;
        assert(mv == candidate(from, j));
    }
    if mv.0 == from && b.legal_move(mv, color) {
        let d1 = mv.first_dir();
        let d2 = mv.second_dir();
        let k: int = if d1 == Dir(1, 1) {
            0
        } else if d1 == Dir(-1i8, 1) {
            1
        } else if d1 == Dir(-1i8, -1i8) {
            2
        } else {
            3
        };
        let j: int = if d2 == Dir(d1.0, 0) {
            2 * k
        } else {
            2 * k + 1
        };
        assert(diagonal_dir(j / 2) == d1);
        assert(all[j] == candidate(from, j));
        assert(candidate(from, j) == mv);
        assert(b.legal(color)(all[j]));
        all.lemma_filter_contains(b.legal(color), j);
    }
}

/// The moves listed for the start of a row are the legal moves that start there.
pub proof fn lemma_row_moves(b: BoardView, color: Color, x: int, y: int, mv: Move)
    requires
        4 <= b.width <= 19,
        0 <= x < b.width,
        0 <= y <= b.width,
    ensures
        b.row_moves(color, x, y).contains(mv) <==> (mv.0.x == x && 0 <= mv.0.y < y
            && b.legal_move(mv, color)),
    decreases y,
{
    if y > 0 {
        let from = Coord { x: x as i8, y: (y - 1) as i8 };
        lemma_row_moves(b, color, x, y - 1, mv);
        lemma_cell_moves(b, color, from, mv);
        lemma_concat_contains(b.row_moves(color, x, y - 1), b.cell_moves(color, from), mv);
    }
}

/// The moves listed for the first rows are the legal moves that start there.
pub proof fn lemma_moves_before(b: BoardView, color: Color, x: int, mv: Move)
    requires
        4 <= b.width <= 19,
        0 <= x <= b.width,
    ensures
        b.moves_before(color, x).contains(mv) <==> (0 <= mv.0.x < x && b.legal_move(mv, color)),
    decreases x,
{
    if x > 0 {
        lemma_moves_before(b, color, x - 1, mv);
        lemma_row_moves(b, color, x - 1, b.width, mv);
        lemma_concat_contains(
            b.moves_before(color, x - 1),
            b.row_moves(color, x - 1, b.width),
            mv,
        );
    }
}

/// `possible_moves` lists the legal moves and nothing else.
pub proof fn lemma_listed_iff_legal(b: BoardView, color: Color, mv: Move)
    requires
        4 <= b.width <= 19,
    ensures
        b.possible_moves(color).contains(mv) <==> b.legal_move(mv, color),
{
    lemma_moves_before(b, color, b.width, mv);
}

/// A row loses no empty cell but to the move, and loses one where the middle stone goes.
proof fn lemma_row_fills(b: BoardView, mv: Move, color: Color, x: int, y: int)
    requires
        b.well_formed(),
        b.legal_move(mv, color),
        0 <= x < b.width,
        0 <= y <= b.width,
    ensures
        b.after_move(mv, color).empty_in_row(x, y) <= b.empty_in_row(x, y),
        x == mv.1.x && y > mv.1.y ==> b.after_move(mv, color).empty_in_row(x, y)
            < b.empty_in_row(x, y),
    decreases y,
{
    if y > 0 {
        lemma_row_fills(b, mv, color, x, y - 1);
        let a = b.after_move(mv, color);
        assert(a.cells[x][y - 1] == b.cell_after(mv, color, x, y - 1));
    }
}

proof fn lemma_rows_fill(b: BoardView, mv: Move, color: Color, x: int)
    requires
        b.well_formed(),
        b.legal_move(mv, color),
        0 <= x <= b.width,
    ensures
        b.after_move(mv, color).empty_before(x) <= b.empty_before(x),
        x > mv.1.x ==> b.after_move(mv, color).empty_before(x) < b.empty_before(x),
    decreases x,
{
    if x > 0 {
        lemma_rows_fill(b, mv, color, x - 1);
        lemma_row_fills(b, mv, color, x - 1, b.width);
    }
}

/// Every legal move fills at least one empty cell.
pub proof fn lemma_move_fills(b: BoardView, mv: Move, color: Color)
    requires
        b.well_formed(),
        b.legal_move(mv, color),
    ensures
        b.after_move(mv, color).empty_cells() < b.empty_cells(),
{
    lemma_rows_fill(b, mv, color, b.width);
}

/// A move never joins regions and never makes them fewer: it takes links out of the
/// mover's graph only and leaves the other graph alone, what is connected after it was
/// connected before, and the mover's graph has at least as many regions as before.
pub proof fn lemma_move_never_joins(b: BoardView, mv: Move, color: Color)
    requires
        b.well_formed(),
        b.legal_move(mv, color),
    ensures
        b.after_move(mv, color).links(color).subset_of(b.links(color)),
        b.after_move(mv, color).links(color.opponent()) == b.links(color.opponent()),
        forall|x: int, y: int| #[trigger]
            connected(b.after_move(mv, color).links(color), x, y) ==> connected(
                b.links(color),
                x,
                y,
            ),
        region_count(b.links(color), node_count(b.side())) <= region_count(
            b.after_move(mv, color).links(color),
            node_count(b.side()),
        ),
{
    lemma_move_keeps_well_formed(b, mv, color);
    assert(0 <= node_count(b.side())) by (nonlinear_arith)
        requires
            b.side() >= 0,
    ;
    lemma_regions_never_join(
        b.after_move(mv, color).links(color),
        b.links(color),
        node_count(b.side()),
    );
}

} // verus!
