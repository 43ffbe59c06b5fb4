//! The two documents that a user interface reads: the stones and roots of a board, and the
//! moves that can be made on it. Both are plain values, in the order in which they are
//! written out.

use crate::board::Board;
use crate::geometry::{Color, Coord, Dir, Move};
use crate::geometry::stepped;
use crate::rules::{fresh_board, lemma_concat_contains, BoardView};
use vstd::prelude::*;

verus! {

/// A stone: its position and its color, 0 for Red and 1 for Blue.
#[derive(Debug, PartialEq, Eq, Clone, Copy, Structural)]
pub struct Stone {
    pub x: i8,
    pub y: i8,
    pub color: i8,
}

/// A root as its cell holds it: from `(x1, y1)` to `(x2, y2)`, with the color of the stone
/// at its start. Every segment has two, one from each end.
#[derive(Debug, PartialEq, Eq, Clone, Copy, Structural)]
pub struct Root {
    pub x1: i8,
    pub y1: i8,
    pub x2: i8,
    pub y2: i8,
    pub color: i8,
}

/// The stones and roots of a board.
pub struct BoardJson {
    pub stones: Vec<Stone>,
    pub roots: Vec<Root>,
}

/// A legal move and the color that can make it.
#[derive(Debug, PartialEq, Eq, Clone, Copy, Structural)]
pub struct PossibleMove {
    pub stones: Move,
    pub color: Color,
}

/// The root that leaves `(x, y)` in direction `d`.
pub open spec fn root_from(x: int, y: int, d: Dir, color: Color) -> Root {
    Root {
        x1: x as i8,
        y1: y as i8,
        x2: (x + d.0) as i8,
        y2: (y + d.1) as i8,
        color: color.spec_index() as i8,
    }
}

impl BoardView {
    /// The stone of one cell, if it has one.
    pub open spec fn cell_stones(self, x: int, y: int) -> Seq<Stone> {
        match self.cells[x][y].color {
            Some(color) => seq![Stone { x: x as i8, y: y as i8, color: color.spec_index() as i8 }],
            None => Seq::empty(),
        }
    }

    /// The roots that leave one cell, in the order in which they were laid.
    pub open spec fn cell_roots(self, x: int, y: int) -> Seq<Root> {
        match self.cells[x][y].color {
            Some(color) => Seq::new(
                self.cells[x][y].roots.len(),
                |i: int| root_from(x, y, self.cells[x][y].roots[i], color),
            ),
            None => Seq::empty(),
        }
    }

    /// The stones of row `x` before column `y`.
    pub open spec fn row_stones(self, x: int, y: int) -> Seq<Stone>
        decreases y,
    {
        if y <= 0 {
            Seq::empty()
        } else {
            self.row_stones(x, y - 1) + self.cell_stones(x, y - 1)
        }
    }

    /// The roots of row `x` before column `y`.
    pub open spec fn row_roots(self, x: int, y: int) -> Seq<Root>
        decreases y,
    {
        if y <= 0 {
            Seq::empty()
        } else {
            self.row_roots(x, y - 1) + self.cell_roots(x, y - 1)
        }
    }

    /// The stones of the rows before row `x`.
    pub open spec fn stones_before(self, x: int) -> Seq<Stone>
        decreases x,
    {
        if x <= 0 {
            Seq::empty()
        } else {
            self.stones_before(x - 1) + self.row_stones(x - 1, self.width)
        }
    }

    /// The roots of the rows before row `x`.
    pub open spec fn roots_before(self, x: int) -> Seq<Root>
        decreases x,
    {
        if x <= 0 {
            Seq::empty()
        } else {
            self.roots_before(x - 1) + self.row_roots(x - 1, self.width)
        }
    }

    /// The stones of the board, in row-major order.
    pub open spec fn stones(self) -> Seq<Stone> {
        self.stones_before(self.width)
    }

    /// The roots of the board: cell by cell in row-major order, each cell's outgoing roots
    /// in the order in which they were laid.
    pub open spec fn roots(self) -> Seq<Root> {
        self.roots_before(self.width)
    }

    /// The moves of both colors, Red's first.
    pub open spec fn all_moves(self) -> Seq<PossibleMove> {
        self.possible_moves(Color::Red).map_values(
            |mv: Move| PossibleMove { stones: mv, color: Color::Red },
        ) + self.possible_moves(Color::Blue).map_values(
            |mv: Move| PossibleMove { stones: mv, color: Color::Blue },
        )
    }
}

impl Board {
    /// The stones and roots of the board, as the user interface reads them.
    pub fn to_json(&self) -> (doc: BoardJson)
        requires
            self.wf(),
        ensures
            doc.stones@ == self@.stones(),
            doc.roots@ == self@.roots(),
    {
        let mut stones: Vec<Stone> = Vec::new();
        let mut roots: Vec<Root> = Vec::new();
        let ghost b = self@;
        proof {
            self.lemma_view();
        }
        let w: i8 = self.width() as i8;
        let mut x: i8 = 0;
        while x < w
            invariant
                self.wf(),
                b == self@,
                b.well_formed(),
                w == b.width,
                0 <= x <= w,
                stones@ == b.stones_before(x as int),
                roots@ == b.roots_before(x as int),
            decreases w - x,
        {
            let mut y: i8 = 0;
            while y < w
                invariant
                    self.wf(),
                    b == self@,
                    b.well_formed(),
                    w == b.width,
                    0 <= x < w,
                    0 <= y <= w,
                    stones@ == b.stones_before(x as int) + b.row_stones(x as int, y as int),
                    roots@ == b.roots_before(x as int) + b.row_roots(x as int, y as int),
                decreases w - y,
            {
                let cell = self.cell(Coord::new(x, y));
                let ghost stones0 = stones@;
                let ghost roots0 = roots@;
                let ghost view = b.cells[x as int][y as int];
                assert(view.well_formed());
                if let Some(color) = cell.color() {
                    let color: i8 = color.index() as i8;
                    stones.push(Stone { x, y, color });
                    let count: usize = cell.root_count();
                    let mut i: usize = 0;
                    while i < count
                        invariant
                            i <= count,
                            count == view.roots.len(),
                            cell@ == view,
                            view.well_formed(),
                            view == b.cells[x as int][y as int],
                            view.color matches Some(c) && c.spec_index() == color,
                            0 <= x <= 18,
                            0 <= y <= 18,
                            roots@ == roots0 + b.cell_roots(x as int, y as int).take(i as int),
                        decreases count - i,
                    {
                        let dir = cell.root(i);
                        assert(view.roots[i as int].valid());
                        roots.push(Root { x1: x, y1: y, x2: x + dir.0, y2: y + dir.1, color });
                        assert(roots@ =~= roots0 + b.cell_roots(x as int, y as int).take(i + 1));
                        i += 1;
                    }
                    assert(b.cell_roots(x as int, y as int).take(count as int) =~= b.cell_roots(
                        x as int,
                        y as int,
                    ));
                } else {
                    assert(roots@ =~= roots0 + b.cell_roots(x as int, y as int));
                }
                proof {
                    assert(stones@ =~= stones0 + b.cell_stones(x as int, y as int));
                    assert(stones@ =~= b.stones_before(x as int) + b.row_stones(x as int, y + 1));
                    assert(roots@ =~= b.roots_before(x as int) + b.row_roots(x as int, y + 1));
                }
                y += 1;
            }
            x += 1;
        }
        BoardJson { stones, roots }
    }

    /// The legal moves of both colors, Red's first, as the user interface reads them.
    pub fn possible_moves_as_json(&self) -> (moves: Vec<PossibleMove>)
        requires
            self.wf(),
        ensures
            moves@ == self@.all_moves(),
    {
        let mut moves: Vec<PossibleMove> = Vec::new();
        let red = self.possible_moves(Color::Red);
        let ghost red_part = red@.map_values(
            |mv: Move| PossibleMove { stones: mv, color: Color::Red },
        );
        let mut i: usize = 0;
        while i < red.len()
            invariant
                i <= red.len(),
                red_part == red@.map_values(
                    |mv: Move| PossibleMove { stones: mv, color: Color::Red },
                ),
                moves@ == red_part.take(i as int),
            decreases red.len() - i,
        {
            moves.push(PossibleMove { stones: red[i], color: Color::Red });
            assert(moves@ =~= red_part.take(i + 1));
            i += 1;
        }
        let blue = self.possible_moves(Color::Blue);
        let ghost blue_part = blue@.map_values(
            |mv: Move| PossibleMove { stones: mv, color: Color::Blue },
        );
        let mut k: usize = 0;
        while k < blue.len()
            invariant
                k <= blue.len(),
                blue_part == blue@.map_values(
                    |mv: Move| PossibleMove { stones: mv, color: Color::Blue },
                ),
                moves@ == red_part + blue_part.take(k as int),
            decreases blue.len() - k,
        {
            moves.push(PossibleMove { stones: blue[k], color: Color::Blue });
            assert(moves@ =~= red_part + blue_part.take(k + 1));
            k += 1;
        }
        assert(moves@ =~= red_part + blue_part);
        moves
    }
}

impl BoardView {
    /// The cell at `(x, y)` is on the board and holds this stone.
    pub open spec fn holds_stone(self, stone: Stone) -> bool {
        &&& 0 <= stone.x < self.width
        &&& 0 <= stone.y < self.width
        &&& self.cells[stone.x as int][stone.y as int].color matches Some(color)
        &&& stone.color == color.spec_index()
    }

    /// The cell at `(x1, y1)` is on the board, holds a stone of the root's color and has
    /// the root among those that leave it.
    pub open spec fn holds_root(self, root: Root) -> bool {
        &&& 0 <= root.x1 < self.width
        &&& 0 <= root.y1 < self.width
        &&& self.cells[root.x1 as int][root.y1 as int].color matches Some(color)
        &&& exists|i: int|
            0 <= i < self.cells[root.x1 as int][root.y1 as int].roots.len() && root
                == #[trigger] root_from(
                root.x1 as int,
                root.y1 as int,
                self.cells[root.x1 as int][root.y1 as int].roots[i],
                color,
            )
    }
}

/// The root seen from its other end.
pub open spec fn turned_round(root: Root) -> Root {
    Root { x1: root.x2, y1: root.y2, x2: root.x1, y2: root.y1, color: root.color }
}

proof fn lemma_row_stones(b: BoardView, x: int, y: int, stone: Stone)
    requires
        4 <= b.width <= 19,
        0 <= x < b.width,
        0 <= y <= b.width,
    ensures
        b.row_stones(x, y).contains(stone) <==> (stone.x == x && stone.y < y && b.holds_stone(
            stone,
        )),
    decreases y,
{
    if y > 0 {
        lemma_row_stones(b, x, y - 1, stone);
        lemma_concat_contains(b.row_stones(x, y - 1), b.cell_stones(x, y - 1), stone);
        let here = b.cell_stones(x, y - 1);
        if here.contains(stone) {
            let i = choose|i: int| 0 <= i < here.len() && here[i] == stone;
        }
        if stone.x == x && stone.y == y - 1 && b.holds_stone(stone) {
            assert(here[0] == stone);
        }
    }
}

proof fn lemma_stones_before(b: BoardView, x: int, stone: Stone)
    requires
        4 <= b.width <= 19,
        0 <= x <= b.width,
    ensures
        b.stones_before(x).contains(stone) <==> (stone.x < x && b.holds_stone(stone)),
    decreases x,
{
    if x > 0 {
        lemma_stones_before(b, x - 1, stone);
        lemma_row_stones(b, x - 1, b.width, stone);
        lemma_concat_contains(b.stones_before(x - 1), b.row_stones(x - 1, b.width), stone);
    }
}

proof fn lemma_row_roots(b: BoardView, x: int, y: int, root: Root)
    requires
        4 <= b.width <= 19,
        0 <= x < b.width,
        0 <= y <= b.width,
    ensures
        b.row_roots(x, y).contains(root) <==> (root.x1 == x && root.y1 < y && b.holds_root(root)),
    decreases y,
{
    if y > 0 {
        lemma_row_roots(b, x, y - 1, root);
        lemma_concat_contains(b.row_roots(x, y - 1), b.cell_roots(x, y - 1), root);
        let here = b.cell_roots(x, y - 1);
        let cell = b.cells[x][y - 1];
        if here.contains(root) {
            let i = choose|i: int| 0 <= i < here.len() && here[i] == root;
            assert(root == root_from(x, y - 1, cell.roots[i], cell.color->0));
        }
        if root.x1 == x && root.y1 == y - 1 && b.holds_root(root) {
            let i = choose|i: int|
                0 <= i < cell.roots.len() && root == #[trigger] root_from(
                    x,
                    y - 1,
                    cell.roots[i],
                    cell.color->0,
                );
            assert(here[i] == root);
        }
    }
}

proof fn lemma_roots_before(b: BoardView, x: int, root: Root)
    requires
        4 <= b.width <= 19,
        0 <= x <= b.width,
    ensures
        b.roots_before(x).contains(root) <==> (root.x1 < x && b.holds_root(root)),
    decreases x,
{
    if x > 0 {
        lemma_roots_before(b, x - 1, root);
        lemma_row_roots(b, x - 1, b.width, root);
        lemma_concat_contains(b.roots_before(x - 1), b.row_roots(x - 1, b.width), root);
    }
}

/// The document lists the stones of the board and nothing else, and the roots of the
/// board and nothing else: every root that leaves a stone, from that stone.
pub proof fn lemma_document_lists_board(b: BoardView)
    requires
        4 <= b.width <= 19,
    ensures
        forall|stone: Stone| #[trigger] b.stones().contains(stone) <==> b.holds_stone(stone),
        forall|root: Root| #[trigger] b.roots().contains(root) <==> b.holds_root(root),
{
    assert forall|stone: Stone| #[trigger] b.stones().contains(stone) <==> b.holds_stone(
        stone,
    ) by {
        lemma_stones_before(b, b.width, stone);
    }
    assert forall|root: Root| #[trigger] b.roots().contains(root) <==> b.holds_root(root) by {
        lemma_roots_before(b, b.width, root);
    }
}

/// The document lists every root from both its ends: with each root it holds the same
/// root seen from the other end, with the same color.
pub proof fn lemma_roots_from_both_ends(b: BoardView, root: Root)
    requires
        b.well_formed(),
        b.roots().contains(root),
    ensures
        b.roots().contains(turned_round(root)),
{
    lemma_document_lists_board(b);
    let x = root.x1 as int;
    let y = root.y1 as int;
    let cell = b.cells[x][y];
    let color = cell.color->0;
    let i = choose|i: int|
        0 <= i < cell.roots.len() && root == #[trigger] root_from(x, y, cell.roots[i], color);
    let d = cell.roots[i];
    let at = Coord { x: root.x1, y: root.y1 };
    assert(cell.well_formed());
    assert(d.valid());
    assert(b.cell(at) == cell);
    assert(b.rooted(at, d));
    assert(b.held_at_both_ends(at, d));
    let to = stepped(at, d);
    let there = b.cell(to);
    let k = choose|k: int| 0 <= k < there.roots.len() && there.roots[k] == d.reversed();
    let back = root_from(to.x as int, to.y as int, there.roots[k], color);
    assert(back == turned_round(root));
    assert(b.holds_root(back));
}

/// How many of the four roots of a move leave a cell of row `x` before column `y`: one
/// leaves the first stone, two the middle stone and one the last.
pub open spec fn roots_laid_in_row(mv: Move, x: int, y: int) -> int {
    (if mv.0.x == x && mv.0.y < y {
        1int
    } else {
        0int
    }) + (if mv.1.x == x && mv.1.y < y {
        2int
    } else {
        0int
    }) + (if mv.2.x == x && mv.2.y < y {
        1int
    } else {
        0int
    })
}

/// How many of the four roots of a move leave a cell of a row before row `x`.
pub open spec fn roots_laid_before(mv: Move, x: int) -> int {
    (if mv.0.x < x {
        1int
    } else {
        0int
    }) + (if mv.1.x < x {
        2int
    } else {
        0int
    }) + (if mv.2.x < x {
        1int
    } else {
        0int
    })
}

proof fn lemma_row_gains_roots(b: BoardView, mv: Move, color: Color, x: int, y: int)
    requires
        b.well_formed(),
        b.legal_move(mv, color),
        0 <= x < b.width,
        0 <= y <= b.width,
    ensures
        b.after_move(mv, color).row_roots(x, y).len() == b.row_roots(x, y).len()
            + roots_laid_in_row(mv, x, y),
    decreases y,
{
    if y > 0 {
        lemma_row_gains_roots(b, mv, color, x, y - 1);
        let a = b.after_move(mv, color);
        assert(a.cells[x][y - 1] == b.cell_after(mv, color, x, y - 1));
        assert(b.cells[x][y - 1].well_formed());
    }
}

proof fn lemma_rows_gain_roots(b: BoardView, mv: Move, color: Color, x: int)
    requires
        b.well_formed(),
        b.legal_move(mv, color),
        0 <= x <= b.width,
    ensures
        b.after_move(mv, color).roots_before(x).len() == b.roots_before(x).len()
            + roots_laid_before(mv, x),
    decreases x,
{
    if x > 0 {
        lemma_rows_gain_roots(b, mv, color, x - 1);
        lemma_row_gains_roots(b, mv, color, x - 1, b.width);
    }
}

/// Every move adds four roots to the document, two for each of its segments, and the
/// document of the first position lists none: after `n` moves it lists `4 * n`.
pub proof fn lemma_four_roots_a_move(b: BoardView, mv: Move, color: Color)
    requires
        b.well_formed(),
        b.legal_move(mv, color),
    ensures
        b.after_move(mv, color).roots().len() == b.roots().len() + 4,
{
    lemma_rows_gain_roots(b, mv, color, b.width);
}

proof fn lemma_fresh_row_roots(width: int, x: int, y: int)
    requires
        4 <= width <= 19,
        0 <= x < width,
        0 <= y <= width,
    ensures
        fresh_board(width).row_roots(x, y).len() == 0,
    decreases y,
{
    if y > 0 {
        lemma_fresh_row_roots(width, x, y - 1);
    }
}

proof fn lemma_fresh_roots_before(width: int, x: int)
    requires
        4 <= width <= 19,
        0 <= x <= width,
    ensures
        fresh_board(width).roots_before(x).len() == 0,
    decreases x,
{
    if x > 0 {
        lemma_fresh_roots_before(width, x - 1);
        lemma_fresh_row_roots(width, x - 1, width);
    }
}

/// The document of the first position lists no root.
pub proof fn lemma_fresh_document(width: int)
    requires
        4 <= width <= 19,
    ensures
        fresh_board(width).roots() == Seq::<Root>::empty(),
{
    lemma_fresh_roots_before(width, width);
    assert(fresh_board(width).roots() =~= Seq::<Root>::empty());
}

proof fn lemma_row_roots_once(b: BoardView, x: int, y: int)
    requires
        b.well_formed(),
        0 <= x < b.width,
        0 <= y <= b.width,
    ensures
        b.row_roots(x, y).no_duplicates(),
    decreases y,
{
    if y > 0 {
        lemma_row_roots_once(b, x, y - 1);
        let before = b.row_roots(x, y - 1);
        let here = b.cell_roots(x, y - 1);
        let cell = b.cells[x][y - 1];
        assert(cell.well_formed());
        assert forall|i: int, j: int| 0 <= i < j < here.len() implies here[i] != here[j] by {
            assert(cell.roots[i].distance(cell.roots[j]) > 1);
            assert(cell.roots[i].valid() && cell.roots[j].valid());
        }
        assert(here.no_duplicates());
        assert forall|i: int, j: int| 0 <= i < before.len() && 0 <= j < here.len() implies before[i]
            != here[j] by {
            lemma_row_roots(b, x, y - 1, before[i]);
            assert(before.contains(before[i]));
        }
        vstd::seq_lib::lemma_no_dup_in_concat(before, here);
    }
}

proof fn lemma_roots_before_once(b: BoardView, x: int)
    requires
        b.well_formed(),
        0 <= x <= b.width,
    ensures
        b.roots_before(x).no_duplicates(),
    decreases x,
{
    if x > 0 {
        lemma_roots_before_once(b, x - 1);
        lemma_row_roots_once(b, x - 1, b.width);
        let before = b.roots_before(x - 1);
        let row = b.row_roots(x - 1, b.width);
        assert forall|i: int, j: int| 0 <= i < before.len() && 0 <= j < row.len() implies before[i]
            != row[j] by {
            lemma_roots_before(b, x - 1, before[i]);
            lemma_row_roots(b, x - 1, b.width, row[j]);
            assert(before.contains(before[i]));
            assert(row.contains(row[j]));
        }
        vstd::seq_lib::lemma_no_dup_in_concat(before, row);
    }
}

/// The roots of the document are the roots of the board as a multiset: every root that
/// leaves a stone is listed once, from that stone, and nothing else is listed.
pub proof fn lemma_roots_listed_once(b: BoardView, root: Root)
    requires
        b.well_formed(),
    ensures
        b.roots().no_duplicates(),
        b.roots().to_multiset().count(root) == if b.holds_root(root) {
            1nat
        } else {
            0nat
        },
{
    lemma_roots_before_once(b, b.width);
    lemma_document_lists_board(b);
    let all = b.roots();
    all.lemma_multiset_has_no_duplicates();
    vstd::seq_lib::to_multiset_contains(all, root);
}

} // verus!
