//! The search tree of the UCT player: every node owns its children, and a playout is
//! recorded along the path that led from the root to the leaf where it started.

use crate::board::Board;
use crate::geometry::{opponent_of, Color, Move};
use crate::players::{is_color, one_turn, playout_outcome};
use crate::rules::{fresh_board, lemma_listed_iff_legal, BoardView};
use rand::rngs::StdRng;
use vstd::prelude::*;

verus! {

/// A node of the tree: the board after the move that led to it, the color to move, and
/// how the playouts through it ended.
pub struct UCTNode {
    win: u32,
    lose: u32,
    samples: u32,
    children: Vec<UCTNode>,
    color: Color,
    board: Board,
}

/// How a turn of the search starts.
pub enum Entry {
    /// The player has no move: the board goes back as it is, and the tree stays.
    Pass(UCTNode),
    /// The tree was moved to the board that the opponent left.
    Found(UCTNode),
    /// No child of the root holds the board.
    Missing,
}

/// Twice the sign of `a / b - c / d` for positive `b` and `d`, as the cross product says.
pub open spec fn margin_less(win1: int, lose1: int, samples1: int, win2: int, lose2: int, samples2: int) -> bool {
    (win1 - lose1) * at_least_one(samples2) < (win2 - lose2) * at_least_one(samples1)
}

pub open spec fn at_least_one(n: int) -> int {
    if n < 1 {
        1
    } else {
        n
    }
}

impl UCTNode {
    /// Playouts through the node that the side that moved into it won.
    pub closed spec fn wins(&self) -> int {
        self.win as int
    }

    /// Playouts through the node that the side to move at it won.
    pub closed spec fn losses(&self) -> int {
        self.lose as int
    }

    /// Playouts through the node.
    pub closed spec fn visits(&self) -> int {
        self.samples as int
    }

    /// The side to move.
    pub closed spec fn turn(&self) -> Color {
        self.color
    }

    pub closed spec fn position(&self) -> BoardView {
        self.board@
    }

    pub closed spec fn branches(&self) -> Seq<UCTNode> {
        self.children@
    }

    /// The boards of `kids` are the boards that follow this position: one for each legal
    /// move of the side to move, in the order of `possible_moves`, or a single one with the
    /// same position where the side has no move and passes.
    pub open spec fn one_per_move(position: BoardView, turn: Color, kids: Seq<UCTNode>) -> bool {
        let moves = position.possible_moves(turn);
        &&& moves.len() > 0 ==> kids.len() == moves.len() && forall|i: int|
            0 <= i < kids.len() ==> (#[trigger] kids[i]).position() == position.after_move(
                moves[i],
                turn,
            )
        &&& moves.len() == 0 ==> kids.len() == 1 && kids[0].position() == position
    }

    /// The node is a leaf, or its children are one per move of the side to move. Every
    /// node of a tree is grown but, at most, its root: the tree of a Red player starts
    /// with a root over the first position that holds that position once more.
    pub closed spec fn grown(&self) -> bool {
        self.children@.len() == 0 || Self::one_per_move(self.board@, self.color, self.children@)
    }

    /// The invariant of the tree: wins and losses are among the playouts, a child was
    /// visited no more often than its parent, the sides alternate, and the board of a
    /// child is the board of its parent after one move of the parent's side, or the same
    /// board, for a pass or below the root that a tree starts with.
    pub closed spec fn wf(&self) -> bool
        decreases self,
    {
        &&& self.board.wf()
        &&& self.win + self.lose <= self.samples
        &&& self.grown() || (self.children@.len() == 1 && self.children@[0].board@ == self.board@)
        &&& forall|i: int|
            0 <= i < self.children@.len() ==> {
                let child = #[trigger] self.children@[i];
                &&& child.wf()
                &&& child.grown()
                &&& child.color == self.color.opponent()
                &&& child.samples <= self.samples
            }
    }

    /// Child `i` is the first whose board has the cells of `board`.
    pub open spec fn first_match(kids: Seq<UCTNode>, board: BoardView, i: int) -> bool {
        &&& 0 <= i < kids.len()
        &&& same_cells(kids[i].position(), board)
        &&& forall|k: int| 0 <= k < i ==> !same_cells((#[trigger] kids[k]).position(), board)
    }

    /// No child has a board with the cells of `board`.
    pub open spec fn no_match(kids: Seq<UCTNode>, board: BoardView) -> bool {
        forall|k: int| 0 <= k < kids.len() ==> !same_cells((#[trigger] kids[k]).position(), board)
    }

    /// In a grown node with children, the board after every legal move of the side to move
    /// is the board of a child.
    pub proof fn lemma_reply_is_child(&self, mv: Move)
        requires
            self.wf(),
            self.grown(),
            self.branches().len() > 0,
            self.position().legal_move(mv, self.turn()),
        ensures
            exists|i: int|
                0 <= i < self.branches().len() && (#[trigger] self.branches()[i]).position()
                    == self.position().after_move(mv, self.turn()),
    {
        self.board.lemma_view();
        lemma_listed_iff_legal(self.board@, self.color, mv);
        let moves = self.board@.possible_moves(self.color);
        let i = choose|i: int| 0 <= i < moves.len() && moves[i] == mv;
        assert(self.children@[i].position() == self.board@.after_move(moves[i], self.color));
    }

    /// `path` leads from the node down to a leaf, from its entry `depth` on.
    pub closed spec fn follows(&self, path: Seq<usize>, depth: int) -> bool
        decreases path.len() - depth,
    {
        if depth < 0 {
            false
        } else if depth >= path.len() {
            self.children@.len() == 0
        } else {
            path[depth] < self.children@.len() && self.children@[path[depth] as int].follows(
                path,
                depth + 1,
            )
        }
    }

    /// The node is a leaf that no playout went through.
    pub closed spec fn untried(&self) -> bool {
        self.samples == 0 && self.win == 0 && self.lose == 0 && self.children@.len() == 0
    }

    /// `kids` are the children that a node with this position and side to move is given:
    /// untried leaves, one for each legal move in the order of `possible_moves`, or a
    /// single one with the same position where there is no move; the other side is to
    /// move at each.
    pub open spec fn first_children(position: BoardView, turn: Color, kids: Seq<UCTNode>) -> bool {
        &&& Self::one_per_move(position, turn, kids)
        &&& forall|i: int|
            0 <= i < kids.len() ==> (#[trigger] kids[i]).untried() && kids[i].turn()
                == turn.opponent()
    }

    /// The node is `before` after one playout along `path`, from entry `depth` on, with
    /// this winner and this threshold: the playout is counted at every node of the path;
    /// the leaf at its end, where the playout started, has its first children if it has
    /// reached the threshold and its game is not over, and is a leaf still if not; and
    /// nothing else has changed.
    pub closed spec fn simulated(
        &self,
        before: &UCTNode,
        path: Seq<usize>,
        depth: int,
        winner: Option<Color>,
        threshold: u32,
    ) -> bool
        decreases path.len() - depth,
    {
        &&& self.recorded(before, winner)
        &&& if depth < 0 {
            false
        } else if depth >= path.len() {
            &&& playout_outcome(before.board@, before.color, winner)
            &&& if threshold <= self.samples && !before.board@.game_over() {
                Self::first_children(before.board@, before.color, self.children@)
            } else {
                self.children@.len() == 0
            }
        } else {
            let next = path[depth] as int;
            &&& self.children@.len() == before.children@.len()
            &&& next < before.children@.len()
            &&& forall|i: int|
                0 <= i < self.children@.len() && i != next ==> #[trigger] self.children@[i]
                    == before.children@[i]
            &&& self.children@[next].simulated(
                &before.children@[next],
                path,
                depth + 1,
                winner,
                threshold,
            )
        }
    }

    /// The node is as `before` but for one more playout with this winner: a win where the
    /// opponent of the side to move won, a loss where the side to move won.
    pub closed spec fn recorded(&self, before: &UCTNode, winner: Option<Color>) -> bool {
        &&& self.samples == before.samples + 1
        &&& self.win == before.win + if winner == Some(before.color.opponent()) {
            1int
        } else {
            0int
        }
        &&& self.lose == before.lose + if winner == Some(before.color) {
            1int
        } else {
            0int
        }
        &&& self.color == before.color
        &&& self.board@ == before.board@
    }

    /// A node without playouts and without children.
    pub fn new(color: Color, board: Board) -> (node: Self)
        requires
            board.wf(),
        ensures
            node.wf(),
            node.wins() == 0,
            node.losses() == 0,
            node.visits() == 0,
            node.turn() == color,
            node.position() == board@,
            node.branches().len() == 0,
    {
        UCTNode { win: 0, lose: 0, samples: 0, children: Vec::new(), color, board }
    }

    pub fn win(&self) -> (n: u32)
        ensures
            n == self.wins(),
    {
        self.win
    }

    pub fn lose(&self) -> (n: u32)
        ensures
            n == self.losses(),
    {
        self.lose
    }

    pub fn samples(&self) -> (n: u32)
        ensures
            n == self.visits(),
    {
        self.samples
    }

    pub fn color(&self) -> (color: Color)
        ensures
            color == self.turn(),
    {
        self.color
    }

    pub fn board(&self) -> (board: &Board)
        ensures
            board@ == self.position(),
            self.wf() ==> board.wf(),
    {
        &self.board
    }

    pub fn child_count(&self) -> (n: usize)
        ensures
            n == self.branches().len(),
    {
        self.children.len()
    }

    pub fn child(&self, i: usize) -> (child: &UCTNode)
        requires
            i < self.branches().len(),
        ensures
            *child == self.branches()[i as int],
            self.wf() ==> child.wf() && child.turn() == self.turn().opponent(),
    {
        &self.children[i]
    }

    /// Whether `path` leads from the node down to a leaf.
    pub fn is_path(&self, path: &Vec<usize>) -> (ok: bool)
        ensures
            ok == self.follows(path@, 0),
    {
        self.is_path_from(path, 0)
    }

    fn is_path_from(&self, path: &Vec<usize>, depth: usize) -> (ok: bool)
        requires
            depth <= path.len(),
        ensures
            ok == self.follows(path@, depth as int),
        decreases path.len() - depth,
    {
        if depth == path.len() {
            self.children.len() == 0
        } else {
            let next: usize = path[depth];
            if next < self.children.len() {
                self.children[next].is_path_from(path, depth + 1)
            } else {
                false
            }
        }
    }

    /// Gives the node its children: one for each legal move of the side to move, in the
    /// order of `possible_moves`; where there is none, a single child with the same board,
    /// for the pass. In either case the other side is to move at the child.
    pub fn expand(&mut self)
        requires
            old(self).wf(),
            old(self).branches().len() == 0,
        ensures
            final(self).wf(),
            final(self).recorded_nothing(old(self)),
            Self::first_children(
                old(self).position(),
                old(self).turn(),
                final(self).branches(),
            ),
    {
        let possible_moves = self.board.possible_moves(self.color);
        let mut k: usize = 0;
        while k < possible_moves.len()
            invariant
                k <= possible_moves.len(),
                self.board.wf(),
                self.win == old(self).win,
                self.lose == old(self).lose,
                self.samples == old(self).samples,
                self.color == old(self).color,
                self.board == old(self).board,
                self.win + self.lose <= self.samples,
                possible_moves@ == self.board@.possible_moves(self.color),
                forall|i: int|
                    0 <= i < possible_moves@.len() ==> self.board@.legal_move(
                        #[trigger] possible_moves@[i],
                        self.color,
                    ),
                self.children@.len() == k,
                forall|i: int|
                    0 <= i < k ==> {
                        let child = #[trigger] self.children@[i];
                        &&& child.wf()
                        &&& child.color == self.color.opponent()
                        &&& child.samples == 0
                        &&& child.win == 0
                        &&& child.lose == 0
                        &&& child.children@.len() == 0
                        &&& child.board@ == self.board@.after_move(possible_moves@[i], self.color)
                    },
            decreases possible_moves.len() - k,
        {
            let mut possible_board: Board = self.board.clone();
            possible_board.apply_move(possible_moves[k], self.color);

            // child node represents opponent's turn
            let child = UCTNode::new(opponent_of(self.color), possible_board);
            self.children.push(child);
            k += 1;
        }

        // handle passed turn
        if self.children.len() == 0 {
            // if passed, the same board is passed to opponent
            let child = UCTNode::new(opponent_of(self.color), self.board.clone());
            self.children.push(child);
        }
    }

    /// Counts and position are those of `before`.
    pub closed spec fn recorded_nothing(&self, before: &UCTNode) -> bool {
        &&& self.samples == before.samples
        &&& self.win == before.win
        &&& self.lose == before.lose
        &&& self.color == before.color
        &&& self.board@ == before.board@
    }

    /// Counts one playout at this node.
    fn record(&mut self, winner: Option<Color>)
        requires
            old(self).samples < u32::MAX,
            old(self).win + old(self).lose <= old(self).samples,
        ensures
            final(self).recorded(old(self), winner),
            final(self).children == old(self).children,
            final(self).board == old(self).board,
            final(self).win + final(self).lose <= final(self).samples,
    {
        if is_color(winner, opponent_of(self.color)) {
            self.win += 1;
        } else if is_color(winner, self.color) {
            // to distinguish draw and lose, it counts both wins and loses
            self.lose += 1;
        }
        self.samples += 1;
    }

    /// Runs one playout from the leaf that `path` leads to, counts it at the leaf and at
    /// every node of the path, and gives the leaf its children once it has `threshold`
    /// playouts and its game is not over. Returns the winner of the playout.
    pub fn simulate(
        &mut self,
        path: &Vec<usize>,
        rng: &mut StdRng,
        expand_threshold: u32,
    ) -> (winner: Option<Color>)
        requires
            old(self).wf(),
            old(self).follows(path@, 0),
            old(self).visits() < u32::MAX,
        ensures
            final(self).wf(),
            final(self).simulated(old(self), path@, 0, winner, expand_threshold),
            final(self).recorded(old(self), winner),
            old(self).grown() ==> final(self).grown(),
            path@.len() > 0 ==> final(self).branches().len() == old(self).branches().len(),
    {
        self.simulate_from(path, 0, rng, expand_threshold)
    }

    fn simulate_from(
        &mut self,
        path: &Vec<usize>,
        depth: usize,
        rng: &mut StdRng,
        expand_threshold: u32,
    ) -> (winner: Option<Color>)
        requires
            old(self).wf(),
            depth <= path.len(),
            old(self).follows(path@, depth as int),
            old(self).samples < u32::MAX,
        ensures
            final(self).wf(),
            final(self).simulated(old(self), path@, depth as int, winner, expand_threshold),
            final(self).recorded(old(self), winner),
            old(self).grown() ==> final(self).grown(),
            depth < path@.len() ==> final(self).children@.len() == old(self).children@.len(),
            depth < path@.len() ==> forall|i: int|
                0 <= i < final(self).children@.len() ==> (#[trigger] final(self).children@[i]).board@
                    == old(self).children@[i].board@,
        decreases path.len() - depth,
    {
        if depth == path.len() {
            let mut board = self.board.clone();
            let winner = board.playout(self.color, rng);
            self.record(winner);
            // do this after `samples += 1`
            if expand_threshold <= self.samples {
                if !self.board.is_gameover() {
                    self.expand();
                }
            }
            winner
        } else {
            let next: usize = path[depth];
            let ghost before = *old(self);
            let winner = self.children[next].simulate_from(path, depth + 1, rng, expand_threshold);
            self.record(winner);
            proof {
                assert forall|i: int| 0 <= i < self.children@.len() implies {
                    let child = #[trigger] self.children@[i];
                    &&& child.wf()
                    &&& child.grown()
                    &&& child.color == self.color.opponent()
                    &&& child.samples <= self.samples
                    &&& child.board@ == before.children@[i].board@
                } by {
                    if i != next {
                        assert(self.children@[i] == before.children@[i]);
                    }
                }
            }
            winner
        }
    }

    /// The first child whose board has the same cells as `board`.
    pub fn find_child(&self, board: &Board) -> (found: Option<usize>)
        requires
            self.wf(),
            board.wf(),
        ensures
            match found {
                Some(i) => i < self.branches().len() && same_cells(
                    self.branches()[i as int].position(),
                    board@,
                ) && forall|k: int|
                    0 <= k < i ==> !same_cells((#[trigger] self.branches()[k]).position(), board@),
                None => forall|k: int|
                    0 <= k < self.branches().len() ==> !same_cells(
                        (#[trigger] self.branches()[k]).position(),
                        board@,
                    ),
            },
    {
        let mut i: usize = 0;
        while i < self.children.len()
            invariant
                i <= self.children.len(),
                self.wf(),
                board.wf(),
                forall|k: int|
                    0 <= k < i ==> !same_cells((#[trigger] self.children@[k]).board@, board@),
            decreases self.children.len() - i,
        {
            assert(self.children@[i as int].wf());
            if self.children[i].board.same_cells(board) {
                return Some(i);
            }
            i += 1;
        }
        None
    }

    /// Child `best` is the one that the search prefers: no child has more wins less losses
    /// per playout, and every later child has less. A child without playouts counts as
    /// zero.
    pub open spec fn prefers(kids: Seq<UCTNode>, best: int) -> bool {
        &&& 0 <= best < kids.len()
        &&& forall|i: int|
            0 <= i < kids.len() ==> !margin_less(
                kids[best].wins(),
                kids[best].losses(),
                kids[best].visits(),
                (#[trigger] kids[i]).wins(),
                kids[i].losses(),
                kids[i].visits(),
            )
        &&& forall|i: int|
            best < i < kids.len() ==> margin_less(
                (#[trigger] kids[i]).wins(),
                kids[i].losses(),
                kids[i].visits(),
                kids[best].wins(),
                kids[best].losses(),
                kids[best].visits(),
            )
    }

    /// The child that the search prefers: the last of those whose wins less losses, per
    /// playout, are greatest.
    pub fn best_child(&self) -> (best: usize)
        requires
            self.wf(),
            self.branches().len() > 0,
        ensures
            Self::prefers(self.branches(), best as int),
    {
        let mut best: usize = 0;
        let mut i: usize = 1;
        while i < self.children.len()
            invariant
                self.wf(),
                1 <= i <= self.children.len(),
                best < i,
                Self::prefers(self.children@.take(i as int), best as int),
            decreases self.children.len() - i,
        {
            assert(self.children@[i as int].wf());
            assert(self.children@[best as int].wf());
            let ghost kids = self.children@.take(i as int);
            let ghost more = self.children@.take(i + 1);
            if !less_margin(&self.children[i], &self.children[best]) {
                proof {
                    assert forall|k: int| 0 <= k < more.len() implies !margin_less(
                        more[i as int].wins(),
                        more[i as int].losses(),
                        more[i as int].visits(),
                        (#[trigger] more[k]).wins(),
                        more[k].losses(),
                        more[k].visits(),
                    ) by {
                        if k < i {
                            assert(kids[k] == more[k]);
                            assert(kids[best as int] == more[best as int]);
                            lemma_margin_transitive(
                                more[k].wins() - more[k].losses(),
                                at_least_one(more[k].visits()),
                                more[best as int].wins() - more[best as int].losses(),
                                at_least_one(more[best as int].visits()),
                                more[i as int].wins() - more[i as int].losses(),
                                at_least_one(more[i as int].visits()),
                            );
                        }
                    }
                }
                best = i;
            } else {
                proof {
                    assert forall|k: int| 0 <= k < more.len() implies !margin_less(
                        more[best as int].wins(),
                        more[best as int].losses(),
                        more[best as int].visits(),
                        (#[trigger] more[k]).wins(),
                        more[k].losses(),
                        more[k].visits(),
                    ) by {
                        if k < i {
                            assert(kids[k] == more[k]);
                            assert(kids[best as int] == more[best as int]);
                        }
                    }
                    assert forall|k: int| best < k < more.len() implies margin_less(
                        (#[trigger] more[k]).wins(),
                        more[k].losses(),
                        more[k].visits(),
                        more[best as int].wins(),
                        more[best as int].losses(),
                        more[best as int].visits(),
                    ) by {
                        if k < i {
                            assert(kids[k] == more[k]);
                            assert(kids[best as int] == more[best as int]);
                        }
                    }
                }
            }
            i += 1;
        }
        assert(self.children@.take(self.children@.len() as int) =~= self.children@);
        best
    }

    /// Makes a child the root of its own tree; the rest of the tree is dropped.
    pub fn into_child(self, i: usize) -> (child: UCTNode)
        requires
            self.wf(),
            i < self.branches().len(),
        ensures
            child == self.branches()[i as int],
            child.wf(),
            child.grown(),
            child.turn() == self.turn().opponent(),
    {
        let mut children = self.children;
        assert(children@[i as int].wf());
        children.swap_remove(i)
    }

    /// Moves the root to the position that the opponent has made: the first child whose
    /// board has the cells of `board` becomes the root, and the rest of the tree is dropped.
    /// Without such a child there is no tree left; in a grown tree with children that does
    /// not happen to the board after a legal move of the side to move.
    pub fn advance(self, board: &Board) -> (next: Option<UCTNode>)
        requires
            self.wf(),
            board.wf(),
        ensures
            match next {
                Some(root) => exists|i: int|
                    Self::first_match(self.branches(), board@, i) && root
                        == #[trigger] self.branches()[i],
                None => Self::no_match(self.branches(), board@),
            },
            next matches Some(root) ==> root.wf() && root.grown() && root.turn()
                == self.turn().opponent(),
            forall|mv: Move|
                self.grown() && self.branches().len() > 0 && #[trigger] self.position().legal_move(
                    mv,
                    self.turn(),
                ) && same_cells(self.position().after_move(mv, self.turn()), board@)
                    ==> next is Some,
    {
        proof {
            assert forall|mv: Move|
                self.grown() && self.branches().len() > 0 && #[trigger] self.position().legal_move(
                    mv,
                    self.turn(),
                ) && same_cells(
                    self.position().after_move(mv, self.turn()),
                    board@,
                ) implies !Self::no_match(self.branches(), board@) by {
                self.lemma_reply_is_child(mv);
            }
        }
        match self.find_child(board) {
            Some(i) => Some(self.into_child(i)),
            None => None,
        }
    }

    /// The start of a turn of the search on the board that the opponent has left: a pass
    /// where the player has no move, with the tree as it was; else the tree moved to that
    /// board; or nothing where the tree does not hold it.
    pub fn enter(self, board: &Board, color: Color) -> (entry: Entry)
        requires
            self.wf(),
            board.wf(),
        ensures
            match entry {
                Entry::Pass(tree) => board@.possible_moves(color).len() == 0 && tree == self,
                Entry::Found(root) => board@.possible_moves(color).len() > 0 && root.wf()
                    && root.grown() && root.turn() == self.turn().opponent() && exists|i: int|
                    Self::first_match(self.branches(), board@, i) && root
                        == #[trigger] self.branches()[i],
                Entry::Missing => board@.possible_moves(color).len() > 0 && Self::no_match(
                    self.branches(),
                    board@,
                ),
            },
    {
        if !board.can_move(color) {
            Entry::Pass(self)
        } else {
            match self.advance(board) {
                Some(root) => Entry::Found(root),
                None => Entry::Missing,
            }
        }
    }

    /// Moves the root to the child that the search prefers; the rest of the tree is
    /// dropped. The board of the new root is the move that the player makes: in a grown
    /// tree it is the board of the old root after one move of the side to move there.
    pub fn commit(self) -> (next: UCTNode)
        requires
            self.wf(),
            self.branches().len() > 0,
        ensures
            next.wf(),
            next.grown(),
            next.turn() == self.turn().opponent(),
            exists|best: int|
                Self::prefers(self.branches(), best) && next == #[trigger] self.branches()[best],
            self.grown() ==> one_turn(self.position(), self.turn(), next.position()),
            one_turn(self.position(), self.turn(), next.position()) || next.position()
                == self.position(),
    {
        let best: usize = self.best_child();
        proof {
            let moves = self.board@.possible_moves(self.color);
            if self.grown() && moves.len() > 0 {
                assert(self.children@[best as int].board@ == self.board@.after_move(
                    moves[best as int],
                    self.color,
                ));
            }
        }
        self.into_child(best)
    }

    /// The tree that a player of `color` starts with on a board of `board_width` lines.
    ///
    /// Red moves first. For a Red player the root is a node above the first position, so
    /// that the first position is found among its children like every later one; for a
    /// Blue player the root is the first position with Red's moves below it.
    pub fn start(color: Color, board_width: usize) -> (root: UCTNode)
        requires
            4 <= board_width <= 19,
        ensures
            root.wf(),
            root.visits() == 0,
            root.wins() == 0,
            root.losses() == 0,
            root.position() == fresh_board(board_width as int),
            color == Color::Red ==> root.turn() == Color::Blue && root.branches().len() == 1
                && root.branches()[0].untried() && root.branches()[0].turn() == Color::Red
                && root.branches()[0].position() == fresh_board(board_width as int),
            color == Color::Blue ==> root.turn() == Color::Red && Self::first_children(
                fresh_board(board_width as int),
                Color::Red,
                root.branches(),
            ),
    {
        match color {
            Color::Red => {
                // we need to init root with a board before starting...
                let mut ancestor = UCTNode::new(Color::Blue, Board::new(board_width));
                let root = UCTNode::new(Color::Red, Board::new(board_width));
                ancestor.children.push(root);
                ancestor
            },
            Color::Blue => {
                let mut root = UCTNode::new(Color::Red, Board::new(board_width));
                root.expand();
                root
            },
        }
    }
}

/// Two boards have the same width and hold the same stones and roots.
pub open spec fn same_cells(a: BoardView, b: BoardView) -> bool {
    a.width == b.width && a.cells == b.cells
}

/// Whether the wins less losses per playout of `a` are less than those of `b`.
fn less_margin(a: &UCTNode, b: &UCTNode) -> (less: bool)
    requires
        a.win + a.lose <= a.samples,
        b.win + b.lose <= b.samples,
    ensures
        less == margin_less(a.wins(), a.losses(), a.visits(), b.wins(), b.losses(), b.visits()),
{
    let na: i128 = a.win as i128 - a.lose as i128;
    let nb: i128 = b.win as i128 - b.lose as i128;
    let da: i128 = if a.samples == 0 {
        1
    } else {
        a.samples as i128
    };
    let db: i128 = if b.samples == 0 {
        1
    } else {
        b.samples as i128
    };
    assert(-0x1_0000_0000_0000_0000 <= na * db <= 0x1_0000_0000_0000_0000) by (nonlinear_arith)
        requires
            -0x1_0000_0000 <= na <= 0x1_0000_0000,
            1 <= db <= 0x1_0000_0000,
    ;
    assert(-0x1_0000_0000_0000_0000 <= nb * da <= 0x1_0000_0000_0000_0000) by (nonlinear_arith)
        requires
            -0x1_0000_0000 <= nb <= 0x1_0000_0000,
            1 <= da <= 0x1_0000_0000,
    ;
    na * db < nb * da
}

/// Fractions with positive denominators are ordered transitively.
proof fn lemma_margin_transitive(n1: int, d1: int, n2: int, d2: int, n3: int, d3: int)
    requires
        d1 > 0,
        d2 > 0,
        d3 > 0,
        n1 * d2 <= n2 * d1,
        n2 * d3 <= n3 * d2,
    ensures
        n1 * d3 <= n3 * d1,
{
    assert(n1 * d2 * d3 <= n2 * d1 * d3) by (nonlinear_arith)
        requires
            n1 * d2 <= n2 * d1,
            d3 > 0,
    ;
    assert(n2 * d3 * d1 <= n3 * d2 * d1) by (nonlinear_arith)
        requires
            n2 * d3 <= n3 * d2,
            d1 > 0,
    ;
    assert(n1 * d3 <= n3 * d1) by (nonlinear_arith)
        requires
            n1 * d2 * d3 <= n2 * d1 * d3,
            n2 * d3 * d1 <= n3 * d2 * d1,
            d2 > 0,
    ;
}

} // verus!
