//! Random playouts and the two players that need nothing else: one that moves at random,
//! and one that tries every move with random playouts for a while.

use crate::board::Board;
use crate::geometry::{opponent_of, Color};
use crate::rules::{lemma_move_fills, BoardView};
use crate::sources::{elapsed, now, random_below, seeded_rng, whole_secs};
use rand::rngs::StdRng;
use vstd::prelude::*;

verus! {

/// The winner for two scores: the color with the higher one, nobody where they are equal.
pub open spec fn winner_of(red: int, blue: int) -> Option<Color> {
    if blue < red {
        Some(Color::Red)
    } else if red < blue {
        Some(Color::Blue)
    } else {
        None
    }
}

/// The winner for the two scores of a finished game.
pub fn decide_winner(red_score: u16, blue_score: u16) -> (winner: Option<Color>)
    ensures
        winner == winner_of(red_score as int, blue_score as int),
{
    if blue_score < red_score {
        Some(Color::Red)
    } else if red_score < blue_score {
        Some(Color::Blue)
    } else {
        None
    }
}

/// The seed that two 32-bit halves make: `seed0` is the low half.
pub open spec fn seed_of(seed0: u32, seed1: u32) -> u64 {
    (seed0 + seed1 * 0x1_0000_0000) as u64
}

/// Joins the two halves of a seed: `seed0 + seed1 * 2^32`.
pub fn convert_seed(seed0: u32, seed1: u32) -> (seed: u64)
    ensures
        seed == seed_of(seed0, seed1),
{
    let high: u64 = (seed1 as u64) << 32;
    assert(high == seed1 * 0x1_0000_0000) by (bit_vector)
        requires
            high == (seed1 as u64) << 32,
    ;
    (seed0 as u64) + high
}

/// The board is `start` after one of the moves of `turn`, or `start` itself where `turn`
/// has none.
pub open spec fn one_turn(start: BoardView, turn: Color, end: BoardView) -> bool {
    let moves = start.possible_moves(turn);
    if moves.len() == 0 {
        end == start
    } else {
        exists|i: int| 0 <= i < moves.len() && end == #[trigger] start.after_move(moves[i], turn)
    }
}

/// The color that moves after `n` turns, where `first` moved first.
pub open spec fn mover_after(first: Color, n: int) -> Color {
    if n % 2 == 0 {
        first
    } else {
        first.opponent()
    }
}

/// Board `i + 1` of the record comes from board `i` by one turn of the side to move.
pub open spec fn turn_taken(boards: Seq<BoardView>, first: Color, i: int) -> bool {
    one_turn(boards[i], mover_after(first, i), boards[i + 1])
}

/// `boards` records a run of play from `start` to `end`: the sides take turns, `first`
/// moving first, and each board comes from the one before by one turn.
pub open spec fn play_record(
    boards: Seq<BoardView>,
    first: Color,
    start: BoardView,
    end: BoardView,
) -> bool {
    &&& boards.len() > 0
    &&& boards[0] == start
    &&& boards[boards.len() - 1] == end
    &&& forall|i: int| 0 <= i < boards.len() - 1 ==> #[trigger] turn_taken(boards, first, i)
}

/// `winner` is a possible outcome of playing on from `start` with `first` to move: some run
/// of turns leads to a board where the game is over and whose scores name this winner.
pub open spec fn playout_outcome(start: BoardView, first: Color, winner: Option<Color>) -> bool {
    exists|boards: Seq<BoardView>, end: BoardView|
        {
            &&& #[trigger] play_record(boards, first, start, end)
            &&& end.game_over()
            &&& winner == winner_of(end.score(Color::Red) as int, end.score(Color::Blue) as int)
        }
}

impl Board {
    /// Makes the `pick`-th of the legal moves of `turn`.
    pub fn apply_nth(&mut self, turn: Color, pick: usize)
        requires
            old(self).wf(),
            pick < old(self)@.possible_moves(turn).len(),
        ensures
            final(self).wf(),
            final(self)@ == old(self)@.after_move(
                old(self)@.possible_moves(turn)[pick as int],
                turn,
            ),
    {
        let moves = self.possible_moves(turn);
        self.apply_move(moves[pick], turn);
    }

    /// Makes one of the legal moves of `turn`, chosen at random; passes where there is none.
    pub fn random_turn(&mut self, turn: Color, rng: &mut StdRng)
        requires
            old(self).wf(),
        ensures
            final(self).wf(),
            old(self)@.well_formed(),
            one_turn(old(self)@, turn, final(self)@),
    {
        proof {
            self.lemma_view();
        }
        let moves = self.possible_moves(turn);
        if moves.len() > 0 {
            let pick: usize = random_below(rng, moves.len());
            self.apply_move(moves[pick], turn);
        }
    }

    /// Plays at random to the end and names the winner: the color with the higher score on
    /// the final board. The sides take turns, `init_turn` first, and a side without a move
    /// passes; after every second turn the game stops if it is over.
    pub fn playout(&mut self, init_turn: Color, rng: &mut StdRng) -> (winner: Option<Color>)
        requires
            old(self).wf(),
        ensures
            final(self).wf(),
            final(self)@.width == old(self)@.width,
            final(self)@.game_over(),
            final(self)@.empty_cells() <= old(self)@.empty_cells(),
            exists|boards: Seq<BoardView>|
                boards.len() % 2 == 1 && #[trigger] play_record(
                    boards,
                    init_turn,
                    old(self)@,
                    final(self)@,
                ),
            winner == winner_of(
                final(self)@.score(Color::Red) as int,
                final(self)@.score(Color::Blue) as int,
            ),
            playout_outcome(old(self)@, init_turn, winner),
    {
        let next_turn = opponent_of(init_turn);
        let ghost mut boards: Seq<BoardView> = seq![self@];
        while !self.is_gameover()
            invariant
                self.wf(),
                self@.width == old(self)@.width,
                self@.empty_cells() <= old(self)@.empty_cells(),
                next_turn == init_turn.opponent(),
                boards.len() % 2 == 1,
                play_record(boards, init_turn, old(self)@, self@),
            decreases self@.empty_cells(),
        {
            let ghost start = self@;
            self.random_turn(init_turn, rng);
            let ghost middle = self@;
            self.random_turn(next_turn, rng);
            proof {
                lemma_turn_fills(start, init_turn, middle);
                lemma_turn_fills(middle, next_turn, self@);
                let longer = boards.push(middle).push(self@);
                assert forall|i: int| 0 <= i < longer.len() - 1 implies #[trigger] turn_taken(
                    longer,
                    init_turn,
                    i,
                ) by {
                    if i < boards.len() - 1 {
                        assert(turn_taken(boards, init_turn, i));
                    }
                }
                boards = longer;
            }
        }
        let red_score = self.score(Color::Red);
        let blue_score = self.score(Color::Blue);
        assert(play_record(boards, init_turn, old(self)@, self@));
        decide_winner(red_score, blue_score)
    }
}

/// A turn fills a cell unless it is a pass.
pub proof fn lemma_turn_fills(start: BoardView, turn: Color, end: BoardView)
    requires
        start.well_formed(),
        one_turn(start, turn, end),
    ensures
        end.width == start.width,
        end.empty_cells() <= start.empty_cells(),
        start.possible_moves(turn).len() > 0 ==> end.empty_cells() < start.empty_cells(),
{
    let moves = start.possible_moves(turn);
    if moves.len() > 0 {
        let i = choose|i: int| 0 <= i < moves.len() && end == #[trigger] start.after_move(moves[i], turn);
        assert(moves.contains(moves[i]));
        crate::rules::lemma_listed_iff_legal(start, turn, moves[i]);
        lemma_move_fills(start, moves[i], turn);
    }
}

/// A player that makes a random legal move.
pub struct RandomPlayer {
    pub color: Color,
    rng: StdRng,
}

impl RandomPlayer {
    /// The color that the player moves for.
    pub closed spec fn playing(&self) -> Color {
        self.color
    }

    /// A player of `color` whose choices the seed `seed0 + seed1 * 2^32` fixes.
    pub fn new(color: Color, seed0: u32, seed1: u32) -> (player: Self)
        ensures
            player.playing() == color,
    {
        let seed = convert_seed(seed0, seed1);
        RandomPlayer { color, rng: seeded_rng(seed) }
    }

    /// The board after one random legal move of the player's color; the board as it is
    /// where the color has no move.
    pub fn play(&mut self, board: Board) -> (next: Board)
        requires
            board.wf(),
        ensures
            next.wf(),
            one_turn(board@, old(self).playing(), next@),
            final(self).playing() == old(self).playing(),
    {
        let mut board = board;
        board.random_turn(self.color, &mut self.rng);
        board
    }
}

/// The index that wins among the candidates: the last of those with the most wins.
pub open spec fn is_best(wins: Seq<u32>, best: int) -> bool {
    &&& 0 <= best < wins.len()
    &&& forall|i: int| 0 <= i < wins.len() ==> wins[i] <= wins[best]
    &&& forall|i: int| best < i < wins.len() ==> wins[i] < wins[best]
}

/// The candidate to play, given how often each has won.
pub fn best_candidate(wins: &Vec<u32>) -> (best: usize)
    requires
        wins@.len() > 0,
    ensures
        is_best(wins@, best as int),
{
    let mut best: usize = 0;
    let mut i: usize = 1;
    while i < wins.len()
        invariant
            1 <= i <= wins.len(),
            best < i,
            forall|k: int| 0 <= k < i ==> wins@[k] <= wins@[best as int],
            forall|k: int| best < k < i ==> wins@[k] < wins@[best as int],
        decreases wins.len() - i,
    {
        if wins[i] >= wins[best] {
            best = i;
        }
        i += 1;
    }
    best
}

/// How often candidate `c` won for `color` in the rounds of playouts that `rounds`
/// records: round by round, the winner of the playout of each candidate.
pub open spec fn won(rounds: Seq<Seq<Option<Color>>>, c: int, color: Color) -> nat
    decreases rounds.len(),
{
    if rounds.len() == 0 {
        0
    } else {
        won(rounds.drop_last(), c, color) + if rounds.last()[c] == Some(color) {
            1nat
        } else {
            0nat
        }
    }
}

/// `round` holds the winners of one round of playouts on `board`: one playout for each
/// legal move of `color`, started on the board after that move with `color` to move.
pub open spec fn round_played(board: BoardView, color: Color, round: Seq<Option<Color>>) -> bool {
    let moves = board.possible_moves(color);
    &&& round.len() == moves.len()
    &&& forall|c: int|
        0 <= c < moves.len() ==> playout_outcome(
            board.after_move(moves[c], color),
            color,
            #[trigger] round[c],
        )
}

/// `rounds` records a search of the naive player on `board`: round by round, the winners
/// of one playout for each legal move of `color`.
pub open spec fn search_record(
    board: BoardView,
    color: Color,
    rounds: Seq<Seq<Option<Color>>>,
) -> bool {
    forall|r: int| 0 <= r < rounds.len() ==> round_played(board, color, #[trigger] rounds[r])
}

/// `wins` are the counts that the rounds give, candidate by candidate.
pub open spec fn counts_of(wins: Seq<u32>, rounds: Seq<Seq<Option<Color>>>, color: Color) -> bool {
    forall|c: int| 0 <= c < wins.len() ==> (#[trigger] wins[c]) == won(rounds, c, color)
}

/// The board is what the naive player makes of `board` after the search that `rounds`
/// records: the board after the move that won most often, the last of them where several
/// won as often. The estimate is how often that move won, and the number of rounds.
pub open spec fn naive_choice(
    board: BoardView,
    color: Color,
    rounds: Seq<Seq<Option<Color>>>,
    next: BoardView,
    estimate: (u32, u32),
) -> bool {
    let moves = board.possible_moves(color);
    exists|wins: Seq<u32>, best: int|
        wins.len() == moves.len() && counts_of(wins, rounds, color) && #[trigger] is_best(
            wins,
            best,
        ) && next == board.after_move(moves[best], color) && estimate == (
            wins[best],
            rounds.len() as u32,
        )
}

/// A player that tries each legal move with random playouts until its time is up, and
/// makes the move that won most often.
pub struct NaiveMonteCarlo {
    pub color: Color,
    rng: StdRng,
    time_limit: u64,
    top_wins: u32,
    samples: u32,
}

/// Counts one playout of candidate `c`: its count rises by one if the player's color won,
/// and stays as it is if the other color won or nobody did.
pub fn tally(wins: &mut Vec<u32>, c: usize, winner: Option<Color>, color: Color)
    requires
        c < old(wins)@.len(),
        old(wins)@[c as int] < u32::MAX,
    ensures
        final(wins)@ == old(wins)@.update(
            c as int,
            if winner == Some(color) {
                (old(wins)@[c as int] + 1) as u32
            } else {
                old(wins)@[c as int]
            },
        ),
{
    if is_color(winner, color) {
        let count: u32 = wins[c];
        wins.set(c, count + 1);
    }
    assert(wins@ =~= old(wins)@.update(
        c as int,
        if winner == Some(color) {
            (old(wins)@[c as int] + 1) as u32
        } else {
            old(wins)@[c as int]
        },
    ));
}

/// The board of the candidate that won most often, the last of them where several won as
/// often.
pub fn take_best(boards: Vec<Board>, wins: &Vec<u32>) -> (next: Board)
    requires
        wins@.len() > 0,
        boards@.len() == wins@.len(),
    ensures
        exists|best: int| is_best(wins@, best) && next == #[trigger] boards@[best],
{
    let best: usize = best_candidate(wins);
    let mut boards = boards;
    boards.swap_remove(best)
}

impl NaiveMonteCarlo {
    /// A player of `color` with the seed `seed0 + seed1 * 2^32` that thinks for `timelimit`
    /// seconds.
    pub fn new(color: Color, seed0: u32, seed1: u32, timelimit: u32) -> (player: Self)
        ensures
            player.playing() == color,
            player.time_limit() == timelimit,
    {
        let seed = convert_seed(seed0, seed1);
        NaiveMonteCarlo {
            color,
            rng: seeded_rng(seed),
            time_limit: timelimit as u64,
            top_wins: 0,
            samples: 0,
        }
    }

    /// How the last search ended: the playouts that the move it made had won, and the
    /// playouts that each candidate had been given. `play` says what they are.
    pub fn estimate(&self) -> (counts: (u32, u32))
        ensures
            counts == self.last_estimate(),
    {
        (self.top_wins, self.samples)
    }

    pub closed spec fn last_estimate(&self) -> (u32, u32) {
        (self.top_wins, self.samples)
    }

    /// The color that the player moves for.
    pub closed spec fn playing(&self) -> Color {
        self.color
    }

    /// Seconds of thinking per move.
    pub closed spec fn time_limit(&self) -> u64 {
        self.time_limit
    }

    /// The board after the move of the player's color that won the most playouts, the
    /// last of them where several won as often; the board as it is where the color has no
    /// move. The search runs in rounds until the time is up: in each round every legal move
    /// has one playout from the board after it, and the playout counts for the move if the
    /// player's color won it. Without time to think no round is run, and the last legal
    /// move is made.
    pub fn play(&mut self, board: Board) -> (next: Board)
        requires
            board.wf(),
        ensures
            next.wf(),
            one_turn(board@, old(self).playing(), next@),
            board@.possible_moves(old(self).playing()).len() > 0 ==> exists|
                rounds: Seq<Seq<Option<Color>>>,
            |
                search_record(board@, old(self).playing(), rounds) && #[trigger] naive_choice(
                    board@,
                    old(self).playing(),
                    rounds,
                    next@,
                    final(self).last_estimate(),
                ),
            old(self).time_limit() == 0 && board@.possible_moves(old(self).playing()).len() > 0
                ==> next@ == board@.after_move(
                board@.possible_moves(old(self).playing()).last(),
                old(self).playing(),
            ),
            final(self).playing() == old(self).playing(),
            final(self).time_limit() == old(self).time_limit(),
    {
        let moves = board.possible_moves(self.color);
        let mut boards: Vec<Board> = Vec::new();
        let mut wins: Vec<u32> = Vec::new();
        let mut k: usize = 0;
        while k < moves.len()
            invariant
                k <= moves.len(),
                board.wf(),
                moves@ == board@.possible_moves(self.color),
                forall|i: int| 0 <= i < moves@.len() ==> board@.legal_move(#[trigger] moves@[i], self.color),
                boards.len() == k,
                wins.len() == k,
                forall|i: int|
                    0 <= i < k ==> (#[trigger] boards[i]).wf() && boards[i]@ == board@.after_move(
                        moves@[i],
                        self.color,
                    ),
                forall|i: int| 0 <= i < k ==> wins@[i] == 0,
            decreases moves.len() - k,
        {
            let mut cand_board = board.clone();
            cand_board.apply_move(moves[k], self.color);
            boards.push(cand_board);
            wins.push(0);
            k += 1;
        }

        if boards.len() == 0 {
            return board;
        }
        assert(counts_of(wins@, Seq::<Seq<Option<Color>>>::empty(), self.color));
        let start = now();
        let mut samples: u32 = 0;
        let ghost mut rounds: Seq<Seq<Option<Color>>> = Seq::empty();
        while samples < u32::MAX && whole_secs(&elapsed(&start)) < self.time_limit
            invariant
                board.wf(),
                moves@ == board@.possible_moves(self.color),
                rounds.len() == samples,
                search_record(board@, self.color, rounds),
                counts_of(wins@, rounds, self.color),
                boards.len() == wins.len(),
                boards.len() == moves.len(),
                boards.len() > 0,
                self.color == old(self).color,
                self.time_limit == old(self).time_limit,
                forall|i: int|
                    0 <= i < boards.len() ==> (#[trigger] boards[i]).wf() && boards[i]@
                        == board@.after_move(moves@[i], self.color),
                forall|i: int| 0 <= i < wins.len() ==> wins@[i] <= samples,
                self.time_limit == 0 ==> samples == 0,
            decreases u32::MAX - samples,
        {
            let mut c: usize = 0;
            let ghost mut round: Seq<Option<Color>> = Seq::empty();
            while c < boards.len()
                invariant
                    c <= boards.len(),
                    round.len() == c,
                    moves@ == board@.possible_moves(self.color),
                    forall|i: int|
                        0 <= i < c ==> playout_outcome(
                            board@.after_move(#[trigger] moves@[i], self.color),
                            self.color,
                            round[i],
                        ),
                    forall|i: int|
                        0 <= i < c ==> (#[trigger] wins@[i]) == won(rounds, i, self.color) + if round[i]
                            == Some(self.color) {
                            1nat
                        } else {
                            0nat
                        },
                    forall|i: int|
                        c <= i < wins.len() ==> (#[trigger] wins@[i]) == won(rounds, i, self.color),
                    boards.len() == wins.len(),
                    boards.len() == moves.len(),
                    samples < u32::MAX,
                    self.color == old(self).color,
                    self.time_limit == old(self).time_limit,
                    forall|i: int|
                        0 <= i < boards.len() ==> (#[trigger] boards[i]).wf() && boards[i]@
                            == board@.after_move(moves@[i], self.color),
                    forall|i: int| 0 <= i < c ==> wins@[i] <= samples + 1,
                    forall|i: int| c <= i < wins.len() ==> wins@[i] <= samples,
                decreases boards.len() - c,
            {
                let mut tmp = boards[c].clone();
                let winner = tmp.playout(self.color, &mut self.rng);
                tally(&mut wins, c, winner, self.color);
                proof {
                    round = round.push(winner);
                }
                c += 1;
            }
            proof {
                let longer = rounds.push(round);
                assert(longer.drop_last() =~= rounds);
                assert(round_played(board@, self.color, round)) by {
                    let listed = board@.possible_moves(self.color);
                    assert forall|i: int| 0 <= i < listed.len() implies playout_outcome(
                        board@.after_move(listed[i], self.color),
                        self.color,
                        #[trigger] round[i],
                    ) by {
                        assert(listed[i] == moves@[i]);
                    }
                }
                assert forall|r: int| 0 <= r < longer.len() implies round_played(
                    board@,
                    self.color,
                    #[trigger] longer[r],
                ) by {
                    if r < rounds.len() {
                        assert(longer[r] == rounds[r]);
                    }
                }
                assert forall|i: int| 0 <= i < wins@.len() implies (#[trigger] wins@[i]) == won(
                    longer,
                    i,
                    self.color,
                ) by {
                    assert(longer.last() == round);
                }
                rounds = longer;
            }
            samples += 1;
        }
        let top: usize = best_candidate(&wins);
        self.top_wins = wins[top];
        self.samples = samples;
        let next = take_best(boards, &wins);
        proof {
            let best = choose|best: int| is_best(wins@, best) && next == #[trigger] boards@[best];
            if self.time_limit == 0 && best < wins.len() - 1 {
                assert(wins@[wins.len() - 1] < wins@[best]);
            }
            assert(is_best(wins@, best) && next@ == board@.after_move(moves@[best], self.color));
            assert(wins@[best] == wins@[top as int]);
            assert(naive_choice(board@, self.color, rounds, next@, self.last_estimate()));
        }
        next
    }
}

/// Whether the winner is the color.
pub fn is_color(winner: Option<Color>, color: Color) -> (same: bool)
    ensures
        same == (winner == Some(color)),
{
    match winner {
        Some(c) => c == color,
        None => false,
    }
}

} // verus!
