use rand::rngs::StdRng;
use rand::SeedableRng;
use territory::players::{best_candidate, decide_winner, is_color, take_best, tally};
use territory::{convert_seed, Board, Color, Coord, Move, NaiveMonteCarlo, RandomPlayer};

fn mv(x1: i8, y1: i8, x2: i8, y2: i8, x3: i8, y3: i8) -> Move {
    Move(Coord::new(x1, y1), Coord::new(x2, y2), Coord::new(x3, y3))
}

#[test]
fn seed_from_two_halves() {
    assert_eq!(convert_seed(0, 0), 0);
    assert_eq!(convert_seed(1, 0), 1);
    assert_eq!(convert_seed(0, 1), 4294967296);
    assert_eq!(convert_seed(1, 2), 8589934593);
    assert_eq!(convert_seed(u32::MAX, u32::MAX), u64::MAX);
}

#[test]
fn higher_score_wins() {
    assert_eq!(decide_winner(3, 2), Some(Color::Red));
    assert_eq!(decide_winner(2, 3), Some(Color::Blue));
    assert_eq!(decide_winner(2, 2), None);
    assert_eq!(decide_winner(0, 0), None);
    assert!(is_color(Some(Color::Red), Color::Red));
    assert!(!is_color(Some(Color::Red), Color::Blue));
    assert!(!is_color(None, Color::Blue));
}

#[test]
fn last_of_the_best_candidates() {
    assert_eq!(best_candidate(&vec![0]), 0);
    assert_eq!(best_candidate(&vec![0, 0, 0]), 2);
    assert_eq!(best_candidate(&vec![3, 1, 2]), 0);
    assert_eq!(best_candidate(&vec![1, 3, 3, 2]), 2);
}

#[test]
fn random_player_is_fixed_by_its_seed() {
    let mut first = RandomPlayer::new(Color::Red, 42, 0);
    let mut second = RandomPlayer::new(Color::Red, 42, 0);
    let mut blue = RandomPlayer::new(Color::Blue, 7, 0);
    let mut board = Board::new(9);
    for _ in 0..20 {
        let a = first.play(board.clone());
        let b = second.play(board.clone());
        assert!(a.same_cells(&b));
        assert_eq!(a.to_json().roots, b.to_json().roots);
        board = blue.play(a);
    }
}

#[test]
fn random_player_makes_one_legal_move() {
    let mut player = RandomPlayer::new(Color::Blue, 1, 2);
    assert_eq!(player.color, Color::Blue);
    let board = Board::new(9);
    let moves = board.possible_moves(Color::Blue);
    for _ in 0..10 {
        let next = player.play(board.clone());
        let mut hits = 0;
        for m in moves.iter() {
            let mut expected = board.clone();
            expected.apply_move(*m, Color::Blue);
            if expected.same_cells(&next) {
                hits += 1;
            }
        }
        assert_eq!(hits, 1);
    }
}

#[test]
fn random_player_passes_without_moves() {
    let mut board = Board::new(4);
    board.apply_move(mv(3, 3, 2, 2, 2, 1), Color::Red);
    board.apply_move(mv(2, 1, 1, 0, 0, 0), Color::Red);
    let mut player = RandomPlayer::new(Color::Red, 5, 5);
    let next = player.play(board.clone());
    assert!(next.same_cells(&board));
}

#[test]
fn random_turn_uses_every_move() {
    let board = Board::new(9);
    let moves = board.possible_moves(Color::Red);
    let mut rng = StdRng::seed_from_u64(3);
    let mut seen = vec![false; moves.len()];
    for _ in 0..200 {
        let mut next = board.clone();
        next.random_turn(Color::Red, &mut rng);
        for i in 0..moves.len() {
            let mut expected = board.clone();
            expected.apply_move(moves[i], Color::Red);
            if expected.same_cells(&next) {
                seen[i] = true;
            }
        }
    }
    assert_eq!(seen, vec![true; 4]);
}

#[test]
fn playout_ends_the_game() {
    for seed in 0..10u64 {
        let mut rng = StdRng::seed_from_u64(seed);
        let mut board = Board::new(6);
        let winner = board.playout(Color::Red, &mut rng);
        assert!(board.is_gameover());
        let red = board.score(Color::Red);
        let blue = board.score(Color::Blue);
        assert_eq!(winner, decide_winner(red, blue));
    }
}

#[test]
fn playouts_with_one_seed_agree() {
    let mut first = Board::new(7);
    let mut second = Board::new(7);
    let a = first.playout(Color::Blue, &mut StdRng::seed_from_u64(11));
    let b = second.playout(Color::Blue, &mut StdRng::seed_from_u64(11));
    assert_eq!(a, b);
    assert!(first.same_cells(&second));
}

#[test]
fn naive_player_without_time_takes_the_last_move() {
    let mut player = NaiveMonteCarlo::new(Color::Red, 1, 0, 0);
    assert_eq!(player.color, Color::Red);
    let board = Board::new(9);
    let next = player.play(board.clone());
    let mut expected = board.clone();
    expected.apply_move(mv(8, 8, 7, 7, 7, 6), Color::Red);
    assert!(next.same_cells(&expected));
}

#[test]
fn naive_player_makes_one_legal_move() {
    let mut player = NaiveMonteCarlo::new(Color::Blue, 9, 9, 1);
    let mut board = Board::new(4);
    board.apply_move(mv(3, 3, 2, 2, 2, 1), Color::Red);
    let moves = board.possible_moves(Color::Blue);
    let next = player.play(board.clone());
    let mut hits = 0;
    for m in moves.iter() {
        let mut expected = board.clone();
        expected.apply_move(*m, Color::Blue);
        if expected.same_cells(&next) {
            hits += 1;
        }
    }
    assert_eq!(hits, 1);
}

#[test]
fn naive_player_passes_without_moves() {
    let mut board = Board::new(4);
    board.apply_move(mv(3, 3, 2, 2, 2, 1), Color::Red);
    board.apply_move(mv(2, 1, 1, 0, 0, 0), Color::Red);
    let mut player = NaiveMonteCarlo::new(Color::Red, 5, 5, 1);
    let next = player.play(board.clone());
    assert!(next.same_cells(&board));
}

#[test]
fn a_playout_counts_for_the_player_only() {
    let mut wins = vec![0u32, 5, 7];
    tally(&mut wins, 1, Some(Color::Red), Color::Red);
    assert_eq!(wins, vec![0, 6, 7]);
    tally(&mut wins, 1, Some(Color::Blue), Color::Red);
    assert_eq!(wins, vec![0, 6, 7]);
    tally(&mut wins, 0, None, Color::Red);
    assert_eq!(wins, vec![0, 6, 7]);
    tally(&mut wins, 2, Some(Color::Blue), Color::Blue);
    assert_eq!(wins, vec![0, 6, 8]);
}

#[test]
fn the_board_with_most_wins_is_taken() {
    let board = Board::new(9);
    let moves = board.possible_moves(Color::Red);
    let candidates = |wins: &Vec<u32>| {
        let mut boards = Vec::new();
        for m in moves.iter() {
            let mut next = board.clone();
            next.apply_move(*m, Color::Red);
            boards.push(next);
        }
        take_best(boards, wins)
    };
    let expect = |i: usize| {
        let mut next = board.clone();
        next.apply_move(moves[i], Color::Red);
        next
    };
    assert!(candidates(&vec![1, 4, 2, 0]).same_cells(&expect(1)));
    assert!(candidates(&vec![3, 0, 3, 1]).same_cells(&expect(2)));
    assert!(candidates(&vec![0, 0, 0, 0]).same_cells(&expect(3)));
}

#[test]
fn naive_player_keeps_its_last_counts() {
    let mut player = NaiveMonteCarlo::new(Color::Red, 3, 4, 0);
    assert_eq!(player.estimate(), (0, 0));
    player.play(Board::new(5));
    assert_eq!(player.estimate(), (0, 0));
    let mut player = NaiveMonteCarlo::new(Color::Red, 3, 4, 1);
    player.play(Board::new(4));
    let (wins, samples) = player.estimate();
    assert!(samples > 0);
    assert!(wins <= samples);
}
