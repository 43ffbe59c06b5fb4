use territory::{Board, Color, Coord, Graph, Move};

fn mv(x1: i8, y1: i8, x2: i8, y2: i8, x3: i8, y3: i8) -> Move {
    Move(Coord::new(x1, y1), Coord::new(x2, y2), Coord::new(x3, y3))
}

#[test]
fn untouched_graph_is_one_region() {
    // every node of the untouched graph is linked to the rest, so there is one region,
    // and it has more than four nodes
    for width in 4..20usize {
        let mut graph = Graph::new(width);
        assert_eq!(graph.score(), 1);
    }
    let mut board = Board::new(9);
    assert_eq!(board.score(Color::Red), 1);
    assert_eq!(board.score(Color::Blue), 1);
}

#[test]
fn score_twice_gives_the_same() {
    let mut board = Board::new(5);
    board.apply_move(mv(4, 4, 3, 3, 3, 2), Color::Red);
    board.apply_move(mv(0, 4, 1, 3, 1, 2), Color::Blue);
    board.apply_move(mv(3, 2, 2, 1, 1, 1), Color::Red);
    board.apply_move(mv(1, 3, 2, 4, 3, 4), Color::Blue);
    board.apply_move(mv(1, 1, 0, 2, 0, 3), Color::Red);
    for color in [Color::Red, Color::Blue] {
        let first = board.score(color);
        let second = board.score(color);
        assert_eq!(first, second);
    }
    assert_eq!(board.score(Color::Red), 2);
    assert_eq!(board.score(Color::Blue), 1);
}

#[test]
fn a_region_of_four_nodes_does_not_score() {
    // the two roots cut a region of exactly four nodes out of the sixty-four
    let mut graph = Graph::new(5);
    graph.apply_move(mv(0, 4, 1, 3, 1, 2));
    assert_eq!(graph.score(), 1);
    graph.apply_move(mv(1, 3, 2, 4, 3, 4));
    assert_eq!(graph.score(), 1);
}

#[test]
fn a_closed_line_makes_two_regions() {
    // regions of 12 and of 24 nodes
    let mut graph = Graph::new(4);
    graph.apply_move(mv(3, 3, 2, 2, 2, 1));
    assert_eq!(graph.score(), 1);
    graph.apply_move(mv(2, 1, 1, 0, 0, 0));
    assert_eq!(graph.score(), 2);
    assert_eq!(graph.score(), 2);
}

#[test]
fn only_the_movers_graph_is_cut() {
    let mut board = Board::new(4);
    board.apply_move(mv(3, 3, 2, 2, 2, 1), Color::Red);
    board.apply_move(mv(0, 3, 1, 2, 1, 1), Color::Blue);
    assert_eq!((board.score(Color::Red), board.score(Color::Blue)), (1, 1));
    board.apply_move(mv(2, 1, 1, 0, 0, 0), Color::Red);
    assert_eq!((board.score(Color::Red), board.score(Color::Blue)), (2, 1));
    board.apply_move(mv(1, 1, 2, 0, 3, 0), Color::Blue);
    assert_eq!((board.score(Color::Red), board.score(Color::Blue)), (2, 2));
}

#[test]
fn scores_along_a_game() {
    // `pick` numbers the move among the legal ones; after each move the two scores
    let game: [(Color, usize, u16, u16); 8] = [
        (Color::Red, 3, 1, 1),
        (Color::Blue, 1, 1, 1),
        (Color::Red, 1, 1, 1),
        (Color::Blue, 0, 1, 1),
        (Color::Red, 0, 2, 1),
        (Color::Blue, 0, 2, 1),
        (Color::Blue, 0, 2, 2),
        (Color::Blue, 0, 2, 3),
    ];
    let mut board = Board::new(5);
    for (color, pick, red, blue) in game {
        let before = board.score(color);
        board.apply_nth(color, pick);
        assert_eq!(board.score(Color::Red), red);
        assert_eq!(board.score(Color::Blue), blue);
        assert!(board.score(color) >= before);
    }
    assert!(board.is_gameover());
}

#[test]
fn a_move_never_lowers_the_movers_score() {
    for width in [4usize, 5, 6, 7] {
        for start in 0..6usize {
            let mut board = Board::new(width);
            let mut turn = Color::Red;
            let mut round = start;
            while !board.is_gameover() {
                let moves = board.possible_moves(turn);
                if !moves.is_empty() {
                    let before = board.score(turn);
                    board.apply_move(moves[(round * 5 + start) % moves.len()], turn);
                    assert!(board.score(turn) >= before);
                }
                turn = territory::opponent_of(turn);
                round += 1;
            }
        }
    }
}

#[test]
fn a_new_graph_has_no_labels() {
    let graph = Graph::new(6);
    assert_eq!(graph.node_count(), 100);
    for node in 0..graph.node_count() {
        assert_eq!(graph.region(node), None);
    }
}

#[test]
fn scoring_labels_every_node_by_its_region() {
    let mut graph = Graph::new(4);
    graph.score();
    for node in 0..graph.node_count() {
        assert_eq!(graph.region(node), Some(0));
    }
    graph.apply_move(mv(3, 3, 2, 2, 2, 1));
    // cutting links leaves the labels as they are
    for node in 0..graph.node_count() {
        assert_eq!(graph.region(node), Some(0));
    }
    graph.apply_move(mv(2, 1, 1, 0, 0, 0));
    assert_eq!(graph.score(), 2);
    let mut sizes = vec![0usize; 2];
    for node in 0..graph.node_count() {
        let label = graph.region(node).unwrap() as usize;
        sizes[label] += 1;
    }
    sizes.sort();
    assert_eq!(sizes, vec![12, 24]);
    // the node at the top of the first unit is in the first region found
    assert_eq!(graph.region(0), Some(0));
}
