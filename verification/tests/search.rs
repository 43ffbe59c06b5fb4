use rand::rngs::StdRng;
use rand::SeedableRng;
use territory::{Board, Color, Coord, Entry, Move, UCTNode};

fn mv(x1: i8, y1: i8, x2: i8, y2: i8, x3: i8, y3: i8) -> Move {
    Move(Coord::new(x1, y1), Coord::new(x2, y2), Coord::new(x3, y3))
}

/// Descends by always taking the child with the fewest playouts, the first among equals.
fn least_visited_path(root: &UCTNode) -> Vec<usize> {
    let mut path = Vec::new();
    let mut node = root;
    while node.child_count() > 0 {
        let mut pick = 0;
        for i in 1..node.child_count() {
            if node.child(i).samples() < node.child(pick).samples() {
                pick = i;
            }
        }
        path.push(pick);
        node = node.child(pick);
    }
    path
}

#[test]
fn new_node_is_a_leaf() {
    let node = UCTNode::new(Color::Blue, Board::new(5));
    assert_eq!(node.win(), 0);
    assert_eq!(node.lose(), 0);
    assert_eq!(node.samples(), 0);
    assert_eq!(node.color(), Color::Blue);
    assert_eq!(node.child_count(), 0);
    assert!(node.board().same_cells(&Board::new(5)));
    assert!(node.is_path(&vec![]));
    assert!(!node.is_path(&vec![0]));
}

#[test]
fn tree_of_a_red_player_starts_above_the_first_position() {
    let root = UCTNode::start(Color::Red, 9);
    assert_eq!(root.color(), Color::Blue);
    assert_eq!(root.child_count(), 1);
    assert_eq!(root.child(0).color(), Color::Red);
    assert_eq!(root.child(0).child_count(), 0);
    assert!(root.child(0).board().same_cells(&Board::new(9)));
    assert_eq!(root.find_child(&Board::new(9)), Some(0));
}

#[test]
fn tree_of_a_blue_player_starts_with_reds_moves() {
    let root = UCTNode::start(Color::Blue, 9);
    let board = Board::new(9);
    let moves = board.possible_moves(Color::Red);
    assert_eq!(root.color(), Color::Red);
    assert_eq!(root.child_count(), moves.len());
    for i in 0..moves.len() {
        let mut expected = board.clone();
        expected.apply_move(moves[i], Color::Red);
        assert!(root.child(i).board().same_cells(&expected));
        assert_eq!(root.child(i).color(), Color::Blue);
        assert_eq!(root.child(i).samples(), 0);
        assert_eq!(root.find_child(&expected), Some(i));
    }
    assert_eq!(root.find_child(&board), None);
}

#[test]
fn expand_gives_a_pass_child_without_moves() {
    let mut board = Board::new(4);
    board.apply_move(mv(3, 3, 2, 2, 2, 1), Color::Red);
    board.apply_move(mv(2, 1, 1, 0, 0, 0), Color::Red);
    let mut node = UCTNode::new(Color::Red, board.clone());
    node.expand();
    assert_eq!(node.child_count(), 1);
    assert_eq!(node.child(0).color(), Color::Blue);
    assert!(node.child(0).board().same_cells(&board));
}

#[test]
fn a_playout_is_counted_along_the_path() {
    let mut rng = StdRng::seed_from_u64(5);
    let mut root = UCTNode::start(Color::Blue, 5);
    let path = vec![2];
    assert!(root.is_path(&path));
    assert!(!root.is_path(&vec![]));
    assert!(!root.is_path(&vec![4]));
    assert!(!root.is_path(&vec![2, 0]));
    let winner = root.simulate(&path, &mut rng, 1);
    assert_eq!(root.samples(), 1);
    assert_eq!(root.child(2).samples(), 1);
    // the root is Red's turn: a win of Blue is a win at the root, and a loss below it
    let (root_win, root_lose, leaf_win, leaf_lose) = match winner {
        Some(Color::Blue) => (1, 0, 0, 1),
        Some(Color::Red) => (0, 1, 1, 0),
        None => (0, 0, 0, 0),
    };
    assert_eq!((root.win(), root.lose()), (root_win, root_lose));
    assert_eq!((root.child(2).win(), root.child(2).lose()), (leaf_win, leaf_lose));
    for i in [0usize, 1, 3] {
        assert_eq!(root.child(i).samples(), 0);
        assert_eq!(root.child(i).child_count(), 0);
    }
    // the leaf reached the threshold of one playout and has its children now
    let leaf = root.child(2);
    assert_eq!(leaf.child_count(), leaf.board().possible_moves(Color::Blue).len());
    assert!(leaf.child_count() > 0);
}

#[test]
fn a_leaf_below_the_threshold_stays_a_leaf() {
    let mut rng = StdRng::seed_from_u64(6);
    let mut root = UCTNode::start(Color::Blue, 5);
    root.simulate(&vec![0], &mut rng, 3);
    root.simulate(&vec![0], &mut rng, 3);
    assert_eq!(root.child(0).samples(), 2);
    assert_eq!(root.child(0).child_count(), 0);
    root.simulate(&vec![0], &mut rng, 3);
    assert_eq!(root.child(0).samples(), 3);
    assert!(root.child(0).child_count() > 0);
    assert_eq!(root.samples(), 3);
}

#[test]
fn counts_add_up_after_many_playouts() {
    let mut rng = StdRng::seed_from_u64(8);
    let mut root = UCTNode::start(Color::Blue, 5);
    for _ in 0..200 {
        let path = least_visited_path(&root);
        assert!(root.is_path(&path));
        root.simulate(&path, &mut rng, 2);
    }
    assert_eq!(root.samples(), 200);
    fn check(node: &UCTNode) {
        assert!(node.win() + node.lose() <= node.samples());
        let mut below = 0;
        for i in 0..node.child_count() {
            let child = node.child(i);
            assert_eq!(child.color(), territory::opponent_of(node.color()));
            assert!(child.samples() <= node.samples());
            below += child.samples();
            check(child);
        }
        assert!(below <= node.samples());
    }
    check(&root);
    let best = root.best_child();
    let margin = |n: &UCTNode| {
        if n.samples() == 0 {
            0.0
        } else {
            (n.win() as f64 - n.lose() as f64) / n.samples() as f64
        }
    };
    for i in 0..root.child_count() {
        assert!(margin(root.child(i)) <= margin(root.child(best)) + 1e-12);
    }
}

#[test]
fn best_child_is_the_last_of_the_best() {
    let root = UCTNode::start(Color::Blue, 5);
    // no child has a playout: all are equal, and the last one is taken
    assert_eq!(root.best_child(), root.child_count() - 1);
}

#[test]
fn tree_is_reused_over_turns() {
    let mut rng = StdRng::seed_from_u64(12);
    let b0 = Board::new(5);
    let root = UCTNode::start(Color::Red, 5);
    // Red's turn: the present board is the child of the root
    let found = root.find_child(&b0).unwrap();
    let mut root = root.into_child(found);
    assert_eq!(root.color(), Color::Red);
    for _ in 0..300 {
        let path = least_visited_path(&root);
        root.simulate(&path, &mut rng, 2);
    }
    assert!(root.child_count() > 0);
    let best = root.best_child();
    let visits = root.child(best).samples();
    let root = root.into_child(best);
    assert_eq!(root.color(), Color::Blue);
    assert_eq!(root.samples(), visits);
    let b1 = root.board().clone();
    assert!(root.child_count() > 0);

    // Blue answers with a legal move: the board is among the children of the new root
    let answers = b1.possible_moves(Color::Blue);
    for answer in answers.iter() {
        let mut b2 = b1.clone();
        b2.apply_move(*answer, Color::Blue);
        let at = root.find_child(&b2).unwrap();
        assert!(root.child(at).board().same_cells(&b2));
        assert_eq!(root.child(at).color(), Color::Red);
    }
    let mut b2 = b1.clone();
    b2.apply_move(answers[0], Color::Blue);
    let at = root.find_child(&b2).unwrap();
    let kept = root.child(at).samples();
    let root = root.into_child(at);
    assert_eq!(root.samples(), kept);
    assert!(root.board().same_cells(&b2));
    // a board that is no answer to b1 is not found
    assert_eq!(UCTNode::start(Color::Blue, 5).find_child(&b2), None);
    assert!(UCTNode::start(Color::Blue, 5).advance(&b2).is_none());
}

#[test]
fn a_turn_of_the_search() {
    let mut rng = StdRng::seed_from_u64(21);
    let b0 = Board::new(4);
    // the player is Blue: Red has moved, and the tree holds Red's moves
    let mut b1 = b0.clone();
    b1.apply_move(mv(3, 3, 2, 2, 2, 1), Color::Red);
    let mut root = UCTNode::start(Color::Blue, 4).advance(&b1).unwrap();
    assert_eq!(root.color(), Color::Blue);
    assert!(root.board().same_cells(&b1));
    for _ in 0..100 {
        let path = least_visited_path(&root);
        root.simulate(&path, &mut rng, 1);
    }
    assert_eq!(root.samples(), 100);
    let best = root.best_child();
    let moves = b1.possible_moves(Color::Blue);
    let mut expected = b1.clone();
    expected.apply_move(moves[best], Color::Blue);
    let root = root.commit();
    assert_eq!(root.color(), Color::Red);
    assert!(root.board().same_cells(&expected));
}

#[test]
fn a_turn_starts_with_a_pass_a_find_or_a_miss() {
    // Red has no move on this board: the tree stays as it is
    let mut stuck = Board::new(4);
    stuck.apply_move(mv(3, 3, 2, 2, 2, 1), Color::Red);
    stuck.apply_move(mv(2, 1, 1, 0, 0, 0), Color::Red);
    match UCTNode::start(Color::Red, 4).enter(&stuck, Color::Red) {
        Entry::Pass(tree) => {
            assert_eq!(tree.color(), Color::Blue);
            assert_eq!(tree.child_count(), 1);
        }
        _ => panic!("a pass was expected"),
    }
    // the first position is below the root of a Red player
    match UCTNode::start(Color::Red, 4).enter(&Board::new(4), Color::Red) {
        Entry::Found(root) => {
            assert_eq!(root.color(), Color::Red);
            assert!(root.board().same_cells(&Board::new(4)));
        }
        _ => panic!("the board was expected in the tree"),
    }
    // a board two moves on is not in the tree of a Blue player
    let mut later = Board::new(4);
    later.apply_move(mv(3, 3, 2, 2, 2, 1), Color::Red);
    later.apply_move(mv(0, 3, 1, 2, 1, 1), Color::Blue);
    match UCTNode::start(Color::Blue, 4).enter(&later, Color::Blue) {
        Entry::Missing => {}
        _ => panic!("the board was not expected in the tree"),
    }
}

#[test]
fn the_move_made_is_a_legal_move() {
    let mut rng = StdRng::seed_from_u64(33);
    let b0 = Board::new(5);
    let mut root = UCTNode::start(Color::Red, 5).advance(&b0).unwrap();
    for _ in 0..50 {
        let path = least_visited_path(&root);
        root.simulate(&path, &mut rng, 1);
    }
    let next = root.commit();
    let mut hits = 0;
    for m in b0.possible_moves(Color::Red).iter() {
        let mut expected = b0.clone();
        expected.apply_move(*m, Color::Red);
        if expected.same_cells(next.board()) {
            hits += 1;
        }
    }
    assert_eq!(hits, 1);
}
