use territory::{Board, Color, Coord, Dir, Move, PossibleMove, Root, Stone};

fn red() -> i8 {
    Color::Red.index() as i8
}

fn blue() -> i8 {
    Color::Blue.index() as i8
}

fn mv(x1: i8, y1: i8, x2: i8, y2: i8, x3: i8, y3: i8) -> Move {
    Move(Coord::new(x1, y1), Coord::new(x2, y2), Coord::new(x3, y3))
}

#[test]
fn possible_moves() {
    let board = Board::new(9);
    let possibles = board.possible_moves(Color::Red);
    assert_eq!(possibles.len(), 4);
    assert!(possibles.contains(&Move(Coord::new(0, 0), Coord::new(1, 1), Coord::new(1, 2))));
    assert!(possibles.contains(&Move(Coord::new(0, 0), Coord::new(1, 1), Coord::new(2, 1))));
    assert!(possibles.contains(&Move(Coord::new(8, 8), Coord::new(7, 7), Coord::new(7, 6))));
    assert!(possibles.contains(&Move(Coord::new(8, 8), Coord::new(7, 7), Coord::new(6, 7))));
}

#[test]
fn possible_moves_as_json() {
    let board = Board::new(9);

    let red_moves = board.possible_moves(Color::Red);
    let blue_moves = board.possible_moves(Color::Blue);

    let moves_from_json: Vec<PossibleMove> = board.possible_moves_as_json();

    for (i, Move(s1, s2, s3)) in red_moves.iter().enumerate() {
        let Move(stone1, stone2, stone3) = moves_from_json[i].stones;
        let color = moves_from_json[i].color;

        assert_eq!(stone1.x as i64, s1.x as i64);
        assert_eq!(stone1.y as i64, s1.y as i64);
        assert_eq!(stone2.x as i64, s2.x as i64);
        assert_eq!(stone2.y as i64, s2.y as i64);
        assert_eq!(stone3.x as i64, s3.x as i64);
        assert_eq!(stone3.y as i64, s3.y as i64);
        assert_eq!(color.index() as i64, Color::Red.index() as i64);
    }

    for (i, Move(s1, s2, s3)) in blue_moves.iter().enumerate() {
        let i = i + red_moves.len();
        let Move(stone1, stone2, stone3) = moves_from_json[i].stones;
        let color = moves_from_json[i].color;

        assert_eq!(stone1.x as i64, s1.x as i64);
        assert_eq!(stone1.y as i64, s1.y as i64);
        assert_eq!(stone2.x as i64, s2.x as i64);
        assert_eq!(stone2.y as i64, s2.y as i64);
        assert_eq!(stone3.x as i64, s3.x as i64);
        assert_eq!(stone3.y as i64, s3.y as i64);
        assert_eq!(color.index() as i64, Color::Blue.index() as i64);
    }
}

#[test]
fn to_json() {
    let mut board = Board::new(9);

    board.apply_move(Move(Coord::new(0, 0), Coord::new(1, 1), Coord::new(1, 2)), Color::Red);
    board.apply_move(Move(Coord::new(0, 8), Coord::new(1, 7), Coord::new(1, 6)), Color::Blue);

    let board_from_json = board.to_json();
    let stones = &board_from_json.stones;
    let roots = &board_from_json.roots;

    assert_eq!(stones.len(), 8);
    let correct_stones = vec![
        Stone { x: 0, y: 0, color: red() },
        Stone { x: 1, y: 1, color: red() },
        Stone { x: 1, y: 2, color: red() },
        Stone { x: 8, y: 8, color: red() },
        Stone { x: 0, y: 8, color: blue() },
        Stone { x: 1, y: 7, color: blue() },
        Stone { x: 1, y: 6, color: blue() },
        Stone { x: 8, y: 0, color: blue() },
    ];
    for correct in correct_stones {
        assert!(stones.contains(&correct));
    }

    assert_eq!(roots.len(), 4 * 2);
    let correct_roots = vec![
        Root { x1: 0, y1: 0, x2: 1, y2: 1, color: red() },
        Root { x1: 1, y1: 1, x2: 0, y2: 0, color: red() },
        Root { x1: 1, y1: 1, x2: 1, y2: 2, color: red() },
        Root { x1: 1, y1: 2, x2: 1, y2: 1, color: red() },
        Root { x1: 0, y1: 8, x2: 1, y2: 7, color: blue() },
        Root { x1: 1, y1: 7, x2: 0, y2: 8, color: blue() },
        Root { x1: 1, y1: 7, x2: 1, y2: 6, color: blue() },
        Root { x1: 1, y1: 6, x2: 1, y2: 7, color: blue() },
    ];
    for correct in correct_roots {
        assert!(roots.contains(&correct));
    }
}

#[test]
fn to_json_lists_cells_in_row_major_order() {
    let mut board = Board::new(9);
    board.apply_move(mv(0, 0, 1, 1, 1, 2), Color::Red);
    board.apply_move(mv(0, 8, 1, 7, 1, 6), Color::Blue);
    let doc = board.to_json();
    assert_eq!(
        doc.stones,
        vec![
            Stone { x: 0, y: 0, color: 0 },
            Stone { x: 0, y: 8, color: 1 },
            Stone { x: 1, y: 1, color: 0 },
            Stone { x: 1, y: 2, color: 0 },
            Stone { x: 1, y: 6, color: 1 },
            Stone { x: 1, y: 7, color: 1 },
            Stone { x: 8, y: 0, color: 1 },
            Stone { x: 8, y: 8, color: 0 },
        ]
    );
    assert_eq!(
        doc.roots,
        vec![
            Root { x1: 0, y1: 0, x2: 1, y2: 1, color: 0 },
            Root { x1: 0, y1: 8, x2: 1, y2: 7, color: 1 },
            Root { x1: 1, y1: 1, x2: 0, y2: 0, color: 0 },
            Root { x1: 1, y1: 1, x2: 1, y2: 2, color: 0 },
            Root { x1: 1, y1: 2, x2: 1, y2: 1, color: 0 },
            Root { x1: 1, y1: 6, x2: 1, y2: 7, color: 1 },
            Root { x1: 1, y1: 7, x2: 0, y2: 8, color: 1 },
            Root { x1: 1, y1: 7, x2: 1, y2: 6, color: 1 },
        ]
    );
}

#[test]
fn every_root_is_listed_from_both_ends() {
    let mut board = Board::new(5);
    board.apply_move(mv(4, 4, 3, 3, 3, 2), Color::Red);
    board.apply_move(mv(0, 4, 1, 3, 1, 2), Color::Blue);
    board.apply_move(mv(3, 2, 2, 1, 1, 1), Color::Red);
    let doc = board.to_json();
    assert_eq!(doc.roots.len(), 12);
    for root in doc.roots.iter() {
        let back = Root { x1: root.x2, y1: root.y2, x2: root.x1, y2: root.y1, color: root.color };
        assert!(doc.roots.contains(&back));
    }
}

#[test]
fn fresh_board_lists_moves_in_order() {
    let board = Board::new(9);
    assert_eq!(
        board.possible_moves(Color::Red),
        vec![mv(0, 0, 1, 1, 2, 1), mv(0, 0, 1, 1, 1, 2), mv(8, 8, 7, 7, 6, 7), mv(8, 8, 7, 7, 7, 6)]
    );
    assert_eq!(
        board.possible_moves(Color::Blue),
        vec![mv(0, 8, 1, 7, 2, 7), mv(0, 8, 1, 7, 1, 6), mv(8, 0, 7, 1, 6, 1), mv(8, 0, 7, 1, 7, 2)]
    );
}

#[test]
fn fresh_board_moves_mirror_between_colors() {
    for width in 4..20usize {
        let board = Board::new(width);
        let last = (width - 1) as i8;
        let red_moves = board.possible_moves(Color::Red);
        let blue_moves = board.possible_moves(Color::Blue);
        assert_eq!(red_moves.len(), 4);
        assert_eq!(red_moves.len(), blue_moves.len());
        for i in 0..red_moves.len() {
            let Move(a, b, c) = red_moves[i];
            let mirrored = Move(
                Coord::new(a.x, last - a.y),
                Coord::new(b.x, last - b.y),
                Coord::new(c.x, last - c.y),
            );
            assert_eq!(blue_moves[i], mirrored);
        }
    }
}

#[test]
fn moves_after_two_turns() {
    let mut board = Board::new(9);
    board.apply_move(mv(0, 0, 1, 1, 1, 2), Color::Red);
    board.apply_move(mv(0, 8, 1, 7, 1, 6), Color::Blue);
    assert_eq!(
        board.possible_moves(Color::Red),
        vec![
            mv(1, 1, 2, 0, 3, 0),
            mv(1, 2, 2, 3, 3, 3),
            mv(1, 2, 2, 3, 2, 4),
            mv(1, 2, 0, 3, 0, 4),
            mv(8, 8, 7, 7, 6, 7),
            mv(8, 8, 7, 7, 7, 6),
        ]
    );
}

#[test]
fn listed_moves_are_legal() {
    let mut board = Board::new(6);
    let mut turn = Color::Red;
    for round in 0..12usize {
        let moves = board.possible_moves(turn);
        for m in moves.iter() {
            assert!(board.is_valid_move(*m, turn));
            let Move(s1, s2, s3) = *m;
            assert_eq!(board.cell(s1).color(), Some(turn));
            assert_eq!(board.cell(s2).color(), None);
            let at_last = board.cell(s3).color();
            assert!(at_last == None || at_last == Some(turn));
            let d1 = Dir(s2.x - s1.x, s2.y - s1.y);
            let d2 = Dir(s3.x - s2.x, s3.y - s2.y);
            assert!(d1.0.abs() == 1 && d1.1.abs() == 1);
            assert!(d2 == Dir(d1.0, 0) || d2 == Dir(0, d1.1));
            assert!(board.cell(s1).is_valid_root(d1));
            assert!(board.cell(s2).is_valid_root(Dir(-d1.0, -d1.1)));
            assert!(board.cell(s2).is_valid_root(d2));
            assert!(board.cell(s3).is_valid_root(Dir(-d2.0, -d2.1)));
        }
        if !moves.is_empty() {
            board.apply_move(moves[(round * 7 + 3) % moves.len()], turn);
        }
        turn = territory::opponent_of(turn);
    }
}

#[test]
fn widths_from_4_to_19() {
    assert!(Board::try_new(4).is_some());
    assert!(Board::try_new(19).is_some());
    assert!(Board::try_new(3).is_none());
    assert!(Board::try_new(20).is_none());
    assert!(Board::try_new(0).is_none());
    assert_eq!(Board::new(4).width(), 4);
    assert_eq!(Board::try_new(19).unwrap().width(), 19);
}

#[test]
fn fresh_board_has_four_corner_stones() {
    let board = Board::new(4);
    let doc = board.to_json();
    assert_eq!(
        doc.stones,
        vec![
            Stone { x: 0, y: 0, color: 0 },
            Stone { x: 0, y: 3, color: 1 },
            Stone { x: 3, y: 0, color: 1 },
            Stone { x: 3, y: 3, color: 0 },
        ]
    );
    assert!(doc.roots.is_empty());
}

#[test]
fn apply_move_if_possible_makes_legal_moves_only() {
    let mut board = Board::new(9);
    let before = board.clone();
    // not a move of Blue
    assert!(!board.apply_move_if_possible(0, 0, 1, 1, 1, 2, Color::Blue));
    assert!(board.same_cells(&before));
    // wrong shape
    assert!(!board.apply_move_if_possible(0, 0, 1, 1, 2, 2, Color::Red));
    assert!(!board.apply_move_if_possible(0, 0, 1, 0, 1, 1, Color::Red));
    // off the board
    assert!(!board.apply_move_if_possible(0, 0, -1, -1, -1, 0, Color::Red));
    assert!(!board.apply_move_if_possible(8, 8, 9, 9, 9, 8, Color::Red));
    // coordinates that no board has
    assert!(!board.apply_move_if_possible(256, 256, 257, 257, 257, 258, Color::Red));
    assert!(!board.apply_move_if_possible(0, 0, 1, 1, 1, 258, Color::Red));
    assert!(board.same_cells(&before));
    assert_eq!(board.to_json().stones, before.to_json().stones);

    assert!(board.apply_move_if_possible(0, 0, 1, 1, 1, 2, Color::Red));
    assert!(!board.same_cells(&before));
    assert_eq!(board.to_json().stones.len(), 6);
    // the middle cell is taken now
    assert!(!board.apply_move_if_possible(0, 0, 1, 1, 2, 1, Color::Red));
}

#[test]
fn apply_move_if_possible_agrees_with_possible_moves() {
    for color in [Color::Red, Color::Blue] {
        let board = Board::new(5);
        let listed = board.possible_moves(color);
        for x1 in 0..5i32 {
            for y1 in 0..5i32 {
                for j in 0..8usize {
                    let dx = [1, -1, -1, 1][j / 2];
                    let dy = [1, 1, -1, -1][j / 2];
                    let (ex, ey) = if j % 2 == 0 { (dx, 0) } else { (0, dy) };
                    let (x2, y2) = (x1 + dx, y1 + dy);
                    let (x3, y3) = (x2 + ex, y2 + ey);
                    let mut copy = board.clone();
                    let done = copy.apply_move_if_possible(x1, y1, x2, y2, x3, y3, color);
                    let m = mv(x1 as i8, y1 as i8, x2 as i8, y2 as i8, x3 as i8, y3 as i8);
                    assert_eq!(done, listed.contains(&m));
                    assert_eq!(done, !copy.same_cells(&board));
                }
            }
        }
    }
}

#[test]
fn a_root_may_end_at_an_own_stone_but_not_at_the_opponents() {
    let mut board = Board::new(4);
    board.apply_move(mv(3, 3, 2, 2, 2, 1), Color::Red);
    // Red may close onto its own corner stone
    assert!(board.is_valid_move(mv(2, 1, 1, 0, 0, 0), Color::Red));
    // Blue may not run into a red stone
    assert!(!board.is_valid_move(mv(3, 0, 2, 1, 1, 1), Color::Blue));
    assert!(!board.is_valid_move(mv(0, 3, 1, 2, 2, 2), Color::Blue));
    assert!(board.is_valid_move(mv(0, 3, 1, 2, 1, 1), Color::Blue));
}

#[test]
fn roots_at_a_stone_keep_ninety_degrees() {
    let mut board = Board::new(9);
    board.apply_move(mv(0, 0, 1, 1, 1, 2), Color::Red);
    let cell = board.cell(Coord::new(1, 1));
    assert_eq!(cell.root_count(), 2);
    assert_eq!(cell.root(0), Dir(-1, -1));
    assert_eq!(cell.root(1), Dir(0, 1));
    assert!(!cell.is_valid_root(Dir(-1, -1)));
    assert!(!cell.is_valid_root(Dir(-1, 0)));
    assert!(!cell.is_valid_root(Dir(0, -1)));
    assert!(!cell.is_valid_root(Dir(0, 1)));
    assert!(!cell.is_valid_root(Dir(1, 1)));
    assert!(!cell.is_valid_root(Dir(-1, 1)));
    assert!(cell.is_valid_root(Dir(1, 0)));
    assert!(cell.is_valid_root(Dir(1, -1)));
}

#[test]
fn pass_and_game_over() {
    let mut board = Board::new(4);
    assert!(board.can_move(Color::Red));
    assert!(board.can_move(Color::Blue));
    assert!(!board.is_gameover());
    board.apply_move(mv(3, 3, 2, 2, 2, 1), Color::Red);
    board.apply_move(mv(2, 1, 1, 0, 0, 0), Color::Red);
    // Red has to pass, Blue can still move
    assert!(!board.can_move(Color::Red));
    assert!(board.possible_moves(Color::Red).is_empty());
    assert_eq!(board.possible_moves(Color::Blue), vec![mv(0, 3, 1, 2, 1, 1)]);
    assert!(!board.is_gameover());
    board.apply_move(mv(0, 3, 1, 2, 1, 1), Color::Blue);
    assert!(board.can_move(Color::Blue));
    board.apply_move(mv(1, 1, 2, 0, 3, 0), Color::Blue);
    assert!(!board.can_move(Color::Red));
    assert!(!board.can_move(Color::Blue));
    assert!(board.is_gameover());
}

#[test]
fn clone_is_independent() {
    let mut board = Board::new(9);
    let copy = board.clone();
    board.apply_move(mv(0, 0, 1, 1, 1, 2), Color::Red);
    assert!(!board.same_cells(&copy));
    assert!(copy.same_cells(&Board::new(9)));
    assert!(!copy.same_cells(&Board::new(8)));
    assert_eq!(copy.possible_moves(Color::Red).len(), 4);
    let mut copy = copy;
    assert_eq!(copy.score(Color::Red), 1);
}
