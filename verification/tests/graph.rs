use territory::{opponent_of, Color, Coord, Dir, Graph, Grid, Move, Node, NodePos};

#[test]
fn opponent() {
    assert_eq!(opponent_of(Color::Red), Color::Blue);
    assert_eq!(opponent_of(Color::Blue), Color::Red);
    assert_eq!(Color::Red.index(), 0);
    assert_eq!(Color::Blue.index(), 1);
}

#[test]
fn node_places() {
    assert_eq!(NodePos::N.offset(), 0);
    assert_eq!(NodePos::E.offset(), 1);
    assert_eq!(NodePos::S.offset(), 2);
    assert_eq!(NodePos::W.offset(), 3);
    let _node = Node::new();
}

#[test]
fn cell_roots() {
    let mut cell = Grid::new();
    assert_eq!(cell.color(), None);
    assert_eq!(cell.root_count(), 0);
    assert!(cell.is_valid_root(Dir(1, 1)));
    cell.set_color(Color::Blue);
    cell.add_root(Dir(1, 1));
    assert_eq!(cell.color(), Some(Color::Blue));
    assert_eq!(cell.root_count(), 1);
    assert_eq!(cell.root(0), Dir(1, 1));
    // within distance 1 of (1, 1)
    assert!(!cell.is_valid_root(Dir(1, 1)));
    assert!(!cell.is_valid_root(Dir(1, 0)));
    assert!(!cell.is_valid_root(Dir(0, 1)));
    // further away
    assert!(cell.is_valid_root(Dir(-1, 1)));
    assert!(cell.is_valid_root(Dir(1, -1)));
    assert!(cell.is_valid_root(Dir(-1, -1)));
    assert!(cell.is_valid_root(Dir(-1, 0)));
    assert!(cell.is_valid_root(Dir(0, -1)));
    let copy = cell.clone();
    assert!(copy.same_as(&cell));
    cell.add_root(Dir(-1, -1));
    assert!(!copy.same_as(&cell));
    cell.add_root(Dir(-1, 1));
    cell.add_root(Dir(1, -1));
    assert_eq!(cell.root_count(), 4);
    for dx in -1..2i8 {
        for dy in -1..2i8 {
            if dx != 0 || dy != 0 {
                assert!(!cell.is_valid_root(Dir(dx, dy)));
            }
        }
    }
}

#[test]
fn roots_along_the_rim_cut_nothing() {
    let mut graph = Graph::new(4);
    // the second root runs along the rim y = 0
    graph.apply_move(Move(Coord::new(0, 1), Coord::new(1, 0), Coord::new(2, 0)));
    // the diagonal cut the corner unit into two halves; the half in the corner is a
    // region of two nodes, the rest one of thirty-four
    assert_eq!(graph.score(), 1);
    let copy = graph.clone();
    let mut copy = copy;
    assert_eq!(copy.score(), 1);
}
