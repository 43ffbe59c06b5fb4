//! The nodes around a point of the board, and what a move does to the regions there.

use crate::components::{
    component, connected, lemma_connected_back, lemma_connected_join, lemma_connected_self,
    lemma_connected_step, lemma_cut_costs_two, lemma_cut_keeps_score, lemma_nodes_finite,
};
use crate::dual::{
    lemma_cuts_disjoint, lemma_unit_readable, link, move_cuts, node_at, node_count, segment_cuts,
    symmetric, unit_readable,
};
use crate::geometry::{stepped, Color, Coord, Dir, Move};
use crate::rules::BoardView;
use vstd::prelude::*;
use vstd::set_lib::lemma_len_subset;

verus! {

/// The eight directions, clockwise from `(-1, -1)`.
pub open spec fn ring_dir(k: int) -> Dir {
    let k = k % 8;
    if k == 0 {
        Dir(-1i8, -1i8)
    } else if k == 1 {
        Dir(0, -1i8)
    } else if k == 2 {
        Dir(1, -1i8)
    } else if k == 3 {
        Dir(1, 0)
    } else if k == 4 {
        Dir(1, 1)
    } else if k == 5 {
        Dir(0, 1)
    } else if k == 6 {
        Dir(-1i8, 1)
    } else {
        Dir(-1i8, 0)
    }
}

/// The node that lies at the point `(p, q)` between direction `k` and direction `k + 1`:
/// one of the two nodes that each of the four units around the point has there.
pub open spec fn ring_node(side: int, p: int, q: int, k: int) -> int {
    let k = k % 8;
    if k == 0 {
        node_at(side, p - 1, q - 1, 1)
    } else if k == 1 {
        node_at(side, p, q - 1, 3)
    } else if k == 2 {
        node_at(side, p, q - 1, 2)
    } else if k == 3 {
        node_at(side, p, q, 0)
    } else if k == 4 {
        node_at(side, p, q, 3)
    } else if k == 5 {
        node_at(side, p - 1, q, 1)
    } else if k == 6 {
        node_at(side, p - 1, q, 0)
    } else {
        node_at(side, p - 1, q - 1, 2)
    }
}

/// The point is off the rim of the board.
pub open spec fn inner(side: int, at: Coord) -> bool {
    1 <= at.x < side && 1 <= at.y < side
}

/// The four units around a point off the rim are units of the board.
proof fn lemma_ring_units(side: int, at: Coord)
    requires
        0 < side <= 18,
        inner(side, at),
    ensures
        unit_readable(side, at.x - 1, at.y - 1),
        unit_readable(side, at.x as int, at.y - 1),
        unit_readable(side, at.x as int, at.y as int),
        unit_readable(side, at.x - 1, at.y as int),
{
    lemma_unit_readable(side, at.x - 1, at.y - 1);
    lemma_unit_readable(side, at.x as int, at.y - 1);
    lemma_unit_readable(side, at.x as int, at.y as int);
    lemma_unit_readable(side, at.x - 1, at.y as int);
}

/// The root from a point in direction `k` cuts the link between the two nodes that lie at
/// the point on either side of it.
proof fn lemma_ring_link(side: int, at: Coord, k: int)
    requires
        0 < side <= 18,
        inner(side, at),
        0 <= k < 8,
    ensures
        segment_cuts(side, at, ring_dir(k)).contains(
            (ring_node(side, at.x as int, at.y as int, k + 7), ring_node(
                side,
                at.x as int,
                at.y as int,
                k,
            )),
        ),
{
    let a = ring_node(side, at.x as int, at.y as int, k + 7);
    let b = ring_node(side, at.x as int, at.y as int, k);
    assert(link(a, b).contains((a, b)));
}

/// Around an empty cell off the rim, the eight nodes are linked in a ring.
proof fn lemma_ring_whole(b: BoardView, color: Color, at: Coord, k: int)
    requires
        b.well_formed(),
        inner(b.side(), at),
        b.cell(at).color is None,
        0 <= k < 8,
    ensures
        b.links(color).contains(
            (ring_node(b.side(), at.x as int, at.y as int, k + 7), ring_node(
                b.side(),
                at.x as int,
                at.y as int,
                k,
            )),
        ),
{
    lemma_from_empty_open(b, color, at, ring_dir(k));
    lemma_ring_link(b.side(), at, k);
}

/// Around an empty cell off the rim, every node is connected with the first.
proof fn lemma_ring_connected(b: BoardView, color: Color, at: Coord, k: int)
    requires
        b.well_formed(),
        inner(b.side(), at),
        b.cell(at).color is None,
        0 <= k < 8,
    ensures
        connected(
            b.links(color),
            ring_node(b.side(), at.x as int, at.y as int, 0),
            ring_node(b.side(), at.x as int, at.y as int, k),
        ),
    decreases k,
{
    let first = ring_node(b.side(), at.x as int, at.y as int, 0);
    if k == 0 {
        lemma_connected_self(b.links(color), first);
    } else {
        lemma_ring_connected(b, color, at, k - 1);
        lemma_ring_whole(b, color, at, k);
        assert(ring_node(b.side(), at.x as int, at.y as int, k + 7) == ring_node(
            b.side(),
            at.x as int,
            at.y as int,
            k - 1,
        ));
        lemma_connected_step(
            b.links(color),
            first,
            ring_node(b.side(), at.x as int, at.y as int, k - 1),
            ring_node(b.side(), at.x as int, at.y as int, k),
        );
    }
}

/// The place of a direction among the eight.
pub open spec fn dir_index(d: Dir) -> int {
    if d == Dir(-1i8, -1i8) {
        0
    } else if d == Dir(0, -1i8) {
        1
    } else if d == Dir(1, -1i8) {
        2
    } else if d == Dir(1, 0) {
        3
    } else if d == Dir(1, 1) {
        4
    } else if d == Dir(0, 1) {
        5
    } else if d == Dir(-1i8, 1) {
        6
    } else {
        7
    }
}

/// Where the diagonal that crosses the diagonal of the move starts: at the corner of their
/// unit that lies in the row of the first stone and the column of the middle stone.
pub open spec fn crossing_start(mv: Move) -> Coord {
    Coord { x: mv.1.x, y: mv.0.y }
}

/// The direction of the diagonal that crosses the diagonal of the move.
pub open spec fn crossing_dir(mv: Move) -> Dir {
    Dir((-mv.first_dir().0) as i8, mv.first_dir().1)
}

/// The diagonal of the move crosses no root of the color.
pub open spec fn uncrossed(b: BoardView, mv: Move, color: Color) -> bool {
    b.open_segment(color, crossing_start(mv), crossing_dir(mv))
}

/// The first of the five nodes around the middle stone that stay linked after the move:
/// those that lie on the far side of both new roots.
pub open spec fn far_side_start(mv: Move) -> int {
    let j = dir_index(mv.first_dir().reversed());
    let j3 = dir_index(mv.second_dir());
    if j3 == (j + 3) % 8 {
        j + 3
    } else {
        j
    }
}

/// A link of the ring around the middle stone that neither root of the move runs along
/// is there after the move.
proof fn lemma_ring_link_stays(b: BoardView, mv: Move, color: Color, k: int)
    requires
        b.well_formed(),
        b.legal_move(mv, color),
        inner(b.side(), mv.1),
        0 <= k < 8,
        ring_dir(k) != mv.first_dir().reversed(),
        ring_dir(k) != mv.second_dir(),
    ensures
        b.after_move(mv, color).links(color).contains(
            (ring_node(b.side(), mv.1.x as int, mv.1.y as int, k + 7), ring_node(
                b.side(),
                mv.1.x as int,
                mv.1.y as int,
                k,
            )),
        ),
{
    let side = b.side();
    lemma_ring_whole(b, color, mv.1, k);
    lemma_ring_link(side, mv.1, k);
    lemma_cuts_disjoint(side, mv.1, ring_dir(k), mv.0, mv.first_dir());
    lemma_cuts_disjoint(side, mv.1, ring_dir(k), mv.1, mv.second_dir());
}

/// After the move, the five nodes on the far side of the middle stone are connected.
proof fn lemma_far_side_connected(b: BoardView, mv: Move, color: Color, i: int)
    requires
        b.well_formed(),
        b.legal_move(mv, color),
        inner(b.side(), mv.1),
        0 <= i < 5,
    ensures
        connected(
            b.after_move(mv, color).links(color),
            ring_node(b.side(), mv.1.x as int, mv.1.y as int, far_side_start(mv)),
            ring_node(b.side(), mv.1.x as int, mv.1.y as int, far_side_start(mv) + i),
        ),
    decreases i,
{
    let side = b.side();
    let left = b.after_move(mv, color).links(color);
    let start = far_side_start(mv);
    let first = ring_node(side, mv.1.x as int, mv.1.y as int, start);
    if i == 0 {
        lemma_connected_self(left, first);
    } else {
        lemma_far_side_connected(b, mv, color, i - 1);
        let k = (start + i) % 8;
        lemma_ring_link_stays(b, mv, color, k);
        assert(ring_node(side, mv.1.x as int, mv.1.y as int, k + 7) == ring_node(
            side,
            mv.1.x as int,
            mv.1.y as int,
            start + i - 1,
        ));
        assert(ring_node(side, mv.1.x as int, mv.1.y as int, k) == ring_node(
            side,
            mv.1.x as int,
            mv.1.y as int,
            start + i,
        ));
        lemma_connected_step(
            left,
            first,
            ring_node(side, mv.1.x as int, mv.1.y as int, start + i - 1),
            ring_node(side, mv.1.x as int, mv.1.y as int, start + i),
        );
    }
}

/// After a move whose middle stone is off the rim, the region on the far side of the
/// middle stone has more than four nodes.
proof fn lemma_far_side_scores(b: BoardView, mv: Move, color: Color)
    requires
        b.well_formed(),
        b.legal_move(mv, color),
        inner(b.side(), mv.1),
    ensures
        0 <= ring_node(b.side(), mv.1.x as int, mv.1.y as int, far_side_start(mv)) < node_count(
            b.side(),
        ),
        component(
            b.after_move(mv, color).links(color),
            node_count(b.side()),
            ring_node(b.side(), mv.1.x as int, mv.1.y as int, far_side_start(mv)),
        ).len() > 4,
{
    let side = b.side();
    let n = node_count(side);
    let left = b.after_move(mv, color).links(color);
    let start = far_side_start(mv);
    let p = mv.1.x as int;
    let q = mv.1.y as int;
    let t0 = ring_node(side, p, q, start);
    let t1 = ring_node(side, p, q, start + 1);
    let t2 = ring_node(side, p, q, start + 2);
    let t3 = ring_node(side, p, q, start + 3);
    let t4 = ring_node(side, p, q, start + 4);
    lemma_ring_units(side, mv.1);
    lemma_far_side_connected(b, mv, color, 0);
    lemma_far_side_connected(b, mv, color, 1);
    lemma_far_side_connected(b, mv, color, 2);
    lemma_far_side_connected(b, mv, color, 3);
    lemma_far_side_connected(b, mv, color, 4);
    let whole = component(left, n, t0);
    let five = set![t0, t1, t2, t3, t4];
    assert(0 <= n) by (nonlinear_arith)
        requires
            n == 4 * side * side,
    ;
    lemma_nodes_finite(whole, n);
    lemma_ring_apart(side, mv.1, start, 0, 1);
    lemma_ring_apart(side, mv.1, start, 0, 2);
    lemma_ring_apart(side, mv.1, start, 0, 3);
    lemma_ring_apart(side, mv.1, start, 0, 4);
    lemma_ring_apart(side, mv.1, start, 1, 2);
    lemma_ring_apart(side, mv.1, start, 1, 3);
    lemma_ring_apart(side, mv.1, start, 1, 4);
    lemma_ring_apart(side, mv.1, start, 2, 3);
    lemma_ring_apart(side, mv.1, start, 2, 4);
    lemma_ring_apart(side, mv.1, start, 3, 4);
    lemma_ring_apart(side, mv.1, start, 0, 0);
    assert(five.subset_of(whole)) by {
        assert forall|x: int| five.contains(x) implies whole.contains(x) by {
            assert(x == t0 || x == t1 || x == t2 || x == t3 || x == t4);
        }
    }
    lemma_len_subset(five, whole);
    lemma_five(t0, t1, t2, t3, t4);
}

/// The nodes around a point are nodes of the graph, and two of them at different places
/// are different nodes.
proof fn lemma_ring_apart(side: int, at: Coord, start: int, i: int, k: int)
    requires
        0 < side <= 18,
        inner(side, at),
        0 <= start,
        0 <= i <= k < 8,
    ensures
        0 <= ring_node(side, at.x as int, at.y as int, start + i) < node_count(side),
        0 <= ring_node(side, at.x as int, at.y as int, start + k) < node_count(side),
        i != k ==> ring_node(side, at.x as int, at.y as int, start + i) != ring_node(
            side,
            at.x as int,
            at.y as int,
            start + k,
        ),
{
    lemma_ring_units(side, at);
    let a = (start + i) % 8;
    let b = (start + k) % 8;
    assert(i != k ==> a != b);
    lemma_ring_place(side, at, a);
    lemma_ring_place(side, at, b);
}

/// Unit and side of the node at place `k` around a point, as one number: ten times the
/// number of its unit among the four around the point, plus its side.
pub open spec fn ring_mark(k: int) -> int {
    let k = k % 8;
    if k == 0 {
        1
    } else if k == 1 {
        13
    } else if k == 2 {
        12
    } else if k == 3 {
        20
    } else if k == 4 {
        23
    } else if k == 5 {
        31
    } else if k == 6 {
        30
    } else {
        2
    }
}

/// The same number, read from the index of a node.
pub open spec fn node_mark(side: int, at: Coord, node: int) -> int {
    let ux = crate::dual::unit_x(side, node);
    let uy = crate::dual::unit_y(side, node);
    let unit = if ux == at.x - 1 && uy == at.y - 1 {
        0int
    } else if ux == at.x && uy == at.y - 1 {
        1int
    } else if ux == at.x && uy == at.y {
        2int
    } else {
        3int
    };
    unit * 10 + crate::dual::node_pos(node)
}

/// The node at place `k` around a point is a node of the graph, in the unit and at the
/// side that belong to the place.
proof fn lemma_ring_place(side: int, at: Coord, k: int)
    requires
        0 < side <= 18,
        inner(side, at),
        0 <= k < 8,
        unit_readable(side, at.x - 1, at.y - 1),
        unit_readable(side, at.x as int, at.y - 1),
        unit_readable(side, at.x as int, at.y as int),
        unit_readable(side, at.x - 1, at.y as int),
    ensures
        0 <= ring_node(side, at.x as int, at.y as int, k) < node_count(side),
        node_mark(side, at, ring_node(side, at.x as int, at.y as int, k)) == ring_mark(k),
{
    let p = at.x as int;
    let q = at.y as int;
    assert(node_at(side, p - 1, q - 1, 1) >= 0);
    assert(node_at(side, p - 1, q - 1, 2) >= 0);
    assert(node_at(side, p, q - 1, 3) >= 0);
    assert(node_at(side, p, q - 1, 2) >= 0);
    assert(node_at(side, p, q, 0) >= 0);
    assert(node_at(side, p, q, 3) >= 0);
    assert(node_at(side, p - 1, q, 1) >= 0);
    assert(node_at(side, p - 1, q, 0) >= 0);
}

/// Five different things make a set of five.
proof fn lemma_five(a: int, b: int, c: int, d: int, e: int)
    requires
        a != b && a != c && a != d && a != e,
        b != c && b != d && b != e,
        c != d && c != e,
        d != e,
    ensures
        set![a, b, c, d, e].len() == 5,
{
    broadcast use vstd::set::group_set_axioms;

    let s1 = Set::<int>::empty().insert(a);
    let s2 = s1.insert(b);
    let s3 = s2.insert(c);
    let s4 = s3.insert(d);
    let s5 = s4.insert(e);
    assert(s1.len() == 1);
    assert(s2.len() == 2);
    assert(s3.len() == 3);
    assert(s4.len() == 4);
    assert(s5.len() == 5);
    assert(set![a, b, c, d, e] =~= s5);
}

/// Before a move whose middle stone is off the rim and whose diagonal crosses no root of
/// the mover, every node of the unit of the diagonal is connected with the nodes around
/// the middle stone.
proof fn lemma_unit_in_region(b: BoardView, mv: Move, color: Color, pos: int)
    requires
        b.well_formed(),
        b.legal_move(mv, color),
        inner(b.side(), mv.1),
        uncrossed(b, mv, color),
        0 <= pos < 4,
    ensures
        connected(
            b.links(color),
            ring_node(b.side(), mv.1.x as int, mv.1.y as int, 0),
            node_at(
                b.side(),
                crate::dual::min_of(mv.0.x as int, mv.1.x as int),
                crate::dual::min_of(mv.0.y as int, mv.1.y as int),
                pos,
            ),
        ),
{
    let side = b.side();
    let links = b.links(color);
    let p = mv.1.x as int;
    let q = mv.1.y as int;
    let j = dir_index(mv.first_dir().reversed());
    let r0 = ring_node(side, p, q, 0);
    let g1 = ring_node(side, p, q, j);
    let g2 = ring_node(side, p, q, j + 7);
    let ux = crate::dual::min_of(mv.0.x as int, mv.1.x as int);
    let uy = crate::dual::min_of(mv.0.y as int, mv.1.y as int);
    let target = node_at(side, ux, uy, pos);
    lemma_ring_connected(b, color, mv.1, j);
    lemma_ring_connected(b, color, mv.1, (j + 7) % 8);
    let crossing = segment_cuts(side, crossing_start(mv), crossing_dir(mv));
    assert(crossing.subset_of(links));
    if target != g1 && target != g2 {
        assert(crossing.contains((g1, target)) || crossing.contains((g2, target)));
        if links.contains((g1, target)) {
            lemma_connected_step(links, r0, g1, target);
        } else {
            lemma_connected_step(links, r0, g2, target);
        }
    }
}

/// A move whose middle stone is off the rim and whose diagonal crosses no root of the
/// mover does not lower the mover's score.
pub proof fn lemma_inner_move_keeps_score(b: BoardView, mv: Move, color: Color)
    requires
        b.well_formed(),
        b.legal_move(mv, color),
        inner(b.side(), mv.1),
        uncrossed(b, mv, color),
    ensures
        b.score(color) <= b.after_move(mv, color).score(color),
{
    let side = b.side();
    let n = node_count(side);
    let links = b.links(color);
    let cuts = move_cuts(side, mv);
    let p = mv.1.x as int;
    let q = mv.1.y as int;
    let start = far_side_start(mv);
    let anchor = ring_node(side, p, q, start);
    let r0 = ring_node(side, p, q, 0);
    let j = dir_index(mv.first_dir().reversed());
    let j3 = dir_index(mv.second_dir());
    lemma_far_side_scores(b, mv, color);
    lemma_ring_connected(b, color, mv.1, start % 8);
    lemma_connected_back(links, r0, anchor);
    assert(symmetric(cuts));
    assert forall|u: int, v: int| #[trigger] cuts.contains((u, v)) implies connected(
        links,
        anchor,
        u,
    ) by {
        lemma_unit_in_region(b, mv, color, 0);
        lemma_unit_in_region(b, mv, color, 1);
        lemma_unit_in_region(b, mv, color, 2);
        lemma_unit_in_region(b, mv, color, 3);
        lemma_ring_connected(b, color, mv.1, j3);
        lemma_ring_connected(b, color, mv.1, (j3 + 7) % 8);
        lemma_ring_link(side, mv.1, j3);
        assert(connected(links, r0, u));
        lemma_connected_join(links, anchor, r0, u);
    }
    lemma_cut_keeps_score(links, cuts, n, anchor);
}

/// The side of a unit that faces an axis-aligned direction: N = 0, E = 1, S = 2, W = 3.
pub open spec fn facing(dx: int, dy: int) -> int {
    if dy < 0 {
        0
    } else if dx > 0 {
        1
    } else if dy > 0 {
        2
    } else {
        3
    }
}

/// The five nodes that stay linked beside a move that ends along the rim. With `f` the
/// direction of the second root and `e` what the first adds to it: in the unit of the
/// diagonal the nodes that face `f` and `-e`; in the next unit along `f` those that face
/// `-f` and `e`; and behind the first stone, in the unit at `-e`, the node that faces `e`.
pub open spec fn rim_node(side: int, mv: Move, i: int) -> int {
    let ux = crate::dual::min_of(mv.0.x as int, mv.1.x as int);
    let uy = crate::dual::min_of(mv.0.y as int, mv.1.y as int);
    let fx = mv.second_dir().0 as int;
    let fy = mv.second_dir().1 as int;
    let ex = mv.first_dir().0 - fx;
    let ey = mv.first_dir().1 - fy;
    if i == 0 {
        node_at(side, ux, uy, facing(fx, fy))
    } else if i == 1 {
        node_at(side, ux, uy, facing(-ex, -ey))
    } else if i == 2 {
        node_at(side, ux - ex, uy - ey, facing(ex, ey))
    } else if i == 3 {
        node_at(side, ux + fx, uy + fy, facing(-fx, -fy))
    } else {
        node_at(side, ux + fx, uy + fy, facing(ex, ey))
    }
}

/// The middle stone of the move goes on the rim.
pub open spec fn on_rim(b: BoardView, mv: Move) -> bool {
    !inner(b.side(), mv.1)
}

/// The three units beside a move that ends along the rim are units of the board.
proof fn lemma_rim_units(b: BoardView, mv: Move, color: Color)
    requires
        b.well_formed(),
        b.legal_move(mv, color),
        on_rim(b, mv),
    ensures
        ({
            let ux = crate::dual::min_of(mv.0.x as int, mv.1.x as int);
            let uy = crate::dual::min_of(mv.0.y as int, mv.1.y as int);
            let fx = mv.second_dir().0 as int;
            let fy = mv.second_dir().1 as int;
            let ex = mv.first_dir().0 - fx;
            let ey = mv.first_dir().1 - fy;
            &&& unit_readable(b.side(), ux, uy)
            &&& unit_readable(b.side(), ux - ex, uy - ey)
            &&& unit_readable(b.side(), ux + fx, uy + fy)
            &&& segment_cuts(b.side(), mv.1, mv.second_dir()) == Set::<(int, int)>::empty()
        }),
{
    let side = b.side();
    let ux = crate::dual::min_of(mv.0.x as int, mv.1.x as int);
    let uy = crate::dual::min_of(mv.0.y as int, mv.1.y as int);
    let fx = mv.second_dir().0 as int;
    let fy = mv.second_dir().1 as int;
    let ex = mv.first_dir().0 - fx;
    let ey = mv.first_dir().1 - fy;
    lemma_unit_readable(side, ux, uy);
    lemma_unit_readable(side, ux - ex, uy - ey);
    lemma_unit_readable(side, ux + fx, uy + fy);
}

/// On a well-formed board no root runs to or from an empty cell: every segment from it is
/// open.
proof fn lemma_from_empty_open(b: BoardView, color: Color, at: Coord, d: Dir)
    requires
        b.well_formed(),
        at.on_board(b.width),
        stepped(at, d).on_board(b.width),
        d.diagonal() || d.orthogonal(),
        b.cell(at).color is None,
    ensures
        b.open_segment(color, at, d),
{
    let to = stepped(at, d);
    assert(b.cells[at.x as int][at.y as int].well_formed());
    if b.placed(color, to, d.reversed()) {
        assert(b.rooted(to, d.reversed()));
        assert(b.held_at_both_ends(to, d.reversed()));
        assert(stepped(to, d.reversed()) == at);
    }
}

/// A segment from a stone is open where the stone accepts a root within 45 degrees of it.
proof fn lemma_beside_open(b: BoardView, color: Color, at: Coord, d: Dir, near: Dir)
    requires
        b.well_formed(),
        at.on_board(b.width),
        stepped(at, d).on_board(b.width),
        d.diagonal() || d.orthogonal(),
        b.cell(at).accepts(near),
        d.distance(near) <= 1,
    ensures
        b.open_segment(color, at, d),
{
    let to = stepped(at, d);
    let here = b.cell(at);
    if here.has_root(d) {
        let i = choose|i: int| 0 <= i < here.roots.len() && here.roots[i] == d;
        assert(here.roots[i].distance(near) > 1);
    }
    if b.placed(color, to, d.reversed()) {
        assert(b.rooted(to, d.reversed()));
        assert(b.held_at_both_ends(to, d.reversed()));
        assert(stepped(to, d.reversed()) == at);
    }
}

/// The link between two of the five nodes beside a move that ends along the rim is there
/// after the move: it is cut by a segment that is open and is none of the move.
proof fn lemma_rim_link(b: BoardView, mv: Move, color: Color, i: int, k: int, at: Coord, d: Dir)
    requires
        b.well_formed(),
        b.legal_move(mv, color),
        on_rim(b, mv),
        b.open_segment(color, at, d),
        !(at == mv.0 && d == mv.first_dir()),
        !(at == mv.1 && d == mv.first_dir().reversed()),
        !(at == mv.1 && d == mv.second_dir()),
        !(at == mv.2 && d == mv.second_dir().reversed()),
        segment_cuts(b.side(), at, d).contains(
            (rim_node(b.side(), mv, i), rim_node(b.side(), mv, k)),
        ),
    ensures
        b.after_move(mv, color).links(color).contains(
            (rim_node(b.side(), mv, i), rim_node(b.side(), mv, k)),
        ),
{
    let side = b.side();
    lemma_cuts_disjoint(side, at, d, mv.0, mv.first_dir());
    lemma_cuts_disjoint(side, at, d, mv.1, mv.second_dir());
}

/// Where the four links between the nodes of a unit are there, the four nodes are
/// connected.
proof fn lemma_whole_unit(links: Set<(int, int)>, side: int, ux: int, uy: int, a: int, b: int)
    requires
        symmetric(links),
        links.contains((node_at(side, ux, uy, 0), node_at(side, ux, uy, 1))),
        links.contains((node_at(side, ux, uy, 1), node_at(side, ux, uy, 2))),
        links.contains((node_at(side, ux, uy, 2), node_at(side, ux, uy, 3))),
        links.contains((node_at(side, ux, uy, 3), node_at(side, ux, uy, 0))),
        0 <= a < 4,
        0 <= b < 4,
    ensures
        connected(links, node_at(side, ux, uy, a), node_at(side, ux, uy, b)),
{
    let n0 = node_at(side, ux, uy, 0);
    let n1 = node_at(side, ux, uy, 1);
    let n2 = node_at(side, ux, uy, 2);
    let n3 = node_at(side, ux, uy, 3);
    lemma_connected_self(links, n0);
    lemma_connected_step(links, n0, n0, n1);
    lemma_connected_step(links, n0, n1, n2);
    lemma_connected_step(links, n0, n2, n3);
    lemma_connected_back(links, n0, node_at(side, ux, uy, a));
    lemma_connected_join(links, node_at(side, ux, uy, a), n0, node_at(side, ux, uy, b));
}

/// The four segments whose links join the five nodes beside a move that ends along the
/// rim, by the number of the link: the diagonal that crosses the move's, the segment from
/// the first stone along the second root, and from the middle stone the segment back
/// towards the row or column of the first stone and the diagonal beside it.
pub open spec fn rim_segment(mv: Move, link: int) -> (Coord, Dir) {
    let d1 = mv.first_dir();
    let f = mv.second_dir();
    if link == 0 {
        (crossing_start(mv), crossing_dir(mv))
    } else if link == 1 {
        (mv.0, f)
    } else if link == 2 {
        (mv.1, Dir((f.0 - d1.0) as i8, (f.1 - d1.1) as i8))
    } else {
        (mv.1, Dir((2 * f.0 - d1.0) as i8, (2 * f.1 - d1.1) as i8))
    }
}

/// The ends of the four links: 0 joins the nodes 0 and 1, 1 the nodes 1 and 2, 2 the nodes
/// 0 and 3, and 3 the nodes 3 and 4.
pub open spec fn rim_link_ends(link: int) -> (int, int) {
    if link == 0 {
        (0, 1)
    } else if link == 1 {
        (1, 2)
    } else if link == 2 {
        (0, 3)
    } else {
        (3, 4)
    }
}

/// Each of the four segments cuts the link between its two nodes.
proof fn lemma_rim_segment_cuts(b: BoardView, mv: Move, color: Color, l: int)
    requires
        b.well_formed(),
        b.legal_move(mv, color),
        on_rim(b, mv),
        0 <= l < 4,
    ensures
        rim_segment(mv, l).0.on_board(b.width),
        stepped(rim_segment(mv, l).0, rim_segment(mv, l).1).on_board(b.width),
        rim_segment(mv, l).1.diagonal() || rim_segment(mv, l).1.orthogonal(),
        segment_cuts(b.side(), rim_segment(mv, l).0, rim_segment(mv, l).1).contains(
            (
                rim_node(b.side(), mv, rim_link_ends(l).0),
                rim_node(b.side(), mv, rim_link_ends(l).1),
            ),
        ),
{
    let side = b.side();
    let d1 = mv.first_dir();
    let f = mv.second_dir();
    let a = rim_node(side, mv, rim_link_ends(l).0);
    let c = rim_node(side, mv, rim_link_ends(l).1);
    assert(link(a, c).contains((a, c)));
    assert(link(c, a).contains((a, c)));
    if f.1 == 0 {
        if d1.0 == 1 && d1.1 == 1 {
        } else if d1.0 == 1 {
        } else if d1.1 == 1 {
        } else {
        }
    } else {
        if d1.0 == 1 && d1.1 == 1 {
        } else if d1.0 == 1 {
        } else if d1.1 == 1 {
        } else {
        }
    }
}

/// Each of the four segments is open before the move and is none of the move's.
proof fn lemma_rim_segment_open(b: BoardView, mv: Move, color: Color, l: int)
    requires
        b.well_formed(),
        b.legal_move(mv, color),
        on_rim(b, mv),
        uncrossed(b, mv, color),
        0 <= l < 4,
    ensures
        b.open_segment(color, rim_segment(mv, l).0, rim_segment(mv, l).1),
        !(rim_segment(mv, l).0 == mv.0 && rim_segment(mv, l).1 == mv.first_dir()),
        !(rim_segment(mv, l).0 == mv.1 && rim_segment(mv, l).1 == mv.first_dir().reversed()),
        !(rim_segment(mv, l).0 == mv.1 && rim_segment(mv, l).1 == mv.second_dir()),
        !(rim_segment(mv, l).0 == mv.2 && rim_segment(mv, l).1 == mv.second_dir().reversed()),
{
    lemma_rim_segment_cuts(b, mv, color, l);
    let at = rim_segment(mv, l).0;
    let d = rim_segment(mv, l).1;
    if l == 1 {
        lemma_beside_open(b, color, at, d, mv.first_dir());
    } else if l >= 2 {
        lemma_from_empty_open(b, color, at, d);
    }
}

/// After an uncrossed move that ends along the rim, each of the four links beside it is
/// there.
proof fn lemma_rim_link_stays(b: BoardView, mv: Move, color: Color, l: int)
    requires
        b.well_formed(),
        b.legal_move(mv, color),
        on_rim(b, mv),
        uncrossed(b, mv, color),
        0 <= l < 4,
    ensures
        b.after_move(mv, color).links(color).contains(
            (
                rim_node(b.side(), mv, rim_link_ends(l).0),
                rim_node(b.side(), mv, rim_link_ends(l).1),
            ),
        ),
{
    lemma_rim_segment_cuts(b, mv, color, l);
    lemma_rim_segment_open(b, mv, color, l);
    lemma_rim_link(
        b,
        mv,
        color,
        rim_link_ends(l).0,
        rim_link_ends(l).1,
        rim_segment(mv, l).0,
        rim_segment(mv, l).1,
    );
}

/// After an uncrossed move that ends along the rim, the five nodes beside it are
/// connected.
proof fn lemma_rim_side_connected(b: BoardView, mv: Move, color: Color, i: int)
    requires
        b.well_formed(),
        b.legal_move(mv, color),
        on_rim(b, mv),
        uncrossed(b, mv, color),
        0 <= i < 5,
    ensures
        connected(
            b.after_move(mv, color).links(color),
            rim_node(b.side(), mv, 0),
            rim_node(b.side(), mv, i),
        ),
{
    let side = b.side();
    let left = b.after_move(mv, color).links(color);
    let n0 = rim_node(side, mv, 0);
    let n1 = rim_node(side, mv, 1);
    let n2 = rim_node(side, mv, 2);
    let n3 = rim_node(side, mv, 3);
    let n4 = rim_node(side, mv, 4);
    lemma_connected_self(left, n0);
    lemma_rim_link_stays(b, mv, color, 0);
    lemma_rim_link_stays(b, mv, color, 1);
    lemma_rim_link_stays(b, mv, color, 2);
    lemma_rim_link_stays(b, mv, color, 3);
    lemma_connected_step(left, n0, n0, n1);
    lemma_connected_step(left, n0, n1, n2);
    lemma_connected_step(left, n0, n0, n3);
    lemma_connected_step(left, n0, n3, n4);
}

/// An uncrossed move that ends along the rim does not lower the mover's score.
pub proof fn lemma_rim_move_keeps_score(b: BoardView, mv: Move, color: Color)
    requires
        b.well_formed(),
        b.legal_move(mv, color),
        on_rim(b, mv),
        uncrossed(b, mv, color),
    ensures
        b.score(color) <= b.after_move(mv, color).score(color),
{
    let side = b.side();
    let n = node_count(side);
    let links = b.links(color);
    let left = b.after_move(mv, color).links(color);
    let cuts = move_cuts(side, mv);
    let ux = crate::dual::min_of(mv.0.x as int, mv.1.x as int);
    let uy = crate::dual::min_of(mv.0.y as int, mv.1.y as int);
    let n0 = rim_node(side, mv, 0);
    let n1 = rim_node(side, mv, 1);
    let n2 = rim_node(side, mv, 2);
    let n3 = rim_node(side, mv, 3);
    let n4 = rim_node(side, mv, 4);
    lemma_rim_units(b, mv, color);
    lemma_rim_side_connected(b, mv, color, 1);
    lemma_rim_side_connected(b, mv, color, 2);
    lemma_rim_side_connected(b, mv, color, 3);
    lemma_rim_side_connected(b, mv, color, 4);
    lemma_connected_self(left, n0);
    let whole = component(left, n, n0);
    let five = set![n0, n1, n2, n3, n4];
    assert(0 <= n) by (nonlinear_arith)
        requires
            n == 4 * side * side,
    ;
    lemma_nodes_finite(whole, n);
    assert(five.subset_of(whole)) by {
        assert forall|x: int| five.contains(x) implies whole.contains(x) by {
            assert(x == n0 || x == n1 || x == n2 || x == n3 || x == n4);
        }
    }
    lemma_len_subset(five, whole);
    lemma_five(n0, n1, n2, n3, n4);

    // before the move the four nodes of the unit of the diagonal are linked in a ring
    let crossing = segment_cuts(side, crossing_start(mv), crossing_dir(mv));
    let along = segment_cuts(side, mv.0, mv.first_dir());
    assert(crossing.subset_of(links));
    assert(b.open_segment(color, mv.0, mv.first_dir())) by {
        let here = b.cell(mv.0);
        if here.has_root(mv.first_dir()) {
            let i = choose|i: int| 0 <= i < here.roots.len() && here.roots[i] == mv.first_dir();
            assert(here.roots[i].distance(mv.first_dir()) > 1);
        }
    }
    assert(along.subset_of(links));
    let u0 = node_at(side, ux, uy, 0);
    let u1 = node_at(side, ux, uy, 1);
    let u2 = node_at(side, ux, uy, 2);
    let u3 = node_at(side, ux, uy, 3);
    assert(crossing.contains((u0, u1)) || along.contains((u0, u1)));
    assert(crossing.contains((u1, u2)) || along.contains((u1, u2)));
    assert(crossing.contains((u2, u3)) || along.contains((u2, u3)));
    assert(crossing.contains((u3, u0)) || along.contains((u3, u0)));
    assert(symmetric(cuts));
    assert forall|u: int, v: int| #[trigger] cuts.contains((u, v)) implies connected(
        links,
        n0,
        u,
    ) by {
        lemma_whole_unit(links, side, ux, uy, facing(
            mv.second_dir().0 as int,
            mv.second_dir().1 as int,
        ), 0);
        lemma_whole_unit(links, side, ux, uy, facing(
            mv.second_dir().0 as int,
            mv.second_dir().1 as int,
        ), 1);
        lemma_whole_unit(links, side, ux, uy, facing(
            mv.second_dir().0 as int,
            mv.second_dir().1 as int,
        ), 2);
        lemma_whole_unit(links, side, ux, uy, facing(
            mv.second_dir().0 as int,
            mv.second_dir().1 as int,
        ), 3);
        assert(along.contains((u, v)));
    }
    lemma_cut_keeps_score(links, cuts, n, n0);
}

/// A move whose diagonal crosses no root of the mover does not lower the mover's score,
/// and no move changes the score of the other color.
pub proof fn lemma_uncrossed_move_keeps_score(b: BoardView, mv: Move, color: Color)
    requires
        b.well_formed(),
        b.legal_move(mv, color),
        uncrossed(b, mv, color),
    ensures
        b.score(color) <= b.after_move(mv, color).score(color),
        b.score(color.opponent()) == b.after_move(mv, color).score(color.opponent()),
{
    if inner(b.side(), mv.1) {
        lemma_inner_move_keeps_score(b, mv, color);
    } else {
        lemma_rim_move_keeps_score(b, mv, color);
    }
}

/// One of the two nodes that the unit of the move's diagonal has at the first stone, if
/// `first` is true, or at the middle stone, if not: the node at that end of the unit's side
/// along `x`, if `along_x` is true, or along `y`.
pub open spec fn corner_node(side: int, mv: Move, first: bool, along_x: bool) -> int {
    let ux = crate::dual::min_of(mv.0.x as int, mv.1.x as int);
    let uy = crate::dual::min_of(mv.0.y as int, mv.1.y as int);
    let sign = if first {
        -1int
    } else {
        1int
    };
    if along_x {
        node_at(side, ux, uy, facing(0, sign * mv.first_dir().1))
    } else {
        node_at(side, ux, uy, facing(sign * mv.first_dir().0, 0))
    }
}

/// The diagonal of a move cuts the link between the two nodes at the first stone and the
/// link between the two nodes at the middle stone, and both links are there before the
/// move.
proof fn lemma_diagonal_links(b: BoardView, mv: Move, color: Color)
    requires
        b.well_formed(),
        b.legal_move(mv, color),
    ensures
        segment_cuts(b.side(), mv.0, mv.first_dir()) == link(
            corner_node(b.side(), mv, true, true),
            corner_node(b.side(), mv, true, false),
        ) + link(corner_node(b.side(), mv, false, true), corner_node(b.side(), mv, false, false)),
        segment_cuts(b.side(), mv.0, mv.first_dir()).subset_of(b.links(color)),
        0 <= corner_node(b.side(), mv, true, true) < node_count(b.side()),
        0 <= corner_node(b.side(), mv, false, true) < node_count(b.side()),
{
    let side = b.side();
    let ux = crate::dual::min_of(mv.0.x as int, mv.1.x as int);
    let uy = crate::dual::min_of(mv.0.y as int, mv.1.y as int);
    lemma_unit_readable(side, ux, uy);
    assert(b.open_segment(color, mv.0, mv.first_dir())) by {
        let here = b.cell(mv.0);
        if here.has_root(mv.first_dir()) {
            let i = choose|i: int| 0 <= i < here.roots.len() && here.roots[i] == mv.first_dir();
            assert(here.roots[i].distance(mv.first_dir()) > 1);
        }
    }
    let cut = segment_cuts(side, mv.0, mv.first_dir());
    let both = link(corner_node(side, mv, true, true), corner_node(side, mv, true, false)) + link(
        corner_node(side, mv, false, true),
        corner_node(side, mv, false, false),
    );
    assert(cut =~= both);
}

/// Off the rim, the nodes that the unit of the diagonal has at the middle stone are two
/// of the nodes around it, so they are connected with the first of them before the move.
proof fn lemma_corner_in_ring(b: BoardView, mv: Move, color: Color)
    requires
        b.well_formed(),
        b.legal_move(mv, color),
        inner(b.side(), mv.1),
    ensures
        connected(
            b.links(color),
            ring_node(b.side(), mv.1.x as int, mv.1.y as int, 0),
            corner_node(b.side(), mv, false, true),
        ),
{
    let side = b.side();
    let p = mv.1.x as int;
    let q = mv.1.y as int;
    let j = dir_index(mv.first_dir().reversed());
    lemma_ring_connected(b, color, mv.1, j);
    lemma_ring_connected(b, color, mv.1, (j + 7) % 8);
    let g1 = corner_node(side, mv, false, true);
    assert(g1 == ring_node(side, p, q, j) || g1 == ring_node(side, p, q, j + 7));
}

/// Off the rim, the link that the second root of a move cuts joins two of the nodes
/// around the middle stone.
proof fn lemma_second_cut_in_ring(b: BoardView, mv: Move, color: Color, u: int, v: int)
    requires
        b.well_formed(),
        b.legal_move(mv, color),
        inner(b.side(), mv.1),
        segment_cuts(b.side(), mv.1, mv.second_dir()).contains((u, v)),
    ensures
        connected(b.links(color), ring_node(b.side(), mv.1.x as int, mv.1.y as int, 0), u),
{
    let side = b.side();
    let p = mv.1.x as int;
    let q = mv.1.y as int;
    let j3 = dir_index(mv.second_dir());
    lemma_ring_connected(b, color, mv.1, j3);
    lemma_ring_connected(b, color, mv.1, (j3 + 7) % 8);
    let c1 = ring_node(side, p, q, j3);
    let c2 = ring_node(side, p, q, j3 + 7);
    assert(segment_cuts(side, mv.1, mv.second_dir()) =~= link(c2, c1));
}

/// Before a move, the two nodes at the first stone are linked, and so are the two at the
/// middle stone; every link that the diagonal cuts starts at one of the four.
proof fn lemma_diagonal_ends(b: BoardView, mv: Move, color: Color)
    requires
        b.well_formed(),
        b.legal_move(mv, color),
    ensures
        connected(
            b.links(color),
            corner_node(b.side(), mv, true, true),
            corner_node(b.side(), mv, true, false),
        ),
        connected(
            b.links(color),
            corner_node(b.side(), mv, false, true),
            corner_node(b.side(), mv, false, false),
        ),
        connected(
            b.links(color),
            corner_node(b.side(), mv, true, true),
            corner_node(b.side(), mv, true, true),
        ),
        connected(
            b.links(color),
            corner_node(b.side(), mv, false, true),
            corner_node(b.side(), mv, false, true),
        ),
        forall|u: int, v: int| #[trigger]
            segment_cuts(b.side(), mv.0, mv.first_dir()).contains((u, v)) ==> u == corner_node(
                b.side(),
                mv,
                true,
                true,
            ) || u == corner_node(b.side(), mv, true, false) || u == corner_node(
                b.side(),
                mv,
                false,
                true,
            ) || u == corner_node(b.side(), mv, false, false),
{
    let side = b.side();
    let links = b.links(color);
    let h1 = corner_node(side, mv, true, true);
    let h2 = corner_node(side, mv, true, false);
    let g1 = corner_node(side, mv, false, true);
    let g2 = corner_node(side, mv, false, false);
    lemma_diagonal_links(b, mv, color);
    lemma_connected_self(links, h1);
    lemma_connected_self(links, g1);
    assert(link(h1, h2).contains((h1, h2)));
    assert(link(g1, g2).contains((g1, g2)));
    lemma_connected_step(links, h1, h1, h2);
    lemma_connected_step(links, g1, g1, g2);
}

/// A move lowers the mover's score by two at most, and by one at most where its middle
/// stone is off the rim: it touches no region but the one at its first stone and the one
/// at its middle stone, and off the rim the latter keeps a piece that scores.
pub proof fn lemma_move_costs_two(b: BoardView, mv: Move, color: Color)
    requires
        b.well_formed(),
        b.legal_move(mv, color),
    ensures
        b.score(color) <= b.after_move(mv, color).score(color) + 2,
        inner(b.side(), mv.1) ==> b.score(color) <= b.after_move(mv, color).score(color) + 1,
        b.score(color.opponent()) == b.after_move(mv, color).score(color.opponent()),
{
    let side = b.side();
    let n = node_count(side);
    let links = b.links(color);
    let cuts = move_cuts(side, mv);
    let along = segment_cuts(side, mv.0, mv.first_dir());
    let second = segment_cuts(side, mv.1, mv.second_dir());
    let h1 = corner_node(side, mv, true, true);
    let h2 = corner_node(side, mv, true, false);
    let g1 = corner_node(side, mv, false, true);
    let g2 = corner_node(side, mv, false, false);
    lemma_diagonal_links(b, mv, color);
    lemma_diagonal_ends(b, mv, color);
    assert(symmetric(cuts));
    if inner(side, mv.1) {
        let start = far_side_start(mv);
        let anchor = ring_node(side, mv.1.x as int, mv.1.y as int, start);
        let r0 = ring_node(side, mv.1.x as int, mv.1.y as int, 0);
        lemma_far_side_scores(b, mv, color);
        lemma_ring_connected(b, color, mv.1, start % 8);
        lemma_connected_back(links, r0, anchor);
        lemma_corner_in_ring(b, mv, color);
        lemma_connected_join(links, anchor, r0, g1);
        lemma_connected_join(links, anchor, g1, g2);
        assert forall|u: int, v: int| #[trigger] cuts.contains((u, v)) implies connected(
            links,
            anchor,
            u,
        ) || connected(links, h1, u) by {
            if second.contains((u, v)) {
                lemma_second_cut_in_ring(b, mv, color, u, v);
                lemma_connected_join(links, anchor, r0, u);
            } else {
                assert(along.contains((u, v)));
            }
        }
        lemma_cut_costs_two(links, cuts, n, anchor, h1);
    } else {
        lemma_rim_units(b, mv, color);
        assert forall|u: int, v: int| #[trigger] cuts.contains((u, v)) implies connected(
            links,
            g1,
            u,
        ) || connected(links, h1, u) by {
            assert(along.contains((u, v)));
        }
        lemma_cut_costs_two(links, cuts, n, g1, h1);
    }
}

} // verus!
