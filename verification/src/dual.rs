//! The dual graph of the board as mathematics: how its nodes are numbered, which links the
//! untouched graph has, and which links a root segment cuts.

use crate::geometry::{stepped, Coord, Dir, Move};
use vstd::arithmetic::div_mod::{
    lemma_div_pos_is_pos, lemma_fundamental_div_mod, lemma_fundamental_div_mod_converse,
    lemma_mod_pos_bound,
};
use vstd::prelude::*;

verus! {

/// Index of the node at side `pos` (N = 0, E = 1, S = 2, W = 3) of unit `(x, y)`, on a
/// board with `side` units per side.
pub open spec fn node_at(side: int, x: int, y: int, pos: int) -> int {
    (x * side + y) * 4 + pos
}

/// Number of nodes of the dual graph.
pub open spec fn node_count(side: int) -> int {
    4 * side * side
}

pub open spec fn unit_x(side: int, node: int) -> int {
    (node / 4) / side
}

pub open spec fn unit_y(side: int, node: int) -> int {
    (node / 4) % side
}

pub open spec fn node_pos(node: int) -> int {
    node % 4
}

/// The neighbours of a node in the untouched graph: the two nodes next to it in its own
/// unit, then the node that faces it in the unit beyond its side, if there is one.
pub open spec fn neighbours(side: int, x: int, y: int, pos: int) -> Seq<u16> {
    if pos == 0 {
        let inner = seq![node_at(side, x, y, 1) as u16, node_at(side, x, y, 3) as u16];
        if y != 0 {
            inner.push(node_at(side, x, y - 1, 2) as u16)
        } else {
            inner
        }
    } else if pos == 1 {
        let inner = seq![node_at(side, x, y, 0) as u16, node_at(side, x, y, 2) as u16];
        if x != side - 1 {
            inner.push(node_at(side, x + 1, y, 3) as u16)
        } else {
            inner
        }
    } else if pos == 2 {
        let inner = seq![node_at(side, x, y, 1) as u16, node_at(side, x, y, 3) as u16];
        if y != side - 1 {
            inner.push(node_at(side, x, y + 1, 0) as u16)
        } else {
            inner
        }
    } else {
        let inner = seq![node_at(side, x, y, 0) as u16, node_at(side, x, y, 2) as u16];
        if x != 0 {
            inner.push(node_at(side, x - 1, y, 1) as u16)
        } else {
            inner
        }
    }
}

/// The neighbours of a node of the untouched graph, by its index.
pub open spec fn neighbours_of(side: int, node: int) -> Seq<u16> {
    neighbours(side, unit_x(side, node), unit_y(side, node), node_pos(node))
}

/// The links of the untouched graph, each in both directions.
pub open spec fn full_links(side: int) -> Set<(int, int)> {
    Set::new(
        |l: (int, int)|
            0 <= l.0 < node_count(side) && 0 <= l.1 < node_count(side) && neighbours_of(
                side,
                l.0,
            ).contains(l.1 as u16),
    )
}

/// The link between `a` and `b`, in both directions.
pub open spec fn link(a: int, b: int) -> Set<(int, int)> {
    set![(a, b), (b, a)]
}

/// Every link of the set is there in both directions.
pub open spec fn symmetric(links: Set<(int, int)>) -> bool {
    forall|a: int, b: int| #[trigger] links.contains((a, b)) ==> links.contains((b, a))
}

/// Every link of the set joins two of the first `n` nodes.
pub open spec fn within(links: Set<(int, int)>, n: int) -> bool {
    forall|a: int, b: int| #[trigger] links.contains((a, b)) ==> 0 <= a < n && 0 <= b < n
}

pub open spec fn min_of(a: int, b: int) -> int {
    if a <= b {
        a
    } else {
        b
    }
}

/// The links that a root from `a` in direction `d` cuts.
///
/// A diagonal root crosses the unit whose corner is the component-wise minimum of its two
/// ends, and cuts that unit's N-W and S-E links when both components have the same sign,
/// its N-E and S-W links otherwise. A horizontal root cuts the link between the unit above
/// it and the unit below it, a vertical root the link between the unit to its left and the
/// unit to its right. A root along the rim of the board cuts nothing.
pub open spec fn segment_cuts(side: int, a: Coord, d: Dir) -> Set<(int, int)> {
    let x = min_of(a.x as int, a.x + d.0);
    let y = min_of(a.y as int, a.y + d.1);
    if d.diagonal() {
        if 0 <= x < side && 0 <= y < side {
            if d.0 == d.1 {
                link(node_at(side, x, y, 0), node_at(side, x, y, 3)) + link(
                    node_at(side, x, y, 2),
                    node_at(side, x, y, 1),
                )
            } else {
                link(node_at(side, x, y, 0), node_at(side, x, y, 1)) + link(
                    node_at(side, x, y, 2),
                    node_at(side, x, y, 3),
                )
            }
        } else {
            Set::empty()
        }
    } else if d.orthogonal() && d.1 == 0 {
        if 0 <= x < side && 1 <= y < side {
            link(node_at(side, x, y - 1, 2), node_at(side, x, y, 0))
        } else {
            Set::empty()
        }
    } else if d.orthogonal() {
        if 1 <= x < side && 0 <= y < side {
            link(node_at(side, x - 1, y, 1), node_at(side, x, y, 3))
        } else {
            Set::empty()
        }
    } else {
        Set::empty()
    }
}

/// The links that the two roots of a move cut.
pub open spec fn move_cuts(side: int, mv: Move) -> Set<(int, int)> {
    segment_cuts(side, mv.0, mv.first_dir()) + segment_cuts(side, mv.1, mv.second_dir())
}

/// A node index splits into unit and side, and is built from them again.
pub proof fn lemma_node_decode(side: int, node: int)
    requires
        0 < side,
        0 <= node < node_count(side),
    ensures
        0 <= unit_x(side, node) < side,
        0 <= unit_y(side, node) < side,
        0 <= node_pos(node) < 4,
        node == node_at(side, unit_x(side, node), unit_y(side, node), node_pos(node)),
{
    let u = node / 4;
    assert(0 <= u < side * side) by (nonlinear_arith)
        requires
            0 <= node < 4 * side * side,
            u == node / 4,
    ;
    lemma_fundamental_div_mod(u, side);
    lemma_mod_pos_bound(u, side);
    lemma_div_pos_is_pos(u, side);
    let q = u / side;
    let r = u % side;
    assert(q < side && u == q * side + r) by (nonlinear_arith)
        requires
            0 <= u < side * side,
            0 < side,
            u == side * q + r,
            0 <= r < side,
            0 <= q,
    ;
}

/// Unit and side are read back from the index that `node_at` gives.
pub proof fn lemma_node_at(side: int, x: int, y: int, pos: int)
    requires
        0 < side,
        0 <= x < side,
        0 <= y < side,
        0 <= pos < 4,
    ensures
        0 <= node_at(side, x, y, pos) < node_count(side),
        unit_x(side, node_at(side, x, y, pos)) == x,
        unit_y(side, node_at(side, x, y, pos)) == y,
        node_pos(node_at(side, x, y, pos)) == pos,
{
    let u = x * side + y;
    let node = node_at(side, x, y, pos);
    assert(0 <= u < side * side) by (nonlinear_arith)
        requires
            0 <= x < side,
            0 <= y < side,
            u == x * side + y,
    ;
    assert(node / 4 == u && node % 4 == pos);
    lemma_fundamental_div_mod_converse(u, side, x, y);
    assert(node < 4 * side * side) by (nonlinear_arith)
        requires
            node == u * 4 + pos,
            pos < 4,
            u < side * side,
    ;
}

/// The neighbour relation of the untouched graph is symmetric.
pub proof fn lemma_full_links_symmetric(side: int)
    requires
        0 < side,
        node_count(side) <= 0x10000,
    ensures
        symmetric(full_links(side)),
        within(full_links(side), node_count(side)),
{
    assert forall|a: int, b: int| #[trigger] full_links(side).contains((a, b)) implies full_links(
        side,
    ).contains((b, a)) by {
        lemma_neighbour_back(side, a, b);
    }
}

proof fn lemma_neighbour_back(side: int, a: int, b: int)
    requires
        0 < side,
        node_count(side) <= 0x10000,
        0 <= a < node_count(side),
        0 <= b < node_count(side),
        neighbours_of(side, a).contains(b as u16),
    ensures
        neighbours_of(side, b).contains(a as u16),
{
    lemma_node_decode(side, a);
    let x = unit_x(side, a);
    let y = unit_y(side, a);
    let p = node_pos(a);
    let s = neighbours(side, x, y, p);
    let i = choose|i: int| 0 <= i < s.len() && s[i] == b as u16;
    lemma_node_at(side, x, y, 0);
    lemma_node_at(side, x, y, 1);
    lemma_node_at(side, x, y, 2);
    lemma_node_at(side, x, y, 3);
    if i < 2 {
        // a neighbour in the same unit
        let q = node_pos(b);
        assert(unit_x(side, b) == x && unit_y(side, b) == y);
        let t = neighbours(side, x, y, q);
        assert(t[0] == a as u16 || t[1] == a as u16);
    } else if p == 0 {
        lemma_node_at(side, x, y - 1, 2);
        let t = neighbours(side, x, y - 1, 2);
        assert(t[2] == a as u16);
    } else if p == 1 {
        lemma_node_at(side, x + 1, y, 3);
        let t = neighbours(side, x + 1, y, 3);
        assert(t[2] == a as u16);
    } else if p == 2 {
        lemma_node_at(side, x, y + 1, 0);
        let t = neighbours(side, x, y + 1, 0);
        assert(t[2] == a as u16);
    } else {
        lemma_node_at(side, x - 1, y, 1);
        let t = neighbours(side, x - 1, y, 1);
        assert(t[2] == a as u16);
    }
}

/// The nodes that the links cut by a root speak of are nodes of the graph, and their unit
/// and side can be read back from their index.
pub proof fn lemma_segment_nodes(side: int, a: Coord, d: Dir)
    requires
        0 < side <= 18,
        a.on_board(side + 1),
        stepped(a, d).on_board(side + 1),
        d.diagonal() || d.orthogonal(),
    ensures
        forall|l: (int, int)| #[trigger]
            segment_cuts(side, a, d).contains(l) ==> 0 <= l.0 < node_count(side) && 0 <= l.1
                < node_count(side),
        ({
            let x = min_of(a.x as int, a.x + d.0);
            let y = min_of(a.y as int, a.y + d.1);
            &&& d.diagonal() ==> unit_readable(side, x, y)
            &&& d.orthogonal() && d.1 == 0 && 1 <= y < side ==> unit_readable(side, x, y)
                && unit_readable(side, x, y - 1)
            &&& d.orthogonal() && d.0 == 0 && 1 <= x < side ==> unit_readable(side, x, y)
                && unit_readable(side, x - 1, y)
        }),
{
    let x = min_of(a.x as int, a.x + d.0);
    let y = min_of(a.y as int, a.y + d.1);
    if d.diagonal() {
        lemma_unit_readable(side, x, y);
    } else if d.1 == 0 {
        if 1 <= y < side {
            lemma_unit_readable(side, x, y);
            lemma_unit_readable(side, x, y - 1);
        }
    } else {
        if 1 <= x < side {
            lemma_unit_readable(side, x, y);
            lemma_unit_readable(side, x - 1, y);
        }
    }
}

/// The four nodes of unit `(x, y)` are nodes of the graph, and unit and side are read back
/// from each index.
pub open spec fn unit_readable(side: int, x: int, y: int) -> bool {
    forall|pos: int|
        0 <= pos < 4 ==> {
            let node = #[trigger] node_at(side, x, y, pos);
            &&& 0 <= node < node_count(side)
            &&& unit_x(side, node) == x
            &&& unit_y(side, node) == y
            &&& node_pos(node) == pos
        }
}

pub proof fn lemma_unit_readable(side: int, x: int, y: int)
    requires
        0 < side,
        0 <= x < side,
        0 <= y < side,
    ensures
        unit_readable(side, x, y),
{
    lemma_node_at(side, x, y, 0);
    lemma_node_at(side, x, y, 1);
    lemma_node_at(side, x, y, 2);
    lemma_node_at(side, x, y, 3);
}

/// Every link that a root on the board cuts is a link of the untouched graph.
pub proof fn lemma_cuts_in_full(side: int, a: Coord, d: Dir)
    requires
        0 < side <= 18,
        node_count(side) <= 0x10000,
        a.on_board(side + 1),
        stepped(a, d).on_board(side + 1),
        d.diagonal() || d.orthogonal(),
    ensures
        segment_cuts(side, a, d).subset_of(full_links(side)),
{
    lemma_segment_nodes(side, a, d);
    let x = min_of(a.x as int, a.x + d.0);
    let y = min_of(a.y as int, a.y + d.1);
    assert forall|l: (int, int)| segment_cuts(side, a, d).contains(l) implies full_links(
        side,
    ).contains(l) by {
        if d.diagonal() {
            let n0 = node_at(side, x, y, 0);
            let n1 = node_at(side, x, y, 1);
            let n2 = node_at(side, x, y, 2);
            let n3 = node_at(side, x, y, 3);
            let s0 = neighbours(side, x, y, 0);
            let s1 = neighbours(side, x, y, 1);
            let s2 = neighbours(side, x, y, 2);
            let s3 = neighbours(side, x, y, 3);
            assert(s0[0] == n1 as u16 && s0[1] == n3 as u16);
            assert(s1[0] == n0 as u16 && s1[1] == n2 as u16);
            assert(s2[0] == n1 as u16 && s2[1] == n3 as u16);
            assert(s3[0] == n0 as u16 && s3[1] == n2 as u16);
        } else if d.1 == 0 {
            let up = neighbours(side, x, y - 1, 2);
            let down = neighbours(side, x, y, 0);
            assert(up[2] == node_at(side, x, y, 0) as u16);
            assert(down[2] == node_at(side, x, y - 1, 2) as u16);
        } else {
            let left = neighbours(side, x - 1, y, 1);
            let right = neighbours(side, x, y, 3);
            assert(left[2] == node_at(side, x, y, 3) as u16);
            assert(right[2] == node_at(side, x - 1, y, 1) as u16);
        }
    }
}

/// Two roots that are not the same segment cut no link in common.
pub proof fn lemma_cuts_disjoint(side: int, a: Coord, d: Dir, b: Coord, e: Dir)
    requires
        0 < side <= 18,
        a.on_board(side + 1),
        stepped(a, d).on_board(side + 1),
        b.on_board(side + 1),
        stepped(b, e).on_board(side + 1),
        d.diagonal() || d.orthogonal(),
        e.diagonal() || e.orthogonal(),
        !(a == b && d == e),
        !(a == stepped(b, e) && d == e.reversed()),
    ensures
        segment_cuts(side, a, d).disjoint(segment_cuts(side, b, e)),
{
    lemma_segment_nodes(side, a, d);
    lemma_segment_nodes(side, b, e);
    let x = min_of(a.x as int, a.x + d.0);
    let y = min_of(a.y as int, a.y + d.1);
    let u = min_of(b.x as int, b.x + e.0);
    let v = min_of(b.y as int, b.y + e.1);
    assert forall|l: (int, int)| segment_cuts(side, a, d).contains(l) implies !segment_cuts(
        side,
        b,
        e,
    ).contains(l) by {
        if segment_cuts(side, b, e).contains(l) {
            // both ends of the link name the same unit and side in either reading
            let p = node_pos(l.0);
            let q = node_pos(l.1);
            let lx = unit_x(side, l.0);
            let ly = unit_y(side, l.0);
            let mx = unit_x(side, l.1);
            let my = unit_y(side, l.1);
            assert(false);
        }
    }
}

} // verus!
