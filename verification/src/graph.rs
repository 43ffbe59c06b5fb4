//! The dual graph of one color: four nodes per unit of the board, and between them the
//! links that no root of that color has cut yet.

use crate::dual::{
    lemma_full_links_symmetric, lemma_node_at, lemma_node_decode, full_links, link, move_cuts,
    min_of, neighbours, neighbours_of, node_at, node_count, node_pos, segment_cuts, symmetric,
    unit_x, unit_y, within,
};
use crate::geometry::{Coord, Move, NodePos};
use crate::components::{
    closed, component, connected, is_first, lemma_closed_holds, lemma_connected_back,
    lemma_connected_join, lemma_connected_self, lemma_connected_step, lemma_nodes_finite, region_score, scoring_nodes,
};
use crate::lists::{edge_items, other_than, EdgeList};
use vstd::prelude::*;

verus! {

/// A node of the dual graph: the region it was last found in, and its neighbours.
pub struct Node {
    region: Option<u16>,
    edges: EdgeList,
}

impl Node {
    pub closed spec fn region(&self) -> Option<u16> {
        self.region
    }

    pub closed spec fn neighbours(&self) -> Seq<u16> {
        edge_items(self.edges)
    }

    /// A node without neighbours, in no region.
    pub fn new() -> (node: Node)
        ensures
            node.region() is None,
            node.neighbours() == Seq::<u16>::empty(),
    {
        Node { region: None, edges: EdgeList::new() }
    }
}

/// The neighbour list that the node at side `pos` of unit `(x, y)` has in the untouched
/// graph.
fn neighbour_list(side: usize, x: usize, y: usize, pos: NodePos) -> (list: EdgeList)
    requires
        3 <= side <= 18,
        x < side,
        y < side,
    ensures
        edge_items(list) == neighbours(side as int, x as int, y as int, pos.spec_offset()),
{
    proof {
        lemma_node_at(side as int, x as int, y as int, 0);
        assert(node_count(side as int) <= 1296) by (nonlinear_arith)
            requires
                3 <= side <= 18,
        ;
        assert(x * side <= 17 * 18) by (nonlinear_arith)
            requires
                x <= 17,
                side <= 18,
        ;
    }
    let base: usize = (x * side + y) * 4;
    let mut list = EdgeList::new();
    match pos {
        NodePos::N => {
            list.push((base + 1) as u16);
            list.push((base + 3) as u16);
            if y != 0 {
                list.push((base - 2) as u16);
            }
        },
        NodePos::E => {
            list.push(base as u16);
            list.push((base + 2) as u16);
            if x != side - 1 {
                assert((x + 1) * side == x * side + side) by (nonlinear_arith);
                list.push((base + 4 * side + 3) as u16);
            }
        },
        NodePos::S => {
            list.push((base + 1) as u16);
            list.push((base + 3) as u16);
            if y != side - 1 {
                list.push((base + 4) as u16);
            }
        },
        NodePos::W => {
            list.push(base as u16);
            list.push((base + 2) as u16);
            if x != 0 {
                assert((x - 1) * side == x * side - side) by (nonlinear_arith);
                list.push((base - 4 * side + 1) as u16);
            }
        },
    }
    assert(edge_items(list) =~= neighbours(side as int, x as int, y as int, pos.spec_offset()));
    list
}

/// The label is a region below `bound`.
pub open spec fn is_below(label: Option<u16>, bound: int) -> bool {
    label is Some && label->0 < bound
}

/// What is left in a neighbour list after one neighbour was taken out.
proof fn lemma_without(s: Seq<u16>, target: u16, item: u16)
    ensures
        s.filter(other_than(target)).contains(item) <==> (s.contains(item) && item != target),
{
    let f = s.filter(other_than(target));
    if f.contains(item) {
        s.lemma_filter_contains_rev(other_than(target), item);
        let i = choose|i: int| 0 <= i < f.len() && f[i] == item;
        s.lemma_filter_pred(other_than(target), i);
    }
    if s.contains(item) && item != target {
        let i = choose|i: int| 0 <= i < s.len() && s[i] == item;
        s.lemma_filter_contains(other_than(target), i);
    }
}

/// The dual graph of one color.
pub struct Graph {
    ngrids: u8,
    nodes: Vec<Node>,
}

impl Graph {
    /// Units per side of the board: its width minus one.
    pub closed spec fn side(&self) -> int {
        self.ngrids as int
    }

    /// Number of nodes.
    pub open spec fn size(&self) -> int {
        node_count(self.side())
    }

    pub closed spec fn list(&self, node: int) -> Seq<u16> {
        self.nodes[node].neighbours()
    }

    pub closed spec fn joined(&self, a: int, b: int) -> bool {
        self.list(a).contains(b as u16)
    }

    /// The links that are left, each in both directions.
    pub closed spec fn links(&self) -> Set<(int, int)> {
        Set::new(
            |l: (int, int)|
                0 <= l.0 < self.nodes.len() && 0 <= l.1 < self.nodes.len() && self.joined(
                    l.0,
                    l.1,
                ),
        )
    }

    /// The graph has four nodes per unit, every neighbour is a node, and every link is held
    /// at both its ends.
    pub closed spec fn wf(&self) -> bool {
        &&& 3 <= self.ngrids <= 18
        &&& self.nodes.len() == node_count(self.ngrids as int)
        &&& forall|a: int, i: int|
            0 <= a < self.nodes.len() && 0 <= i < self.list(a).len() ==> (#[trigger] self.list(
                a,
            )[i]) < self.nodes.len()
        &&& symmetric(self.links())
    }

    /// The links of a well-formed graph are symmetric and join nodes of the graph.
    pub proof fn lemma_links(&self)
        requires
            self.wf(),
        ensures
            symmetric(self.links()),
            within(self.links(), self.size()),
            3 <= self.side() <= 18,
    {
    }

    /// The untouched graph of a board with `width` lines.
    pub fn new(width: usize) -> (graph: Graph)
        requires
            3 < width < 20,
        ensures
            graph.wf(),
            graph.side() == width - 1,
            graph.links() == full_links(width - 1),
            graph.labelled() == Set::<int>::empty(),
    {
        let ngrids: usize = width - 1;
        let ghost side = ngrids as int;
        let mut nodes: Vec<Node> = Vec::new();
        let mut x: usize = 0;
        proof {
            assert(node_count(side) <= 1296) by (nonlinear_arith)
                requires
                    3 <= side <= 18,
            ;
        }
        while x < ngrids
            invariant
                3 <= ngrids <= 18,
                side == ngrids,
                x <= ngrids,
                nodes.len() == node_at(side, x as int, 0, 0),
                forall|a: int|
                    0 <= a < nodes.len() ==> (#[trigger] nodes[a]).neighbours() == neighbours_of(
                        side,
                        a,
                    ) && nodes[a].region() is None,
            decreases ngrids - x,
        {
            let mut y: usize = 0;
            while y < ngrids
                invariant
                    3 <= ngrids <= 18,
                    side == ngrids,
                    x < ngrids,
                    y <= ngrids,
                    nodes.len() == node_at(side, x as int, y as int, 0),
                    forall|a: int|
                        0 <= a < nodes.len() ==> (#[trigger] nodes[a]).neighbours()
                            == neighbours_of(side, a) && nodes[a].region() is None,
                decreases ngrids - y,
            {
                proof {
                    lemma_node_at(side, x as int, y as int, 0);
                    lemma_node_at(side, x as int, y as int, 1);
                    lemma_node_at(side, x as int, y as int, 2);
                    lemma_node_at(side, x as int, y as int, 3);
                }
                nodes.push(Node { region: None, edges: neighbour_list(ngrids, x, y, NodePos::N) });
                nodes.push(Node { region: None, edges: neighbour_list(ngrids, x, y, NodePos::E) });
                nodes.push(Node { region: None, edges: neighbour_list(ngrids, x, y, NodePos::S) });
                nodes.push(Node { region: None, edges: neighbour_list(ngrids, x, y, NodePos::W) });
                y += 1;
            }
            proof {
                assert((x + 1) * side == x * side + side) by (nonlinear_arith);
            }
            x += 1;
        }
        let graph = Graph { ngrids: ngrids as u8, nodes };
        proof {
            assert(node_at(side, side, 0, 0) == node_count(side)) by (nonlinear_arith);
            assert forall|a: int, i: int|
                0 <= a < graph.nodes.len() && 0 <= i < graph.list(a).len() implies (
            #[trigger] graph.list(a)[i]) < graph.nodes.len() by {
                lemma_neighbours_in_range(side, a, i);
            }
            assert(graph.links() =~= full_links(side));
            lemma_full_links_symmetric(side);
            assert(graph.labelled() =~= Set::<int>::empty());
        }
        graph
    }

    /// Index of the node at side `pos` of unit `coord`.
    fn index_of(&self, coord: Coord, pos: NodePos) -> (idx: usize)
        requires
            self.wf(),
            0 <= coord.x < self.side(),
            0 <= coord.y < self.side(),
        ensures
            idx == node_at(self.side(), coord.x as int, coord.y as int, pos.spec_offset()),
            idx < self.nodes.len(),
    {
        proof {
            lemma_node_at(self.side(), coord.x as int, coord.y as int, pos.spec_offset());
            assert(coord.x * self.ngrids <= 17 * 18) by (nonlinear_arith)
                requires
                    0 <= coord.x <= 17,
                    self.ngrids <= 18,
            ;
            assert(0 <= coord.x * self.ngrids) by (nonlinear_arith)
                requires
                    0 <= coord.x,
                    0 <= self.ngrids,
            ;
        }
        ((coord.x as usize) * (self.ngrids as usize) + (coord.y as usize)) * 4 + pos.offset()
    }

    /// Takes the link between two nodes out of the graph, at both its ends.
    fn remove_edge(&mut self, crd1: Coord, pos1: NodePos, crd2: Coord, pos2: NodePos)
        requires
            old(self).wf(),
            0 <= crd1.x < old(self).side(),
            0 <= crd1.y < old(self).side(),
            0 <= crd2.x < old(self).side(),
            0 <= crd2.y < old(self).side(),
            old(self).links().contains(
                (
                    node_at(old(self).side(), crd1.x as int, crd1.y as int, pos1.spec_offset()),
                    node_at(old(self).side(), crd2.x as int, crd2.y as int, pos2.spec_offset()),
                ),
            ),
        ensures
            final(self).wf(),
            final(self).side() == old(self).side(),
            final(self).links() == old(self).links().difference(
                link(
                    node_at(old(self).side(), crd1.x as int, crd1.y as int, pos1.spec_offset()),
                    node_at(old(self).side(), crd2.x as int, crd2.y as int, pos2.spec_offset()),
                ),
            ),
            final(self).same_labels(old(self)),
    {
        let a: usize = self.index_of(crd1, pos1);
        let b: usize = self.index_of(crd2, pos2);
        let ghost n = self.nodes.len() as int;
        proof {
            lemma_count_bound(self.side());
        }
        self.nodes[a].edges.remove_item(b as u16);
        self.nodes[b].edges.remove_item(a as u16);
        proof {
            let before = *old(self);
            let after = *self;
            assert(after.nodes.len() == n);
            assert forall|c: int, d: int| 0 <= c < n && 0 <= d < n implies (#[trigger] after.joined(
                c,
                d,
            ) <==> (before.joined(c, d) && !(c == a && d == b) && !(c == b && d == a))) by {
                lemma_without(before.list(a as int), b as u16, d as u16);
                lemma_without(before.list(b as int), a as u16, d as u16);
                lemma_without(
                    before.list(a as int).filter(other_than(b as u16)),
                    a as u16,
                    d as u16,
                );
            }
            assert forall|c: int, i: int|
                0 <= c < n && 0 <= i < after.list(c).len() implies (#[trigger] after.list(
                c,
            )[i]) < n by {
                let item = after.list(c)[i];
                assert(after.list(c).contains(item));
                lemma_without(before.list(a as int), b as u16, item);
                lemma_without(before.list(b as int), a as u16, item);
                lemma_without(
                    before.list(a as int).filter(other_than(b as u16)),
                    a as u16,
                    item,
                );
                assert(before.list(c).contains(item));
                let j = choose|j: int| 0 <= j < before.list(c).len() && before.list(c)[j] == item;
                assert(before.list(c)[j] < n);
            }
            assert(after.links() =~= before.links().difference(link(a as int, b as int)));
            assert forall|c: int| 0 <= c < n implies after.region_of(c) == before.region_of(c) by {
                assert(after.nodes[c].region == before.nodes[c].region);
            }
            assert(after.labelled() =~= before.labelled());
            assert(symmetric(after.links())) by {
                assert forall|c: int, d: int| #[trigger]
                    after.links().contains((c, d)) implies after.links().contains((d, c)) by {
                    assert(before.links().contains((c, d)));
                    assert(before.links().contains((d, c)));
                }
            }
        }
    }

    /// Cuts the links that the two roots of a move cross.
    ///
    /// The move must lie on the board of this graph and have the shape of a move, and the
    /// links it crosses must still be there.
    pub fn apply_move(&mut self, next_move: Move)
        requires
            old(self).wf(),
            next_move.well_shaped(),
            next_move.0.on_board(old(self).side() + 1),
            next_move.1.on_board(old(self).side() + 1),
            next_move.2.on_board(old(self).side() + 1),
            move_cuts(old(self).side(), next_move).subset_of(old(self).links()),
        ensures
            final(self).wf(),
            final(self).side() == old(self).side(),
            final(self).links() == old(self).links().difference(
                move_cuts(old(self).side(), next_move),
            ),
            final(self).same_labels(old(self)),
    {
        let Move(stone1, stone2, stone3) = next_move;
        let ghost side = self.side();
        let ghost first = segment_cuts(side, stone1, next_move.first_dir());
        let ghost second = segment_cuts(side, stone2, next_move.second_dir());
        proof {
            lemma_unit_nodes(
                side,
                min_of(stone1.x as int, stone2.x as int),
                min_of(stone1.y as int, stone2.y as int),
            );
        }

        // first root
        let dx: i8 = stone2.x - stone1.x;
        let dy: i8 = stone2.y - stone1.y;
        if dx == 1 && dy == 1 {
            assert(first.contains((node_at(side, stone1.x as int, stone1.y as int, 0), node_at(side, stone1.x as int, stone1.y as int, 3))));
            assert(first.contains((node_at(side, stone1.x as int, stone1.y as int, 2), node_at(side, stone1.x as int, stone1.y as int, 1))));
            self.remove_edge(stone1, NodePos::N, stone1, NodePos::W);
            self.remove_edge(stone1, NodePos::S, stone1, NodePos::E);
        } else if dx == 1 && dy == -1 {
            let pos = Coord::new(stone1.x, stone1.y - 1);
            if 0 <= pos.y {
                assert(first.contains((node_at(side, pos.x as int, pos.y as int, 0), node_at(side, pos.x as int, pos.y as int, 1))));
                assert(first.contains((node_at(side, pos.x as int, pos.y as int, 2), node_at(side, pos.x as int, pos.y as int, 3))));
                self.remove_edge(pos, NodePos::N, pos, NodePos::E);
                self.remove_edge(pos, NodePos::S, pos, NodePos::W);
            }
        } else if dx == -1 && dy == 1 {
            let pos = Coord::new(stone1.x - 1, stone1.y);
            if 0 <= pos.x {
                assert(first.contains((node_at(side, pos.x as int, pos.y as int, 0), node_at(side, pos.x as int, pos.y as int, 1))));
                assert(first.contains((node_at(side, pos.x as int, pos.y as int, 2), node_at(side, pos.x as int, pos.y as int, 3))));
                self.remove_edge(pos, NodePos::N, pos, NodePos::E);
                self.remove_edge(pos, NodePos::S, pos, NodePos::W);
            }
        } else {
            assert(dx == -1 && dy == -1);
            assert(first.contains((node_at(side, stone2.x as int, stone2.y as int, 0), node_at(side, stone2.x as int, stone2.y as int, 3))));
            assert(first.contains((node_at(side, stone2.x as int, stone2.y as int, 2), node_at(side, stone2.x as int, stone2.y as int, 1))));
            self.remove_edge(stone2, NodePos::N, stone2, NodePos::W);
            self.remove_edge(stone2, NodePos::S, stone2, NodePos::E);
        }
        assert(self.links() =~= old(self).links().difference(first));

        // second root
        let dx: i8 = stone3.x - stone2.x;
        let dy: i8 = stone3.y - stone2.y;
        let upper: i8 = self.ngrids as i8;
        if dx == 1 && dy == 0 {
            if stone2.x < upper && 1 <= stone2.y && stone2.y < upper {
                assert(second.contains((node_at(side, stone2.x as int, stone2.y - 1, 2), node_at(side, stone2.x as int, stone2.y as int, 0))));
                self.remove_edge(Coord::new(stone2.x, stone2.y - 1), NodePos::S, stone2, NodePos::N);
            }
        } else if dx == -1 && dy == 0 {
            if stone3.x < upper && 1 <= stone3.y && stone3.y < upper {
                assert(second.contains((node_at(side, stone3.x as int, stone3.y - 1, 2), node_at(side, stone3.x as int, stone3.y as int, 0))));
                self.remove_edge(Coord::new(stone3.x, stone3.y - 1), NodePos::S, stone3, NodePos::N);
            }
        } else if dx == 0 && dy == 1 {
            if 1 <= stone2.x && stone2.x < upper && stone2.y < upper {
                assert(second.contains((node_at(side, stone2.x - 1, stone2.y as int, 1), node_at(side, stone2.x as int, stone2.y as int, 3))));
                self.remove_edge(Coord::new(stone2.x - 1, stone2.y), NodePos::E, stone2, NodePos::W);
            }
        } else {
            assert(dx == 0 && dy == -1);
            if 1 <= stone3.x && stone3.x < upper && stone3.y < upper {
                assert(second.contains((node_at(side, stone3.x - 1, stone3.y as int, 1), node_at(side, stone3.x as int, stone3.y as int, 3))));
                self.remove_edge(Coord::new(stone3.x - 1, stone3.y), NodePos::E, stone3, NodePos::W);
            }
        }
        assert(self.links() =~= old(self).links().difference(first).difference(second));
        assert(self.links() =~= old(self).links().difference(move_cuts(side, next_move)));
    }

    /// The region that a node was last found in, if it has one.
    pub closed spec fn region_of(&self, node: int) -> Option<u16> {
        self.nodes[node].region()
    }

    /// The nodes that were given a region since the labels were last cleared.
    pub closed spec fn labelled(&self) -> Set<int> {
        Set::new(|a: int| 0 <= a < self.nodes.len() && self.nodes[a].region() is Some)
    }

    /// The region that a node was found in when the graph was last scored; none before the
    /// first scoring.
    pub fn region(&self, node: usize) -> (label: Option<u16>)
        requires
            self.wf(),
            node < self.size(),
        ensures
            label == self.region_of(node as int),
    {
        self.nodes[node].region
    }

    /// Number of nodes of the graph.
    pub fn node_count(&self) -> (n: usize)
        requires
            self.wf(),
        ensures
            n == self.size(),
    {
        self.nodes.len()
    }

    /// The labels of two graphs are the same, node by node.
    pub open spec fn same_labels(&self, other: &Graph) -> bool {
        &&& self.labelled() == other.labelled()
        &&& forall|a: int| 0 <= a < self.size() ==> self.region_of(a) == other.region_of(a)
    }

    /// Writes the region label of one node; the links stay as they are.
    fn set_region(&mut self, node: usize, region: Option<u16>)
        requires
            old(self).wf(),
            node < old(self).size(),
        ensures
            final(self).wf(),
            final(self).side() == old(self).side(),
            final(self).links() == old(self).links(),
            final(self).nodes.len() == old(self).nodes.len(),
            forall|a: int| 0 <= a < old(self).size() ==> final(self).list(a) == old(self).list(a),
            forall|a: int|
                0 <= a < old(self).size() && a != node ==> (#[trigger] final(self).nodes[a]).region()
                    == old(self).nodes[a].region(),
            final(self).nodes[node as int].region() == region,
            final(self).region_of(node as int) == region,
            forall|a: int|
                0 <= a < old(self).size() && a != node ==> final(self).region_of(a)
                    == old(self).region_of(a),
            region is Some ==> final(self).labelled() == old(self).labelled().insert(node as int),
            region is None ==> final(self).labelled() == old(self).labelled().remove(node as int),
    {
        self.nodes[node].region = region;
        proof {
            let n = self.nodes.len() as int;
            assert forall|a: int| 0 <= a < n implies self.list(a) == old(self).list(a) by {
                assert(self.nodes[a].edges == old(self).nodes[a].edges);
            }
            assert forall|a: int, b: int| 0 <= a < n && 0 <= b < n implies (self.joined(a, b)
                <==> old(self).joined(a, b)) by {
                assert(self.list(a) == old(self).list(a));
            }
            assert(self.links() =~= old(self).links());
            if region is Some {
                assert(self.labelled() =~= old(self).labelled().insert(node as int));
            } else {
                assert(self.labelled() =~= old(self).labelled().remove(node as int));
            }
        }
    }

    /// Gives `region` to every node that can be reached from `start`, and counts them.
    ///
    /// No link may lead out of the nodes that are labelled already, and `start` is not one
    /// of them.
    fn find_connected_component(&mut self, region: u16, start: usize) -> (num: u16)
        requires
            old(self).wf(),
            start < old(self).size(),
            !old(self).labelled().contains(start as int),
            closed(old(self).links(), old(self).labelled()),
        ensures
            final(self).wf(),
            final(self).side() == old(self).side(),
            final(self).links() == old(self).links(),
            final(self).labelled() == old(self).labelled() + component(
                old(self).links(),
                old(self).size(),
                start as int,
            ),
            num == component(old(self).links(), old(self).size(), start as int).len(),
            forall|a: int|
                0 <= a < old(self).size() ==> final(self).region_of(a) == if component(
                    old(self).links(),
                    old(self).size(),
                    start as int,
                ).contains(a) {
                    Some(region)
                } else {
                    old(self).region_of(a)
                },
            forall|a: int|
                component(old(self).links(), old(self).size(), start as int).contains(a)
                    ==> !old(self).labelled().contains(a),
    {
        let ghost links = self.links();
        let ghost n = self.nodes.len() as int;
        let ghost before = old(self).labelled();
        let ghost mut fresh: Set<int> = Set::empty();
        let mut num: u16 = 0;
        let mut stack: Vec<usize> = Vec::new();
        stack.push(start);
        proof {
            lemma_count_bound(self.side());
            lemma_connected_self(links, start as int);
            assert(stack@[0] == start);
            assert forall|a: int| connected(links, start as int, a) implies !before.contains(
                a,
            ) by {
                if before.contains(a) {
                    lemma_connected_back(links, start as int, a);
                    lemma_closed_holds(links, before, a, start as int);
                }
            }
        }
        while stack.len() > 0
            invariant
                self.wf(),
                self.side() == old(self).side(),
                self.links() == links,
                self.nodes.len() == n,
                n == old(self).size(),
                n <= 1296,
                start < n,
                closed(links, before),
                before == old(self).labelled(),
                self.labelled() == before + fresh,
                forall|a: int|
                    0 <= a < n ==> self.region_of(a) == if fresh.contains(a) {
                        Some(region)
                    } else {
                        old(self).region_of(a)
                    },
                fresh.finite(),
                num == fresh.len(),
                forall|a: int| fresh.contains(a) ==> 0 <= a < n && connected(links, start as int, a),
                forall|a: int| connected(links, start as int, a) ==> !before.contains(a),
                forall|i: int| 0 <= i < stack@.len() ==> (#[trigger] stack@[i]) < n && connected(
                    links,
                    start as int,
                    stack@[i] as int,
                ),
                forall|a: int, b: int|
                    fresh.contains(a) && #[trigger] links.contains((a, b)) ==> fresh.contains(b)
                        || stack@.contains(b as usize),
                fresh.contains(start as int) || stack@.contains(start),
            decreases n - num, stack.len(),
        {
            let ghost stack0 = stack@;
            let cur: usize = stack.pop().unwrap();
            assert(cur == stack0[stack0.len() - 1]);
            let ghost popped = stack@;
            assert forall|v: usize| stack0.contains(v) && v != cur implies popped.contains(v) by {
                let i = choose|i: int| 0 <= i < stack0.len() && stack0[i] == v;
                assert(popped[i] == v);
            }
            if self.nodes[cur].region.is_none() {
                proof {
                    assert(!self.labelled().contains(cur as int));
                    assert(!fresh.contains(cur as int));
                    lemma_nodes_finite(fresh.insert(cur as int), n);
                    fresh = fresh.insert(cur as int);
                }
                num += 1;
                self.set_region(cur, Some(region));
                proof {
                    assert(self.labelled() =~= before + fresh);
                }
                let edges = self.nodes[cur].edges.as_slice();
                let ghost stack1 = stack@;
                let mut k: usize = 0;
                while k < edges.len()
                    invariant
                        k <= edges.len(),
                        edges@ == self.list(cur as int),
                        self.wf(),
                        self.links() == links,
                        self.nodes.len() == n,
                        cur < n,
                        n <= 1296,
                        connected(links, start as int, cur as int),
                        self.labelled() == before + fresh,
                        forall|a: int| connected(links, start as int, a) ==> !before.contains(a),
                        stack@.len() >= stack1.len(),
                        stack@.take(stack1.len() as int) == stack1,
                        forall|i: int|
                            0 <= i < stack@.len() ==> (#[trigger] stack@[i]) < n && connected(
                                links,
                                start as int,
                                stack@[i] as int,
                            ),
                        forall|j: int|
                            0 <= j < k ==> fresh.contains((#[trigger] edges@[j]) as int)
                                || stack@.contains(edges@[j] as usize),
                    decreases edges.len() - k,
                {
                    let nb: usize = edges[k] as usize;
                    proof {
                        assert(self.list(cur as int)[k as int] < n);
                        assert(self.list(cur as int).contains(nb as u16));
                        assert(self.joined(cur as int, nb as int));
                        assert(links.contains((cur as int, nb as int)));
                        lemma_connected_step(links, start as int, cur as int, nb as int);
                    }
                    let ghost stack2 = stack@;
                    if self.nodes[nb].region.is_none() {
                        stack.push(nb);
                        proof {
                            assert(stack@[stack2.len() as int] == nb);
                            assert(stack@.take(stack1.len() as int) =~= stack2.take(
                                stack1.len() as int,
                            ));
                            assert forall|j: int| 0 <= j < k implies fresh.contains(
                                (#[trigger] edges@[j]) as int,
                            ) || stack@.contains(edges@[j] as usize) by {
                                if stack2.contains(edges@[j] as usize) {
                                    let i = choose|i: int|
                                        0 <= i < stack2.len() && stack2[i] == edges@[j] as usize;
                                    assert(stack@[i] == edges@[j] as usize);
                                }
                            }
                        }
                    } else {
                        proof {
                            assert(self.labelled().contains(nb as int));
                            assert(fresh.contains(nb as int));
                        }
                    }
                    k += 1;
                }
                proof {
                    assert forall|v: usize| stack1.contains(v) implies stack@.contains(v) by {
                        let i = choose|i: int| 0 <= i < stack1.len() && stack1[i] == v;
                        assert(stack@.take(stack1.len() as int)[i] == v);
                        assert(stack@[i] == v);
                    }
                    assert forall|a: int, b: int|
                        fresh.contains(a) && #[trigger] links.contains((a, b)) implies fresh.contains(
                        b,
                    ) || stack@.contains(b as usize) by {
                        self.lemma_links();
                        if a == cur {
                            assert(self.joined(cur as int, b));
                            let j = choose|j: int|
                                0 <= j < edges@.len() && edges@[j] == b as u16;
                            assert(edges@[j] as int == b);
                        } else if b != cur && !fresh.contains(b) {
                            assert(stack0.contains(b as usize));
                            assert(popped.contains(b as usize));
                            assert(stack@.contains(b as usize));
                        }
                    }
                }
            } else {
                proof {
                    assert(self.labelled().contains(cur as int));
                    assert(fresh.contains(cur as int));
                }
            }
        }
        proof {
            let whole = component(links, n, start as int);
            assert(closed(links, fresh)) by {
                assert forall|a: int, b: int|
                    fresh.contains(a) && #[trigger] links.contains((a, b)) implies fresh.contains(
                    b,
                ) by {
                    assert(stack@.len() == 0);
                }
            }
            assert forall|a: int| whole.contains(a) implies fresh.contains(a) by {
                lemma_closed_holds(links, fresh, start as int, a);
            }
            assert(fresh =~= whole);
        }
        num
    }

    /// The score of the color: the number of connected regions of more than four nodes.
    ///
    /// The links stay as they are. The labels are written anew: afterwards every node has
    /// a region, and two nodes have the same exactly if they are connected.
    pub fn score(&mut self) -> (score: u16)
        requires
            old(self).wf(),
        ensures
            final(self).wf(),
            final(self).side() == old(self).side(),
            final(self).links() == old(self).links(),
            score == region_score(old(self).links(), old(self).size()),
            forall|a: int| 0 <= a < final(self).size() ==> final(self).region_of(a) is Some,
            forall|a: int| 0 <= a < final(self).size() ==> final(self).labelled().contains(a),
            forall|a: int, b: int|
                0 <= a < final(self).size() && 0 <= b < final(self).size() ==> (
                #[trigger] final(self).region_of(a) == #[trigger] final(self).region_of(b)
                    <==> connected(old(self).links(), a, b)),
    {
        let ghost links = self.links();
        let n: usize = self.nodes.len();
        proof {
            lemma_count_bound(self.side());
        }
        let mut i: usize = 0;
        while i < n
            invariant
                i <= n,
                self.wf(),
                self.side() == old(self).side(),
                self.links() == links,
                self.nodes.len() == n,
                forall|a: int| 0 <= a < i ==> (#[trigger] self.nodes[a]).region() is None,
            decreases n - i,
        {
            self.set_region(i, None);
            i += 1;
        }
        assert(self.labelled() =~= Set::<int>::empty());
        assert(scoring_nodes(links, n as int, 0) =~= Set::<int>::empty());

        let mut score: u16 = 0;
        let mut region: u16 = 0;
        let mut idx: usize = 0;
        let ghost mut firsts: Seq<int> = Seq::new(n as nat, |a: int| a);
        while idx < n
            invariant
                idx <= n,
                n == old(self).size(),
                n <= 1296,
                self.wf(),
                self.side() == old(self).side(),
                self.links() == links,
                self.nodes.len() == n,
                region <= idx,
                score <= idx,
                closed(links, self.labelled()),
                firsts.len() == n,
                forall|a: int| 0 <= a < idx ==> self.labelled().contains(a),
                forall|a: int|
                    self.labelled().contains(a) ==> is_below(#[trigger] self.region_of(a), region as int),
                forall|a: int, b: int|
                    self.labelled().contains(a) && self.labelled().contains(b) ==> (
                    #[trigger] self.region_of(a) == #[trigger] self.region_of(b) <==> connected(
                        links,
                        a,
                        b,
                    )),
                forall|a: int| #[trigger]
                    self.labelled().contains(a) ==> 0 <= firsts[a] < idx && connected(
                        links,
                        firsts[a],
                        a,
                    ) && is_first(links, firsts[a]),
                scoring_nodes(links, n as int, idx as int).finite(),
                score == scoring_nodes(links, n as int, idx as int).len(),
            decreases n - idx,
        {
            let ghost done = scoring_nodes(links, n as int, idx as int);
            let ghost next = scoring_nodes(links, n as int, idx + 1);
            if self.nodes[idx].region.is_none() {
                let ghost marked = self.labelled();
                proof {
                    assert(!marked.contains(idx as int));
                    assert(is_first(links, idx as int)) by {
                        assert forall|b: int| 0 <= b < idx implies !connected(
                            links,
                            b,
                            idx as int,
                        ) by {
                            if connected(links, b, idx as int) {
                                lemma_closed_holds(links, marked, b, idx as int);
                            }
                        }
                    }
                }
                let ghost unfilled = *self;
                let num = self.find_connected_component(region, idx);
                proof {
                    let whole = component(links, n as int, idx as int);
                    self.lemma_links();
                    assert forall|a: int, b: int|
                        self.labelled().contains(a) && self.labelled().contains(b) implies (
                    #[trigger] self.region_of(a) == #[trigger] self.region_of(b) <==> connected(
                        links,
                        a,
                        b,
                    )) by {
                        if whole.contains(a) && whole.contains(b) {
                            lemma_connected_back(links, idx as int, a);
                            lemma_connected_join(links, a, idx as int, b);
                        } else if whole.contains(a) {
                            assert(marked.contains(b));
                            assert(is_below(unfilled.region_of(b), region as int));
                            if connected(links, a, b) {
                                lemma_connected_join(links, idx as int, a, b);
                            }
                        } else if whole.contains(b) {
                            assert(marked.contains(a));
                            assert(is_below(unfilled.region_of(a), region as int));
                            if connected(links, a, b) {
                                lemma_connected_back(links, a, b);
                                lemma_connected_join(links, idx as int, b, a);
                            }
                        } else {
                            assert(marked.contains(a) && marked.contains(b));
                            assert(self.region_of(a) == unfilled.region_of(a));
                            assert(self.region_of(b) == unfilled.region_of(b));
                        }
                    }
                    assert forall|a: int| self.labelled().contains(a) implies is_below(
                        #[trigger] self.region_of(a),
                        region + 1,
                    ) by {
                        if !whole.contains(a) {
                            assert(marked.contains(a));
                            assert(is_below(unfilled.region_of(a), region as int));
                        }
                    }
                    assert(closed(links, self.labelled())) by {
                        assert forall|a: int, b: int|
                            self.labelled().contains(a) && #[trigger] links.contains(
                                (a, b),
                            ) implies self.labelled().contains(b) by {
                            self.lemma_links();
                            if whole.contains(a) {
                                lemma_connected_step(links, idx as int, a, b);
                                assert(whole.contains(b));
                            }
                        }
                    }
                    firsts = Seq::new(
                        n as nat,
                        |a: int|
                            if marked.contains(a) {
                                firsts[a]
                            } else {
                                idx as int
                            },
                    );
                    lemma_connected_self(links, idx as int);
                    assert(whole.contains(idx as int));
                    if 4 < num {
                        assert(next =~= done.insert(idx as int));
                    } else {
                        assert(next =~= done);
                    }
                }
                if 4 < num {
                    score += 1;
                }
                region += 1;
            } else {
                proof {
                    assert(self.labelled().contains(idx as int));
                    let f = firsts[idx as int];
                    assert(f < idx && connected(links, f, idx as int));
                    assert(!is_first(links, idx as int));
                    assert(next =~= done);
                }
            }
            idx += 1;
        }
        score
    }
}

/// A board of at most 19 lines has at most 1296 nodes.
pub proof fn lemma_count_bound(side: int)
    requires
        0 <= side <= 18,
    ensures
        0 <= node_count(side) <= 1296,
{
    assert(0 <= 4 * side * side <= 1296) by (nonlinear_arith)
        requires
            0 <= side <= 18,
    ;
}

/// The four nodes of a unit of the board are nodes of the graph.
proof fn lemma_unit_nodes(side: int, x: int, y: int)
    requires
        0 < side,
        0 <= x < side,
        0 <= y < side,
    ensures
        forall|pos: int|
            0 <= pos < 4 ==> 0 <= #[trigger] node_at(side, x, y, pos) < node_count(side),
{
    lemma_node_at(side, x, y, 0);
    lemma_node_at(side, x, y, 1);
    lemma_node_at(side, x, y, 2);
    lemma_node_at(side, x, y, 3);
}

/// Every neighbour of the untouched graph is a node of it.
proof fn lemma_neighbours_in_range(side: int, a: int, i: int)
    requires
        3 <= side <= 18,
        0 <= a < node_count(side),
        0 <= i < neighbours_of(side, a).len(),
    ensures
        neighbours_of(side, a)[i] < node_count(side),
{
    lemma_node_decode(side, a);
    let x = unit_x(side, a);
    let y = unit_y(side, a);
    let p = node_pos(a);
    lemma_node_at(side, x, y, 0);
    lemma_node_at(side, x, y, 1);
    lemma_node_at(side, x, y, 2);
    lemma_node_at(side, x, y, 3);
    if i == 2 {
        if p == 0 {
            lemma_node_at(side, x, y - 1, 2);
        } else if p == 1 {
            lemma_node_at(side, x + 1, y, 3);
        } else if p == 2 {
            lemma_node_at(side, x, y + 1, 0);
        } else {
            lemma_node_at(side, x - 1, y, 1);
        }
    }
}

impl Clone for Node {
    fn clone(&self) -> (copy: Self)
        ensures
            copy.region() == self.region(),
            copy.neighbours() == self.neighbours(),
    {
        let items = self.edges.as_slice();
        let mut edges = EdgeList::new();
        let mut i: usize = 0;
        while i < items.len()
            invariant
                i <= items.len(),
                items@ == edge_items(self.edges),
                items@.len() <= 3,
                edge_items(edges) == items@.take(i as int),
            decreases items.len() - i,
        {
            edges.push(items[i]);
            assert(items@.take(i as int).push(items@[i as int]) =~= items@.take(i + 1));
            i += 1;
        }
        assert(items@.take(items@.len() as int) =~= items@);
        Node { region: self.region, edges }
    }
}

impl Clone for Graph {
    fn clone(&self) -> (copy: Self)
        ensures
            self.wf() ==> copy.wf() && copy.side() == self.side() && copy.links() == self.links()
                && copy.same_labels(self),
    {
        let mut nodes: Vec<Node> = Vec::new();
        let n: usize = self.nodes.len();
        let mut i: usize = 0;
        while i < n
            invariant
                i <= n,
                n == self.nodes.len(),
                nodes.len() == i,
                forall|k: int|
                    0 <= k < i ==> (#[trigger] nodes[k]).neighbours() == self.nodes[k].neighbours()
                        && nodes[k].region() == self.nodes[k].region(),
            decreases n - i,
        {
            nodes.push(self.nodes[i].clone());
            i += 1;
        }
        let copy = Graph { ngrids: self.ngrids, nodes };
        proof {
            if self.wf() {
                assert forall|a: int| 0 <= a < n implies copy.list(a) == self.list(a) by {}
                assert forall|a: int, b: int| 0 <= a < n && 0 <= b < n implies (copy.joined(a, b)
                    <==> self.joined(a, b)) by {
                    assert(copy.list(a) == self.list(a));
                }
                assert(copy.links() =~= self.links());
                assert(copy.labelled() =~= self.labelled());
            }
        }
        copy
    }
}

} // verus!
