//! One cell of the board: its stone, if any, and the roots that leave it.

use crate::geometry::{Color, Dir};
use crate::lists::{root_items, RootList};
use vstd::prelude::*;

verus! {

/// What a cell holds, as plain values.
pub struct CellView {
    pub color: Option<Color>,
    pub roots: Seq<Dir>,
}

impl CellView {
    /// A root in direction `dir` may leave the cell: no root of the cell is within
    /// Manhattan distance 1 of it, so no two roots of a stone are closer than 90 degrees.
    pub open spec fn accepts(self, dir: Dir) -> bool {
        forall|i: int| 0 <= i < self.roots.len() ==> (#[trigger] self.roots[i]).distance(dir) > 1
    }

    /// The cell has a root in direction `dir`.
    pub open spec fn has_root(self, dir: Dir) -> bool {
        self.roots.contains(dir)
    }

    /// The roots are directions, and no two of them are within Manhattan distance 1.
    pub open spec fn well_formed(self) -> bool {
        &&& forall|i: int| 0 <= i < self.roots.len() ==> (#[trigger] self.roots[i]).valid()
        &&& forall|i: int, j: int|
            0 <= i < j < self.roots.len() ==> (#[trigger] self.roots[i]).distance(
                #[trigger] self.roots[j],
            ) > 1
        &&& self.color is None ==> self.roots.len() == 0
    }
}

pub open spec fn dir_of(pair: (i8, i8)) -> Dir {
    Dir(pair.0, pair.1)
}

/// A cell of the board.
pub struct Grid {
    color: Option<Color>,
    roots: RootList,
}

impl View for Grid {
    type V = CellView;

    closed spec fn view(&self) -> CellView {
        CellView {
            color: self.color,
            roots: Seq::new(
                root_items(self.roots).len(),
                |i: int| dir_of(root_items(self.roots)[i]),
            ),
        }
    }
}

impl Grid {
    /// An empty cell.
    pub fn new() -> (cell: Self)
        ensures
            cell@.color is None,
            cell@.roots == Seq::<Dir>::empty(),
    {
        Grid { color: None, roots: RootList::new() }
    }

    pub fn color(&self) -> (color: Option<Color>)
        ensures
            color == self@.color,
    {
        self.color
    }

    pub fn root_count(&self) -> (n: usize)
        ensures
            n == self@.roots.len(),
            n <= 4,
    {
        self.roots.as_slice().len()
    }

    pub fn root(&self, i: usize) -> (dir: Dir)
        requires
            i < self@.roots.len(),
        ensures
            dir == self@.roots[i as int],
    {
        let pair: (i8, i8) = self.roots.as_slice()[i];
        Dir(pair.0, pair.1)
    }

    /// Whether a root in direction `dir` may be added. Only the roots are looked at, not the
    /// color.
    pub fn is_valid_root(&self, dir: Dir) -> (ok: bool)
        ensures
            ok == self@.accepts(dir),
    {
        let roots = self.roots.as_slice();
        let mut i: usize = 0;
        while i < roots.len()
            invariant
                i <= roots.len(),
                roots@ == root_items(self.roots),
                forall|k: int| 0 <= k < i ==> (#[trigger] self@.roots[k]).distance(dir) > 1,
            decreases roots.len() - i,
        {
            let pair: (i8, i8) = roots[i];
            let dx: i16 = pair.0 as i16 - dir.0 as i16;
            let dy: i16 = pair.1 as i16 - dir.1 as i16;
            let ax: i16 = if dx < 0 { -dx } else { dx };
            let ay: i16 = if dy < 0 { -dy } else { dy };
            assert(self@.roots[i as int] == dir_of(pair));
            assert(ax + ay == self@.roots[i as int].distance(dir));
            if ax + ay <= 1 {
                return false;
            }
            i += 1;
        }
        true
    }

    pub fn set_color(&mut self, color: Color)
        ensures
            final(self)@.color == Some(color),
            final(self)@.roots == old(self)@.roots,
    {
        self.color = Some(color);
    }

    /// Adds a root. The list has room for four.
    pub fn add_root(&mut self, dir: Dir)
        requires
            old(self)@.roots.len() < 4,
        ensures
            final(self)@.color == old(self)@.color,
            final(self)@.roots == old(self)@.roots.push(dir),
    {
        self.roots.push((dir.0, dir.1));
        assert(self@.roots =~= old(self)@.roots.push(dir));
    }

    /// Whether two cells hold the same stone and the same roots in the same order.
    pub fn same_as(&self, other: &Grid) -> (same: bool)
        ensures
            same == (self@ == other@),
    {
        let same_color = match (self.color, other.color) {
            (None, None) => true,
            (Some(a), Some(b)) => a == b,
            _ => false,
        };
        if !same_color {
            return false;
        }
        let mine = self.roots.as_slice();
        let theirs = other.roots.as_slice();
        if mine.len() != theirs.len() {
            assert(self@.roots.len() != other@.roots.len());
            return false;
        }
        let mut i: usize = 0;
        while i < mine.len()
            invariant
                i <= mine.len(),
                mine@ == root_items(self.roots),
                theirs@ == root_items(other.roots),
                mine@.len() == theirs@.len(),
                self@.color == other@.color,
                forall|k: int| 0 <= k < i ==> self@.roots[k] == other@.roots[k],
            decreases mine.len() - i,
        {
            let a: (i8, i8) = mine[i];
            let b: (i8, i8) = theirs[i];
            if a.0 != b.0 || a.1 != b.1 {
                assert(self@.roots[i as int] != other@.roots[i as int]);
                return false;
            }
            i += 1;
        }
        assert(self@.roots =~= other@.roots);
        true
    }
}

impl Clone for Grid {
    fn clone(&self) -> (copy: Self)
        ensures
            copy@ == self@,
    {
        let items = self.roots.as_slice();
        let mut roots = RootList::new();
        let mut i: usize = 0;
        while i < items.len()
            invariant
                i <= items.len(),
                items@ == root_items(self.roots),
                items@.len() <= 4,
                root_items(roots) == items@.take(i as int),
            decreases items.len() - i,
        {
            roots.push(items[i]);
            assert(items@.take(i as int).push(items@[i as int]) =~= items@.take(i + 1));
            i += 1;
        }
        assert(items@.take(items@.len() as int) =~= items@);
        let copy = Grid { color: self.color, roots };
        assert(copy@.roots =~= self@.roots);
        copy
    }
}

} // verus!
