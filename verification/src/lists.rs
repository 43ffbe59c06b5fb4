//! The two small fixed-capacity lists of the board, kept in `arrayvec::ArrayVec`.
//!
//! Nothing in this file is proved: each function states what the `arrayvec` method it calls
//! does, as that crate's source shows it.

use arrayvec::ArrayVec;
use vstd::prelude::*;

verus! {

/// The neighbours of one dual-graph node, at most three, each named by its node index.
#[verifier::external_body]
pub struct EdgeList {
    items: ArrayVec<[u16; 3]>,
}

/// What an `EdgeList` holds, first pushed first.
pub uninterp spec fn edge_items(list: EdgeList) -> Seq<u16>;

/// The root directions that leave one cell, at most four, each as `(dx, dy)`.
#[verifier::external_body]
pub struct RootList {
    items: ArrayVec<[(i8, i8); 4]>,
}

/// What a `RootList` holds, first pushed first.
pub uninterp spec fn root_items(list: RootList) -> Seq<(i8, i8)>;

/// The test that every neighbour but `target` passes.
pub open spec fn other_than(target: u16) -> spec_fn(u16) -> bool {
    |item: u16| item != target
}

/// Whether a neighbour is another than `target`.
pub fn is_other(item: u16, target: u16) -> (keep: bool)
    ensures
        keep == other_than(target)(item),
{
    item != target
}

impl EdgeList {
    /// `ArrayVec::new`: a list that holds nothing.
    #[verifier::external_body]
    pub(crate) fn new() -> (list: EdgeList)
        ensures
            edge_items(list) == Seq::<u16>::empty(),
    {
        EdgeList { items: ArrayVec::new() }
    }

    /// `ArrayVec::push`: appends `item`. The method panics on a full list, so the list must
    /// hold fewer than three items.
    #[verifier::external_body]
    pub(crate) fn push(&mut self, item: u16)
        requires
            edge_items(*old(self)).len() < 3,
        ensures
            edge_items(*final(self)) == edge_items(*old(self)).push(item),
    {
        self.items.push(item)
    }

    /// `ArrayVec::retain` with a closure that keeps what differs from `target`: the items
    /// that differ stay, in their order.
    #[verifier::external_body]
    pub(crate) fn remove_item(&mut self, target: u16)
        ensures
            edge_items(*final(self)) == edge_items(*old(self)).filter(other_than(target)),
    {
        self.items.retain(|item| is_other(*item, target))
    }

    /// `ArrayVec::as_slice`: the items as a slice; there are never more than the capacity,
    /// three.
    #[verifier::external_body]
    pub(crate) fn as_slice(&self) -> (items: &[u16])
        ensures
            items@ == edge_items(*self),
            items@.len() <= 3,
    {
        self.items.as_slice()
    }
}

impl RootList {
    /// `ArrayVec::new`: a list that holds nothing.
    #[verifier::external_body]
    pub(crate) fn new() -> (list: RootList)
        ensures
            root_items(list) == Seq::<(i8, i8)>::empty(),
    {
        RootList { items: ArrayVec::new() }
    }

    /// `ArrayVec::push`: appends `item`. The method panics on a full list, so the list must
    /// hold fewer than four items.
    #[verifier::external_body]
    pub(crate) fn push(&mut self, item: (i8, i8))
        requires
            root_items(*old(self)).len() < 4,
        ensures
            root_items(*final(self)) == root_items(*old(self)).push(item),
    {
        self.items.push(item)
    }

    /// `ArrayVec::as_slice`: the items as a slice; there are never more than the capacity,
    /// four.
    #[verifier::external_body]
    pub(crate) fn as_slice(&self) -> (items: &[(i8, i8)])
        ensures
            items@ == root_items(*self),
            items@.len() <= 4,
    {
        self.items.as_slice()
    }
}

} // verus!
