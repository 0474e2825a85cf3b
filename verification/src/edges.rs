use vstd::prelude::*;
use smallvec::SmallVec;
use crate::shared::{EdgeWalk, EdgePT};

verus! {

/// The walking edges that leave one node, held in a `smallvec::SmallVec`
/// with room for four edges before it spills to the heap.
///
/// By convention the first entry is a header, not an edge: its cost is 1
/// when the node has a timetable in the public-transport graph.
#[verifier::external_body]
pub struct WalkEdges {
    inner: SmallVec<[EdgeWalk; 4]>,
}

/// The timetabled departures from one node, held in a `smallvec::SmallVec`.
///
/// By convention the first entry is a header whose leaving time is the
/// node that every departure of this stop arrives at.
#[verifier::external_body]
pub struct PtEdges {
    inner: SmallVec<[EdgePT; 4]>,
}

/// What a list of walking edges holds, first to last.
pub uninterp spec fn walk_edges_of(v: WalkEdges) -> Seq<EdgeWalk>;

/// What a list of timetabled departures holds, first to last.
pub uninterp spec fn pt_edges_of(v: PtEdges) -> Seq<EdgePT>;

impl View for WalkEdges {
    type V = Seq<EdgeWalk>;

    open spec fn view(&self) -> Seq<EdgeWalk> {
        walk_edges_of(*self)
    }
}

impl View for PtEdges {
    type V = Seq<EdgePT>;

    open spec fn view(&self) -> Seq<EdgePT> {
        pt_edges_of(*self)
    }
}

impl WalkEdges {
    /// `SmallVec::new`: an empty list.
    #[verifier::external_body]
    pub(crate) fn new() -> (v: WalkEdges)
        ensures
            walk_edges_of(v) == Seq::<EdgeWalk>::empty(),
    {
        WalkEdges { inner: SmallVec::new() }
    }

    /// `SmallVec::len`: the number of entries.
    #[verifier::external_body]
    pub(crate) fn len(&self) -> (n: usize)
        ensures
            n == walk_edges_of(*self).len(),
    {
        self.inner.len()
    }

    /// `SmallVec`'s index operator: the entry at `i`.
    #[verifier::external_body]
    pub(crate) fn get(&self, i: usize) -> (e: EdgeWalk)
        requires
            i < walk_edges_of(*self).len(),
        ensures
            e == walk_edges_of(*self)[i as int],
    {
        self.inner[i]
    }

    /// `SmallVec::push`: appends an entry at the end. Like `Vec::push`, it
    /// fails only where the list cannot grow in memory (capacity overflow or
    /// a failed allocation); that case is left unsaid.
    #[verifier::external_body]
    pub(crate) fn push(&mut self, e: EdgeWalk)
        ensures
            walk_edges_of(*final(self)) == walk_edges_of(*old(self)).push(e),
    {
        self.inner.push(e)
    }

    /// `SmallVec::clone`: a list with the same entries.
    #[verifier::external_body]
    pub(crate) fn duplicate(&self) -> (v: WalkEdges)
        ensures
            walk_edges_of(v) == walk_edges_of(*self),
    {
        WalkEdges { inner: self.inner.clone() }
    }
}

impl PtEdges {
    /// `SmallVec::new`: an empty list.
    #[verifier::external_body]
    pub(crate) fn new() -> (v: PtEdges)
        ensures
            pt_edges_of(v) == Seq::<EdgePT>::empty(),
    {
        PtEdges { inner: SmallVec::new() }
    }

    /// `SmallVec::len`: the number of entries.
    #[verifier::external_body]
    pub(crate) fn len(&self) -> (n: usize)
        ensures
            n == pt_edges_of(*self).len(),
    {
        self.inner.len()
    }

    /// `SmallVec`'s index operator: the entry at `i`.
    #[verifier::external_body]
    pub(crate) fn get(&self, i: usize) -> (e: EdgePT)
        requires
            i < pt_edges_of(*self).len(),
        ensures
            e == pt_edges_of(*self)[i as int],
    {
        self.inner[i]
    }

    /// `SmallVec::push`: appends an entry at the end. Like `Vec::push`, it
    /// fails only where the list cannot grow in memory (capacity overflow or
    /// a failed allocation); that case is left unsaid.
    #[verifier::external_body]
    pub(crate) fn push(&mut self, e: EdgePT)
        ensures
            pt_edges_of(*final(self)) == pt_edges_of(*old(self)).push(e),
    {
        self.inner.push(e)
    }
}

} // verus!
