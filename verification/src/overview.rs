//! What the UI draws from the looper: the master grid's anchor, and each lane's buffer, orientation and
//! frames. The looper sets it at every publish.

use vstd::prelude::*;

use crate::api::TRACK_COUNT;
use crate::grid::Frame;

verus! {

/// One lane as the UI draws it.
#[derive(Clone, Copy, Debug, PartialEq, Eq, Structural)]
pub struct LaneView {
    /// The buffer the lane shows (its live one): an undo or a kept RETAKE pass changes it.
    pub buf: usize,
    /// What it holds: the frames captured so far while it records a take, its loop once committed
    /// (overdubbing included), 0 while empty or waiting for its downbeat.
    pub frames: Frame,
    /// It plays its buffer backwards (the orientation REVERSE set, before the loop boundary swaps it in).
    pub reversed: bool,
}

impl LaneView {
    pub open spec fn nothing() -> LaneView {
        LaneView { buf: 0, frames: 0, reversed: false }
    }
}

#[derive(Clone, Copy, Debug, PartialEq, Eq)]
pub struct Overview {
    grid: Frame,
    lanes: [LaneView; TRACK_COUNT],
}

impl Overview {
    pub closed spec fn anchor(&self) -> Frame {
        self.grid
    }

    pub closed spec fn views(&self) -> Seq<LaneView> {
        self.lanes@
    }

    pub proof fn lemma_one_view_a_lane(&self)
        ensures
            self.views().len() == TRACK_COUNT,
    {
    }

    pub fn new() -> (overview: Overview)
        ensures
            overview.anchor() == 0,
            overview.views() == Seq::new(TRACK_COUNT as nat, |i: int| LaneView::nothing()),
    {
        let v = LaneView { buf: 0, frames: 0, reversed: false };
        let overview = Overview { grid: 0, lanes: [v, v, v, v, v] };
        assert(overview.lanes@ =~= Seq::new(TRACK_COUNT as nat, |i: int| LaneView::nothing()));
        overview
    }

    /// The master grid's anchor: loop position 0 plays at `grid + k * master`.
    pub fn grid(&self) -> (grid: Frame)
        ensures
            grid == self.anchor(),
    {
        self.grid
    }

    pub fn lane(&self, i: usize) -> (view: LaneView)
        requires
            i < TRACK_COUNT,
        ensures
            view == self.views()[i as int],
    {
        self.lanes[i]
    }

    pub fn set_grid(&mut self, grid: Frame)
        ensures
            final(self).anchor() == grid,
            final(self).views() == old(self).views(),
    {
        self.grid = grid;
    }

    pub fn set_lane(&mut self, i: usize, view: LaneView)
        requires
            i < TRACK_COUNT,
        ensures
            final(self).anchor() == old(self).anchor(),
            final(self).views() == old(self).views().update(i as int, view),
    {
        self.lanes[i] = view;
    }
}

} // verus!
