//! Regions: the intervals of positions that grow around the peaks.

use vstd::prelude::*;

verus! {

/// The side on which a position touches a region, if it does.
#[derive(Clone, Copy, Debug, PartialEq, Eq, Structural)]
pub enum Direction {
    /// The position is the one just before the region.
    Left,
    /// The position is the one just after the region.
    Right,
    /// The position does not touch the region.
    Neither,
}

/// What a region is: the interval `left..=right` of positions that it has
/// claimed, and the position `peak` that founded it.
pub struct Region {
    pub left: int,
    pub right: int,
    pub peak: int,
}

impl Region {
    /// The region that position `idx` founds: `idx` alone.
    pub open spec fn single(idx: int) -> Region {
        Region { left: idx, right: idx, peak: idx }
    }

    /// The peak lies in the interval, and the interval starts at a position.
    pub open spec fn wf(self) -> bool {
        0 <= self.left <= self.peak <= self.right
    }

    /// Position `p` lies in the interval of the region.
    pub open spec fn holds(self, p: int) -> bool {
        self.left <= p <= self.right
    }

    /// The side on which position `idx` touches the region.
    pub open spec fn side_of(self, idx: int) -> Direction {
        if self.left > 0 && idx == self.left - 1 {
            Direction::Left
        } else if idx == self.right + 1 {
            Direction::Right
        } else {
            Direction::Neither
        }
    }

    /// The region after one step to the side `d`.
    pub open spec fn widened(self, d: Direction) -> Region {
        match d {
            Direction::Left => Region { left: self.left - 1, ..self },
            Direction::Right => Region { right: self.right + 1, ..self },
            Direction::Neither => self,
        }
    }
}

/// A region as the sweep keeps it. Its peak always lies between its extents.
#[derive(Clone, Copy, Debug, PartialEq, Eq)]
pub struct Homology {
    left_extent: usize,
    right_extent: usize,
    peak: usize,
}

impl View for Homology {
    type V = Region;

    closed spec fn view(&self) -> Region {
        Region {
            left: self.left_extent as int,
            right: self.right_extent as int,
            peak: self.peak as int,
        }
    }
}

/// The regions that a list of `Homology` values stands for.
pub open spec fn views(hs: Seq<Homology>) -> Seq<Region> {
    hs.map_values(|h: Homology| h@)
}

impl Homology {
    #[verifier::type_invariant]
    closed spec fn peak_within(&self) -> bool {
        self.left_extent <= self.peak <= self.right_extent
    }

    /// The region that position `idx` founds.
    pub fn new(idx: usize) -> (r: Homology)
        ensures
            r@ == Region::single(idx as int),
    {
        Homology { left_extent: idx, right_extent: idx, peak: idx }
    }

    /// Determines if an index is adjacent to a topological region.
    ///
    /// # Arguments
    /// * `idx` - an index location in an array.
    pub fn is_adjacent(&self, idx: usize) -> (d: Direction)
        ensures
            d == self@.side_of(idx as int),
    {
        if self.left_extent > 0 && idx == self.left_extent - 1 {
            Direction::Left
        } else if idx > 0 && idx - 1 == self.right_extent {
            Direction::Right
        } else {
            Direction::Neither
        }
    }

    /// Extends a region one hop to the left.
    pub fn extend_left(&mut self)
        requires
            old(self)@.left > 0,
        ensures
            final(self)@ == old(self)@.widened(Direction::Left),
    {
        proof {
            use_type_invariant(&*self);
        }
        self.left_extent -= 1;
    }

    /// Extends a region one hop to the right.
    pub fn extend_right(&mut self)
        requires
            old(self)@.right < usize::MAX,
        ensures
            final(self)@ == old(self)@.widened(Direction::Right),
    {
        proof {
            use_type_invariant(&*self);
        }
        self.right_extent += 1;
    }

    /// The smallest position that the region has claimed.
    pub fn left_extent(&self) -> (p: usize)
        ensures
            p == self@.left,
            self@.wf(),
    {
        proof {
            use_type_invariant(self);
        }
        self.left_extent
    }

    /// The largest position that the region has claimed.
    pub fn right_extent(&self) -> (p: usize)
        ensures
            p == self@.right,
            self@.wf(),
    {
        proof {
            use_type_invariant(self);
        }
        self.right_extent
    }

    /// Accessor method for acquiring the peak index associated with this region.
    pub fn get_peak_idx(&self) -> (p: usize)
        ensures
            p == self@.peak,
            self@.wf(),
    {
        proof {
            use_type_invariant(self);
        }
        self.peak
    }
}

} // verus!
