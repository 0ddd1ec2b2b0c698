//! Lane patterns: the opaque value handed to `connect` saying how many lanes
//! a road carries each way and how wide it is drawn.

use vstd::prelude::*;

verus! {

/// Largest accepted lane width, in coordinate subunits.
pub const MAX_LANE_WIDTH: i64 = 100_000;

/// Most lanes a road may carry in one direction.
pub const MAX_LANES_PER_SIDE: u32 = 100;

/// The lane layout of one road.
#[derive(Clone, Copy, PartialEq, Eq, Structural, Debug)]
pub struct LanePattern {
    pub n_forward: u32,
    pub n_backward: u32,
    pub width: i64,
}

impl LanePattern {
    pub open spec fn wf(self) -> bool {
        &&& 0 < self.width <= 200 * MAX_LANE_WIDTH
        &&& self.n_forward <= MAX_LANES_PER_SIDE
        &&& self.n_backward <= MAX_LANES_PER_SIDE
        &&& self.n_forward + self.n_backward >= 1
    }

    /// Total number of lanes, both directions together.
    pub fn n_lanes(&self) -> (n: u32)
        requires
            self.wf(),
        ensures
            n == self.n_forward + self.n_backward,
    {
        self.n_forward + self.n_backward
    }
}

/// Builds `LanePattern` values from a lane count per side and a width per
/// lane.
#[derive(Clone, Copy, PartialEq, Eq, Structural, Debug)]
pub struct LanePatternBuilder {
    pub n_forward: u32,
    pub n_backward: u32,
    pub lane_width: i64,
}

impl LanePatternBuilder {
    pub open spec fn wf(self) -> bool {
        &&& 0 < self.lane_width <= MAX_LANE_WIDTH
        &&& self.n_forward <= MAX_LANES_PER_SIDE
        &&& self.n_backward <= MAX_LANES_PER_SIDE
        &&& self.n_forward + self.n_backward >= 1
    }

    /// One lane each way, four units wide each.
    pub fn new() -> (b: LanePatternBuilder)
        ensures
            b == (LanePatternBuilder { n_forward: 1u32, n_backward: 1u32, lane_width: 4_000i64 }),
            b.wf(),
    {
        LanePatternBuilder { n_forward: 1, n_backward: 1, lane_width: 4_000 }
    }

    pub fn set_lanes_forward(&mut self, n: u32)
        requires
            old(self).wf(),
            n <= MAX_LANES_PER_SIDE,
            n + old(self).n_backward >= 1,
        ensures
            *final(self) == (LanePatternBuilder { n_forward: n, ..*old(self) }),
            final(self).wf(),
    {
        self.n_forward = n;
    }

    pub fn set_lanes_backward(&mut self, n: u32)
        requires
            old(self).wf(),
            n <= MAX_LANES_PER_SIDE,
            old(self).n_forward + n >= 1,
        ensures
            *final(self) == (LanePatternBuilder { n_backward: n, ..*old(self) }),
            final(self).wf(),
    {
        self.n_backward = n;
    }

    pub fn set_lane_width(&mut self, w: i64)
        requires
            old(self).wf(),
            0 < w <= MAX_LANE_WIDTH,
        ensures
            *final(self) == (LanePatternBuilder { lane_width: w, ..*old(self) }),
            final(self).wf(),
    {
        self.lane_width = w;
    }

    /// Total width of the built pattern.
    pub fn width(&self) -> (w: i64)
        requires
            self.wf(),
        ensures
            w == (self.n_forward + self.n_backward) * self.lane_width,
            0 < w <= 200 * MAX_LANE_WIDTH,
    {
        proof {
            assert((self.n_forward + self.n_backward) * self.lane_width
                <= 200 * MAX_LANE_WIDTH as int && (self.n_forward + self.n_backward)
                * self.lane_width >= 1) by (nonlinear_arith)
                requires
                    1 <= self.n_forward + self.n_backward <= 200,
                    0 < self.lane_width <= MAX_LANE_WIDTH as int,
                    MAX_LANE_WIDTH == 100_000,
            {
            }
        }
        (self.n_forward + self.n_backward) as i64 * self.lane_width
    }

    /// The pattern this builder describes.
    pub fn build(&self) -> (p: LanePattern)
        requires
            self.wf(),
        ensures
            p.n_forward == self.n_forward,
            p.n_backward == self.n_backward,
            p.width == (self.n_forward + self.n_backward) * self.lane_width,
            p.wf(),
    {
        LanePattern {
            n_forward: self.n_forward,
            n_backward: self.n_backward,
            width: self.width(),
        }
    }
}

} // verus!
