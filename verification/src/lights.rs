//! Traffic-light schedules: periodic functions from a simulation tick to a
//! signal phase.

use vstd::arithmetic::div_mod::lemma_add_mod_noop;
use vstd::prelude::*;

verus! {

/// The signal phase a lane shows at some tick.
#[allow(non_camel_case_types)]
#[derive(Clone, Copy, PartialEq, Eq, Structural, Debug)]
pub enum TrafficBehavior {
    RED,
    ORANGE,
    GREEN,
}

/// A fixed-time cycle: green, then orange, then red, phase-shifted by
/// `offset` ticks.
#[derive(Clone, Copy, PartialEq, Eq, Structural, Debug)]
pub struct TrafficLightSchedule {
    pub green: u32,
    pub orange: u32,
    pub red: u32,
    pub offset: u32,
}

impl TrafficLightSchedule {
    /// Length of the full cycle.
    pub open spec fn cycle(self) -> int {
        self.green + self.orange + self.red
    }

    pub open spec fn wf(self) -> bool {
        self.cycle() > 0
    }

    /// Phase at tick `t`: the shifted tick is bucketed into the green window,
    /// the orange window just after it, and the red remainder of the cycle.
    pub open spec fn spec_phase(self, t: int) -> TrafficBehavior {
        let k = (t + self.offset) % self.cycle();
        if k < self.green {
            TrafficBehavior::GREEN
        } else if k < self.green + self.orange {
            TrafficBehavior::ORANGE
        } else {
            TrafficBehavior::RED
        }
    }

    pub fn from_basic(green: u32, orange: u32, red: u32, offset: u32) -> (s: TrafficLightSchedule)
        requires
            green + orange + red > 0,
        ensures
            s == (TrafficLightSchedule { green, orange, red, offset }),
            s.wf(),
    {
        TrafficLightSchedule { green, orange, red, offset }
    }

    /// Computes the phase shown at `tick`.
    pub fn phase(&self, tick: u64) -> (b: TrafficBehavior)
        requires
            self.wf(),
        ensures
            b == self.spec_phase(tick as int),
    {
        let c: u64 = self.green as u64 + self.orange as u64 + self.red as u64;
        let k: u64 = (tick % c + (self.offset as u64) % c) % c;
        proof {
            lemma_add_mod_noop(tick as int, self.offset as int, c as int);
            assert(k as int == (tick as int + self.offset as int) % (c as int));
        }
        if k < self.green as u64 {
            TrafficBehavior::GREEN
        } else if k < self.green as u64 + self.orange as u64 {
            TrafficBehavior::ORANGE
        } else {
            TrafficBehavior::RED
        }
    }
}

/// The control of one lane-node: either never arbitrated (always green) or
/// governed by a periodic schedule.
#[derive(Clone, Copy, PartialEq, Eq, Structural, Debug)]
pub enum TrafficLight {
    Always,
    Periodic(TrafficLightSchedule),
}

impl TrafficLight {
    pub open spec fn wf(self) -> bool {
        match self {
            TrafficLight::Always => true,
            TrafficLight::Periodic(s) => s.wf(),
        }
    }

    /// The phase this control shows at tick `t`.
    pub open spec fn spec_behavior(self, t: int) -> TrafficBehavior {
        match self {
            TrafficLight::Always => TrafficBehavior::GREEN,
            TrafficLight::Periodic(s) => s.spec_phase(t),
        }
    }

    pub fn is_always(&self) -> (r: bool)
        ensures
            r == (*self is Always),
    {
        match self {
            TrafficLight::Always => true,
            TrafficLight::Periodic(_) => false,
        }
    }

    /// Computes the phase shown at `tick`.
    pub fn get_behavior(&self, tick: u64) -> (b: TrafficBehavior)
        requires
            self.wf(),
        ensures
            b == self.spec_behavior(tick as int),
    {
        match self {
            TrafficLight::Always => TrafficBehavior::GREEN,
            TrafficLight::Periodic(s) => s.phase(tick),
        }
    }
}

} // verus!
