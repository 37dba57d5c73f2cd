use vstd::prelude::*;

use crate::Entity;

verus! {

/// Virtual time, in whole simulated seconds since the start of the run.
/// It never goes backward.
pub type SimSeconds = u64;

/// Width and height of the abstract physical space nodes live in.
pub const NET_MAX_X: u32 = 1000;

pub const NET_MAX_Y: u32 = 1000;

/// How much underlay distance a message covers per simulated second.
pub const FLIGHT_PER_SECOND: u64 = 200;

/// A numeric display tag for a node.
#[derive(Clone, Copy, PartialEq, Eq, Structural, Debug)]
pub struct UnderlayNodeId(pub u64);

/// 2D coordinate of a node in the underlay; immutable once spawned.
#[derive(Clone, Copy, PartialEq, Eq, Structural, Debug)]
pub struct UnderlayPosition {
    pub x: u32,
    pub y: u32,
}

/// The straight-line trajectory of an in-flight message.
#[derive(Clone, Copy, PartialEq, Eq, Structural, Debug)]
pub struct UnderlayLine {
    pub start: UnderlayPosition,
    pub end: UnderlayPosition,
}

/// The `[start, end)` virtual-time interval an in-flight message lives in.
#[derive(Clone, Copy, PartialEq, Eq, Structural, Debug)]
pub struct TimeSpan {
    pub start: SimSeconds,
    pub end: SimSeconds,
}

/// Transport envelope of an in-flight message: who sent it, and to whom.
#[derive(Clone, Copy, PartialEq, Eq, Structural, Debug)]
pub struct UnderlayMessage {
    pub source: Entity,
    pub dest: Entity,
}

/// Absolute difference of two coordinates.
pub fn abs_diff(a: u32, b: u32) -> (r: u64)
    ensures
        r == (if a >= b {
            a - b
        } else {
            b - a
        }),
{
    if a >= b {
        (a - b) as u64
    } else {
        (b - a) as u64
    }
}

/// Floor of the square root, for inputs below 2^32.
pub fn isqrt(x: u64) -> (r: u64)
    requires
        x < 0x1_0000_0000,
    ensures
        r * r <= x < (r + 1) * (r + 1),
{
    let mut r: u64 = 0;
    let mut sq: u64 = 1;
    while sq <= x
        invariant
            x < 0x1_0000_0000,
            r <= 0x1_0000,
            r * r <= x,
            sq == (r + 1) * (r + 1),
            sq < 0x2_0000_0000,
        decreases 0x2_0000_0000 - sq,
    {
        proof {
            assert(r < 0x1_0000) by (nonlinear_arith)
                requires
                    (r + 1) * (r + 1) <= x,
                    x < 0x1_0000_0000,
                    r >= 0,
            ;
        }
        r = r + 1;
        proof {
            assert((r + 1) * (r + 1) == r * r + 2 * r + 1) by (nonlinear_arith);
            assert(r * r + 2 * r + 1 < 0x2_0000_0000) by (nonlinear_arith)
                requires
                    r <= 0x1_0000,
            ;
        }
        sq = sq + 2 * r + 1;
    }
    r
}

impl UnderlayPosition {
    pub fn new(x: u32, y: u32) -> (r: UnderlayPosition)
        ensures
            r.x == x && r.y == y,
    {
        UnderlayPosition { x, y }
    }

    /// Euclidean distance, rounded down to a whole underlay unit.
    /// Coordinates are bounded so that the squares cannot overflow.
    pub fn distance(a: UnderlayPosition, b: UnderlayPosition) -> (r: u64)
        requires
            a.x < 0x8000 && a.y < 0x8000 && b.x < 0x8000 && b.y < 0x8000,
        ensures
            r * r <= spec_dist2(a, b) < (r + 1) * (r + 1),
    {
        let dx = abs_diff(a.x, b.x);
        let dy = abs_diff(a.y, b.y);
        proof {
            assert(dx * dx + dy * dy < 0x1_0000_0000) by (nonlinear_arith)
                requires
                    0 <= dx < 0x8000,
                    0 <= dy < 0x8000,
            ;
        }
        isqrt(dx * dx + dy * dy)
    }
}

/// Squared distance of two positions, in the mathematical integers.
pub open spec fn spec_dist2(a: UnderlayPosition, b: UnderlayPosition) -> int {
    {
        let dx = if a.x >= b.x {
            a.x - b.x
        } else {
            b.x - a.x
        };
        let dy = if a.y >= b.y {
            a.y - b.y
        } else {
            b.y - a.y
        };
        dx * dx + dy * dy
    }
}

impl TimeSpan {
    /// Whether the span has reached its end at the given time.
    pub fn elapsed(&self, now: SimSeconds) -> (r: bool)
        ensures
            r == (now >= self.end),
    {
        now >= self.end
    }
}

/// The due time of a message sent now over the given distance: flight
/// time is the distance divided by the flight speed, and the clock
/// saturates rather than wraps at the end of representable time.
pub fn arrival_time(now: SimSeconds, dist: u64) -> (r: SimSeconds)
    ensures
        r == (if now + dist / FLIGHT_PER_SECOND <= u64::MAX {
            now + dist / FLIGHT_PER_SECOND
        } else {
            u64::MAX as int
        }),
        r >= now,
{
    let flight = dist / FLIGHT_PER_SECOND;
    if now <= u64::MAX - flight {
        now + flight
    } else {
        u64::MAX
    }
}

} // verus!
