//! Points on the integer grid and the distances between them.

use vstd::prelude::*;
use crate::models::Time;

verus! {

/// A location with integer `(x, y)` coordinates.
#[derive(Debug, Clone, Copy, PartialEq, Eq, Structural)]
pub struct Location {
    pub x: i32,
    pub y: i32,
}

/// `r` is the square root of `n`, rounded down.
pub open spec fn is_floor_sqrt(n: nat, r: nat) -> bool {
    r * r <= n < (r + 1) * (r + 1)
}

/// The square root of `n`, rounded down.
pub open spec fn floor_sqrt(n: nat) -> nat {
    choose|r: nat| is_floor_sqrt(n, r)
}

/// A number has at most one rounded-down square root.
pub proof fn lemma_floor_sqrt_unique(n: nat, r: nat, s: nat)
    requires
        is_floor_sqrt(n, r),
        is_floor_sqrt(n, s),
    ensures
        r == s,
{
    if r < s {
        assert((r + 1) * (r + 1) <= s * s) by (nonlinear_arith)
            requires
                r + 1 <= s,
        ;
    } else if s < r {
        assert((s + 1) * (s + 1) <= r * r) by (nonlinear_arith)
            requires
                s + 1 <= r,
        ;
    }
}

/// A rounded-down square root, once found, is the one `floor_sqrt` names.
pub proof fn lemma_floor_sqrt_is(n: nat, r: nat)
    requires
        is_floor_sqrt(n, r),
    ensures
        floor_sqrt(n) == r,
{
    lemma_floor_sqrt_unique(n, r, floor_sqrt(n));
}

/// The largest sum of two squared coordinate differences.
pub open spec fn max_squared_distance() -> nat {
    2 * 0xFFFF_FFFF * 0xFFFF_FFFF
}

/// Square root of `n` rounded down, by bisection.
fn sqrt_floor(n: u128) -> (r: u64)
    requires
        n <= max_squared_distance(),
    ensures
        is_floor_sqrt(n as nat, r as nat),
        r as nat == floor_sqrt(n as nat),
        r < 0x2_0000_0000,
{
    let mut lo: u64 = 0;
    let mut hi: u64 = 0x2_0000_0000;
    assert(0x2_0000_0000u64 * 0x2_0000_0000u64 > max_squared_distance()) by (nonlinear_arith);
    while hi - lo > 1
        invariant
            lo < hi <= 0x2_0000_0000,
            lo * lo <= n < hi * hi,
        decreases hi - lo,
    {
        let mid: u64 = lo + (hi - lo) / 2;
        assert(mid * mid < 0x2_0000_0000 * 0x2_0000_0000) by (nonlinear_arith)
            requires
                mid < 0x2_0000_0000,
        ;
        let square: u128 = (mid as u128) * (mid as u128);
        if square <= n {
            lo = mid;
        } else {
            hi = mid;
        }
    }
    proof {
        assert(hi == lo + 1);
        lemma_floor_sqrt_is(n as nat, lo as nat);
    }
    lo
}

/// The distance between `a` and `b` along one axis.
fn axis_gap(a: i32, b: i32) -> (r: u64)
    ensures
        r == if a >= b { a - b } else { b - a },
        r <= 0xFFFF_FFFF,
{
    let wide_a: i64 = a as i64;
    let wide_b: i64 = b as i64;
    if wide_a >= wide_b {
        (wide_a - wide_b) as u64
    } else {
        (wide_b - wide_a) as u64
    }
}

impl Location {
    /// The squared straight-line distance between two locations.
    pub open spec fn squared_distance(self, other: Location) -> nat {
        ((self.x - other.x) * (self.x - other.x) + (self.y - other.y) * (self.y - other.y)) as nat
    }

    /// The straight-line distance between two locations, rounded down.
    pub open spec fn distance(self, other: Location) -> nat {
        floor_sqrt(self.squared_distance(other))
    }

    /// The distance between two locations along the grid axes.
    pub open spec fn manhattan_distance(self, other: Location) -> nat {
        ((if self.x >= other.x { self.x - other.x } else { other.x - self.x })
            + (if self.y >= other.y { self.y - other.y } else { other.y - self.y })) as nat
    }

    /// Creates a location with the given coordinates.
    pub fn new(x: i32, y: i32) -> (r: Self)
        ensures
            r.x == x,
            r.y == y,
    {
        Self { x, y }
    }

    /// The Euclidean distance to `other`, rounded down to a whole unit.
    pub fn distance_to(&self, other: &Location) -> (d: Time)
        ensures
            d == self.distance(*other),
            is_floor_sqrt(self.squared_distance(*other), d as nat),
            d < 0x2_0000_0000,
    {
        let dx: u64 = axis_gap(self.x, other.x);
        let dy: u64 = axis_gap(self.y, other.y);
        assert(dx * dx <= 0xFFFF_FFFF * 0xFFFF_FFFF) by (nonlinear_arith)
            requires
                dx <= 0xFFFF_FFFF,
        ;
        assert(dy * dy <= 0xFFFF_FFFF * 0xFFFF_FFFF) by (nonlinear_arith)
            requires
                dy <= 0xFFFF_FFFF,
        ;
        assert(dx * dx == (self.x - other.x) * (self.x - other.x)) by (nonlinear_arith)
            requires
                dx == self.x - other.x || dx == other.x - self.x,
        ;
        assert(dy * dy == (self.y - other.y) * (self.y - other.y)) by (nonlinear_arith)
            requires
                dy == self.y - other.y || dy == other.y - self.y,
        ;
        let squared: u128 = (dx as u128) * (dx as u128) + (dy as u128) * (dy as u128);
        sqrt_floor(squared)
    }

    /// The Manhattan distance to `other`.
    pub fn manhattan_distance_to(&self, other: &Location) -> (d: Time)
        ensures
            d == self.manhattan_distance(*other),
    {
        axis_gap(self.x, other.x) + axis_gap(self.y, other.y)
    }
}

} // verus!
