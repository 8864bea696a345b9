//! Distances between locations.

use vstd::prelude::*;
use crate::models::{Location, Time};

verus! {

/// The Euclidean distance between two points, rounded down to a whole unit.
pub fn euclidean_distance(from: &Location, to: &Location) -> (d: Time)
    ensures
        d == from.distance(*to),
{
    from.distance_to(to)
}

/// The Manhattan distance between two points.
pub fn manhattan_distance(from: &Location, to: &Location) -> (d: Time)
    ensures
        d == from.manhattan_distance(*to),
{
    from.manhattan_distance_to(to)
}

} // verus!
