//! The scoring methods and the fixed placement-to-points table.

use crate::frac::Frac;
use vstd::prelude::*;

verus! {

/// The six scoring formulas, run in this order by the full pipeline.
#[derive(Clone, Copy, Debug, PartialEq, Eq, Structural)]
pub enum CalculationMethods {
    AveragePlacement,
    WeightedPoints,
    MedianPoints,
    MeanPoints,
    UnweightedPoints,
    OverallPRPlacement,
}

/// Entrant count that the weighted formula divides by.
pub const MINIMUM_ENTRANT_COUNT: u32 = 10;

/// Points for a finishing placement, doubled so that the half-point value
/// for second place stays an integer.  Placements that seeded brackets
/// cannot produce (6th, 8th, 10th and beyond) are worth nothing.
pub open spec fn points_halved(placement: u32) -> int {
    match placement {
        1u32 => 22,
        2u32 => 19,
        3u32 => 16,
        4u32 => 14,
        5u32 => 10,
        7u32 => 6,
        9u32 => 2,
        _ => 0,
    }
}

/// Twice the points awarded for a finishing placement.
pub fn point_values_halved(placement: u32) -> (r: u32)
    ensures
        r == points_halved(placement),
{
    match placement {
        1 => 22,
        2 => 19,
        3 => 16,
        4 => 14,
        5 => 10,
        7 => 6,
        9 => 2,
        _ => 0,
    }
}

/// The points awarded for a finishing placement, as an exact fraction
/// (second place is worth nine and a half points).
pub fn point_values(placement: u32) -> (r: Frac)
    ensures
        r.num == points_halved(placement),
        r.den == 2,
{
    Frac { num: point_values_halved(placement) as u128, den: 2 }
}

} // verus!
