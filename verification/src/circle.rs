use vstd::prelude::*;

verus! {

/// The polygon on which a circular line is drawn.
#[derive(Clone, Copy, Debug, PartialEq, Eq, Structural)]
pub enum PolygonShape {
    Rectangle,
    Octagon,
    ElongatedOctagon,
}

/// The shape for a circular line of `k` stations: a rectangle up to 8
/// stations, an octagon up to 16, an elongated octagon beyond.
pub open spec fn shape_for(k: int) -> PolygonShape {
    if k <= 8 {
        PolygonShape::Rectangle
    } else if k <= 16 {
        PolygonShape::Octagon
    } else {
        PolygonShape::ElongatedOctagon
    }
}

pub fn select_shape(k: usize) -> (s: PolygonShape)
    ensures
        s == shape_for(k as int),
{
    if k <= 8 {
        PolygonShape::Rectangle
    } else if k <= 16 {
        PolygonShape::Octagon
    } else {
        PolygonShape::ElongatedOctagon
    }
}

/// The number of polygon corners of a shape.
pub open spec fn corner_count(s: PolygonShape) -> int {
    match s {
        PolygonShape::Rectangle => 4,
        _ => 8,
    }
}

/// A circular line with more stations is never drawn on a polygon with
/// fewer corners.
pub proof fn shape_corners_monotone(k1: int, k2: int)
    requires
        k1 <= k2,
    ensures
        corner_count(shape_for(k1)) <= corner_count(shape_for(k2)),
{
}

/// The polygon by station count: a rectangle for at most 8 stations, an
/// octagon for 9 to 16, an elongated octagon only beyond 16.
pub proof fn shape_thresholds(k: int)
    ensures
        (shape_for(k) == PolygonShape::Rectangle) <==> k <= 8,
        (shape_for(k) == PolygonShape::Octagon) <==> 8 < k <= 16,
        (shape_for(k) == PolygonShape::ElongatedOctagon) <==> 16 < k,
{
}

} // verus!
