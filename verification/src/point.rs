//! Points, pairs of points, and what can go wrong while reading them.

use vstd::prelude::*;
use crate::number::is_numeric;

verus! {

/// A point on the globe, each coordinate as the numeric text it was written
/// with, in degrees.
#[derive(Debug)]
pub struct Point {
    pub lat: String,
    pub lon: String,
}

/// Two points whose distance is asked for.
#[derive(Debug)]
pub struct PointPair {
    pub point1: Point,
    pub point2: Point,
}

/// The texts of a point.
pub struct PointView {
    pub lat: Seq<char>,
    pub lon: Seq<char>,
}

/// The texts of a pair of points.
pub struct PointPairView {
    pub point1: PointView,
    pub point2: PointView,
}

impl PointView {
    /// Both coordinates stand for a number.
    pub open spec fn is_valid(self) -> bool {
        is_numeric(self.lat) && is_numeric(self.lon)
    }
}

impl PointPairView {
    /// All four coordinates stand for a number.
    pub open spec fn is_valid(self) -> bool {
        self.point1.is_valid() && self.point2.is_valid()
    }
}

impl View for Point {
    type V = PointView;

    open spec fn view(&self) -> PointView {
        PointView { lat: self.lat@, lon: self.lon@ }
    }
}

impl DeepView for Point {
    type V = PointView;

    open spec fn deep_view(&self) -> PointView {
        self@
    }
}

impl View for PointPair {
    type V = PointPairView;

    open spec fn view(&self) -> PointPairView {
        PointPairView { point1: self.point1@, point2: self.point2@ }
    }
}

impl DeepView for PointPair {
    type V = PointPairView;

    open spec fn deep_view(&self) -> PointPairView {
        self@
    }
}

/// Why reading stopped. `record` counts the records before the one at fault,
/// blocks that were passed over not among them; `field` is 0 for the first
/// of its four lines.
#[derive(Debug, Clone, Copy, PartialEq, Eq, Structural)]
pub enum ParseError {
    /// The line holds no colon and space, so it has no value.
    MissingValue { record: usize, field: usize },
    /// The value of the line does not stand for a number.
    InvalidNumber { record: usize, field: usize },
}

} // verus!
