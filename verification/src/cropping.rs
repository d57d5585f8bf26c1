use crate::point::Point;
use vstd::prelude::*;

verus! {

/// Which points a run keeps, by their planar position.
#[derive(Clone, Copy, Debug)]
pub enum CroppingMethod {
    /// Every point is kept.
    Off,
    /// A point is kept when its `(x, y)` lies in the box, edges included.
    /// Each corner is given as `(x, y)`.
    BoundingBox { lower_left: (i64, i64), upper_right: (i64, i64) },
}

impl CroppingMethod {
    /// Whether the crop keeps a point at planar position `(x, y)`.
    pub open spec fn admits(self, x: int, y: int) -> bool {
        match self {
            CroppingMethod::Off => true,
            CroppingMethod::BoundingBox { lower_left, upper_right } => {
                &&& lower_left.0 <= x <= upper_right.0
                &&& lower_left.1 <= y <= upper_right.1
            },
        }
    }

    /// Whether the crop keeps the point. The elevation plays no part.
    pub open spec fn contains(self, point: Point) -> bool {
        self.admits(point.x as int, point.y as int)
    }

    /// Tests a point against the crop.
    pub fn is_in_bounds(&self, point: &Point) -> (inside: bool)
        ensures
            inside == self.contains(*point),
    {
        match self {
            CroppingMethod::Off => true,
            CroppingMethod::BoundingBox { lower_left, upper_right } => {
                point.x >= lower_left.0 && point.x <= upper_right.0 && point.y >= lower_left.1
                    && point.y <= upper_right.1
            },
        }
    }
}

impl Default for CroppingMethod {
    fn default() -> (crop: CroppingMethod)
        ensures
            crop == CroppingMethod::Off,
    {
        CroppingMethod::Off
    }
}

} // verus!
