use crate::point::Point;
use vstd::prelude::*;

verus! {

/// A plain list of points in the order in which they were added.
pub struct PointStructure {
    pub points: Vec<Point>,
}

impl PointStructure {
    /// A list without points.
    pub fn new() -> (list: PointStructure)
        ensures
            list.points@ == Seq::<Point>::empty(),
    {
        PointStructure { points: Vec::new() }
    }

    /// Adds a point at the end.
    pub fn add_point(&mut self, point: Point)
        ensures
            final(self).points@ == old(self).points@.push(point),
    {
        self.points.push(point)
    }
}

impl Default for PointStructure {
    fn default() -> (list: PointStructure)
        ensures
            list.points@ == Seq::<Point>::empty(),
    {
        PointStructure::new()
    }
}

} // verus!
