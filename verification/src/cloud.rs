use crate::point::{Bounds, Point};
use crate::units::GROUND;
use vstd::prelude::*;

verus! {

/// Points in the order in which they were added, and the smallest box that
/// holds them all.
pub struct PointCloud {
    points: Vec<Point>,
    bounds: Bounds,
}

impl View for PointCloud {
    type V = Seq<Point>;

    /// The points, in the order in which they were added.
    closed spec fn view(&self) -> Seq<Point> {
        self.points@
    }
}

impl PointCloud {
    /// The box that the cloud records.
    pub closed spec fn spec_bounds(&self) -> Bounds {
        self.bounds
    }

    /// Well-formedness: the recorded box is the box of the points.
    pub closed spec fn wf(&self) -> bool {
        self.bounds == Bounds::of(self.points@)
    }

    /// A cloud without points.
    pub fn new() -> (cloud: PointCloud)
        ensures
            cloud.wf(),
            cloud@ == Seq::<Point>::empty(),
    {
        PointCloud { points: Vec::new(), bounds: Bounds::new() }
    }

    /// Adds a point at the end and widens the box to hold it.
    pub fn add_point(&mut self, point: Point)
        requires
            old(self).wf(),
        ensures
            final(self).wf(),
            final(self)@ == old(self)@.push(point),
            final(self).spec_bounds() == old(self).spec_bounds().grown(point),
    {
        self.bounds.grow(&point);
        self.points.push(point);
        proof {
            assert(self.points@.drop_last() =~= old(self).points@);
        }
    }

    /// Adds the points at the end, in their order.
    pub fn add_points(&mut self, points: Vec<Point>)
        requires
            old(self).wf(),
        ensures
            final(self).wf(),
            final(self)@ == old(self)@ + points@,
    {
        let n = points.len();
        let mut i: usize = 0;
        while i < n
            invariant
                i <= n,
                n == points@.len(),
                self.wf(),
                self@ == old(self)@ + points@.take(i as int),
            decreases n - i,
        {
            self.add_point(points[i]);
            proof {
                assert(self@ =~= old(self)@ + points@.take(i + 1));
            }
            i += 1;
        }
        proof {
            assert(points@.take(n as int) =~= points@);
        }
    }

    /// The smallest box that holds every point of the cloud.
    pub fn bounds(&self) -> (b: &Bounds)
        requires
            self.wf(),
        ensures
            *b == Bounds::of(self@),
    {
        &self.bounds
    }

    /// Number of points.
    pub fn len(&self) -> (n: usize)
        ensures
            n == self@.len(),
    {
        self.points.len()
    }

    /// The points in the order of insertion.
    pub fn points(&self) -> (points: &Vec<Point>)
        ensures
            points@ == self@,
    {
        &self.points
    }

    /// The point at `index` in the order of insertion.
    pub fn point(&self, index: usize) -> (p: Point)
        requires
            index < self@.len(),
        ensures
            p == self@[index as int],
    {
        self.points[index]
    }

    /// The coordinates of every point, as `[x, y, z]`, in the cloud's order.
    pub fn coordinates(&self) -> (rows: Vec<[i64; 3]>)
        ensures
            rows@.len() == self@.len(),
            forall|i: int|
                0 <= i < rows@.len() ==> {
                    &&& (#[trigger] rows@[i])@[0] == self@[i].x
                    &&& rows@[i]@[1] == self@[i].y
                    &&& rows@[i]@[2] == self@[i].z
                },
    {
        let mut rows: Vec<[i64; 3]> = Vec::new();
        let n = self.points.len();
        let mut i: usize = 0;
        while i < n
            invariant
                i <= n,
                n == self.points@.len(),
                rows@.len() == i,
                forall|k: int|
                    0 <= k < i ==> {
                        &&& (#[trigger] rows@[k])@[0] == self.points@[k].x
                        &&& rows@[k]@[1] == self.points@[k].y
                        &&& rows@[k]@[2] == self.points@[k].z
                    },
            decreases n - i,
        {
            let p = self.points[i];
            rows.push([p.x, p.y, p.z]);
            i += 1;
        }
        rows
    }

    /// For every point, in the cloud's order, whether it is classified as
    /// ground.
    pub fn ground_points(&self) -> (flags: Vec<bool>)
        ensures
            flags@.len() == self@.len(),
            forall|i: int|
                0 <= i < flags@.len() ==> #[trigger] flags@[i] == (self@[i].classification
                    == GROUND),
    {
        let mut flags: Vec<bool> = Vec::new();
        let n = self.points.len();
        let mut i: usize = 0;
        while i < n
            invariant
                i <= n,
                n == self.points@.len(),
                flags@.len() == i,
                forall|k: int|
                    0 <= k < i ==> #[trigger] flags@[k] == (self.points@[k].classification
                        == GROUND),
            decreases n - i,
        {
            flags.push(self.points[i].classification == GROUND);
            i += 1;
        }
        flags
    }
}

} // verus!
