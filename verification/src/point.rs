use vstd::prelude::*;

verus! {

/// One return of the scanner: a position and its classification code.
#[derive(Clone, Copy, Debug, PartialEq, Eq, Structural)]
pub struct Point {
    pub x: i64,
    pub y: i64,
    pub z: i64,
    pub classification: u8,
}

/// A position in three dimensions.
#[derive(Clone, Copy, Debug, PartialEq, Eq, Structural)]
pub struct Vector {
    pub x: i64,
    pub y: i64,
    pub z: i64,
}

/// An axis-aligned box given by its least and greatest corner.
#[derive(Clone, Copy, Debug, PartialEq, Eq, Structural)]
pub struct Bounds {
    pub min: Vector,
    pub max: Vector,
}

pub open spec fn min_int(a: int, b: int) -> int {
    if a <= b {
        a
    } else {
        b
    }
}

pub open spec fn max_int(a: int, b: int) -> int {
    if a >= b {
        a
    } else {
        b
    }
}

impl Bounds {
    /// The box that holds no point: every minimum above every maximum.
    pub open spec fn empty() -> Bounds {
        Bounds {
            min: Vector { x: i64::MAX, y: i64::MAX, z: i64::MAX },
            max: Vector { x: i64::MIN, y: i64::MIN, z: i64::MIN },
        }
    }

    /// Whether the point lies inside the box, edges included.
    pub open spec fn contains(self, p: Point) -> bool {
        &&& self.min.x <= p.x <= self.max.x
        &&& self.min.y <= p.y <= self.max.y
        &&& self.min.z <= p.z <= self.max.z
    }

    /// The smallest box that holds this box and the point.
    pub open spec fn grown(self, p: Point) -> Bounds {
        Bounds {
            min: Vector {
                x: min_int(self.min.x as int, p.x as int) as i64,
                y: min_int(self.min.y as int, p.y as int) as i64,
                z: min_int(self.min.z as int, p.z as int) as i64,
            },
            max: Vector {
                x: max_int(self.max.x as int, p.x as int) as i64,
                y: max_int(self.max.y as int, p.y as int) as i64,
                z: max_int(self.max.z as int, p.z as int) as i64,
            },
        }
    }

    /// The smallest box that holds every point of the sequence.
    pub open spec fn of(points: Seq<Point>) -> Bounds
        decreases points.len(),
    {
        if points.len() == 0 {
            Bounds::empty()
        } else {
            Bounds::of(points.drop_last()).grown(points.last())
        }
    }

    /// A box that holds no point.
    pub fn new() -> (b: Bounds)
        ensures
            b == Bounds::empty(),
    {
        Bounds {
            min: Vector { x: i64::MAX, y: i64::MAX, z: i64::MAX },
            max: Vector { x: i64::MIN, y: i64::MIN, z: i64::MIN },
        }
    }

    /// Widens the box just enough to hold the point.
    pub fn grow(&mut self, point: &Point)
        ensures
            *final(self) == old(self).grown(*point),
    {
        if point.x < self.min.x {
            self.min.x = point.x;
        }
        if point.y < self.min.y {
            self.min.y = point.y;
        }
        if point.z < self.min.z {
            self.min.z = point.z;
        }
        if point.x > self.max.x {
            self.max.x = point.x;
        }
        if point.y > self.max.y {
            self.max.y = point.y;
        }
        if point.z > self.max.z {
            self.max.z = point.z;
        }
    }

    /// The box of a sequence of points lies within every planar box that all
    /// the points lie in, unless the sequence is empty.
    pub proof fn lemma_of_within(points: Seq<Point>, lower_left: (i64, i64), upper_right: (i64, i64))
        requires
            points.len() > 0,
            forall|i: int|
                0 <= i < points.len() ==> {
                    &&& lower_left.0 <= (#[trigger] points[i]).x <= upper_right.0
                    &&& lower_left.1 <= points[i].y <= upper_right.1
                },
        ensures
            lower_left.0 <= Bounds::of(points).min.x <= Bounds::of(points).max.x <= upper_right.0,
            lower_left.1 <= Bounds::of(points).min.y <= Bounds::of(points).max.y <= upper_right.1,
        decreases points.len(),
    {
        assert(lower_left.0 <= points[points.len() - 1].x <= upper_right.0);
        assert(lower_left.1 <= points[points.len() - 1].y <= upper_right.1);
        assert(Bounds::of(points) == Bounds::of(points.drop_last()).grown(points.last()));
        if points.len() > 1 {
            assert forall|i: int| 0 <= i < points.drop_last().len() implies {
                &&& lower_left.0 <= (#[trigger] points.drop_last()[i]).x <= upper_right.0
                &&& lower_left.1 <= points.drop_last()[i].y <= upper_right.1
            } by {
                assert(points.drop_last()[i] == points[i]);
            }
            Bounds::lemma_of_within(points.drop_last(), lower_left, upper_right);
        } else {
            assert(points.drop_last().len() == 0);
            assert(Bounds::of(points.drop_last()) == Bounds::empty());
        }
    }

    /// The box of a sequence holds each of its points.
    pub proof fn lemma_of_contains(points: Seq<Point>, i: int)
        requires
            0 <= i < points.len(),
        ensures
            Bounds::of(points).contains(points[i]),
        decreases points.len(),
    {
        if i < points.len() - 1 {
            Bounds::lemma_of_contains(points.drop_last(), i);
        }
    }
}

impl Default for Bounds {
    fn default() -> (b: Bounds)
        ensures
            b == Bounds::empty(),
    {
        Bounds::new()
    }
}

} // verus!
