use crate::point::Bounds;
use crate::units::floor_div;
use vstd::prelude::*;

verus! {

/// `las::point::Format`, carried through as an opaque value.
#[verifier::external_type_specification]
#[verifier::external_body]
pub struct ExFormat(las::point::Format);

/// What the header of a point file says about its contents.
pub struct Metadata {
    point_count: u64,
    bounds: Bounds,
    point_format: las::point::Format,
}

impl Metadata {
    /// Number of points that the file holds.
    pub closed spec fn spec_point_count(&self) -> u64 {
        self.point_count
    }

    /// The box that holds every point of the file.
    pub closed spec fn spec_bounds(&self) -> Bounds {
        self.bounds
    }

    /// The layout of the file's point records.
    pub closed spec fn spec_point_format(&self) -> las::point::Format {
        self.point_format
    }

    /// The planar centre of a box: the midpoint of each side, rounded down.
    pub open spec fn center_of(bounds: Bounds) -> (i64, i64) {
        (
            floor_div(bounds.min.x + bounds.max.x, 2) as i64,
            floor_div(bounds.min.y + bounds.max.y, 2) as i64,
        )
    }

    /// Gathers the summary of a file from the values read from its header.
    pub fn new(point_count: u64, bounds: Bounds, point_format: las::point::Format) -> (m: Metadata)
        ensures
            m.spec_point_count() == point_count,
            m.spec_bounds() == bounds,
            m.spec_point_format() == point_format,
    {
        Metadata { point_count, bounds, point_format }
    }

    pub fn point_count(&self) -> (n: u64)
        ensures
            n == self.spec_point_count(),
    {
        self.point_count
    }

    pub fn bounds(&self) -> (b: &Bounds)
        ensures
            *b == self.spec_bounds(),
    {
        &self.bounds
    }

    /// The planar centre of the file's bounds.
    pub fn center2d(&self) -> (c: (i64, i64))
        ensures
            c == Metadata::center_of(self.spec_bounds()),
            2 * c.0 <= self.spec_bounds().min.x + self.spec_bounds().max.x <= 2 * c.0 + 1,
            2 * c.1 <= self.spec_bounds().min.y + self.spec_bounds().max.y <= 2 * c.1 + 1,
    {
        let x: i128 = crate::units::floor_div_exec(
            self.bounds.min.x as i128 + self.bounds.max.x as i128,
            2,
        );
        let y: i128 = crate::units::floor_div_exec(
            self.bounds.min.y as i128 + self.bounds.max.y as i128,
            2,
        );
        proof {
            crate::units::lemma_floor_div_bounds(self.bounds.min.x + self.bounds.max.x, 2);
            crate::units::lemma_floor_div_bounds(self.bounds.min.y + self.bounds.max.y, 2);
        }
        (x as i64, y as i64)
    }

    pub fn point_format(&self) -> (f: &las::point::Format)
        ensures
            *f == self.spec_point_format(),
    {
        &self.point_format
    }
}

} // verus!
