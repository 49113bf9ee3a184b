//! Axis-aligned bounding boxes on the fixed-point grid.
//!
//! A box is a pair of corner points.  A freshly created box is "empty": its
//! corners sit at sentinel coordinates chosen so that taking the union with
//! any real box yields that box.  Boxes handled to the builders must be
//! `valid`: proper (`min <= max` on every axis) and within `COORD_LIMIT`,
//! which keeps every product the builders form inside machine integers.

use vstd::prelude::*;
use crate::vector::{Vec3, COORD_LIMIT};

verus! {

/// Corner coordinate of an empty box; larger than any valid coordinate.
pub const EMPTY_CORNER: i64 = 0x100_0000_0000;

/// The smaller of two coordinates, for specifications.
pub open spec fn imin(a: i64, b: i64) -> i64 {
    if a <= b {
        a
    } else {
        b
    }
}

/// The larger of two coordinates, for specifications.
pub open spec fn imax(a: i64, b: i64) -> i64 {
    if a >= b {
        a
    } else {
        b
    }
}

/// An axis-aligned bounding box.
#[derive(Clone, Copy, Debug, PartialEq)]
pub struct Bbox {
    pub min: Vec3<i64>,
    pub max: Vec3<i64>,
}

impl Bbox {
    /// A proper box on valid coordinates: what the builders accept.
    pub open spec fn valid(self) -> bool {
        &&& -COORD_LIMIT <= self.min.0 <= self.max.0 <= COORD_LIMIT
        &&& -COORD_LIMIT <= self.min.1 <= self.max.1 <= COORD_LIMIT
        &&& -COORD_LIMIT <= self.min.2 <= self.max.2 <= COORD_LIMIT
    }

    /// All six corner coordinates within `m` in magnitude.
    pub open spec fn in_range(self, m: i64) -> bool {
        &&& -m <= self.min.0 <= m && -m <= self.max.0 <= m
        &&& -m <= self.min.1 <= m && -m <= self.max.1 <= m
        &&& -m <= self.min.2 <= m && -m <= self.max.2 <= m
    }

    /// The empty box.
    pub open spec fn spec_empty() -> Bbox {
        Bbox {
            min: Vec3::<i64>(EMPTY_CORNER, EMPTY_CORNER, EMPTY_CORNER),
            max: Vec3::<i64>(
                (-EMPTY_CORNER) as i64,
                (-EMPTY_CORNER) as i64,
                (-EMPTY_CORNER) as i64,
            ),
        }
    }

    /// The smallest box containing both arguments.
    pub open spec fn spec_union(a: Bbox, b: Bbox) -> Bbox {
        Bbox {
            min: Vec3::<i64>(imin(a.min.0, b.min.0), imin(a.min.1, b.min.1), imin(a.min.2, b.min.2)),
            max: Vec3::<i64>(imax(a.max.0, b.max.0), imax(a.max.1, b.max.1), imax(a.max.2, b.max.2)),
        }
    }

    /// The smallest box containing `self` and the point `v`.
    pub open spec fn spec_include_point(self, v: Vec3<i64>) -> Bbox {
        Bbox {
            min: Vec3::<i64>(imin(self.min.0, v.0), imin(self.min.1, v.1), imin(self.min.2, v.2)),
            max: Vec3::<i64>(imax(self.max.0, v.0), imax(self.max.1, v.1), imax(self.max.2, v.2)),
        }
    }

    /// Whether `self` contains `inner` on all six faces.
    pub open spec fn contains_box(self, inner: Bbox) -> bool {
        &&& self.min.0 <= inner.min.0 && inner.max.0 <= self.max.0
        &&& self.min.1 <= inner.min.1 && inner.max.1 <= self.max.1
        &&& self.min.2 <= inner.min.2 && inner.max.2 <= self.max.2
    }

    /// Whether `self` contains the point `v`.
    pub open spec fn contains_point(self, v: Vec3<i64>) -> bool {
        &&& self.min.0 <= v.0 <= self.max.0
        &&& self.min.1 <= v.1 <= self.max.1
        &&& self.min.2 <= v.2 <= self.max.2
    }

    /// Whether the two boxes overlap on every axis.
    pub open spec fn spec_intersects(self, other: Bbox) -> bool {
        &&& !(other.min.0 > self.max.0 || other.max.0 < self.min.0)
        &&& !(other.min.1 > self.max.1 || other.max.1 < self.min.1)
        &&& !(other.min.2 > self.max.2 || other.max.2 < self.min.2)
    }

    /// Twice the centroid of the box (exact on the grid).
    pub open spec fn spec_centroid2(self) -> Vec3<i64>
        recommends
            self.in_range(0x1000_0000_0000),
    {
        Vec3::<i64>(
            (self.min.0 + self.max.0) as i64,
            (self.min.1 + self.max.1) as i64,
            (self.min.2 + self.max.2) as i64,
        )
    }

    /// Half the surface area of the box, as exact integer arithmetic.
    pub open spec fn spec_half_area(self) -> int {
        let d0 = self.max.0 - self.min.0;
        let d1 = self.max.1 - self.min.1;
        let d2 = self.max.2 - self.min.2;
        d0 * d1 + d1 * d2 + d2 * d0
    }

    /// The axis of largest extent, preferring later axes on ties.
    pub open spec fn spec_longest_axis(self) -> u32 {
        let d0 = self.max.0 - self.min.0;
        let d1 = self.max.1 - self.min.1;
        let d2 = self.max.2 - self.min.2;
        if d0 > d1 {
            if d0 > d2 {
                0u32
            } else {
                2u32
            }
        } else {
            if d1 > d2 {
                1u32
            } else {
                2u32
            }
        }
    }

    /// Create a new bounding box including nothing.
    pub fn new() -> (r: Bbox)
        ensures
            r == Self::spec_empty(),
    {
        Bbox {
            min: Vec3::<i64>(EMPTY_CORNER, EMPTY_CORNER, EMPTY_CORNER),
            max: Vec3::<i64>(-EMPTY_CORNER, -EMPTY_CORNER, -EMPTY_CORNER),
        }
    }

    /// The tight box around three points.
    pub fn from_triangle(v0: Vec3<i64>, v1: Vec3<i64>, v2: Vec3<i64>) -> (r: Bbox)
        ensures
            r == Self::spec_empty().spec_include_point(v0).spec_include_point(v1)
                .spec_include_point(v2),
    {
        let mut b = Bbox::new();
        b.include_vertex(v0);
        b.include_vertex(v1);
        b.include_vertex(v2);
        b
    }

    /// Extend the box to include the given point.
    pub fn include_vertex(&mut self, v: Vec3<i64>)
        ensures
            *final(self) == old(self).spec_include_point(v),
    {
        self.min.0 = if self.min.0 <= v.0 {
            self.min.0
        } else {
            v.0
        };
        self.min.1 = if self.min.1 <= v.1 {
            self.min.1
        } else {
            v.1
        };
        self.min.2 = if self.min.2 <= v.2 {
            self.min.2
        } else {
            v.2
        };
        self.max.0 = if self.max.0 >= v.0 {
            self.max.0
        } else {
            v.0
        };
        self.max.1 = if self.max.1 >= v.1 {
            self.max.1
        } else {
            v.1
        };
        self.max.2 = if self.max.2 >= v.2 {
            self.max.2
        } else {
            v.2
        };
    }

    /// Extend the box to include the other box.
    pub fn include_bbox(&mut self, other: &Bbox)
        ensures
            *final(self) == Self::spec_union(*old(self), *other),
    {
        self.min.0 = if self.min.0 <= other.min.0 {
            self.min.0
        } else {
            other.min.0
        };
        self.min.1 = if self.min.1 <= other.min.1 {
            self.min.1
        } else {
            other.min.1
        };
        self.min.2 = if self.min.2 <= other.min.2 {
            self.min.2
        } else {
            other.min.2
        };
        self.max.0 = if self.max.0 >= other.max.0 {
            self.max.0
        } else {
            other.max.0
        };
        self.max.1 = if self.max.1 >= other.max.1 {
            self.max.1
        } else {
            other.max.1
        };
        self.max.2 = if self.max.2 >= other.max.2 {
            self.max.2
        } else {
            other.max.2
        };
    }

    /// Twice the centroid of the box.
    pub fn centroid2(&self) -> (r: Vec3<i64>)
        requires
            self.in_range(0x1000_0000_0000),
        ensures
            r == self.spec_centroid2(),
    {
        Vec3::<i64>(self.min.0 + self.max.0, self.min.1 + self.max.1, self.min.2 + self.max.2)
    }

    /// The extent of the box in the given dimension.
    pub fn extent_dim(&self, dim: u32) -> (r: i64)
        requires
            dim < 3,
            self.in_range(0x1000_0000_0000),
        ensures
            r == self.max.spec_axis(dim as int) - self.min.spec_axis(dim as int),
    {
        self.max.axis(dim) - self.min.axis(dim)
    }

    /// Half the surface area of the box.
    pub fn half_area(&self) -> (r: i128)
        requires
            self.in_range(0x1000_0000_0000),
        ensures
            r == self.spec_half_area(),
            -(3 * 0x2000_0000_0000 * 0x2000_0000_0000) <= r <= 3 * 0x2000_0000_0000
                * 0x2000_0000_0000,
    {
        let d0: i128 = (self.max.0 - self.min.0) as i128;
        let d1: i128 = (self.max.1 - self.min.1) as i128;
        let d2: i128 = (self.max.2 - self.min.2) as i128;
        proof {
            let m = 0x2000_0000_0000int;
            assert(d0 * d1 <= m * m && d0 * d1 >= -(m * m)) by (nonlinear_arith)
                requires
                    -m <= d0 <= m,
                    -m <= d1 <= m,
            ;
            assert(d1 * d2 <= m * m && d1 * d2 >= -(m * m)) by (nonlinear_arith)
                requires
                    -m <= d1 <= m,
                    -m <= d2 <= m,
            ;
            assert(d2 * d0 <= m * m && d2 * d0 >= -(m * m)) by (nonlinear_arith)
                requires
                    -m <= d2 <= m,
                    -m <= d0 <= m,
            ;
        }
        d0 * d1 + d1 * d2 + d2 * d0
    }

    /// The surface area of the box.
    pub fn area(&self) -> (r: i128)
        requires
            self.in_range(0x1000_0000_0000),
        ensures
            r == 2 * self.spec_half_area(),
            -(6 * 0x2000_0000_0000 * 0x2000_0000_0000) <= r <= 6 * 0x2000_0000_0000
                * 0x2000_0000_0000,
    {
        2 * self.half_area()
    }

    /// The axis of largest extent.
    pub fn longest_axis(&self) -> (r: u32)
        requires
            self.in_range(0x1000_0000_0000),
        ensures
            r == self.spec_longest_axis(),
            r < 3,
    {
        let d0 = self.extent_dim(0);
        let d1 = self.extent_dim(1);
        let d2 = self.extent_dim(2);
        if d0 > d1 {
            if d0 > d2 {
                0
            } else {
                2
            }
        } else {
            if d1 > d2 {
                1
            } else {
                2
            }
        }
    }

    /// Whether this box intersects the other box.
    pub fn intersects(&self, other: &Bbox) -> (r: bool)
        ensures
            r == self.spec_intersects(*other),
    {
        !(other.min.0 > self.max.0 || other.max.0 < self.min.0) && !(other.min.1 > self.max.1
            || other.max.1 < self.min.1) && !(other.min.2 > self.max.2 || other.max.2
            < self.min.2)
    }
}

} // verus!
