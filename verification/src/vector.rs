//! Small fixed-size vector types.
//!
//! Coordinates are plain integers: a caller maps world geometry onto a
//! fixed-point grid before building an acceleration structure, so every
//! geometric computation in this crate is exact.

use vstd::prelude::*;

verus! {

/// Largest coordinate magnitude accepted for input geometry.  Keeping
/// coordinates within this bound makes every product and sum that the
/// builders form fit comfortably in the machine integers they use.
pub const COORD_LIMIT: i64 = 0x4000_0000;

/// A vector of three components.
#[derive(Clone, Copy, Debug, PartialEq)]
pub struct Vec3<T>(pub T, pub T, pub T);

/// A vector of four components.
#[derive(Clone, Copy, Debug, PartialEq)]
pub struct Vec4<T>(pub T, pub T, pub T, pub T);

/// Three integer coordinates: a point on the fixed-point grid.
pub type Vec3i = Vec3<i64>;

/// Three unsigned words.
pub type Vec3u32 = Vec3<u32>;

/// Four unsigned words: the packed record layout used by the flat trees.
pub type Vec4u32 = Vec4<u32>;

/// Build a `Vec3<i64>` from its components.
#[inline(always)]
pub fn vec3i(c0: i64, c1: i64, c2: i64) -> (r: Vec3<i64>)
    ensures
        r == (Vec3::<i64>(c0, c1, c2)),
{
    Vec3::<i64>(c0, c1, c2)
}

/// Build a `Vec3<u32>` from its components.
#[inline(always)]
pub fn vec3u32(u0: u32, u1: u32, u2: u32) -> (r: Vec3<u32>)
    ensures
        r == (Vec3::<u32>(u0, u1, u2)),
{
    Vec3::<u32>(u0, u1, u2)
}

/// Build a `Vec4<u32>` from its components.
#[inline(always)]
pub fn vec4u32(u0: u32, u1: u32, u2: u32, u3: u32) -> (r: Vec4<u32>)
    ensures
        r == (Vec4::<u32>(u0, u1, u2, u3)),
{
    Vec4::<u32>(u0, u1, u2, u3)
}

/// Dot product of two integer vectors.
pub fn dot(v1: Vec3<i64>, v2: Vec3<i64>) -> (r: i64)
    requires
        -COORD_LIMIT <= v1.0 <= COORD_LIMIT,
        -COORD_LIMIT <= v1.1 <= COORD_LIMIT,
        -COORD_LIMIT <= v1.2 <= COORD_LIMIT,
        -COORD_LIMIT <= v2.0 <= COORD_LIMIT,
        -COORD_LIMIT <= v2.1 <= COORD_LIMIT,
        -COORD_LIMIT <= v2.2 <= COORD_LIMIT,
    ensures
        r == v1.0 * v2.0 + v1.1 * v2.1 + v1.2 * v2.2,
{
    proof {
        assert(v1.0 * v2.0 <= COORD_LIMIT * COORD_LIMIT && v1.0 * v2.0 >= -(COORD_LIMIT
            * COORD_LIMIT)) by (nonlinear_arith)
            requires
                -COORD_LIMIT <= v1.0 <= COORD_LIMIT,
                -COORD_LIMIT <= v2.0 <= COORD_LIMIT,
        ;
        assert(v1.1 * v2.1 <= COORD_LIMIT * COORD_LIMIT && v1.1 * v2.1 >= -(COORD_LIMIT
            * COORD_LIMIT)) by (nonlinear_arith)
            requires
                -COORD_LIMIT <= v1.1 <= COORD_LIMIT,
                -COORD_LIMIT <= v2.1 <= COORD_LIMIT,
        ;
        assert(v1.2 * v2.2 <= COORD_LIMIT * COORD_LIMIT && v1.2 * v2.2 >= -(COORD_LIMIT
            * COORD_LIMIT)) by (nonlinear_arith)
            requires
                -COORD_LIMIT <= v1.2 <= COORD_LIMIT,
                -COORD_LIMIT <= v2.2 <= COORD_LIMIT,
        ;
    }
    v1.0 * v2.0 + v1.1 * v2.1 + v1.2 * v2.2
}

impl Vec3<i64> {
    /// Extend with a zero fourth component.
    pub fn vec4(self) -> (r: Vec4<i64>)
        ensures
            r == (Vec4::<i64>(self.0, self.1, self.2, 0i64)),
    {
        Vec4::<i64>(self.0, self.1, self.2, 0i64)
    }

    /// The component selected by an axis index.
    #[inline(always)]
    pub fn axis(&self, d: u32) -> (r: i64)
        requires
            d < 3,
        ensures
            r == self.spec_axis(d as int),
    {
        if d == 0 {
            self.0
        } else if d == 1 {
            self.1
        } else {
            self.2
        }
    }

    /// The component selected by an axis index, for specifications.
    pub open spec fn spec_axis(&self, d: int) -> i64 {
        if d == 0 {
            self.0
        } else if d == 1 {
            self.1
        } else {
            self.2
        }
    }

    /// Replace the component selected by an axis index.
    #[inline(always)]
    pub fn with_axis(&self, d: u32, value: i64) -> (r: Vec3<i64>)
        requires
            d < 3,
        ensures
            r == self.spec_with_axis(d as int, value),
    {
        if d == 0 {
            Vec3::<i64>(value, self.1, self.2)
        } else if d == 1 {
            Vec3::<i64>(self.0, value, self.2)
        } else {
            Vec3::<i64>(self.0, self.1, value)
        }
    }

    /// Replacement of one component, for specifications.
    pub open spec fn spec_with_axis(&self, d: int, value: i64) -> Vec3<i64> {
        if d == 0 {
            Vec3::<i64>(value, self.1, self.2)
        } else if d == 1 {
            Vec3::<i64>(self.0, value, self.2)
        } else {
            Vec3::<i64>(self.0, self.1, value)
        }
    }

    /// Componentwise strictly-less comparison.
    pub fn lt(&self, rhs: Vec3<i64>) -> (r: Vec3<bool>)
        ensures
            r == (Vec3::<bool>(self.0 < rhs.0, self.1 < rhs.1, self.2 < rhs.2)),
    {
        Vec3::<bool>(self.0 < rhs.0, self.1 < rhs.1, self.2 < rhs.2)
    }

    /// Componentwise less-or-equal comparison.
    pub fn le(&self, rhs: Vec3<i64>) -> (r: Vec3<bool>)
        ensures
            r == (Vec3::<bool>(self.0 <= rhs.0, self.1 <= rhs.1, self.2 <= rhs.2)),
    {
        Vec3::<bool>(self.0 <= rhs.0, self.1 <= rhs.1, self.2 <= rhs.2)
    }

    /// Componentwise strictly-greater comparison.
    pub fn gt(&self, rhs: Vec3<i64>) -> (r: Vec3<bool>)
        ensures
            r == (Vec3::<bool>(self.0 > rhs.0, self.1 > rhs.1, self.2 > rhs.2)),
    {
        Vec3::<bool>(self.0 > rhs.0, self.1 > rhs.1, self.2 > rhs.2)
    }

    /// Componentwise greater-or-equal comparison.
    pub fn ge(&self, rhs: Vec3<i64>) -> (r: Vec3<bool>)
        ensures
            r == (Vec3::<bool>(self.0 >= rhs.0, self.1 >= rhs.1, self.2 >= rhs.2)),
    {
        Vec3::<bool>(self.0 >= rhs.0, self.1 >= rhs.1, self.2 >= rhs.2)
    }
}

impl Vec3<bool> {
    /// Whether every component holds.
    pub fn all(&self) -> (r: bool)
        ensures
            r == (self.0 && self.1 && self.2),
    {
        self.0 && self.1 && self.2
    }

    /// Whether some component holds.
    pub fn any(&self) -> (r: bool)
        ensures
            r == (self.0 || self.1 || self.2),
    {
        self.0 || self.1 || self.2
    }
}

impl<T: Copy> Vec4<T> {
    /// The first three components.
    pub fn xyz(&self) -> (r: Vec3<T>)
        ensures
            r == (Vec3::<T>(self.0, self.1, self.2)),
    {
        Vec3::<T>(self.0, self.1, self.2)
    }
}

} // verus!
