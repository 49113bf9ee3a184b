//! The common input type of both builders: a primitive index paired with
//! its bounding box.

use vstd::prelude::*;
use crate::bbox::Bbox;

verus! {

/// An accelerable object: a stable index into the caller's primitive list
/// together with that primitive's bounding box.
#[derive(Clone, Copy, Debug, PartialEq)]
pub struct AccObj {
    pub idx: u32,
    pub bbox: Bbox,
}

impl AccObj {
    /// Pair an index with its bounding box.
    pub fn new(idx: u32, bbox: Bbox) -> (r: Self)
        ensures
            r == (AccObj { idx, bbox }),
    {
        AccObj { idx, bbox }
    }
}

/// The coordinate axis a split node partitions on.
#[derive(Clone, Copy, Debug, PartialEq, Eq, Structural)]
pub enum Split {
    AxisX,
    AxisY,
    AxisZ,
}

impl Split {
    /// The axis selected by an index.  An index outside the three axes is an
    /// internal invariant violation, so it is ruled out here rather than
    /// handled.
    pub fn from_axis(value: u32) -> (r: Self)
        requires
            value < 3,
        ensures
            r == Self::spec_from_axis(value as int),
    {
        match value {
            0 => Split::AxisX,
            1 => Split::AxisY,
            _ => Split::AxisZ,
        }
    }

    /// The axis selected by an index, for specifications.
    pub open spec fn spec_from_axis(value: int) -> Self {
        if value == 0 {
            Split::AxisX
        } else if value == 1 {
            Split::AxisY
        } else {
            Split::AxisZ
        }
    }

    /// The index of the selected axis.
    pub fn as_axis(&self) -> (r: u32)
        ensures
            r == self.spec_axis_index(),
            r < 3,
    {
        match self {
            Split::AxisX => 0,
            Split::AxisY => 1,
            Split::AxisZ => 2,
        }
    }

    /// The index of the selected axis, for specifications.
    pub open spec fn spec_axis_index(&self) -> u32 {
        match self {
            Split::AxisX => 0u32,
            Split::AxisY => 1u32,
            Split::AxisZ => 2u32,
        }
    }
}

} // verus!
