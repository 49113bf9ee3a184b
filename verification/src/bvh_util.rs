//! Timing records for benchmarking the builders.
//!
//! The library itself takes no clock readings: a benchmark driver measures
//! each construction phase and stores the elapsed times here, in
//! microseconds.

use vstd::prelude::*;

verus! {

/// Per-phase construction times of a BVH build, in microseconds.
#[derive(Clone, Copy, Debug)]
pub struct BvhConstructionTime {
    pub morton_codes: u64,
    pub radix_sort: u64,
    pub treelet_init: u64,
    pub treelet_build: u64,
    pub upper_tree: u64,
    pub flattening: u64,
}

impl BvhConstructionTime {
    /// Sum of all phases.
    pub fn total(&self) -> (r: u64)
        requires
            self.morton_codes + self.radix_sort + self.treelet_init + self.treelet_build
                + self.upper_tree + self.flattening <= u64::MAX,
        ensures
            r == self.morton_codes + self.radix_sort + self.treelet_init + self.treelet_build
                + self.upper_tree + self.flattening,
    {
        self.morton_codes + self.radix_sort + self.treelet_init + self.treelet_build
            + self.upper_tree + self.flattening
    }
}

impl Default for BvhConstructionTime {
    /// All phases at zero.
    fn default() -> (r: Self)
        ensures
            r.morton_codes == 0 && r.radix_sort == 0 && r.treelet_init == 0 && r.treelet_build
                == 0 && r.upper_tree == 0 && r.flattening == 0,
    {
        BvhConstructionTime {
            morton_codes: 0,
            radix_sort: 0,
            treelet_init: 0,
            treelet_build: 0,
            upper_tree: 0,
            flattening: 0,
        }
    }
}

/// Per-phase construction times of a BSP build, in microseconds.
#[derive(Clone, Copy, Debug)]
pub struct BspConstructionTime {
    pub subdivision: u64,
    pub flattening: u64,
}

impl BspConstructionTime {
    /// Sum of both phases.
    pub fn total(&self) -> (r: u64)
        requires
            self.subdivision + self.flattening <= u64::MAX,
        ensures
            r == self.subdivision + self.flattening,
    {
        self.subdivision + self.flattening
    }
}

impl Default for BspConstructionTime {
    /// Both phases at zero.
    fn default() -> (r: Self)
        ensures
            r.subdivision == 0 && r.flattening == 0,
    {
        BspConstructionTime { subdivision: 0, flattening: 0 }
    }
}

} // verus!
