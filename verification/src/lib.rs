//! Spatial acceleration structures for ray tracing on integer (fixed-point)
//! coordinates: a bounding volume hierarchy built with the hierarchical
//! linear BVH (HLBVH) method, and a binary space partitioning tree built by a
//! cost-driven axis search.  Both consume a flat list of axis-aligned
//! bounding boxes (one per primitive) and produce a tree together with
//! GPU-ready flat arrays of small fixed-size node records.

pub mod vector;
pub mod bbox;
pub mod accobj;
pub mod morton;
pub mod bvh_util;
pub mod sort;
pub mod hlbvh;
pub mod bsp_tree;
