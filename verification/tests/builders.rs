//! Tests of the two builders and their flat representations.

use accel::accobj::AccObj;
use accel::bbox::Bbox;
use accel::bsp_tree::{BspTree, BspTreeIntermediate, NODE_TYPE_LEAF};
use accel::hlbvh::{Bvh, GpuNode};
use accel::vector::vec3i;

fn boxed(idx: u32, lo: (i64, i64, i64), hi: (i64, i64, i64)) -> AccObj {
    let mut b = Bbox::new();
    b.include_vertex(vec3i(lo.0, lo.1, lo.2));
    b.include_vertex(vec3i(hi.0, hi.1, hi.2));
    AccObj::new(idx, b)
}

fn sample_objects() -> Vec<AccObj> {
    vec![
        boxed(0, (0, 0, 0), (1, 1, 1)),
        boxed(1, (10, 0, 0), (11, 1, 1)),
        boxed(2, (0, 10, 0), (1, 11, 1)),
        boxed(3, (10, 10, 0), (11, 11, 1)),
        boxed(4, (0, 0, 10), (1, 1, 11)),
        boxed(5, (10, 0, 10), (11, 1, 11)),
        boxed(6, (0, 10, 10), (1, 11, 11)),
        boxed(7, (10, 10, 10), (11, 11, 11)),
        boxed(8, (4, 4, 4), (7, 7, 7)),
        boxed(9, (-8, -8, -8), (-6, -6, -6)),
    ]
}

/// The small fixed-input scenario: two axis-aligned unit triangles
/// forming a quad become one leaf holding both primitives, with the
/// quad's bound.
#[test]
fn bvh_single_leaf_quad() {
    let t0 = Bbox::from_triangle(vec3i(0, 0, 0), vec3i(1, 0, 0), vec3i(1, 1, 0));
    let t1 = Bbox::from_triangle(vec3i(0, 0, 0), vec3i(1, 1, 0), vec3i(0, 1, 0));
    let prims = vec![AccObj::new(0, t0), AccObj::new(1, t1)];
    let bvh = Bvh::new(&prims, 4, true);
    let nodes = bvh.flatten();
    assert_eq!(nodes.len(), 1);
    assert_eq!(nodes[0].number_of_prims, 2);
    assert_eq!(nodes[0].offset_ptr, 0);
    assert_eq!(nodes[0].min, vec3i(0, 0, 0));
    assert_eq!(nodes[0].max, vec3i(1, 1, 0));
    let tris = bvh.triangles();
    assert_eq!(tris, vec![0, 1]);
}

/// Flattening the same hierarchy twice yields identical arrays.
#[test]
fn bvh_flatten_idempotent() {
    let prims = sample_objects();
    let bvh = Bvh::new(&prims, 2, true);
    let a = bvh.flatten();
    let b = bvh.flatten();
    assert_eq!(a, b);
    assert_eq!(bvh.triangles(), bvh.triangles());
}

/// Both threading modes build the same tree: identical flat arrays and
/// identical reordered primitive indices.
#[test]
fn bvh_parallel_equivalence() {
    let prims = sample_objects();
    let seq = Bvh::new(&prims, 2, true);
    let par = Bvh::new(&prims, 2, false);
    assert_eq!(seq.flatten(), par.flatten());
    assert_eq!(seq.triangles(), par.triangles());
}

/// Coverage: the reordered index array is a permutation of the input
/// indices, and the leaf records' ranges tile it exactly.
#[test]
fn bvh_coverage() {
    let prims = sample_objects();
    let n = prims.len();
    let bvh = Bvh::new(&prims, 3, true);
    let tris = bvh.triangles();
    assert_eq!(tris.len(), n);
    let mut sorted = tris.clone();
    sorted.sort_unstable();
    let expected: Vec<u32> = (0..n as u32).collect();
    assert_eq!(sorted, expected);

    let nodes = bvh.flatten();
    let mut ranges: Vec<(u32, u32)> = Vec::new();
    for node in &nodes {
        if node.number_of_prims > 0 {
            ranges.push((node.offset_ptr, node.number_of_prims));
        }
    }
    ranges.sort_unstable();
    let mut next = 0u32;
    for (start, len) in &ranges {
        assert_eq!(*start, next);
        next += len;
    }
    assert_eq!(next as usize, n);
}

/// Implicit addressing: every interior record has count zero, points at
/// a right child inside the array, the record after it belongs to its
/// left child, and both neighbours' bounds sit inside its own.
#[test]
fn bvh_leaf_addressing() {
    let prims = sample_objects();
    let bvh = Bvh::new(&prims, 3, true);
    let nodes = bvh.flatten();
    assert!(nodes.len() > 1);
    for (i, node) in nodes.iter().enumerate() {
        if node.number_of_prims == 0 {
            let r = node.offset_ptr as usize;
            assert!(i + 1 < r && r < nodes.len());
            for child in [&nodes[i + 1], &nodes[r]] {
                assert!(node.min.0 <= child.min.0 && child.max.0 <= node.max.0);
                assert!(node.min.1 <= child.min.1 && child.max.1 <= node.max.1);
                assert!(node.min.2 <= child.min.2 && child.max.2 <= node.max.2);
            }
        }
    }
}

/// All-identical centroids collapse every Morton code to the same value;
/// the build falls through to a single leaf.
#[test]
fn bvh_degenerate_centroids() {
    let prims: Vec<AccObj> = (0..5).map(|i| boxed(i, (0, 0, 0), (2, 2, 2))).collect();
    let bvh = Bvh::new(&prims, 1, true);
    let nodes = bvh.flatten();
    assert_eq!(nodes.len(), 1);
    assert_eq!(nodes[0].number_of_prims, 5);
    assert_eq!(bvh.triangles(), vec![0, 1, 2, 3, 4]);
}

#[test]
fn gpu_node_placeholder() {
    let mut b = Bbox::new();
    b.include_vertex(vec3i(1, 2, 3));
    let g = GpuNode::new(&b);
    assert_eq!(g.min, b.min);
    assert_eq!(g.max, b.max);
    assert_eq!(g.offset_ptr, 9999);
    assert_eq!(g.number_of_prims, 9999);
}

/// The leaves jointly reach every input object; straddling objects may
/// appear in more than one leaf, so the id list is a superset.
#[test]
fn bsp_coverage_superset() {
    let mut objs = sample_objects();
    // one long object straddling everything on the x axis
    objs.push(boxed(10, (-8, 0, 0), (11, 1, 1)));
    let n = objs.len();
    let tree = BspTree::new(objs, 6, 2);
    assert_eq!(tree.count(), n);
    let ids = tree.primitive_ids();
    assert!(ids.len() >= n);
    for want in 0..n as u32 {
        assert!(ids.contains(&want));
    }
}

/// The flat arrays have exactly `2^(max_depth+1) - 1` slots, so no
/// record index exceeds `2^(max_depth+1) - 2`, and every leaf record's
/// id window lies in the id array, windows not overlapping.
#[test]
fn bsp_array_layout() {
    let objs = sample_objects();
    let max_depth = 4u32;
    let tree = BspTree::new(objs, max_depth, 2);
    let ids = tree.primitive_ids();
    let (planes, arr) = tree.bsp_array();
    let expect_len = (1usize << (max_depth + 1)) - 1;
    assert_eq!(arr.len(), expect_len);
    assert_eq!(planes.len(), expect_len);

    let mut windows: Vec<(u32, u32)> = Vec::new();
    let mut total = 0usize;
    for rec in &arr {
        if rec.0 & 3 == NODE_TYPE_LEAF {
            let count = rec.0 >> 2;
            assert!(rec.1 as usize + count as usize <= ids.len());
            windows.push((rec.1, count));
            total += count as usize;
        }
    }
    // Dead slots are zeroed, so only genuine leaves carry the leaf tag.
    assert_eq!(total, ids.len());
    windows.sort_unstable();
    let mut next = 0u32;
    for (start, len) in &windows {
        assert_eq!(*start, next);
        next += len;
    }
}

/// A split stores its plane beside the record; child addresses follow
/// the closed-form position formula.
#[test]
fn bsp_split_records() {
    let objs = sample_objects();
    let max_depth = 4u32;
    let tree = BspTree::new(objs, max_depth, 2);
    let (planes, arr) = tree.bsp_array();
    // the root must be a split for this input
    let root = arr[0];
    assert!(root.0 & 3 != NODE_TYPE_LEAF);
    assert_eq!(root.0 >> 2, 10);
    assert_eq!(root.2, 1);
    assert_eq!(root.3, 2);
    assert_eq!(root.1, 0);
    let _ = planes[0];
    // leaf slots carry a zero plane
    for (i, rec) in arr.iter().enumerate() {
        if rec.0 & 3 == NODE_TYPE_LEAF {
            assert_eq!(planes[i], 0);
        }
    }
}

/// An empty input yields a single empty leaf.
#[test]
fn bsp_empty_input() {
    let tree = BspTree::new(Vec::new(), 3, 2);
    assert_eq!(tree.count(), 0);
    assert_eq!(tree.primitive_ids(), Vec::<u32>::new());
    let (planes, arr) = tree.bsp_array();
    assert_eq!(arr.len(), (1 << 4) - 1);
    assert_eq!(planes.len(), (1 << 4) - 1);
    assert_eq!(arr[0].0, NODE_TYPE_LEAF);
    assert_eq!(arr[0].1, 0);
}

/// The subdivision is deterministic: two builds of the same input yield
/// identical flat arrays and id lists.
#[test]
fn bsp_deterministic() {
    let a = BspTree::new(sample_objects(), 5, 2);
    let b = BspTree::new(sample_objects(), 5, 2);
    assert_eq!(a.primitive_ids(), b.primitive_ids());
    let (pa, na) = a.bsp_array();
    let (pb, nb) = b.bsp_array();
    assert_eq!(pa, pb);
    assert_eq!(na, nb);
}

/// The gathered upload bundle agrees with the individual traversals.
#[test]
fn bsp_intermediate_bundle() {
    let objs = sample_objects();
    let tree = BspTree::new(objs, 5, 2);
    let bundle = BspTreeIntermediate::new(&tree);
    assert_eq!(bundle.ids, tree.primitive_ids());
    let (planes, arr) = tree.bsp_array();
    assert_eq!(bundle.bsp_planes, planes);
    assert_eq!(bundle.bsp_tree, arr);
    assert_eq!(bundle.bbox.min, vec3i(-8, -8, -8));
    assert_eq!(bundle.bbox.max, vec3i(11, 11, 11));
}
