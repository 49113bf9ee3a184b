//! The binary space partitioning tree, built by a cost-driven axis
//! search.
//!
//! A region is recursively split by the cheapest of nine candidate
//! planes (three per axis, at the quarter points), where a candidate's
//! cost weighs the object count on each side by that side's surface
//! area.  Objects straddling the chosen plane go to both children, so a
//! primitive may sit in several leaves; every primitive is reachable in
//! at least one.  The finished tree flattens into an implicit fixed-depth
//! array addressed by `(1 << depth) + branch - 1`.

use vstd::prelude::*;
use vstd::arithmetic::power2::pow2;
use crate::accobj::{AccObj, Split};
use crate::bbox::{Bbox, EMPTY_CORNER};
use crate::vector::{Vec4, Vec4u32};

verus! {

/// Node-type tag of a leaf in the packed flat record.
pub const NODE_TYPE_LEAF: u32 = 3;

/// Largest number of objects a build accepts: the packed flat record
/// stores a node's object count in 30 bits.
pub const MAX_BSP_OBJECTS: usize = 0x3FFF_FFFF;

/// A tree node: the number of objects reaching it, and either the
/// objects themselves (leaf) or a splitting plane with two children.
#[derive(Debug)]
pub struct Node {
    pub count: usize,
    pub node_type: NodeType,
}

/// Leaf or split payload of a node.
#[derive(Debug)]
pub enum NodeType {
    Leaf { objects: Vec<AccObj> },
    Split { split: Split, plane: i64, left: Box<Node>, right: Box<Node> },
}

/// The primitive indices held by the leaves, left to right.
pub open spec fn leaf_ids(n: Node) -> Seq<u32>
    decreases n,
{
    match n.node_type {
        NodeType::Leaf { objects } => objects@.map_values(|o: AccObj| o.idx),
        NodeType::Split { split, plane, left, right } => leaf_ids(*left) + leaf_ids(*right),
    }
}

/// The set of primitive indices in a run of objects.
pub open spec fn ids_set(objs: Seq<AccObj>) -> Set<u32> {
    objs.map_values(|o: AccObj| o.idx).to_set()
}

/// Structural well-formedness of a subtree with `depth_left` levels of
/// budget: counts match the objects that reached each node, stay within
/// the packed 30-bit field, and a leaf is over the cap only when the
/// budget ran out.
pub open spec fn node_wf(n: Node, cap: int, max_leaf: int, depth_left: int) -> bool
    decreases n,
{
    &&& n.count <= cap
    &&& match n.node_type {
        NodeType::Leaf { objects } => {
            &&& n.count == objects.len()
            &&& (n.count <= max_leaf || depth_left == 0)
        },
        NodeType::Split { split, plane, left, right } => {
            &&& depth_left > 0
            &&& node_wf(*left, cap, max_leaf, depth_left - 1)
            &&& node_wf(*right, cap, max_leaf, depth_left - 1)
        },
    }
}

/// The left side of a region cut on an axis at a plane.
pub open spec fn cut_left(bbox: Bbox, axis: int, plane: i64) -> Bbox {
    Bbox { min: bbox.min, max: bbox.max.spec_with_axis(axis, plane) }
}

/// The right side of a region cut on an axis at a plane.
pub open spec fn cut_right(bbox: Bbox, axis: int, plane: i64) -> Bbox {
    Bbox { min: bbox.min.spec_with_axis(axis, plane), max: bbox.max }
}

/// The objects of a run that overlap a region, in run order.
pub open spec fn hits(objs: Seq<AccObj>, region: Bbox) -> Seq<AccObj> {
    objs.filter(|o: AccObj| region.spec_intersects(o.bbox))
}

/// A cost above every real candidate cost: the search starts from it.
pub open spec fn inf_cost() -> int {
    0x7fff_ffff_ffff_ffff_ffff_ffff_ffff_ffff
}

/// The plane of search candidate `m`: the candidates walk the three axes
/// in order, three quarter-point planes each.
pub open spec fn cand_plane(bbox: Bbox, m: int) -> i64 {
    let axis = m / 3;
    let mn = bbox.min.spec_axis(axis);
    let mx = bbox.max.spec_axis(axis);
    (mn + ((mx - mn) * (m % 3 + 1)) / 4) as i64
}

/// The cost of search candidate `m`: each side's object count weighted
/// by that side's surface area.
pub open spec fn cand_cost(objs: Seq<AccObj>, bbox: Bbox, m: int) -> int {
    let axis = m / 3;
    let plane = cand_plane(bbox, m);
    let lb = cut_left(bbox, axis, plane);
    let rb = cut_right(bbox, axis, plane);
    hits(objs, lb).len() * (2 * lb.spec_half_area()) + hits(objs, rb).len() * (2
        * rb.spec_half_area())
}

/// The cheapest of the first `m` candidates, earliest on ties: its cost
/// and its position in search order.
pub open spec fn best_cand(objs: Seq<AccObj>, bbox: Bbox, m: int) -> (int, int)
    decreases m,
{
    if m <= 0 {
        (inf_cost(), 0)
    } else {
        let prev = best_cand(objs, bbox, m - 1);
        let c = cand_cost(objs, bbox, m - 1);
        if c < prev.0 {
            (c, m - 1)
        } else {
            prev
        }
    }
}

/// The tightest lower object corner on an axis, starting from `init`.
pub open spec fn tightest_min(objs: Seq<AccObj>, axis: int, init: i64) -> i64
    decreases objs.len(),
{
    if objs.len() == 0 {
        init
    } else {
        let prev = tightest_min(objs.drop_last(), axis, init);
        let c = objs.last().bbox.min.spec_axis(axis);
        if c < prev {
            c
        } else {
            prev
        }
    }
}

/// The tightest upper object corner on an axis, starting from `init`.
pub open spec fn tightest_max(objs: Seq<AccObj>, axis: int, init: i64) -> i64
    decreases objs.len(),
{
    if objs.len() == 0 {
        init
    } else {
        let prev = tightest_max(objs.drop_last(), axis, init);
        let c = objs.last().bbox.max.spec_axis(axis);
        if c > prev {
            c
        } else {
            prev
        }
    }
}

/// The nudge step: an eighth of the axis extent, at least one grid unit.
pub open spec fn nudge_diff(size: int) -> int {
    if size >= 8 {
        size / 8
    } else {
        1
    }
}

/// The axis the subdivision splits on: the cheapest candidate's.
pub open spec fn chosen_axis(objs: Seq<AccObj>, bbox: Bbox) -> int {
    best_cand(objs, bbox, 9).1 / 3
}

/// The plane the subdivision splits at: the cheapest candidate's plane,
/// nudged just past the tightest object on an axis side that would
/// otherwise receive nothing.
pub open spec fn chosen_plane(objs: Seq<AccObj>, bbox: Bbox) -> i64 {
    let m = best_cand(objs, bbox, 9).1;
    let axis = m / 3;
    let plane0 = cand_plane(bbox, m);
    let lc = hits(objs, cut_left(bbox, axis, plane0)).len();
    let rc = hits(objs, cut_right(bbox, axis, plane0)).len();
    let mn = bbox.min.spec_axis(axis);
    let mx = bbox.max.spec_axis(axis);
    let diff = nudge_diff(mx - mn);
    let p1 = if lc == 0 {
        (tightest_min(objs, axis, mx) - diff) as i64
    } else {
        plane0
    };
    if rc == 0 {
        (tightest_max(objs, axis, mn) + diff) as i64
    } else {
        p1
    }
}

/// What the cost search's running state holds after examining the first
/// `m` candidates: the cheapest cost so far, and for a started search
/// the winner's axis, plane and side counts.
pub open spec fn search_state(
    objs: Seq<AccObj>,
    bbox: Bbox,
    m: int,
    min_cost: i128,
    axis_leaf: u32,
    plane: i64,
    lcount: int,
    rcount: int,
) -> bool {
    let b = best_cand(objs, bbox, m);
    &&& min_cost as int == b.0
    &&& m >= 1 ==> {
        let bplane = cand_plane(bbox, b.1);
        &&& axis_leaf as int == b.1 / 3
        &&& plane == bplane
        &&& lcount == hits(objs, cut_left(bbox, b.1 / 3, bplane)).len()
        &&& rcount == hits(objs, cut_right(bbox, b.1 / 3, bplane)).len()
    }
}

/// A started search's winner is one of the candidates it examined.
proof fn lemma_best_cand_range(objs: Seq<AccObj>, bbox: Bbox, m: int)
    requires
        m >= 1,
    ensures
        0 <= best_cand(objs, bbox, m).1 < m,
    decreases m,
{
    if m > 1 {
        lemma_best_cand_range(objs, bbox, m - 1);
    } else {
        assert(best_cand(objs, bbox, 0) == (inf_cost(), 0int));
    }
}

/// The functional shape relation of a subdivision over a region: the
/// whole tree is determined.  A node over the cap with budget left
/// splits on the cheapest candidate's axis at its (possibly nudged)
/// plane; each child receives exactly the objects overlapping its side,
/// in input order; a leaf holds exactly the objects that reached it,
/// and stands below the cap unless the depth budget ran out.
pub open spec fn bsp_shape(
    n: Node,
    bbox: Bbox,
    objects: Seq<AccObj>,
    max_leaf: int,
    depth_left: int,
) -> bool
    decreases depth_left,
{
    &&& n.count == objects.len()
    &&& match n.node_type {
        NodeType::Leaf { objects: held } => {
            &&& held@ == objects
            &&& (objects.len() <= max_leaf || depth_left == 0)
        },
        NodeType::Split { split, plane, left, right } => {
            let axis = split.spec_axis_index() as int;
            let lb = cut_left(bbox, axis, plane);
            let rb = cut_right(bbox, axis, plane);
            &&& depth_left > 0
            &&& objects.len() > max_leaf
            &&& axis == chosen_axis(objects, bbox)
            &&& plane == chosen_plane(objects, bbox)
            &&& bsp_shape(*left, lb, hits(objects, lb), max_leaf, depth_left - 1)
            &&& bsp_shape(*right, rb, hits(objects, rb), max_leaf, depth_left - 1)
        },
    }
}

/// One object filters to itself exactly when it overlaps the region.
proof fn lemma_hits_singleton(x: AccObj, r: Bbox)
    ensures
        hits(seq![x], r) == if r.spec_intersects(x.bbox) {
            seq![x]
        } else {
            Seq::<AccObj>::empty()
        },
{
    reveal_with_fuel(Seq::filter, 2);
    assert(seq![x].drop_last() =~= Seq::<AccObj>::empty());
    if r.spec_intersects(x.bbox) {
        assert(hits(seq![x], r) =~= seq![x]);
    } else {
        assert(hits(seq![x], r) =~= Seq::<AccObj>::empty());
    }
}

/// Appending one object extends the overlap run by it or not at all.
proof fn lemma_hits_push(s: Seq<AccObj>, x: AccObj, r: Bbox)
    ensures
        hits(s.push(x), r) == if r.spec_intersects(x.bbox) {
            hits(s, r).push(x)
        } else {
            hits(s, r)
        },
{
    assert(s.push(x) =~= s + seq![x]);
    Seq::<AccObj>::filter_distributes_over_add(
        s,
        seq![x],
        |o: AccObj| r.spec_intersects(o.bbox),
    );
    lemma_hits_singleton(x, r);
    if r.spec_intersects(x.bbox) {
        assert(hits(s, r) + seq![x] =~= hits(s, r).push(x));
    } else {
        assert(hits(s, r) + Seq::<AccObj>::empty() =~= hits(s, r));
    }
}

/// Whether two subdivisions agree node for node: same counts, same
/// splits and planes, and leaves holding the same objects.
pub open spec fn same_tree(a: Node, b: Node) -> bool
    decreases a,
{
    &&& a.count == b.count
    &&& match (a.node_type, b.node_type) {
        (NodeType::Leaf { objects: ha }, NodeType::Leaf { objects: hb }) => ha@ == hb@,
        (
            NodeType::Split { split: sa, plane: pa, left: la, right: ra },
            NodeType::Split { split: sb, plane: pb, left: lb, right: rb },
        ) => {
            &&& sa == sb
            &&& pa == pb
            &&& same_tree(*la, *lb)
            &&& same_tree(*ra, *rb)
        },
        _ => false,
    }
}

/// The subdivision is a function of its region, objects, cap and depth
/// budget alone: any two trees satisfying the shape relation agree node
/// for node.
pub proof fn law_bsp_shape_unique(
    a: Node,
    b: Node,
    bbox: Bbox,
    objects: Seq<AccObj>,
    max_leaf: int,
    depth_left: int,
)
    requires
        bsp_shape(a, bbox, objects, max_leaf, depth_left),
        bsp_shape(b, bbox, objects, max_leaf, depth_left),
    ensures
        same_tree(a, b),
    decreases depth_left,
{
    match (a.node_type, b.node_type) {
        (NodeType::Leaf { objects: ha }, NodeType::Leaf { objects: hb }) => {},
        (
            NodeType::Split { split: sa, plane: pa, left: la, right: ra },
            NodeType::Split { split: sb, plane: pb, left: lb, right: rb },
        ) => {
            assert(sa.spec_axis_index() as int == chosen_axis(objects, bbox));
            assert(sb.spec_axis_index() as int == chosen_axis(objects, bbox));
            assert(sa == sb) by {
                if sa.spec_axis_index() == sb.spec_axis_index() {
                    match (sa, sb) {
                        (Split::AxisX, Split::AxisX) => {},
                        (Split::AxisY, Split::AxisY) => {},
                        (Split::AxisZ, Split::AxisZ) => {},
                        _ => {
                            assert(false);
                        },
                    }
                }
            }
            let axis = sa.spec_axis_index() as int;
            let lb2 = cut_left(bbox, axis, pa);
            let rb2 = cut_right(bbox, axis, pa);
            law_bsp_shape_unique(
                *la,
                *lb,
                lb2,
                hits(objects, lb2),
                max_leaf,
                depth_left - 1,
            );
            law_bsp_shape_unique(
                *ra,
                *rb,
                rb2,
                hits(objects, rb2),
                max_leaf,
                depth_left - 1,
            );
        },
        _ => {
            assert(false);
        },
    }
}

/// Floor division by four, for the quarter-point candidate planes.
fn div4_floor(a: i64) -> (r: i64)
    requires
        -0x4000_0000_0000 <= a <= 0x4000_0000_0000,
    ensures
        r == a as int / 4,
{
    if a >= 0 {
        ((a as u64) / 4) as i64
    } else {
        let b = (-a) as u64;
        let q = ((b + 3) / 4) as i64;
        proof {
            vstd::arithmetic::div_mod::lemma_fundamental_div_mod((b + 3) as int, 4);
            vstd::arithmetic::div_mod::lemma_fundamental_div_mod_converse(
                a as int,
                4,
                -(q as int),
                a - 4 * (-(q as int)),
            );
        }
        -q
    }
}

/// An object overlapping a region overlaps at least one side of any
/// axis-aligned cut of it.
proof fn lemma_cut_covers(region: Bbox, lb: Bbox, rb: Bbox, ob: Bbox, axis: int, c: i64)
    requires
        0 <= axis < 3,
        ob.valid(),
        region.spec_intersects(ob),
        lb == (Bbox { min: region.min, max: region.max.spec_with_axis(axis, c) }),
        rb == (Bbox { min: region.min.spec_with_axis(axis, c), max: region.max }),
    ensures
        lb.spec_intersects(ob) || rb.spec_intersects(ob),
{
}

/// Choose the splitting plane for a region: run the nine-candidate cost
/// search and nudge the winner's plane if one side would receive
/// nothing.
#[verifier::loop_isolation(false)]
#[verifier::rlimit(100)]
fn choose_split_plane(bbox: Bbox, objects: &Vec<AccObj>) -> (r: (u32, i64))
    requires
        1 <= objects@.len() <= MAX_BSP_OBJECTS,
        bbox.in_range(EMPTY_CORNER),
        forall|i: int|
            0 <= i < objects@.len() ==> (#[trigger] objects@[i]).bbox.valid() && bbox.spec_intersects(
                objects@[i].bbox,
            ),
    ensures
        r.0 < 3,
        r.0 as int == chosen_axis(objects@, bbox),
        r.1 == chosen_plane(objects@, bbox),
        -EMPTY_CORNER <= r.1 <= EMPTY_CORNER,
{
        proof {
            assert(objects@[0].bbox.valid() && bbox.spec_intersects(objects@[0].bbox));
        }
        // Coarse one-dimensional cost search: three axes, three interior
        // candidate planes per axis at the quarter points, cheapest first
        // in search order.
        let mut axis_leaf: u32 = 0;
        let mut plane: i64 = 0;
        let mut left_node_count: usize = 0;
        let mut right_node_count: usize = 0;
        let mut min_cost: i128 = i128::MAX;
        let mut i: u32 = 0;
        while i < 3
            invariant
                0 <= i <= 3,
                axis_leaf < 3,
                -EMPTY_CORNER <= plane <= EMPTY_CORNER,
                left_node_count <= objects@.len(),
                right_node_count <= objects@.len(),
                search_state(
                    objects@,
                    bbox,
                    3 * (i as int),
                    min_cost,
                    axis_leaf,
                    plane,
                    left_node_count as int,
                    right_node_count as int,
                ),
            decreases 3 - i,
        {
            let mut k: u32 = 1;
            while k < 4
                invariant
                    1 <= k <= 4,
                    i < 3,
                    axis_leaf < 3,
                    -EMPTY_CORNER <= plane <= EMPTY_CORNER,
                    left_node_count <= objects@.len(),
                    right_node_count <= objects@.len(),
                    search_state(
                        objects@,
                        bbox,
                        3 * (i as int) + (k - 1),
                        min_cost,
                        axis_leaf,
                        plane,
                        left_node_count as int,
                        right_node_count as int,
                    ),
                decreases 4 - k,
            {
                let ghost m = 3 * (i as int) + (k - 1);
                let max_corner = bbox.max.axis(i);
                let min_corner = bbox.min.axis(i);
                let d_axis = max_corner - min_corner;
                proof {
                    assert(-(2 * EMPTY_CORNER) * 3 <= d_axis * (k as i64) <= (2 * EMPTY_CORNER)
                        * 3) by (nonlinear_arith)
                        requires
                            -(2 * EMPTY_CORNER) <= d_axis <= 2 * EMPTY_CORNER,
                            1 <= k <= 3,
                    ;
                    lemma_quarter_bounds(d_axis as int, k as int);
                    vstd::arithmetic::div_mod::lemma_fundamental_div_mod_converse(
                        m,
                        3,
                        i as int,
                        k - 1,
                    );
                    assert(m / 3 == i as int && m % 3 == k - 1);
                }
                let center = min_corner + div4_floor(d_axis * (k as i64));
                let left_bbox = Bbox { min: bbox.min, max: bbox.max.with_axis(i, center) };
                let right_bbox = Bbox { min: bbox.min.with_axis(i, center), max: bbox.max };
                proof {
                    assert(left_bbox.in_range(0x1000_0000_0000));
                    assert(right_bbox.in_range(0x1000_0000_0000));
                    assert(center == cand_plane(bbox, m));
                    assert(left_bbox == cut_left(bbox, m / 3, cand_plane(bbox, m)));
                    assert(right_bbox == cut_right(bbox, m / 3, cand_plane(bbox, m)));
                }
                let mut left_count: usize = 0;
                let mut right_count: usize = 0;
                let mut j: usize = 0;
                while j < objects.len()
                    invariant
                        0 <= j <= objects@.len(),
                        left_count <= j,
                        right_count <= j,
                        left_count == hits(objects@.take(j as int), left_bbox).len(),
                        right_count == hits(objects@.take(j as int), right_bbox).len(),
                    decreases objects@.len() - j,
                {
                    proof {
                        assert(objects@.take(j + 1) =~= objects@.take(j as int).push(
                            objects@[j as int],
                        ));
                        lemma_hits_push(objects@.take(j as int), objects@[j as int], left_bbox);
                        lemma_hits_push(objects@.take(j as int), objects@[j as int], right_bbox);
                    }
                    if left_bbox.intersects(&objects[j].bbox) {
                        left_count += 1;
                    }
                    if right_bbox.intersects(&objects[j].bbox) {
                        right_count += 1;
                    }
                    j += 1;
                }
                proof {
                    assert(objects@.take(objects@.len() as int) =~= objects@);
                    assert(left_count == hits(objects@, left_bbox).len());
                    assert(right_count == hits(objects@, right_bbox).len());
                }
                let larea = left_bbox.area();
                let rarea = right_bbox.area();
                proof {
                    let b = 0x2000_0000_0000int;
                    assert((left_count as i128) * larea <= (b * b * 6) * 0x4000_0000 && (
                    left_count as i128) * larea >= -((b * b * 6) * 0x4000_0000))
                        by (nonlinear_arith)
                        requires
                            0 <= left_count <= 0x4000_0000,
                            -(b * b * 6) <= larea <= b * b * 6,
                    ;
                    assert((right_count as i128) * rarea <= (b * b * 6) * 0x4000_0000 && (
                    right_count as i128) * rarea >= -((b * b * 6) * 0x4000_0000))
                        by (nonlinear_arith)
                        requires
                            0 <= right_count <= 0x4000_0000,
                            -(b * b * 6) <= rarea <= b * b * 6,
                    ;
                }
                let cost = (left_count as i128) * larea + (right_count as i128) * rarea;
                proof {
                    assert(cost as int == cand_cost(objects@, bbox, m));
                    lemma_best_cand_range(objects@, bbox, m + 1);
                }
                if cost < min_cost {
                    min_cost = cost;
                    axis_leaf = i;
                    plane = center;
                    left_node_count = left_count;
                    right_node_count = right_count;
                }
                proof {
                    assert(search_state(
                        objects@,
                        bbox,
                        m + 1,
                        min_cost,
                        axis_leaf,
                        plane,
                        left_node_count as int,
                        right_node_count as int,
                    ));
                }
                k += 1;
            }
            i += 1;
        }
        let ghost best = best_cand(objects@, bbox, 9);
        proof {
            lemma_best_cand_range(objects@, bbox, 9);
            assert(axis_leaf as int == chosen_axis(objects@, bbox));
        }
        // Nudge a plane that leaves one side empty just past the
        // tightest-touching object on the populated side.
        let max_corner = bbox.max.axis(axis_leaf);
        let min_corner = bbox.min.axis(axis_leaf);
        proof {
            // The region overlaps its first object, so its corners on the
            // chosen axis reach into the valid coordinate range.
            assert(max_corner >= objects@[0].bbox.min.spec_axis(axis_leaf as int));
            assert(min_corner <= objects@[0].bbox.max.spec_axis(axis_leaf as int));
        }
        let size = max_corner - min_corner;
        let diff = if size >= 8 {
            ((size as u64) / 8) as i64
        } else {
            1
        };
        proof {
            assert(1 <= diff <= 0x4000_0000_0000);
            assert(diff as int == nudge_diff(size as int));
        }
        let mut center = plane;
        if left_node_count == 0 {
            center = max_corner;
            let mut j: usize = 0;
            while j < objects.len()
                invariant
                    0 <= j <= objects@.len(),
                    -0x4000_0000 <= center <= EMPTY_CORNER,
                    center == tightest_min(
                        objects@.take(j as int),
                        axis_leaf as int,
                        max_corner,
                    ),
                    forall|q: int|
                        0 <= q < j ==> center <= (#[trigger] objects@[q]).bbox.min.spec_axis(
                            axis_leaf as int,
                        ),
                decreases objects@.len() - j,
            {
                proof {
                    assert(objects@.take(j + 1).drop_last() =~= objects@.take(j as int));
                    assert(objects@.take(j + 1).last() == objects@[j as int]);
                }
                let obj_min_corner = objects[j].bbox.min.axis(axis_leaf);
                if obj_min_corner < center {
                    center = obj_min_corner;
                }
                j += 1;
            }
            proof {
                assert(objects@.take(objects@.len() as int) =~= objects@);
                assert(center == tightest_min(objects@, axis_leaf as int, max_corner));
                assert(center <= objects@[0].bbox.min.spec_axis(axis_leaf as int));
            }
            center = center - diff;
        }
        if right_node_count == 0 {
            center = min_corner;
            let mut j: usize = 0;
            while j < objects.len()
                invariant
                    0 <= j <= objects@.len(),
                    -EMPTY_CORNER <= center <= 0x4000_0000,
                    center == tightest_max(
                        objects@.take(j as int),
                        axis_leaf as int,
                        min_corner,
                    ),
                    forall|q: int|
                        0 <= q < j ==> center >= (#[trigger] objects@[q]).bbox.max.spec_axis(
                            axis_leaf as int,
                        ),
                decreases objects@.len() - j,
            {
                proof {
                    assert(objects@.take(j + 1).drop_last() =~= objects@.take(j as int));
                    assert(objects@.take(j + 1).last() == objects@[j as int]);
                }
                let obj_max_corner = objects[j].bbox.max.axis(axis_leaf);
                if obj_max_corner > center {
                    center = obj_max_corner;
                }
                j += 1;
            }
            proof {
                assert(objects@.take(objects@.len() as int) =~= objects@);
                assert(center == tightest_max(objects@, axis_leaf as int, min_corner));
                assert(center >= objects@[0].bbox.max.spec_axis(axis_leaf as int));
            }
            center = center + diff;
        }
        let plane = center;
        proof {
            assert(-EMPTY_CORNER <= plane <= EMPTY_CORNER);
            assert(plane == chosen_plane(objects@, bbox));
        }
        (axis_leaf, plane)
}

/// Build a subtree of the space partition over the given region.
///
/// The cheapest of nine candidate planes splits the region; a side that
/// would receive nothing instead gets the plane nudged just past the
/// tightest object, so no split strands everything on one side forever.
#[verifier::loop_isolation(false)]
#[verifier::rlimit(100)]
fn subdivide_node(
    bbox: Bbox,
    depth: u32,
    max_depth: u32,
    max_objects_on_leaf: u32,
    objects: &Vec<AccObj>,
) -> (r: Node)
    requires
        objects@.len() <= MAX_BSP_OBJECTS,
        depth <= max_depth <= 30,
        max_objects_on_leaf >= 1,
        bbox.in_range(EMPTY_CORNER),
        forall|i: int|
            0 <= i < objects@.len() ==> (#[trigger] objects@[i]).bbox.valid() && bbox.spec_intersects(
                objects@[i].bbox,
            ),
    ensures
        node_wf(r, objects@.len() as int, max_objects_on_leaf as int, max_depth - depth),
        bsp_shape(r, bbox, objects@, max_objects_on_leaf as int, max_depth - depth),
        leaf_ids(r).to_set() == ids_set(objects@),
        r.count == objects@.len(),
    decreases max_depth - depth,
{
    if objects.len() <= max_objects_on_leaf as usize || depth == max_depth {
        let mut held: Vec<AccObj> = Vec::new();
        let mut i: usize = 0;
        while i < objects.len()
            invariant
                0 <= i <= objects@.len(),
                held@ == objects@.take(i as int),
            decreases objects@.len() - i,
        {
            held.push(objects[i]);
            proof {
                assert(held@ =~= objects@.take(i + 1));
            }
            i += 1;
        }
        proof {
            assert(held@ =~= objects@);
        }
        Node { count: objects.len(), node_type: NodeType::Leaf { objects: held } }
    } else {
        let (axis_leaf, plane) = choose_split_plane(bbox, objects);
        let left_bbox = Bbox { min: bbox.min, max: bbox.max.with_axis(axis_leaf, plane) };
        let right_bbox = Bbox { min: bbox.min.with_axis(axis_leaf, plane), max: bbox.max };
        // Partition: an object goes to every side it overlaps.
        let mut left_objects: Vec<AccObj> = Vec::new();
        let mut right_objects: Vec<AccObj> = Vec::new();
        let mut j: usize = 0;
        while j < objects.len()
            invariant
                0 <= j <= objects@.len(),
                left_objects@.len() <= j,
                right_objects@.len() <= j,
                forall|q: int|
                    0 <= q < left_objects@.len() ==> (#[trigger] left_objects@[q]).bbox.valid()
                        && left_bbox.spec_intersects(left_objects@[q].bbox) && objects@.contains(
                        left_objects@[q],
                    ),
                forall|q: int|
                    0 <= q < right_objects@.len() ==> (#[trigger] right_objects@[q]).bbox.valid()
                        && right_bbox.spec_intersects(right_objects@[q].bbox)
                        && objects@.contains(right_objects@[q]),
                forall|q: int|
                    0 <= q < j ==> (left_objects@.contains(#[trigger] objects@[q])
                        || right_objects@.contains(objects@[q])),
                left_objects@ == hits(objects@.take(j as int), left_bbox),
                right_objects@ == hits(objects@.take(j as int), right_bbox),
            decreases objects@.len() - j,
        {
            let ob = objects[j];
            let ghost lo0 = left_objects@;
            let ghost ro0 = right_objects@;
            proof {
                assert(objects@.take(j + 1) =~= objects@.take(j as int).push(ob));
                lemma_hits_push(objects@.take(j as int), ob, left_bbox);
                lemma_hits_push(objects@.take(j as int), ob, right_bbox);
            }
            let hit_left = left_bbox.intersects(&ob.bbox);
            let hit_right = right_bbox.intersects(&ob.bbox);
            if hit_left {
                left_objects.push(ob);
            }
            if hit_right {
                right_objects.push(ob);
            }
            proof {
                lemma_cut_covers(bbox, left_bbox, right_bbox, ob.bbox, axis_leaf as int, plane);
                assert(hit_left || hit_right);
                assert forall|q: int|
                    0 <= q < j + 1 implies (left_objects@.contains(#[trigger] objects@[q])
                    || right_objects@.contains(objects@[q])) by {
                    if q == j {
                        if hit_left {
                            assert(left_objects@.last() == ob);
                            assert(left_objects@.contains(ob));
                        } else {
                            assert(right_objects@.last() == ob);
                            assert(right_objects@.contains(ob));
                        }
                    } else {
                        if lo0.contains(objects@[q]) {
                            lemma_push_keeps_contains(lo0, left_objects@, ob, objects@[q]);
                        } else {
                            lemma_push_keeps_contains(ro0, right_objects@, ob, objects@[q]);
                        }
                    }
                }
            }
            j += 1;
        }
        let left_child = subdivide_node(
            left_bbox,
            depth + 1,
            max_depth,
            max_objects_on_leaf,
            &left_objects,
        );
        let right_child = subdivide_node(
            right_bbox,
            depth + 1,
            max_depth,
            max_objects_on_leaf,
            &right_objects,
        );
        let node = Node {
            count: objects.len(),
            node_type: NodeType::Split {
                split: Split::from_axis(axis_leaf),
                plane,
                left: Box::new(left_child),
                right: Box::new(right_child),
            },
        };
        proof {
            assert(objects@.take(objects@.len() as int) =~= objects@);
            assert(left_objects@ == hits(objects@, left_bbox));
            assert(right_objects@ == hits(objects@, right_bbox));
            lemma_node_wf_cap_mono(
                left_child,
                left_objects@.len() as int,
                objects@.len() as int,
                max_objects_on_leaf as int,
                max_depth - depth - 1,
            );
            lemma_node_wf_cap_mono(
                right_child,
                right_objects@.len() as int,
                objects@.len() as int,
                max_objects_on_leaf as int,
                max_depth - depth - 1,
            );
            assert(cut_left(bbox, axis_leaf as int, plane) == left_bbox);
            assert(cut_right(bbox, axis_leaf as int, plane) == right_bbox);
            assert(Split::spec_from_axis(axis_leaf as int).spec_axis_index() == axis_leaf);
            assert(bsp_shape(
                node,
                bbox,
                objects@,
                max_objects_on_leaf as int,
                max_depth - depth,
            ));
            lemma_ids_set_concat(leaf_ids(left_child), leaf_ids(right_child));
            assert(leaf_ids(node) == leaf_ids(left_child) + leaf_ids(right_child));
            assert(leaf_ids(node).to_set() =~= ids_set(objects@)) by {
                assert forall|x: u32| leaf_ids(node).to_set().contains(x) implies ids_set(
                    objects@,
                ).contains(x) by {
                    lemma_member_of_set(leaf_ids(left_child).to_set(), leaf_ids(left_child), x);
                    lemma_member_of_set(
                        leaf_ids(right_child).to_set(),
                        leaf_ids(right_child),
                        x,
                    );
                    if leaf_ids(left_child).to_set().contains(x) {
                        lemma_ids_from_objects(left_objects@, objects@, x);
                    } else {
                        lemma_ids_from_objects(right_objects@, objects@, x);
                    }
                }
                assert forall|x: u32| ids_set(objects@).contains(x) implies leaf_ids(
                    node,
                ).to_set().contains(x) by {
                    assert(objects@.map_values(|o: AccObj| o.idx).contains(x));
                    let q = objects@.map_values(|o: AccObj| o.idx).lemma_contains_to_index(x);
                    assert(objects@[q].idx == x);
                    assert(left_objects@.contains(objects@[q]) || right_objects@.contains(
                        objects@[q],
                    ));
                    if left_objects@.contains(objects@[q]) {
                        lemma_id_in_set(left_objects@, objects@[q]);
                        assert(ids_set(left_objects@).contains(x));
                    } else {
                        lemma_id_in_set(right_objects@, objects@[q]);
                        assert(ids_set(right_objects@).contains(x));
                    }
                }
            }
        }
        node
    }
}

/// Well-formedness is monotone in the count cap.
proof fn lemma_node_wf_cap_mono(n: Node, cap1: int, cap2: int, max_leaf: int, depth_left: int)
    requires
        node_wf(n, cap1, max_leaf, depth_left),
        cap1 <= cap2,
    ensures
        node_wf(n, cap2, max_leaf, depth_left),
    decreases n,
{
    match n.node_type {
        NodeType::Leaf { .. } => {},
        NodeType::Split { split, plane, left, right } => {
            lemma_node_wf_cap_mono(*left, cap1, cap2, max_leaf, depth_left - 1);
            lemma_node_wf_cap_mono(*right, cap1, cap2, max_leaf, depth_left - 1);
        },
    }
}

/// The quarter-point offsets stay between zero and the axis extent.
proof fn lemma_quarter_bounds(d: int, k: int)
    requires
        1 <= k <= 3,
    ensures
        d >= 0 ==> 0 <= (d * k) / 4 <= d,
        d < 0 ==> d <= (d * k) / 4 <= 0,
{
    if d >= 0 {
        assert(0 <= d * k <= 4 * d) by (nonlinear_arith)
            requires
                1 <= k <= 3,
                d >= 0,
        ;
        vstd::arithmetic::div_mod::lemma_div_is_ordered(0, d * k, 4);
        vstd::arithmetic::div_mod::lemma_div_is_ordered(d * k, 4 * d, 4);
        vstd::arithmetic::div_mod::lemma_fundamental_div_mod_converse(4 * d, 4, d, 0);
    } else {
        assert(4 * d <= d * k <= 0) by (nonlinear_arith)
            requires
                1 <= k <= 3,
                d < 0,
        ;
        vstd::arithmetic::div_mod::lemma_div_is_ordered(4 * d, d * k, 4);
        vstd::arithmetic::div_mod::lemma_div_is_ordered(d * k, 0, 4);
        vstd::arithmetic::div_mod::lemma_fundamental_div_mod_converse(4 * d, 4, d, 0);
    }
}

/// A pushed run keeps containing what it contained.
proof fn lemma_push_keeps_contains(before: Seq<AccObj>, after: Seq<AccObj>, x: AccObj, y: AccObj)
    requires
        before.contains(y),
        after == before || after == before.push(x),
    ensures
        after.contains(y),
{
    let i = before.lemma_contains_to_index(y);
    assert(after[i] == y);
}

/// Membership in a sequence-turned-set comes from an index.
proof fn lemma_member_of_set(s: Set<u32>, ids: Seq<u32>, x: u32)
    requires
        s == ids.to_set(),
    ensures
        s.contains(x) ==> ids.contains(x),
{
}

/// An object's index is in its run's index set.
proof fn lemma_id_in_set(objs: Seq<AccObj>, o: AccObj)
    requires
        objs.contains(o),
    ensures
        ids_set(objs).contains(o.idx),
{
    let q = choose|q: int| 0 <= q < objs.len() && objs[q] == o;
    assert(objs.map_values(|ob: AccObj| ob.idx)[q] == o.idx);
    assert(objs.map_values(|ob: AccObj| ob.idx).contains(o.idx));
}

/// Indices of a sub-run drawn from a run are indices of the run.
proof fn lemma_ids_from_objects(sub: Seq<AccObj>, all: Seq<AccObj>, x: u32)
    requires
        forall|q: int| 0 <= q < sub.len() ==> all.contains(#[trigger] sub[q]),
        ids_set(sub).contains(x),
    ensures
        ids_set(all).contains(x),
{
    assert(sub.map_values(|o: AccObj| o.idx).contains(x));
    let q = sub.map_values(|o: AccObj| o.idx).lemma_contains_to_index(x);
    assert(sub[q].idx == x);
    assert(all.contains(sub[q]));
    lemma_id_in_set(all, sub[q]);
}

/// The index set of concatenated runs is the union of their sets.
proof fn lemma_ids_set_concat(a: Seq<u32>, b: Seq<u32>)
    ensures
        (a + b).to_set() == a.to_set().union(b.to_set()),
{
    assert((a + b).to_set() =~= a.to_set().union(b.to_set())) by {
        assert forall|x: u32| (a + b).to_set().contains(x) implies a.to_set().union(
            b.to_set(),
        ).contains(x) by {
            let q = choose|q: int| 0 <= q < (a + b).len() && (a + b)[q] == x;
            if q < a.len() {
                assert(a[q] == x);
            } else {
                assert(b[q - a.len()] == x);
            }
        }
        assert forall|x: u32| a.to_set().union(b.to_set()).contains(x) implies (a
            + b).to_set().contains(x) by {
            if a.to_set().contains(x) {
                let q = choose|q: int| 0 <= q < a.len() && a[q] == x;
                assert((a + b)[q] == x);
            } else {
                let q = choose|q: int| 0 <= q < b.len() && b[q] == x;
                assert((a + b)[a.len() + q] == x);
            }
        }
    }
}

/// Structural sizing of a subtree: counts within the cap, matching each
/// leaf's held objects, and split depth within the budget.  What the
/// flattener relies on.
pub open spec fn node_sized(n: Node, cap: int, depth_left: int) -> bool
    decreases n,
{
    &&& n.count <= cap
    &&& match n.node_type {
        NodeType::Leaf { objects } => n.count == objects.len(),
        NodeType::Split { split, plane, left, right } => {
            &&& depth_left > 0
            &&& node_sized(*left, cap, depth_left - 1)
            &&& node_sized(*right, cap, depth_left - 1)
        },
    }
}

/// Full well-formedness implies sizing.
pub proof fn lemma_node_wf_sized(n: Node, cap: int, max_leaf: int, depth_left: int)
    requires
        node_wf(n, cap, max_leaf, depth_left),
    ensures
        node_sized(n, cap, depth_left),
    decreases n,
{
    match n.node_type {
        NodeType::Leaf { .. } => {},
        NodeType::Split { split, plane, left, right } => {
            lemma_node_wf_sized(*left, cap, max_leaf, depth_left - 1);
            lemma_node_wf_sized(*right, cap, max_leaf, depth_left - 1);
        },
    }
}

/// The union of a run of boxes contains each of them.
proof fn lemma_boxes_union_contains(s: Seq<AccObj>)
    ensures
        forall|i: int|
            0 <= i < s.len() ==> crate::hlbvh::boxes_union(s).contains_box(
                (#[trigger] s[i]).bbox,
            ),
    decreases s.len(),
{
    if s.len() > 0 {
        lemma_boxes_union_contains(s.drop_last());
        assert forall|i: int|
            0 <= i < s.len() implies crate::hlbvh::boxes_union(s).contains_box(
            (#[trigger] s[i]).bbox,
        ) by {
            if i < s.len() - 1 {
                assert(s.drop_last()[i] == s[i]);
                assert(crate::hlbvh::boxes_union(s.drop_last()).contains_box(s[i].bbox));
            }
        }
    }
}

/// The union of valid boxes stays within the sentinel range.
proof fn lemma_boxes_union_in_range(s: Seq<AccObj>)
    requires
        forall|i: int| 0 <= i < s.len() ==> (#[trigger] s[i]).bbox.valid(),
    ensures
        crate::hlbvh::boxes_union(s).in_range(EMPTY_CORNER),
    decreases s.len(),
{
    if s.len() > 0 {
        lemma_boxes_union_in_range(s.drop_last());
    }
}

/// The binary space partitioning tree: the subdivision, its depth limit,
/// and the bound over all input objects.
#[derive(Debug)]
pub struct BspTree {
    root: Node,
    max_depth: u32,
    bbox: Bbox,
}

impl BspTree {
    /// The subdivision.
    pub closed spec fn spec_root(self) -> Node {
        self.root
    }

    /// The depth limit the tree was built with.
    pub closed spec fn spec_max_depth(self) -> u32 {
        self.max_depth
    }

    /// The bound over all input objects.
    pub closed spec fn spec_bbox(self) -> Bbox {
        self.bbox
    }

    /// The structural invariant every finished build meets.
    pub open spec fn wf(self) -> bool {
        &&& 1 <= self.spec_max_depth() <= 30
        &&& self.spec_root().count <= MAX_BSP_OBJECTS
        &&& node_sized(
            self.spec_root(),
            self.spec_root().count as int,
            self.spec_max_depth() as int,
        )
    }

    /// Build the space partition over the given objects.
    ///
    /// An empty input yields a single empty leaf.  The depth limit keeps
    /// the flat array addressable: its slots carry 32-bit child indices.
    pub fn new(objects: Vec<AccObj>, max_depth: u32, max_objects_on_leaf: u32) -> (res: Self)
        requires
            objects@.len() <= MAX_BSP_OBJECTS,
            1 <= max_depth <= 30,
            max_objects_on_leaf >= 1,
            forall|i: int| 0 <= i < objects@.len() ==> (#[trigger] objects@[i]).bbox.valid(),
        ensures
            res.wf(),
            node_wf(
                res.spec_root(),
                objects@.len() as int,
                max_objects_on_leaf as int,
                max_depth as int,
            ),
            bsp_shape(
                res.spec_root(),
                crate::hlbvh::boxes_union(objects@),
                objects@,
                max_objects_on_leaf as int,
                max_depth as int,
            ),
            leaf_ids(res.spec_root()).to_set() == ids_set(objects@),
            res.spec_root().count == objects@.len(),
            res.spec_max_depth() == max_depth,
            res.spec_bbox() == crate::hlbvh::boxes_union(objects@),
    {
        let mut bbox = Bbox::new();
        let mut i: usize = 0;
        while i < objects.len()
            invariant
                0 <= i <= objects@.len(),
                objects@.len() <= MAX_BSP_OBJECTS,
                bbox == crate::hlbvh::boxes_union(objects@.take(i as int)),
                forall|q: int| 0 <= q < objects@.len() ==> (#[trigger] objects@[q]).bbox.valid(),
            decreases objects@.len() - i,
        {
            bbox.include_bbox(&objects[i].bbox);
            proof {
                assert(objects@.take(i + 1).drop_last() =~= objects@.take(i as int));
                assert(objects@.take(i + 1).last() == objects@[i as int]);
            }
            i += 1;
        }
        proof {
            assert(objects@.take(objects@.len() as int) =~= objects@);
            lemma_boxes_union_in_range(objects@);
            lemma_boxes_union_contains(objects@);
            assert forall|q: int|
                0 <= q < objects@.len() implies bbox.spec_intersects(
                (#[trigger] objects@[q]).bbox,
            ) by {
                assert(bbox.contains_box(objects@[q].bbox));
            }
        }
        let root = subdivide_node(bbox, 0, max_depth, max_objects_on_leaf, &objects);
        proof {
            lemma_node_wf_sized(
                root,
                objects@.len() as int,
                max_objects_on_leaf as int,
                max_depth as int,
            );
        }
        BspTree { root, max_depth, bbox }
    }

    /// The number of objects the root received.
    pub fn count(&self) -> (r: usize)
        ensures
            r == self.spec_root().count,
    {
        self.root.count
    }

    /// The primitive indices of all leaves, gathered left to right: the
    /// array that the flat tree's leaf records point into.
    pub fn primitive_ids(&self) -> (r: Vec<u32>)
        ensures
            r@ == leaf_ids(self.spec_root()),
    {
        let mut ids: Vec<u32> = Vec::new();
        primitive_ids_recursive(&self.root, &mut ids);
        ids
    }
}

/// The flat-array slot of the node at `(depth, branch)`.
pub open spec fn slot_index(depth: int, branch: int) -> int {
    pow2(depth as nat) + branch - 1
}

/// Whether `(depth, branch)` addresses a node of a tree of the given
/// depth limit.
pub open spec fn valid_slot(depth: int, branch: int, max_depth: int) -> bool {
    0 <= depth <= max_depth && 0 <= branch < pow2(depth as nat)
}

/// Whether `(d2, b2)` lies in the implicit subtree rooted at `(d, b)`.
pub open spec fn in_subtree(d: int, b: int, d2: int, b2: int) -> bool {
    d <= d2 && pow2((d2 - d) as nat) * b <= b2 < pow2((d2 - d) as nat) * (b + 1)
}

/// Whether flat index `i` is some slot of the subtree rooted at `(d, b)`.
pub open spec fn idx_in_subtree(i: int, d: int, b: int, max_depth: int) -> bool {
    exists|d2: int, b2: int|
        valid_slot(d2, b2, max_depth) && in_subtree(d, b, d2, b2) && i == slot_index(d2, b2)
}

/// The leaves of the subtree at `(d, b)`, left to right: address and held
/// primitive indices.
pub open spec fn leaf_slots(n: Node, d: int, b: int) -> Seq<(int, int, Seq<u32>)>
    decreases n,
{
    match n.node_type {
        NodeType::Leaf { objects } => seq![(d, b, objects@.map_values(|o: AccObj| o.idx))],
        NodeType::Split { split, plane, left, right } => leaf_slots(*left, d + 1, 2 * b)
            + leaf_slots(*right, d + 1, 2 * b + 1),
    }
}

/// The split nodes of the subtree at `(d, b)`: address, axis, plane and
/// count.
pub open spec fn split_slots(n: Node, d: int, b: int) -> Seq<(int, int, u32, i64, int)>
    decreases n,
{
    match n.node_type {
        NodeType::Leaf { .. } => Seq::empty(),
        NodeType::Split { split, plane, left, right } => Seq::empty().push(
            (d, b, split.spec_axis_index(), plane, n.count as int),
        ) + split_slots(*left, d + 1, 2 * b) + split_slots(*right, d + 1, 2 * b + 1),
    }
}

/// The ids of the leaves from position `k` on, concatenated.
pub open spec fn concat_ids_from(ls: Seq<(int, int, Seq<u32>)>, k: int) -> Seq<u32>
    decreases ls.len() - k,
{
    if k < 0 || k >= ls.len() {
        Seq::empty()
    } else {
        ls[k].2 + concat_ids_from(ls, k + 1)
    }
}

/// The id cursor of leaf `k`: the ids held by the leaves before it.
pub open spec fn cursor_of(start: int, ls: Seq<(int, int, Seq<u32>)>, k: int) -> int
    decreases k,
{
    if k <= 0 {
        start
    } else {
        cursor_of(start, ls, k - 1) + ls[k - 1].2.len()
    }
}

/// A subtree's leaf ids are the concatenation of its leaves' ids.
pub proof fn lemma_leaf_slots_ids(n: Node, d: int, b: int)
    ensures
        concat_ids_from(leaf_slots(n, d, b), 0) == leaf_ids(n),
    decreases n,
{
    match n.node_type {
        NodeType::Leaf { objects } => {
            let ls = leaf_slots(n, d, b);
            assert(ls.len() == 1);
            assert(concat_ids_from(ls, 1) =~= Seq::<u32>::empty());
            assert(concat_ids_from(ls, 0) =~= ls[0].2);
        },
        NodeType::Split { split, plane, left, right } => {
            lemma_leaf_slots_ids(*left, d + 1, 2 * b);
            lemma_leaf_slots_ids(*right, d + 1, 2 * b + 1);
            lemma_concat_ids_split(
                leaf_slots(*left, d + 1, 2 * b),
                leaf_slots(*right, d + 1, 2 * b + 1),
            );
        },
    }
}

/// Concatenated leaf ids split at a run boundary.
proof fn lemma_concat_ids_split(a: Seq<(int, int, Seq<u32>)>, b: Seq<(int, int, Seq<u32>)>)
    ensures
        concat_ids_from(a + b, 0) == concat_ids_from(a, 0) + concat_ids_from(b, 0),
    decreases a.len(),
{
    if a.len() == 0 {
        assert(a + b =~= b);
        assert(concat_ids_from(a + b, 0) =~= concat_ids_from(a, 0) + concat_ids_from(b, 0));
    } else {
        assert((a + b).drop_first() =~= a.drop_first() + b);
        lemma_concat_ids_split(a.drop_first(), b);
        assert(concat_ids_from(a + b, 1) == concat_ids_from((a + b).drop_first(), 0)) by {
            lemma_concat_ids_shift(a + b, 1);
        }
        assert(concat_ids_from(a, 1) == concat_ids_from(a.drop_first(), 0)) by {
            lemma_concat_ids_shift(a, 1);
        }
        assert(concat_ids_from(a + b, 0) =~= concat_ids_from(a, 0) + concat_ids_from(b, 0));
    }
}

/// Dropping the first leaf shifts the concatenation by one.
proof fn lemma_concat_ids_shift(ls: Seq<(int, int, Seq<u32>)>, k: int)
    requires
        1 <= k <= ls.len(),
    ensures
        concat_ids_from(ls, k) == concat_ids_from(ls.drop_first(), k - 1),
    decreases ls.len() - k,
{
    if k < ls.len() {
        lemma_concat_ids_shift(ls, k + 1);
        assert(ls.drop_first()[k - 1] == ls[k]);
    }
}

/// A subtree's total leaf-id count is bounded by its count cap times its
/// leaf population.
pub proof fn lemma_leaf_ids_len_bound(n: Node, cap: int, depth_left: int)
    requires
        node_sized(n, cap, depth_left),
        0 <= cap,
        0 <= depth_left,
    ensures
        leaf_ids(n).len() <= cap * pow2(depth_left as nat),
    decreases n,
{
    broadcast use vstd::arithmetic::power2::lemma_pow2_pos;

    match n.node_type {
        NodeType::Leaf { objects } => {
            assert(cap * 1 <= cap * pow2(depth_left as nat)) by (nonlinear_arith)
                requires
                    cap >= 0,
                    1 <= pow2(depth_left as nat),
            ;
        },
        NodeType::Split { split, plane, left, right } => {
            lemma_leaf_ids_len_bound(*left, cap, depth_left - 1);
            lemma_leaf_ids_len_bound(*right, cap, depth_left - 1);
            vstd::arithmetic::power2::lemma_pow2_adds((depth_left - 1) as nat, 1);
            assert(cap * pow2((depth_left - 1) as nat) + cap * pow2((depth_left - 1) as nat)
                == cap * (pow2((depth_left - 1) as nat) * 2)) by (nonlinear_arith);
            assert(pow2(1) == 2) by {
                vstd::arithmetic::power2::lemma2_to64();
            }
        },
    }
}

/// A subtree contains its own root slot.
proof fn lemma_in_subtree_self(d: int, b: int)
    ensures
        in_subtree(d, b, d, b),
{
    assert(pow2(0) == 1) by {
        vstd::arithmetic::power2::lemma2_to64();
    }
    assert(pow2(((d - d) as nat)) == 1);
    assert(1 * b == b && 1 * (b + 1) == b + 1) by (nonlinear_arith);
}

/// A child's subtree lies inside its parent's.
proof fn lemma_in_subtree_child(d: int, b: int, c: int, d2: int, b2: int)
    requires
        c == 2 * b || c == 2 * b + 1,
        in_subtree(d + 1, c, d2, b2),
    ensures
        in_subtree(d, b, d2, b2),
{
    let e = (d2 - (d + 1)) as nat;
    vstd::arithmetic::power2::lemma_pow2_adds(e, 1);
    assert(pow2(1) == 2) by {
        vstd::arithmetic::power2::lemma2_to64();
    }
    assert(pow2((d2 - d) as nat) == pow2(e) * 2);
    assert(pow2(e) * (2 * b) <= b2 < pow2(e) * (2 * b + 2) ==> (pow2(e) * 2) * b <= b2 < (pow2(e)
        * 2) * (b + 1)) by (nonlinear_arith);
    assert(pow2(e) * c <= b2 < pow2(e) * (c + 1));
    assert(pow2(e) * (2 * b) <= pow2(e) * c && pow2(e) * (c + 1) <= pow2(e) * (2 * b + 2))
        by (nonlinear_arith)
        requires
            c == 2 * b || c == 2 * b + 1,
            pow2(e) >= 0,
    ;
}

/// The two child subtrees are disjoint.
proof fn lemma_siblings_disjoint(d: int, b: int, d2: int, b2: int)
    requires
        in_subtree(d + 1, 2 * b, d2, b2),
    ensures
        !in_subtree(d + 1, 2 * b + 1, d2, b2),
{
    let e = (d2 - (d + 1)) as nat;
    assert(pow2(e) * (2 * b + 1) == pow2(e) * (2 * b) + pow2(e)) by (nonlinear_arith);
    assert(b2 < pow2(e) * (2 * b + 1));
}

/// Slots of valid addresses are unique.
proof fn lemma_slot_injective(d1: int, b1: int, d2: int, b2: int, max_depth: int)
    requires
        valid_slot(d1, b1, max_depth),
        valid_slot(d2, b2, max_depth),
        slot_index(d1, b1) == slot_index(d2, b2),
    ensures
        d1 == d2 && b1 == b2,
{
    assert(pow2(1) == 2) by {
        vstd::arithmetic::power2::lemma2_to64();
    }
    if d1 < d2 {
        vstd::arithmetic::power2::lemma_pow2_adds(d1 as nat, 1);
        assert(pow2(((d1 + 1) as nat)) == 2 * pow2(d1 as nat));
        if d1 + 1 < d2 {
            vstd::arithmetic::power2::lemma_pow2_strictly_increases((d1 + 1) as nat, d2 as nat);
        }
        assert(pow2(d2 as nat) >= 2 * pow2(d1 as nat));
        assert(slot_index(d1, b1) <= 2 * pow2(d1 as nat) - 2);
        assert(slot_index(d2, b2) >= pow2(d2 as nat) - 1);
        assert(false);
    } else if d2 < d1 {
        vstd::arithmetic::power2::lemma_pow2_adds(d2 as nat, 1);
        assert(pow2(((d2 + 1) as nat)) == 2 * pow2(d2 as nat));
        if d2 + 1 < d1 {
            vstd::arithmetic::power2::lemma_pow2_strictly_increases((d2 + 1) as nat, d1 as nat);
        }
        assert(pow2(d1 as nat) >= 2 * pow2(d2 as nat));
        assert(slot_index(d2, b2) <= 2 * pow2(d2 as nat) - 2);
        assert(slot_index(d1, b1) >= pow2(d1 as nat) - 1);
        assert(false);
    }
}

/// A valid slot lies inside the flat array of its depth limit.
proof fn lemma_slot_in_array(d: int, b: int, max_depth: int)
    requires
        valid_slot(d, b, max_depth),
    ensures
        0 <= slot_index(d, b) < pow2((max_depth + 1) as nat) - 1,
{
    broadcast use vstd::arithmetic::power2::lemma_pow2_pos;

    vstd::arithmetic::power2::lemma_pow2_adds(d as nat, 1);
    assert(pow2(1) == 2) by {
        vstd::arithmetic::power2::lemma2_to64();
    }
    if d + 1 <= max_depth {
        vstd::arithmetic::power2::lemma_pow2_strictly_increases(
            (d + 1) as nat,
            (max_depth + 1) as nat,
        );
    }
}

/// Truncating a 64-bit cursor keeps its value modulo the 32-bit range.
proof fn lemma_cast_low32(x: u64)
    by (bit_vector)
    ensures
        (x as u32) as u64 == x % 0x1_0000_0000u64,
{
}

/// Cursor positions split over a concatenation of leaf runs.
proof fn lemma_cursor_concat(
    start: int,
    a: Seq<(int, int, Seq<u32>)>,
    b: Seq<(int, int, Seq<u32>)>,
    k: int,
)
    requires
        0 <= k <= a.len() + b.len(),
    ensures
        k <= a.len() ==> cursor_of(start, a + b, k) == cursor_of(start, a, k),
        k >= a.len() ==> cursor_of(start, a + b, k) == cursor_of(
            cursor_of(start, a, a.len() as int),
            b,
            k - a.len(),
        ),
    decreases k,
{
    if k > 0 {
        lemma_cursor_concat(start, a, b, k - 1);
        if k - 1 < a.len() {
            assert((a + b)[k - 1] == a[k - 1]);
        } else {
            assert((a + b)[k - 1] == b[k - 1 - a.len()]);
        }
    }
}

/// The cursor after `k` leaves accounts exactly for the ids before them.
proof fn lemma_cursor_len(start: int, ls: Seq<(int, int, Seq<u32>)>, k: int)
    requires
        0 <= k <= ls.len(),
    ensures
        cursor_of(start, ls, k) + concat_ids_from(ls, k).len() == start + concat_ids_from(
            ls,
            0,
        ).len(),
        cursor_of(start, ls, k) >= start,
    decreases k,
{
    if k > 0 {
        lemma_cursor_len(start, ls, k - 1);
    }
}

/// Every leaf and split slot of a subtree is a valid address inside it.
proof fn lemma_slots_valid(n: Node, d: int, b: int, max_depth: int, cap: int)
    requires
        node_sized(n, cap, max_depth - d),
        valid_slot(d, b, max_depth),
    ensures
        forall|k: int|
            0 <= k < leaf_slots(n, d, b).len() ==> {
                let t = #[trigger] leaf_slots(n, d, b)[k];
                valid_slot(t.0, t.1, max_depth) && in_subtree(d, b, t.0, t.1)
            },
        forall|k: int|
            0 <= k < split_slots(n, d, b).len() ==> {
                let t = #[trigger] split_slots(n, d, b)[k];
                valid_slot(t.0, t.1, max_depth) && in_subtree(d, b, t.0, t.1)
            },
    decreases n,
{
    lemma_in_subtree_self(d, b);
    match n.node_type {
        NodeType::Leaf { .. } => {},
        NodeType::Split { split, plane, left, right } => {
            assert(valid_slot(d + 1, 2 * b, max_depth) && valid_slot(d + 1, 2 * b + 1, max_depth))
                by {
                vstd::arithmetic::power2::lemma_pow2_adds(d as nat, 1);
                assert(pow2(1) == 2) by {
                    vstd::arithmetic::power2::lemma2_to64();
                }
            }
            lemma_slots_valid(*left, d + 1, 2 * b, max_depth, cap);
            lemma_slots_valid(*right, d + 1, 2 * b + 1, max_depth, cap);
            assert forall|k: int|
                0 <= k < leaf_slots(n, d, b).len() implies {
                let t = #[trigger] leaf_slots(n, d, b)[k];
                valid_slot(t.0, t.1, max_depth) && in_subtree(d, b, t.0, t.1)
            } by {
                let ll = leaf_slots(*left, d + 1, 2 * b);
                let lr = leaf_slots(*right, d + 1, 2 * b + 1);
                if k < ll.len() {
                    assert(leaf_slots(n, d, b)[k] == ll[k]);
                    lemma_in_subtree_child(d, b, 2 * b, ll[k].0, ll[k].1);
                } else {
                    assert(leaf_slots(n, d, b)[k] == lr[k - ll.len()]);
                    lemma_in_subtree_child(
                        d,
                        b,
                        2 * b + 1,
                        lr[k - ll.len()].0,
                        lr[k - ll.len()].1,
                    );
                }
            }
            assert forall|k: int|
                0 <= k < split_slots(n, d, b).len() implies {
                let t = #[trigger] split_slots(n, d, b)[k];
                valid_slot(t.0, t.1, max_depth) && in_subtree(d, b, t.0, t.1)
            } by {
                let sl = split_slots(*left, d + 1, 2 * b);
                let sr = split_slots(*right, d + 1, 2 * b + 1);
                if k == 0 {
                } else if k - 1 < sl.len() {
                    assert(split_slots(n, d, b)[k] == sl[k - 1]);
                    lemma_in_subtree_child(d, b, 2 * b, sl[k - 1].0, sl[k - 1].1);
                } else {
                    assert(split_slots(n, d, b)[k] == sr[k - 1 - sl.len()]);
                    lemma_in_subtree_child(
                        d,
                        b,
                        2 * b + 1,
                        sr[k - 1 - sl.len()].0,
                        sr[k - 1 - sl.len()].1,
                    );
                }
            }
        },
    }
}

/// An index inside a child's subtree is inside the parent's.
proof fn lemma_idx_subtree_child(i: int, d: int, b: int, c: int, max_depth: int)
    requires
        c == 2 * b || c == 2 * b + 1,
        idx_in_subtree(i, d + 1, c, max_depth),
    ensures
        idx_in_subtree(i, d, b, max_depth),
{
    let (d2, b2) = choose|d2: int, b2: int|
        valid_slot(d2, b2, max_depth) && in_subtree(d + 1, c, d2, b2) && i == slot_index(d2, b2);
    lemma_in_subtree_child(d, b, c, d2, b2);
}

/// Write the subtree at `(depth, branch)` into the flat arrays.
///
/// Every visited node's record carries its packed type and count and the
/// closed-form addresses of its children; a leaf also notes where its ids
/// will sit, advancing the running cursor, and a split stores its plane.
#[verifier::loop_isolation(false)]
#[verifier::rlimit(100)]
fn build_bsp_array_recursive(
    bsp_planes: &mut Vec<i64>,
    bsp_array: &mut Vec<Vec4u32>,
    node: &Node,
    depth: u32,
    max_depth: u32,
    branch: u32,
    node_id: &mut u64,
)
    requires
        max_depth <= 30,
        node_sized(*node, MAX_BSP_OBJECTS as int, max_depth - depth),
        valid_slot(depth as int, branch as int, max_depth as int),
        old(bsp_planes)@.len() == pow2((max_depth + 1) as nat) - 1,
        old(bsp_array)@.len() == pow2((max_depth + 1) as nat) - 1,
        *old(node_id) + leaf_ids(*node).len() <= u64::MAX,
    ensures
        final(bsp_planes)@.len() == old(bsp_planes)@.len(),
        final(bsp_array)@.len() == old(bsp_array)@.len(),
        *final(node_id) == *old(node_id) + leaf_ids(*node).len(),
        forall|i: int|
            0 <= i < old(bsp_array)@.len() && !idx_in_subtree(
                i,
                depth as int,
                branch as int,
                max_depth as int,
            ) ==> final(bsp_array)@[i] == old(bsp_array)@[i] && final(bsp_planes)@[i] == old(
                bsp_planes,
            )@[i],
        forall|k: int|
            0 <= k < leaf_slots(*node, depth as int, branch as int).len() ==> {
                let t = #[trigger] leaf_slots(*node, depth as int, branch as int)[k];
                let si = slot_index(t.0, t.1);
                &&& 0 <= si < old(bsp_array)@.len()
                &&& final(bsp_array)@[si].0 as int == 3 + 4 * t.2.len()
                &&& final(bsp_array)@[si].1 as int == cursor_of(
                    *old(node_id) as int,
                    leaf_slots(*node, depth as int, branch as int),
                    k,
                ) % 0x1_0000_0000
                &&& final(bsp_array)@[si].2 as int == pow2((t.0 + 1) as nat) + 2 * t.1 - 1
                &&& final(bsp_array)@[si].3 as int == pow2((t.0 + 1) as nat) + 2 * t.1
                &&& final(bsp_planes)@[si] == 0i64
            },
        forall|k: int|
            0 <= k < split_slots(*node, depth as int, branch as int).len() ==> {
                let t = #[trigger] split_slots(*node, depth as int, branch as int)[k];
                let si = slot_index(t.0, t.1);
                &&& 0 <= si < old(bsp_array)@.len()
                &&& final(bsp_array)@[si].0 as int == t.2 + 4 * t.4
                &&& final(bsp_array)@[si].1 == 0u32
                &&& final(bsp_array)@[si].2 as int == pow2((t.0 + 1) as nat) + 2 * t.1 - 1
                &&& final(bsp_array)@[si].3 as int == pow2((t.0 + 1) as nat) + 2 * t.1
                &&& final(bsp_planes)@[si] == t.3
            },
    decreases *node,
{
    let ghost md = max_depth as int;
    let ghost d = depth as int;
    let ghost b = branch as int;
    let ghost c0 = *node_id as int;
    proof {
        lemma_slot_in_array(d, b, md);
        lemma_in_subtree_self(d, b);
        lemma_slots_valid(*node, d, b, md, MAX_BSP_OBJECTS as int);
        vstd::bits::lemma_usize_pow2_no_overflow(depth as nat);
        vstd::bits::lemma_usize_shl_is_mul(1usize, depth as usize);
        vstd::bits::lemma_u32_pow2_no_overflow((depth + 1) as nat);
        vstd::bits::lemma_u32_shl_is_mul(1u32, (depth + 1) as u32);
        vstd::arithmetic::power2::lemma_pow2_adds(depth as nat, 1);
        vstd::arithmetic::power2::lemma2_to64();
        assert(pow2(1) == 2 && pow2(2) == 4);
        assert(pow2((d + 1) as nat) == 2 * pow2(d as nat));
        if d + 1 < 31 {
            vstd::arithmetic::power2::lemma_pow2_strictly_increases((d + 1) as nat, 31);
        }
        assert(pow2((d + 1) as nat) <= 0x8000_0000);
    }
    let idx = (1usize << (depth as usize)) + (branch as usize) - 1;
    let child_left: u32 = (1u32 << (depth + 1)) + 2 * branch - 1;
    proof {
        assert(idx == slot_index(d, b));
        assert(idx < old(bsp_array)@.len());
        assert(child_left as int == pow2((d + 1) as nat) + 2 * b - 1);
        assert(child_left as int + 1 < 0x1_0000_0000);
    }
    match &node.node_type {
        NodeType::Leaf { objects } => {
            proof {
                vstd::bits::lemma_u32_shl_is_mul(node.count as u32, 2);
            }
            let packed: u32 = NODE_TYPE_LEAF + ((node.count as u32) << 2u32);
            let id32 = #[verifier::truncate] (*node_id as u32);
            bsp_array.set(idx, Vec4::<u32>(packed, id32, child_left, child_left + 1));
            bsp_planes.set(idx, 0i64);
            *node_id = *node_id + objects.len() as u64;
            proof {
                let ls = leaf_slots(*node, d, b);
                assert(ls.len() == 1 && ls[0] == (d, b, objects@.map_values(|o: AccObj| o.idx)));
                assert(leaf_ids(*node).len() == objects@.len());
                assert(cursor_of(c0, ls, 0) == c0);
                lemma_cast_low32(*old(node_id));
                assert(id32 as int == c0 % 0x1_0000_0000);
                assert forall|i: int|
                    0 <= i < old(bsp_array)@.len() && !idx_in_subtree(i, d, b, md) implies bsp_array@[i] == old(bsp_array)@[i] && bsp_planes@[i] == old(bsp_planes)@[i] by {
                    if i == idx {
                        assert(idx_in_subtree(i, d, b, md));
                    }
                }
            }
        },
        NodeType::Split { split, plane, left, right } => {
            proof {
                vstd::bits::lemma_u32_shl_is_mul(node.count as u32, 2);
            }
            let axis = split.as_axis();
            let packed: u32 = axis + ((node.count as u32) << 2u32);
            bsp_array.set(idx, Vec4::<u32>(packed, 0, child_left, child_left + 1));
            bsp_planes.set(idx, *plane);
            let ghost arr1 = bsp_array@;
            let ghost planes1 = bsp_planes@;
            proof {
                assert(valid_slot(d + 1, 2 * b, md) && valid_slot(d + 1, 2 * b + 1, md)) by {
                    assert(pow2((d + 1) as nat) == 2 * pow2(d as nat));
                }
                assert(leaf_ids(*node) == leaf_ids(**left) + leaf_ids(**right));
            }
            build_bsp_array_recursive(
                bsp_planes,
                bsp_array,
                left,
                depth + 1,
                max_depth,
                2 * branch,
                node_id,
            );
            let ghost arr2 = bsp_array@;
            let ghost planes2 = bsp_planes@;
            let ghost c1 = *node_id as int;
            build_bsp_array_recursive(
                bsp_planes,
                bsp_array,
                right,
                depth + 1,
                max_depth,
                2 * branch + 1,
                node_id,
            );
            proof {
                let ll = leaf_slots(**left, d + 1, 2 * b);
                let lr = leaf_slots(**right, d + 1, 2 * b + 1);
                let sl = split_slots(**left, d + 1, 2 * b);
                let sr = split_slots(**right, d + 1, 2 * b + 1);
                let ls = leaf_slots(*node, d, b);
                let ss = split_slots(*node, d, b);
                lemma_slots_valid(**left, d + 1, 2 * b, md, MAX_BSP_OBJECTS as int);
                lemma_slots_valid(**right, d + 1, 2 * b + 1, md, MAX_BSP_OBJECTS as int);
                lemma_leaf_slots_ids(**left, d + 1, 2 * b);
                lemma_cursor_len(c0, ll, ll.len() as int);
                assert(c1 == cursor_of(c0, ll, ll.len() as int));
                // A slot of the left child keeps its record through the
                // right child's writes.
                assert forall|t0: int, t1: int|
                    valid_slot(t0, t1, md) && in_subtree(d + 1, 2 * b, t0, t1) implies !idx_in_subtree(
                    slot_index(t0, t1),
                    d + 1,
                    2 * b + 1,
                    md,
                ) by {
                    if idx_in_subtree(slot_index(t0, t1), d + 1, 2 * b + 1, md) {
                        let (d2, b2) = choose|d2: int, b2: int|
                            valid_slot(d2, b2, md) && in_subtree(d + 1, 2 * b + 1, d2, b2)
                                && slot_index(t0, t1) == slot_index(d2, b2);
                        lemma_slot_injective(t0, t1, d2, b2, md);
                        lemma_siblings_disjoint(d, b, t0, t1);
                    }
                }
                // The parent's own slot is in neither child subtree.
                assert(!idx_in_subtree(idx as int, d + 1, 2 * b, md)) by {
                    if idx_in_subtree(idx as int, d + 1, 2 * b, md) {
                        let (d2, b2) = choose|d2: int, b2: int|
                            valid_slot(d2, b2, md) && in_subtree(d + 1, 2 * b, d2, b2) && idx as int
                                == slot_index(d2, b2);
                        lemma_slot_injective(d, b, d2, b2, md);
                    }
                }
                assert(!idx_in_subtree(idx as int, d + 1, 2 * b + 1, md)) by {
                    if idx_in_subtree(idx as int, d + 1, 2 * b + 1, md) {
                        let (d2, b2) = choose|d2: int, b2: int|
                            valid_slot(d2, b2, md) && in_subtree(d + 1, 2 * b + 1, d2, b2)
                                && idx as int == slot_index(d2, b2);
                        lemma_slot_injective(d, b, d2, b2, md);
                    }
                }
                // Leaf records of the whole subtree.
                assert forall|k: int| 0 <= k < ls.len() implies {
                    let t = #[trigger] ls[k];
                    let si = slot_index(t.0, t.1);
                    &&& 0 <= si < old(bsp_array)@.len()
                    &&& bsp_array@[si].0 as int == 3 + 4 * t.2.len()
                    &&& bsp_array@[si].1 as int == cursor_of(c0, ls, k) % 0x1_0000_0000
                    &&& bsp_array@[si].2 as int == pow2((t.0 + 1) as nat) + 2 * t.1 - 1
                    &&& bsp_array@[si].3 as int == pow2((t.0 + 1) as nat) + 2 * t.1
                    &&& bsp_planes@[si] == 0i64
                } by {
                    lemma_cursor_concat(c0, ll, lr, k);
                    if k < ll.len() {
                        assert(ls[k] == ll[k]);
                        let t = ll[k];
                        let si = slot_index(t.0, t.1);
                        assert(arr2[si].0 as int == 3 + 4 * t.2.len());
                        assert(!idx_in_subtree(si, d + 1, 2 * b + 1, md));
                        assert(bsp_array@[si] == arr2[si]);
                        assert(bsp_planes@[si] == planes2[si]);
                    } else {
                        assert(ls[k] == lr[k - ll.len()]);
                    }
                }
                // Split records of the whole subtree.
                assert forall|k: int| 0 <= k < ss.len() implies {
                    let t = #[trigger] ss[k];
                    let si = slot_index(t.0, t.1);
                    &&& 0 <= si < old(bsp_array)@.len()
                    &&& bsp_array@[si].0 as int == t.2 + 4 * t.4
                    &&& bsp_array@[si].1 == 0u32
                    &&& bsp_array@[si].2 as int == pow2((t.0 + 1) as nat) + 2 * t.1 - 1
                    &&& bsp_array@[si].3 as int == pow2((t.0 + 1) as nat) + 2 * t.1
                    &&& bsp_planes@[si] == t.3
                } by {
                    if k == 0 {
                        assert(ss[0] == (d, b, split.spec_axis_index(), *plane, node.count as int));
                        assert(!idx_in_subtree(idx as int, d + 1, 2 * b, md));
                        assert(!idx_in_subtree(idx as int, d + 1, 2 * b + 1, md));
                        assert(bsp_array@[idx as int] == arr1[idx as int]);
                        assert(bsp_planes@[idx as int] == planes1[idx as int]);
                    } else if k - 1 < sl.len() {
                        assert(ss[k] == sl[k - 1]);
                        let t = sl[k - 1];
                        let si = slot_index(t.0, t.1);
                        assert(!idx_in_subtree(si, d + 1, 2 * b + 1, md));
                        assert(bsp_array@[si] == arr2[si]);
                        assert(bsp_planes@[si] == planes2[si]);
                    } else {
                        assert(ss[k] == sr[k - 1 - sl.len()]);
                    }
                }
                // Untouched slots outside this subtree.
                assert forall|i: int|
                    0 <= i < old(bsp_array)@.len() && !idx_in_subtree(i, d, b, md) implies bsp_array@[i] == old(bsp_array)@[i] && bsp_planes@[i] == old(bsp_planes)@[i] by {
                    if i == idx {
                        assert(idx_in_subtree(i, d, b, md));
                    }
                    if idx_in_subtree(i, d + 1, 2 * b, md) {
                        lemma_idx_subtree_child(i, d, b, 2 * b, md);
                    }
                    if idx_in_subtree(i, d + 1, 2 * b + 1, md) {
                        lemma_idx_subtree_child(i, d, b, 2 * b + 1, md);
                    }
                }
            }
        },
    }
}

/// Sizing is monotone in the count cap.
proof fn lemma_node_sized_cap_mono(n: Node, cap1: int, cap2: int, depth_left: int)
    requires
        node_sized(n, cap1, depth_left),
        cap1 <= cap2,
    ensures
        node_sized(n, cap2, depth_left),
    decreases n,
{
    match n.node_type {
        NodeType::Leaf { .. } => {},
        NodeType::Split { split, plane, left, right } => {
            lemma_node_sized_cap_mono(*left, cap1, cap2, depth_left - 1);
            lemma_node_sized_cap_mono(*right, cap1, cap2, depth_left - 1);
        },
    }
}

/// The cursor of a later leaf, seen past the first leaf.
proof fn lemma_cursor_shift(ls: Seq<(int, int, Seq<u32>)>, k: int)
    requires
        1 <= k <= ls.len(),
    ensures
        cursor_of(0, ls, k) == ls[0].2.len() + cursor_of(0, ls.drop_first(), k - 1),
    decreases k,
{
    if k > 1 {
        lemma_cursor_shift(ls, k - 1);
        assert(ls.drop_first()[k - 2] == ls[k - 1]);
    } else {
        assert(cursor_of(0, ls, 0) == 0);
        assert(cursor_of(0, ls.drop_first(), 0) == 0);
    }
}

/// The id window of leaf `k` inside the concatenated leaf ids is exactly
/// that leaf's ids.
pub proof fn lemma_concat_window(ls: Seq<(int, int, Seq<u32>)>, k: int)
    requires
        0 <= k < ls.len(),
    ensures
        0 <= cursor_of(0, ls, k),
        cursor_of(0, ls, k) + ls[k].2.len() <= concat_ids_from(ls, 0).len(),
        concat_ids_from(ls, 0).subrange(
            cursor_of(0, ls, k),
            cursor_of(0, ls, k) + ls[k].2.len(),
        ) == ls[k].2,
    decreases k,
{
    lemma_cursor_len(0, ls, k);
    if k == 0 {
        assert(concat_ids_from(ls, 0).subrange(0, ls[0].2.len() as int) =~= ls[0].2);
    } else {
        let tail = ls.drop_first();
        lemma_cursor_shift(ls, k);
        lemma_concat_ids_shift(ls, 1);
        lemma_concat_window(tail, k - 1);
        let h = ls[0].2;
        let c = cursor_of(0, tail, k - 1);
        let w = tail[k - 1].2.len() as int;
        assert(concat_ids_from(ls, 0) == h + concat_ids_from(tail, 0));
        assert(tail[k - 1] == ls[k]);
        assert((h + concat_ids_from(tail, 0)).subrange(
            h.len() + c,
            h.len() + c + w,
        ) =~= concat_ids_from(tail, 0).subrange(c, c + w));
    }
}

impl BspTree {
    /// Flatten the tree into the implicit fixed-depth arrays: one packed
    /// record and one plane value per slot, `2^(max_depth+1) - 1` slots,
    /// children addressed by the closed-form position formula whether or
    /// not they exist.  Dead slots keep their zeroed defaults.
    #[verifier::loop_isolation(false)]
    pub fn bsp_array(&self) -> (r: (Vec<i64>, Vec<Vec4u32>))
        requires
            self.wf(),
        ensures
            r.0@.len() == pow2((self.spec_max_depth() + 1) as nat) - 1,
            r.1@.len() == pow2((self.spec_max_depth() + 1) as nat) - 1,
            forall|k: int|
                0 <= k < leaf_slots(self.spec_root(), 0, 0).len() ==> {
                    let t = #[trigger] leaf_slots(self.spec_root(), 0, 0)[k];
                    let si = slot_index(t.0, t.1);
                    &&& 0 <= si < r.1@.len()
                    &&& r.1@[si].0 as int == 3 + 4 * t.2.len()
                    &&& r.1@[si].1 as int == cursor_of(
                        0,
                        leaf_slots(self.spec_root(), 0, 0),
                        k,
                    ) % 0x1_0000_0000
                    &&& r.1@[si].2 as int == pow2((t.0 + 1) as nat) + 2 * t.1 - 1
                    &&& r.1@[si].3 as int == pow2((t.0 + 1) as nat) + 2 * t.1
                    &&& r.0@[si] == 0i64
                },
            forall|k: int|
                0 <= k < split_slots(self.spec_root(), 0, 0).len() ==> {
                    let t = #[trigger] split_slots(self.spec_root(), 0, 0)[k];
                    let si = slot_index(t.0, t.1);
                    &&& 0 <= si < r.1@.len()
                    &&& r.1@[si].0 as int == t.2 + 4 * t.4
                    &&& r.1@[si].1 == 0u32
                    &&& r.1@[si].2 as int == pow2((t.0 + 1) as nat) + 2 * t.1 - 1
                    &&& r.1@[si].3 as int == pow2((t.0 + 1) as nat) + 2 * t.1
                    &&& r.0@[si] == t.3
                },
    {
        proof {
            vstd::bits::lemma_usize_pow2_no_overflow((self.max_depth + 1) as nat);
            vstd::bits::lemma_usize_shl_is_mul(1usize, (self.max_depth + 1) as usize);
        }
        let bsp_tree_nodes: usize = (1usize << ((self.max_depth + 1) as usize)) - 1;
        let mut bsp_planes: Vec<i64> = Vec::new();
        let mut bsp_array: Vec<Vec4u32> = Vec::new();
        let mut i: usize = 0;
        while i < bsp_tree_nodes
            invariant
                0 <= i <= bsp_tree_nodes,
                bsp_planes@.len() == i,
                bsp_array@.len() == i,
            decreases bsp_tree_nodes - i,
        {
            bsp_planes.push(0);
            bsp_array.push(Vec4::<u32>(0, 0, 0, 0));
            i += 1;
        }
        let mut node_id: u64 = 0;
        proof {
            assert(pow2(0) == 1 && pow2(30) == 0x4000_0000 && pow2(60) == 0x1000_0000_0000_0000)
                by {
                vstd::arithmetic::power2::lemma2_to64();
                vstd::arithmetic::power2::lemma2_to64_rest();
            }
            assert(valid_slot(0, 0, self.max_depth as int));
            lemma_node_sized_cap_mono(
                self.root,
                self.root.count as int,
                MAX_BSP_OBJECTS as int,
                self.max_depth as int,
            );
            lemma_leaf_ids_len_bound(
                self.root,
                MAX_BSP_OBJECTS as int,
                self.max_depth as int,
            );
            if self.max_depth < 30 {
                vstd::arithmetic::power2::lemma_pow2_strictly_increases(
                    self.max_depth as nat,
                    30,
                );
            }
            assert((MAX_BSP_OBJECTS as int) * pow2(self.max_depth as nat) <= (
            MAX_BSP_OBJECTS as int) * 0x4000_0000) by (nonlinear_arith)
                requires
                    0 <= pow2(self.max_depth as nat) <= 0x4000_0000,
            ;
        }
        build_bsp_array_recursive(
            &mut bsp_planes,
            &mut bsp_array,
            &self.root,
            0,
            self.max_depth,
            0,
            &mut node_id,
        );
        (bsp_planes, bsp_array)
    }
}

/// Every leaf record of the flat tree points at exactly its own window
/// of the primitive-id array: the window holds that leaf's indices in
/// order, windows follow one another without overlap, and together they
/// tile the id array.  This ties the flattener's id cursor to the
/// independent `primitive_ids` traversal.
pub proof fn law_bsp_id_cursor(
    tree: BspTree,
    planes: Seq<i64>,
    arr: Seq<Vec4u32>,
    ids: Seq<u32>,
)
    requires
        tree.wf(),
        ids == leaf_ids(tree.spec_root()),
        ids.len() < 0x1_0000_0000,
        forall|k: int|
            0 <= k < leaf_slots(tree.spec_root(), 0, 0).len() ==> {
                let t = #[trigger] leaf_slots(tree.spec_root(), 0, 0)[k];
                let si = slot_index(t.0, t.1);
                &&& 0 <= si < arr.len()
                &&& arr[si].1 as int == cursor_of(0, leaf_slots(tree.spec_root(), 0, 0), k)
                    % 0x1_0000_0000
            },
    ensures
        forall|k: int|
            0 <= k < leaf_slots(tree.spec_root(), 0, 0).len() ==> {
                let t = #[trigger] leaf_slots(tree.spec_root(), 0, 0)[k];
                let si = slot_index(t.0, t.1);
                &&& arr[si].1 as int == cursor_of(0, leaf_slots(tree.spec_root(), 0, 0), k)
                &&& arr[si].1 + t.2.len() <= ids.len()
                &&& ids.subrange(arr[si].1 as int, arr[si].1 + t.2.len()) == t.2
                &&& k + 1 < leaf_slots(tree.spec_root(), 0, 0).len() ==> cursor_of(
                    0,
                    leaf_slots(tree.spec_root(), 0, 0),
                    k + 1,
                ) == arr[si].1 + t.2.len()
            },
{
    let ls = leaf_slots(tree.spec_root(), 0, 0);
    lemma_leaf_slots_ids(tree.spec_root(), 0, 0);
    assert forall|k: int| 0 <= k < ls.len() implies {
        let t = #[trigger] ls[k];
        let si = slot_index(t.0, t.1);
        &&& arr[si].1 as int == cursor_of(0, ls, k)
        &&& arr[si].1 + t.2.len() <= ids.len()
        &&& ids.subrange(arr[si].1 as int, arr[si].1 + t.2.len()) == t.2
        &&& k + 1 < ls.len() ==> cursor_of(0, ls, k + 1) == arr[si].1 + t.2.len()
    } by {
        lemma_concat_window(ls, k);
        lemma_cursor_len(0, ls, k);
        assert(cursor_of(0, ls, k) % 0x1_0000_0000 == cursor_of(0, ls, k));
    }
}

/// The arrays a GPU consumer uploads, gathered from one tree: the root
/// bound, the primitive-id array, the flat node records and the parallel
/// plane values.
#[derive(Debug)]
pub struct BspTreeIntermediate {
    pub bbox: Bbox,
    pub ids: Vec<u32>,
    pub bsp_tree: Vec<Vec4u32>,
    pub bsp_planes: Vec<i64>,
}

impl BspTreeIntermediate {
    /// Gather the flat arrays of a finished tree.
    pub fn new(bsp_tree: &BspTree) -> (r: Self)
        requires
            bsp_tree.wf(),
        ensures
            r.bbox == bsp_tree.spec_bbox(),
            r.ids@ == leaf_ids(bsp_tree.spec_root()),
            r.bsp_tree@.len() == pow2((bsp_tree.spec_max_depth() + 1) as nat) - 1,
            r.bsp_planes@.len() == pow2((bsp_tree.spec_max_depth() + 1) as nat) - 1,
    {
        let ids = bsp_tree.primitive_ids();
        let (bsp_planes, bsp_tree_vec) = bsp_tree.bsp_array();
        BspTreeIntermediate { bbox: bsp_tree.bbox_copy(), ids, bsp_tree: bsp_tree_vec, bsp_planes }
    }
}

impl BspTree {
    /// The bound over all input objects.
    pub fn bbox_copy(&self) -> (r: Bbox)
        ensures
            r == self.spec_bbox(),
    {
        self.bbox
    }
}

/// Gather the leaves' primitive indices left to right.
fn primitive_ids_recursive(node: &Node, array: &mut Vec<u32>)
    ensures
        final(array)@ == old(array)@ + leaf_ids(*node),
    decreases *node,
{
    match &node.node_type {
        NodeType::Leaf { objects } => {
            let ghost start = array@;
            let mut i: usize = 0;
            while i < objects.len()
                invariant
                    0 <= i <= objects@.len(),
                    array@ == start + objects@.take(i as int).map_values(|o: AccObj| o.idx),
                decreases objects@.len() - i,
            {
                array.push(objects[i].idx);
                proof {
                    assert(objects@.take(i + 1).drop_last() =~= objects@.take(i as int));
                    assert(objects@.take(i + 1).map_values(|o: AccObj| o.idx).drop_last()
                        =~= objects@.take(i as int).map_values(|o: AccObj| o.idx));
                    assert(array@ =~= start + objects@.take(i + 1).map_values(
                        |o: AccObj| o.idx,
                    ));
                }
                i += 1;
            }
            proof {
                assert(objects@.take(objects@.len() as int) =~= objects@);
            }
        },
        NodeType::Split { split, plane, left, right } => {
            primitive_ids_recursive(left, array);
            primitive_ids_recursive(right, array);
            proof {
                assert(old(array)@ + leaf_ids(**left) + leaf_ids(**right) =~= old(array)@ + (
                leaf_ids(**left) + leaf_ids(**right)));
            }
        },
    }
}

} // verus!
