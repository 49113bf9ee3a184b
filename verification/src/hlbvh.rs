//! The bounding volume hierarchy, built with the hierarchical linear BVH
//! (HLBVH) method.
//!
//! Primitives are bucketed into treelets by the high bits of their Morton
//! codes, each treelet becomes a subtree by recursive partitioning on the
//! remaining code bits, and the treelet roots are collapsed into one tree
//! by median splits on the longest centroid axis.  The build is pinned by
//! a functional relation (`emit_matches`, `collapse_matches`), so the
//! multi-threaded and the single-threaded paths provably return the same
//! tree.

use vstd::prelude::*;
use vstd::multiset::Multiset;
use crate::accobj::{AccObj, Split};
use crate::bbox::Bbox;
use crate::bvh_util::BvhConstructionTime;
use crate::morton::{spec_morton_of, spec_quantize, morton_of_point, MortonPrimitive};
use crate::sort::{spec_pack_key, spec_sorted_keys, spec_unpack_key, sort_keys};
use crate::vector::Vec3;
use rayon::iter::{IndexedParallelIterator, IntoParallelIterator, IntoParallelRefIterator, ParallelIterator};

verus! {

/// Largest number of primitives a build accepts: keeps every node count and
/// array offset comfortably inside 32 bits.
pub const MAX_BVH_PRIMITIVES: usize = 0x0100_0000;

/// A node of the build tree: a bound and either a leaf (a contiguous run of
/// the reordered primitive array) or an interior node owning two children.
#[derive(Debug)]
pub struct BvhBuildNode {
    pub bbox: Bbox,
    pub node_type: BvhBuildNodeType,
}

/// Leaf or interior payload of a build node.
#[derive(Debug)]
pub enum BvhBuildNodeType {
    Leaf { num_primitives: u32, first_prim_offset: u32 },
    Interior { split: Split, left: Box<BvhBuildNode>, right: Box<BvhBuildNode> },
}

/// Number of nodes in a build tree.
pub open spec fn node_count(n: BvhBuildNode) -> int
    decreases n,
{
    match n.node_type {
        BvhBuildNodeType::Leaf { .. } => 1,
        BvhBuildNodeType::Interior { split: _, left, right } => 1 + node_count(*left)
            + node_count(*right),
    }
}

/// The union of the bounding boxes of a run of objects, folded left to
/// right from the empty box.
pub open spec fn boxes_union(s: Seq<AccObj>) -> Bbox
    decreases s.len(),
{
    if s.len() <= 0 {
        Bbox::spec_empty()
    } else {
        Bbox::spec_union(boxes_union(s.drop_last()), s.last().bbox)
    }
}

/// The primitives of a Morton-sorted run, in Morton order.
pub open spec fn emit_ordered(
    prims: Seq<AccObj>,
    mortons: Seq<MortonPrimitive>,
    offset: int,
    num: int,
) -> Seq<AccObj> {
    Seq::new(num as nat, |i: int| prims[mortons[offset + i].index as int])
}

/// Whether the Morton codes of a run are in ascending order.
pub open spec fn range_sorted(mortons: Seq<MortonPrimitive>, offset: int, num: int) -> bool {
    forall|i: int, j: int|
        offset <= i < j < offset + num ==> (#[trigger] mortons[i]).morton_code
            <= (#[trigger] mortons[j]).morton_code
}

/// Whether all Morton codes of a run agree on the bits strictly above
/// `bit`.
pub open spec fn agree_above(
    mortons: Seq<MortonPrimitive>,
    offset: int,
    num: int,
    bit: int,
) -> bool {
    forall|i: int, j: int|
        offset <= i < num + offset && offset <= j < num + offset ==> (#[trigger] mortons[i]).morton_code
            >> ((bit + 1) as u32) == (#[trigger] mortons[j]).morton_code >> ((bit + 1) as u32)
}

/// First index at or after `r` whose code differs from the run's first
/// code under `mask`; `num` if none does.
pub open spec fn flip_from(
    mortons: Seq<MortonPrimitive>,
    offset: int,
    num: int,
    mask: u32,
    r: int,
) -> int
    decreases num - r,
{
    if r >= num {
        num
    } else if mortons[offset + r].morton_code & mask != mortons[offset].morton_code & mask {
        r
    } else {
        flip_from(mortons, offset, num, mask, r + 1)
    }
}

/// The split position of a run: the first code-flip index, clamped to keep
/// it at most `num - 2`.
pub open spec fn spec_split_rel(
    mortons: Seq<MortonPrimitive>,
    offset: int,
    num: int,
    mask: u32,
) -> int {
    let f = flip_from(mortons, offset, num, mask, 1);
    if f > num - 2 {
        num - 2
    } else {
        f
    }
}

/// The functional relation pinning the subtree a Morton-sorted run emits.
///
/// A run becomes a leaf when no code bits remain or it is below the leaf
/// cap; otherwise it either drops an uninformative bit or splits at the
/// code-flip position.  The relation determines the tree uniquely
/// (`lemma_emit_unique`), which is what makes the build deterministic.
pub open spec fn emit_matches(
    n: BvhBuildNode,
    prims: Seq<AccObj>,
    mortons: Seq<MortonPrimitive>,
    offset: int,
    num: int,
    bit: int,
    max_prims: int,
) -> bool
    decreases bit + 1,
{
    if bit <= -1 || num < max_prims {
        n == (BvhBuildNode {
            bbox: boxes_union(emit_ordered(prims, mortons, offset, num)),
            node_type: BvhBuildNodeType::Leaf {
                num_primitives: num as u32,
                first_prim_offset: offset as u32,
            },
        })
    } else {
        let mask = 1u32 << (bit as u32);
        if mortons[offset].morton_code & mask == mortons[offset + num - 1].morton_code & mask {
            emit_matches(n, prims, mortons, offset, num, bit - 1, max_prims)
        } else {
            let s = spec_split_rel(mortons, offset, num, mask);
            match n.node_type {
                BvhBuildNodeType::Leaf { .. } => false,
                BvhBuildNodeType::Interior { split, left, right } => {
                    &&& split == Split::spec_from_axis(bit % 3)
                    &&& n.bbox == Bbox::spec_union(left.bbox, right.bbox)
                    &&& emit_matches(*left, prims, mortons, offset, s, bit - 1, max_prims)
                    &&& emit_matches(*right, prims, mortons, offset + s, num - s, bit - 1, max_prims)
                },
            }
        }
    }
}

/// A bit between two equal bits: with all codes agreeing above `s` and
/// ordered, a code between two codes that share the bit at `s` shares it
/// too.
proof fn lemma_bit_between(a: u32, x: u32, y: u32, s: u32)
    by (bit_vector)
    requires
        s < 31,
        a <= x,
        x <= y,
        a >> ((s + 1) as u32) == x >> ((s + 1) as u32),
        x >> ((s + 1) as u32) == y >> ((s + 1) as u32),
        a & (1u32 << s) == y & (1u32 << s),
    ensures
        x & (1u32 << s) == a & (1u32 << s),
{
}

/// Codes agreeing above `s` and at `s` agree above `s - 1`.
proof fn lemma_shift_down(a: u32, x: u32, s: u32)
    by (bit_vector)
    requires
        s < 31,
        a >> ((s + 1) as u32) == x >> ((s + 1) as u32),
        a & (1u32 << s) == x & (1u32 << s),
    ensures
        a >> s == x >> s,
{
}

/// Properties of the code-flip position: everything before it shares the
/// first code's bit, and the position itself (when inside the run) does
/// not.
proof fn lemma_flip_props(mortons: Seq<MortonPrimitive>, offset: int, num: int, mask: u32, r0: int)
    requires
        1 <= r0 <= num,
    ensures
        r0 <= flip_from(mortons, offset, num, mask, r0) <= num,
        forall|r: int|
            r0 <= r < flip_from(mortons, offset, num, mask, r0) ==> (#[trigger] mortons[offset
                + r]).morton_code & mask == mortons[offset].morton_code & mask,
        flip_from(mortons, offset, num, mask, r0) < num ==> mortons[offset + flip_from(
            mortons,
            offset,
            num,
            mask,
            r0,
        )].morton_code & mask != mortons[offset].morton_code & mask,
    decreases num - r0,
{
    if r0 >= num {
    } else if mortons[offset + r0].morton_code & mask != mortons[offset].morton_code & mask {
    } else {
        lemma_flip_props(mortons, offset, num, mask, r0 + 1);
    }
}

/// Under ordering and agreement above `bit`, sharing the first code's bit
/// at `bit` is downward closed along the run.
proof fn lemma_pred_monotone(
    mortons: Seq<MortonPrimitive>,
    offset: int,
    num: int,
    bit: u32,
    r1: int,
    r2: int,
)
    requires
        bit < 31,
        range_sorted(mortons, offset, num),
        agree_above(mortons, offset, num, bit as int),
        0 <= r1 <= r2 < num,
        0 <= offset,
        offset + num <= mortons.len(),
        mortons[offset + r2].morton_code & (1u32 << bit) == mortons[offset].morton_code & (1u32
            << bit),
    ensures
        mortons[offset + r1].morton_code & (1u32 << bit) == mortons[offset].morton_code & (1u32
            << bit),
{
    let a = mortons[offset].morton_code;
    let x = mortons[offset + r1].morton_code;
    let y = mortons[offset + r2].morton_code;
    assert(a <= x && x <= y);
    lemma_bit_between(a, x, y, bit);
}

/// The tree emitted from a run is unique: the relation is functional.
pub proof fn lemma_emit_unique(
    a: BvhBuildNode,
    b: BvhBuildNode,
    prims: Seq<AccObj>,
    mortons: Seq<MortonPrimitive>,
    offset: int,
    num: int,
    bit: int,
    max_prims: int,
)
    requires
        emit_matches(a, prims, mortons, offset, num, bit, max_prims),
        emit_matches(b, prims, mortons, offset, num, bit, max_prims),
    ensures
        a == b,
    decreases bit + 1,
{
    if bit <= -1 || num < max_prims {
    } else {
        let mask = 1u32 << (bit as u32);
        if mortons[offset].morton_code & mask == mortons[offset + num - 1].morton_code & mask {
            lemma_emit_unique(a, b, prims, mortons, offset, num, bit - 1, max_prims);
        } else {
            let s = spec_split_rel(mortons, offset, num, mask);
            match (a.node_type, b.node_type) {
                (
                    BvhBuildNodeType::Interior { split: sa, left: la, right: ra },
                    BvhBuildNodeType::Interior { split: sb, left: lb, right: rb },
                ) => {
                    lemma_emit_unique(*la, *lb, prims, mortons, offset, s, bit - 1, max_prims);
                    lemma_emit_unique(
                        *ra,
                        *rb,
                        prims,
                        mortons,
                        offset + s,
                        num - s,
                        bit - 1,
                        max_prims,
                    );
                },
                _ => {
                    assert(false);
                },
            }
        }
    }
}

/// Whether the code at relative position `r` shares the first code's bit
/// under `mask`.
pub open spec fn shares_first_bit(
    mortons: Seq<MortonPrimitive>,
    offset: int,
    r: int,
    mask: u32,
) -> bool {
    mortons[offset + r].morton_code & mask == mortons[offset].morton_code & mask
}

/// Two codes that both differ from a third in the bit under a one-bit mask
/// agree with each other there.
proof fn lemma_bit_two_values(a: u32, x: u32, y: u32, s: u32)
    by (bit_vector)
    requires
        s < 31,
        x & (1u32 << s) != a & (1u32 << s),
        y & (1u32 << s) != a & (1u32 << s),
    ensures
        x & (1u32 << s) == y & (1u32 << s),
{
}

/// The emitted tree's node count is linear in the run length and the bit
/// budget.
pub proof fn lemma_emit_count_bound(
    n: BvhBuildNode,
    prims: Seq<AccObj>,
    mortons: Seq<MortonPrimitive>,
    offset: int,
    num: int,
    bit: int,
    max_prims: int,
)
    requires
        emit_matches(n, prims, mortons, offset, num, bit, max_prims),
        -1 <= bit,
        0 <= num,
        max_prims >= 1,
    ensures
        1 <= node_count(n) <= 1 + num * (bit + 4),
    decreases bit + 1,
{
    if bit <= -1 || num < max_prims {
        assert(num * (bit + 4) >= 0) by (nonlinear_arith)
            requires
                num >= 0,
                bit >= -1,
        ;
    } else {
        let mask = 1u32 << (bit as u32);
        if mortons[offset].morton_code & mask == mortons[offset + num - 1].morton_code & mask {
            lemma_emit_count_bound(n, prims, mortons, offset, num, bit - 1, max_prims);
            assert(num * (bit + 3) <= num * (bit + 4)) by (nonlinear_arith)
                requires
                    num >= 0,
            ;
        } else {
            let s = spec_split_rel(mortons, offset, num, mask);
            assert(num >= 2) by {
                if num < 2 {
                    assert(offset + num - 1 == offset);
                }
            }
            lemma_flip_props(mortons, offset, num, mask, 1);
            assert(0 <= s <= num);
            match n.node_type {
                BvhBuildNodeType::Leaf { .. } => {
                    assert(false);
                },
                BvhBuildNodeType::Interior { split, left, right } => {
                    lemma_emit_count_bound(
                        *left,
                        prims,
                        mortons,
                        offset,
                        s,
                        bit - 1,
                        max_prims,
                    );
                    lemma_emit_count_bound(
                        *right,
                        prims,
                        mortons,
                        offset + s,
                        num - s,
                        bit - 1,
                        max_prims,
                    );
                    assert(s * (bit + 3) + (num - s) * (bit + 3) == num * (bit + 3))
                        by (nonlinear_arith);
                    assert(num * (bit + 3) + num == num * (bit + 4)) by (nonlinear_arith);
                },
            }
        }
    }
}

/// The sort key of a treelet root on a given axis: its bound's doubled
/// centroid coordinate.
pub open spec fn node_key(n: BvhBuildNode, dim: int) -> i64 {
    n.bbox.spec_centroid2().spec_axis(dim)
}

/// Where a node is inserted into a run: after the longest prefix of keys
/// not above its own, so that equal keys keep their arrival order.
pub open spec fn insert_pos(x: BvhBuildNode, s: Seq<BvhBuildNode>, dim: int) -> int
    decreases s.len(),
{
    if s.len() == 0 {
        0
    } else if node_key(s[0], dim) <= node_key(x, dim) {
        1 + insert_pos(x, s.drop_first(), dim)
    } else {
        0
    }
}

/// A node inserted into a run at its insertion position.
pub open spec fn insert_sorted(x: BvhBuildNode, s: Seq<BvhBuildNode>, dim: int) -> Seq<
    BvhBuildNode,
> {
    let p = insert_pos(x, s, dim);
    s.take(p).push(x) + s.skip(p)
}

/// Stable insertion sort of treelet roots by centroid key.
pub open spec fn sort_nodes(s: Seq<BvhBuildNode>, dim: int) -> Seq<BvhBuildNode>
    decreases s.len(),
{
    if s.len() == 0 {
        s
    } else {
        insert_sorted(s.last(), sort_nodes(s.drop_last(), dim), dim)
    }
}

/// Total node count over a run of trees.
pub open spec fn sum_counts(s: Seq<BvhBuildNode>) -> int
    decreases s.len(),
{
    if s.len() == 0 {
        0
    } else {
        sum_counts(s.drop_last()) + node_count(s.last())
    }
}

/// The bound over the doubled centroids of a run of treelet roots.
pub open spec fn nodes_centroid_bound(s: Seq<BvhBuildNode>) -> Bbox
    decreases s.len(),
{
    if s.len() == 0 {
        Bbox::spec_empty()
    } else {
        nodes_centroid_bound(s.drop_last()).spec_include_point(s.last().bbox.spec_centroid2())
    }
}

/// The functional relation pinning the collapse of treelet roots into one
/// tree: a single root is returned unchanged; otherwise the roots are
/// stably ordered by centroid on the longest axis of the centroid bound,
/// split at the median, and both halves are collapsed.
pub open spec fn collapse_matches(n: BvhBuildNode, s: Seq<BvhBuildNode>) -> bool
    decreases s.len(),
    via collapse_matches_decreases
{
    if s.len() <= 1 {
        s.len() == 1 && n == s[0]
    } else {
        let dim = nodes_centroid_bound(s).spec_longest_axis() as int;
        let ss = sort_nodes(s, dim);
        let mid = s.len() as int / 2;
        match n.node_type {
            BvhBuildNodeType::Leaf { .. } => false,
            BvhBuildNodeType::Interior { split, left, right } => {
                &&& split == Split::spec_from_axis(dim)
                &&& n.bbox == Bbox::spec_union(left.bbox, right.bbox)
                &&& collapse_matches(*left, ss.subrange(0, mid))
                &&& collapse_matches(*right, ss.subrange(mid, s.len() as int))
            },
        }
    }
}

#[via_fn]
proof fn collapse_matches_decreases(n: BvhBuildNode, s: Seq<BvhBuildNode>) {
    if s.len() > 1 {
        let dim = nodes_centroid_bound(s).spec_longest_axis() as int;
        lemma_sort_nodes_props(s, dim);
    }
}

/// The collapsed tree is unique: the relation is functional.
pub proof fn lemma_collapse_unique(a: BvhBuildNode, b: BvhBuildNode, s: Seq<BvhBuildNode>)
    requires
        collapse_matches(a, s),
        collapse_matches(b, s),
    ensures
        a == b,
    decreases s.len(),
{
    if s.len() <= 1 {
    } else {
        let dim = nodes_centroid_bound(s).spec_longest_axis() as int;
        lemma_sort_nodes_props(s, dim);
        let ss = sort_nodes(s, dim);
        let mid = s.len() as int / 2;
        match (a.node_type, b.node_type) {
            (
                BvhBuildNodeType::Interior { split: sa, left: la, right: ra },
                BvhBuildNodeType::Interior { split: sb, left: lb, right: rb },
            ) => {
                lemma_collapse_unique(*la, *lb, ss.subrange(0, mid));
                lemma_collapse_unique(*ra, *rb, ss.subrange(mid, s.len() as int));
            },
            _ => {
                assert(false);
            },
        }
    }
}

/// Insertion keeps length, node-count total and multiset.
proof fn lemma_insert_sorted_props(x: BvhBuildNode, s: Seq<BvhBuildNode>, dim: int)
    ensures
        0 <= insert_pos(x, s, dim) <= s.len(),
        insert_sorted(x, s, dim).len() == s.len() + 1,
        sum_counts(insert_sorted(x, s, dim)) == sum_counts(s) + node_count(x),
        insert_sorted(x, s, dim).to_multiset() == s.to_multiset().insert(x),
    decreases s.len(),
{
    broadcast use vstd::seq_lib::group_to_multiset_ensures;

    lemma_insert_pos_range(x, s, dim);
    let p = insert_pos(x, s, dim);
    assert(s.take(p) + s.skip(p) =~= s);
    lemma_sum_counts_concat(s.take(p), s.skip(p));
    lemma_sum_counts_concat(s.take(p).push(x), s.skip(p));
    lemma_sum_counts_push(s.take(p), x);
    lemma_to_multiset_concat(s.take(p), s.skip(p));
    lemma_to_multiset_concat(s.take(p).push(x), s.skip(p));
    assert(s.take(p).push(x).to_multiset() =~= s.take(p).to_multiset().insert(x));
    assert(insert_sorted(x, s, dim).to_multiset() =~= s.to_multiset().insert(x));
}

/// The insertion position lies inside the run.
proof fn lemma_insert_pos_range(x: BvhBuildNode, s: Seq<BvhBuildNode>, dim: int)
    ensures
        0 <= insert_pos(x, s, dim) <= s.len(),
    decreases s.len(),
{
    if s.len() > 0 && node_key(s[0], dim) <= node_key(x, dim) {
        lemma_insert_pos_range(x, s.drop_first(), dim);
    }
}

/// Node-count totals add over concatenation.
proof fn lemma_sum_counts_concat(a: Seq<BvhBuildNode>, b: Seq<BvhBuildNode>)
    ensures
        sum_counts(a + b) == sum_counts(a) + sum_counts(b),
    decreases b.len(),
{
    if b.len() == 0 {
        assert(a + b =~= a);
    } else {
        assert((a + b).drop_last() =~= a + b.drop_last());
        assert((a + b).last() == b.last());
        lemma_sum_counts_concat(a, b.drop_last());
    }
}

/// A push adds one node count to the total.
proof fn lemma_sum_counts_push(s: Seq<BvhBuildNode>, x: BvhBuildNode)
    ensures
        sum_counts(s.push(x)) == sum_counts(s) + node_count(x),
{
    assert(s.push(x).drop_last() =~= s);
}

/// Multisets add over concatenation.
proof fn lemma_to_multiset_concat(a: Seq<BvhBuildNode>, b: Seq<BvhBuildNode>)
    ensures
        (a + b).to_multiset() == a.to_multiset().add(b.to_multiset()),
{
    vstd::seq_lib::lemma_multiset_commutative(a, b);
}

/// Sorting keeps length, node-count total and multiset.
pub proof fn lemma_sort_nodes_props(s: Seq<BvhBuildNode>, dim: int)
    ensures
        sort_nodes(s, dim).len() == s.len(),
        sum_counts(sort_nodes(s, dim)) == sum_counts(s),
        sort_nodes(s, dim).to_multiset() == s.to_multiset(),
    decreases s.len(),
{
    broadcast use vstd::seq_lib::group_to_multiset_ensures;

    if s.len() == 0 {
    } else {
        lemma_sort_nodes_props(s.drop_last(), dim);
        lemma_insert_sorted_props(s.last(), sort_nodes(s.drop_last(), dim), dim);
        assert(s.drop_last().push(s.last()) =~= s);
        assert(s.drop_last().to_multiset().insert(s.last()) =~= s.to_multiset());
    }
}

/// The insertion position is the end of the longest prefix whose keys are
/// not above the inserted key.
proof fn lemma_insert_pos_char(x: BvhBuildNode, s: Seq<BvhBuildNode>, dim: int)
    ensures
        0 <= insert_pos(x, s, dim) <= s.len(),
        forall|q: int|
            0 <= q < insert_pos(x, s, dim) ==> node_key(#[trigger] s[q], dim) <= node_key(x, dim),
        insert_pos(x, s, dim) < s.len() ==> node_key(s[insert_pos(x, s, dim)], dim) > node_key(
            x,
            dim,
        ),
    decreases s.len(),
{
    if s.len() > 0 && node_key(s[0], dim) <= node_key(x, dim) {
        lemma_insert_pos_char(x, s.drop_first(), dim);
        assert forall|q: int|
            0 <= q < insert_pos(x, s, dim) implies node_key(#[trigger] s[q], dim) <= node_key(
            x,
            dim,
        ) by {
            if q > 0 {
                assert(s[q] == s.drop_first()[q - 1]);
            }
        }
    }
}

/// The key of the node at a position: its bound's doubled centroid on the
/// chosen axis.
fn key_at(v: &Vec<BvhBuildNode>, i: usize, dim: u32) -> (r: i64)
    requires
        i < v@.len(),
        dim < 3,
        v@[i as int].bbox.in_range(0x1000_0000_0000),
    ensures
        r == node_key(v@[i as int], dim as int),
{
    let b = &v[i];
    b.bbox.centroid2().axis(dim)
}

/// Stable insertion sort of treelet roots by centroid key on one axis.
#[verifier::loop_isolation(false)]
fn sort_nodes_exec(nodes: Vec<BvhBuildNode>, dim: u32) -> (r: Vec<BvhBuildNode>)
    requires
        dim < 3,
        forall|i: int|
            0 <= i < nodes@.len() ==> (#[trigger] nodes@[i]).bbox.in_range(0x100_0000_0000),
    ensures
        r@ == sort_nodes(nodes@, dim as int),
        forall|i: int| 0 <= i < r@.len() ==> (#[trigger] r@[i]).bbox.in_range(0x100_0000_0000),
{
    let ghost orig = nodes@;
    let mut rest = nodes;
    let mut out: Vec<BvhBuildNode> = Vec::new();
    while rest.len() > 0
        invariant
            rest@.len() <= orig.len(),
            rest@ == orig.skip(orig.len() - rest@.len()),
            out@ == sort_nodes(orig.take(orig.len() - rest@.len()), dim as int),
            forall|i: int|
                0 <= i < out@.len() ==> (#[trigger] out@[i]).bbox.in_range(0x100_0000_0000),
        decreases rest@.len(),
    {
        let ghost k = orig.len() - rest@.len();
        let x = rest.remove(0);
        proof {
            assert(orig.skip(k)[0] == orig[k]);
            assert(x == orig[k]);
            assert(rest@ =~= orig.skip(k + 1));
        }
        let xk = key_at_node(&x, dim);
        let mut p: usize = 0;
        while p < out.len() && key_at(&out, p, dim) <= xk
            invariant
                0 <= p <= out@.len(),
                forall|q: int|
                    0 <= q < p ==> node_key(#[trigger] out@[q], dim as int) <= node_key(
                        x,
                        dim as int,
                    ),
            decreases out@.len() - p,
        {
            p += 1;
        }
        proof {
            lemma_insert_pos_char(x, out@, dim as int);
            assert(p == insert_pos(x, out@, dim as int)) by {
                let ip = insert_pos(x, out@, dim as int);
                if ip < p {
                    assert(node_key(out@[ip], dim as int) <= node_key(x, dim as int));
                }
                if ip > p {
                    assert(node_key(out@[p as int], dim as int) <= node_key(x, dim as int));
                }
            }
        }
        let ghost out_before = out@;
        out.insert(p, x);
        proof {
            assert(out@ =~= insert_sorted(x, out_before, dim as int));
            assert(orig.take(k + 1).drop_last() =~= orig.take(k as int));
            assert(orig.take(k + 1).last() == x);
        }
    }
    proof {
        assert(orig.take(orig.len() as int) =~= orig);
    }
    out
}

/// The key of one node.
fn key_at_node(n: &BvhBuildNode, dim: u32) -> (r: i64)
    requires
        dim < 3,
        n.bbox.in_range(0x1000_0000_0000),
    ensures
        r == node_key(*n, dim as int),
{
    n.bbox.centroid2().axis(dim)
}

/// The bound over the doubled centroids of the given treelet roots.
#[verifier::loop_isolation(false)]
fn centroid_bound_nodes(nodes: &Vec<BvhBuildNode>) -> (r: Bbox)
    requires
        forall|i: int|
            0 <= i < nodes@.len() ==> (#[trigger] nodes@[i]).bbox.in_range(0x100_0000_0000),
    ensures
        r == nodes_centroid_bound(nodes@),
{
    let mut bound = Bbox::new();
    let mut i: usize = 0;
    while i < nodes.len()
        invariant
            0 <= i <= nodes@.len(),
            bound == nodes_centroid_bound(nodes@.take(i as int)),
        decreases nodes@.len() - i,
    {
        let b = &nodes[i];
        let c = b.bbox.centroid2();
        bound.include_vertex(c);
        proof {
            assert(nodes@.take(i + 1).drop_last() =~= nodes@.take(i as int));
            assert(nodes@.take(i + 1).last() == nodes@[i as int]);
        }
        i += 1;
    }
    proof {
        assert(nodes@.take(nodes@.len() as int) =~= nodes@);
    }
    bound
}

/// The centroid bound of treelet roots stays in range.
proof fn lemma_centroid_bound_range(s: Seq<BvhBuildNode>)
    requires
        forall|i: int| 0 <= i < s.len() ==> (#[trigger] s[i]).bbox.in_range(0x100_0000_0000),
    ensures
        nodes_centroid_bound(s).in_range(0x1000_0000_0000),
    decreases s.len(),
{
    if s.len() > 0 {
        lemma_centroid_bound_range(s.drop_last());
    }
}

/// Collapse treelet roots into a single tree by median splits on the
/// longest centroid axis, returning the tree and the number of interior
/// nodes this pass created.
#[verifier::loop_isolation(false)]
fn collapse_build_nodes(nodes: Vec<BvhBuildNode>) -> (res: (BvhBuildNode, u32))
    requires
        1 <= nodes@.len() <= 0x0100_0000,
        forall|i: int|
            0 <= i < nodes@.len() ==> (#[trigger] nodes@[i]).bbox.in_range(0x100_0000_0000),
    ensures
        collapse_matches(res.0, nodes@),
        res.1 == nodes@.len() - 1,
        node_count(res.0) == sum_counts(nodes@) + nodes@.len() - 1,
    decreases nodes@.len(),
{
    let ghost orig = nodes@;
    let mut nodes = nodes;
    if nodes.len() == 1 {
        let n = nodes.pop().unwrap();
        proof {
            assert(n == orig[0]);
            assert(orig.drop_last() =~= Seq::<BvhBuildNode>::empty());
            assert(sum_counts(orig.drop_last()) == 0);
            assert(orig.last() == orig[0]);
            assert(sum_counts(orig) == node_count(n));
        }
        (n, 0)
    } else {
        let cb = centroid_bound_nodes(&nodes);
        proof {
            lemma_centroid_bound_range(orig);
        }
        let dim = cb.longest_axis();
        let mid = nodes.len() / 2;
        let mut left_vec = sort_nodes_exec(nodes, dim);
        proof {
            lemma_sort_nodes_props(orig, dim as int);
        }
        let right_vec = left_vec.split_off(mid);
        let ghost ss = sort_nodes(orig, dim as int);
        proof {
            assert(left_vec@ =~= ss.subrange(0, mid as int));
            assert(right_vec@ =~= ss.subrange(mid as int, orig.len() as int));
            lemma_sum_counts_concat(left_vec@, right_vec@);
            assert(left_vec@ + right_vec@ =~= ss);
        }
        let (left, c0) = collapse_build_nodes(left_vec);
        let (right, c1) = collapse_build_nodes(right_vec);
        let node = new_internal(Split::from_axis(dim), left, right);
        (node, c0 + c1 + 1)
    }
}

/// Whether `n` is the interior node with the given axis and children.
pub open spec fn is_internal_of(n: BvhBuildNode, axis: Split, c0: BvhBuildNode, c1: BvhBuildNode) -> bool {
    match n.node_type {
        BvhBuildNodeType::Leaf { .. } => false,
        BvhBuildNodeType::Interior { split, left, right } => {
            &&& n.bbox == Bbox::spec_union(c0.bbox, c1.bbox)
            &&& split == axis
            &&& *left == c0
            &&& *right == c1
        },
    }
}

/// The treelet mask: Morton codes sharing these top 12 bits of the 30-bit
/// code (4 bits per axis) fall into the same treelet.  A fixed design
/// constant controlling treelet granularity.
pub const TREELET_MASK: u32 = 0b0011_1111_1111_1100_0000_0000_0000_0000;

/// The first Morton bit a treelet build partitions on: below the 12
/// treelet bits of the 30-bit code.
pub const FIRST_BIT_INDEX: i32 = 17;

/// The bound over the doubled centroids of the input primitives.
pub open spec fn prims_centroid_bound(prims: Seq<AccObj>) -> Bbox
    decreases prims.len(),
{
    if prims.len() == 0 {
        Bbox::spec_empty()
    } else {
        prims_centroid_bound(prims.drop_last()).spec_include_point(
            prims.last().bbox.spec_centroid2(),
        )
    }
}

/// The Morton primitive of one input position.
pub open spec fn spec_morton_prim(prims: Seq<AccObj>, bound: Bbox, i: int) -> MortonPrimitive {
    MortonPrimitive {
        index: i as u32,
        morton_code: spec_morton_of(prims[i].bbox.spec_centroid2(), bound),
    }
}

/// The Morton primitives of the input, in input order.
pub open spec fn spec_mortons(prims: Seq<AccObj>) -> Seq<MortonPrimitive> {
    Seq::new(prims.len(), |i: int| spec_morton_prim(prims, prims_centroid_bound(prims), i))
}

/// The Morton primitives of the input, sorted by packed key: by code, ties
/// by input position.
pub open spec fn spec_sorted_mortons(prims: Seq<AccObj>) -> Seq<MortonPrimitive> {
    spec_sorted_keys(spec_mortons(prims).map_values(|mp: MortonPrimitive| spec_pack_key(mp)))
        .map_values(|k: u64| spec_unpack_key(k))
}

/// The input primitives reordered into sorted Morton order: what the
/// finished hierarchy's leaves index into.
pub open spec fn spec_ordered_prims(prims: Seq<AccObj>) -> Seq<AccObj> {
    emit_ordered(prims, spec_sorted_mortons(prims), 0, prims.len() as int)
}

/// End of the treelet run that starts at `s`: the first position at or
/// after `j` whose masked code differs from position `s`'s.
pub open spec fn run_end_from(mortons: Seq<MortonPrimitive>, s: int, j: int) -> int
    decreases mortons.len() - j,
{
    if j >= mortons.len() {
        mortons.len() as int
    } else if mortons[j].morton_code & TREELET_MASK != mortons[s].morton_code & TREELET_MASK {
        j
    } else {
        run_end_from(mortons, s, j + 1)
    }
}

/// The treelet runs of a Morton-sorted sequence from position `i` on:
/// maximal contiguous runs sharing the masked code, as (start, length)
/// pairs.
pub open spec fn spec_treelets(mortons: Seq<MortonPrimitive>, i: int) -> Seq<(int, int)>
    decreases mortons.len() - i,
    via spec_treelets_decreases
{
    if i < 0 || i >= mortons.len() {
        Seq::empty()
    } else {
        let e = run_end_from(mortons, i, i + 1);
        Seq::empty().push((i, e - i)) + spec_treelets(mortons, e)
    }
}

/// The run end lies inside `(j - 1, len]`.
proof fn lemma_run_end_range(mortons: Seq<MortonPrimitive>, s: int, j: int)
    ensures
        j <= run_end_from(mortons, s, j) || mortons.len() <= run_end_from(mortons, s, j),
        run_end_from(mortons, s, j) <= mortons.len() || mortons.len() <= j,
        forall|q: int|
            j <= q < run_end_from(mortons, s, j) ==> (#[trigger] mortons[q]).morton_code
                & TREELET_MASK == mortons[s].morton_code & TREELET_MASK,
        run_end_from(mortons, s, j) < mortons.len() ==> mortons[run_end_from(
            mortons,
            s,
            j,
        )].morton_code & TREELET_MASK != mortons[s].morton_code & TREELET_MASK,
    decreases mortons.len() - j,
{
    if j >= mortons.len() {
    } else if mortons[j].morton_code & TREELET_MASK != mortons[s].morton_code & TREELET_MASK {
    } else {
        lemma_run_end_range(mortons, s, j + 1);
    }
}

#[via_fn]
proof fn spec_treelets_decreases(mortons: Seq<MortonPrimitive>, i: int) {
    if 0 <= i < mortons.len() {
        lemma_run_end_range(mortons, i, i + 1);
    }
}

/// The treelet runs tile the whole sequence, in order, each nonempty and
/// uniform under the mask.
pub proof fn lemma_treelets_props(mortons: Seq<MortonPrimitive>, i: int)
    requires
        0 <= i,
    ensures
        forall|k: int|
            0 <= k < spec_treelets(mortons, i).len() ==> {
                let t = #[trigger] spec_treelets(mortons, i)[k];
                &&& i <= t.0
                &&& t.1 >= 1
                &&& t.0 + t.1 <= mortons.len()
                &&& forall|q: int|
                    t.0 <= q < t.0 + t.1 ==> (#[trigger] mortons[q]).morton_code & TREELET_MASK
                        == mortons[t.0].morton_code & TREELET_MASK
            },
        i < mortons.len() ==> spec_treelets(mortons, i).len() >= 1 && spec_treelets(
            mortons,
            i,
        )[0].0 == i,
        forall|k: int|
            0 <= k < spec_treelets(mortons, i).len() - 1 ==> (#[trigger] spec_treelets(
                mortons,
                i,
            )[k + 1]).0 == spec_treelets(mortons, i)[k].0 + spec_treelets(mortons, i)[k].1,
        i < mortons.len() ==> {
            let ts = spec_treelets(mortons, i);
            ts[ts.len() - 1].0 + ts[ts.len() - 1].1 == mortons.len()
        },
        i >= mortons.len() ==> spec_treelets(mortons, i).len() == 0,
        i <= mortons.len() ==> spec_treelets(mortons, i).len() <= mortons.len() - i,
    decreases mortons.len() - i,
{
    if 0 <= i < mortons.len() {
        lemma_run_end_range(mortons, i, i + 1);
        let e = run_end_from(mortons, i, i + 1);
        lemma_treelets_props(mortons, e);
        let ts = spec_treelets(mortons, i);
        let rest = spec_treelets(mortons, e);
        assert(ts == Seq::<(int, int)>::empty().push((i, e - i)) + rest);
        assert(ts[0] == (i, e - i));
        assert forall|k: int| 1 <= k < ts.len() implies ts[k] == rest[k - 1] by {}
        if e < mortons.len() {
            assert(rest[0].0 == e);
        }
        assert forall|k: int| 0 <= k < ts.len() - 1 implies (#[trigger] ts[k + 1]).0 == ts[k].0
            + ts[k].1 by {
            if k == 0 {
                assert(rest.len() >= 1);
                assert(e < mortons.len());
                assert(ts[1] == rest[0]);
            } else {
                assert(ts[k + 1] == rest[k]);
                assert(ts[k] == rest[k - 1]);
                assert(rest[(k - 1) + 1].0 == rest[k - 1].0 + rest[k - 1].1);
            }
        }
    }
}

/// Same treelet mask on in-range codes means agreement on everything
/// above the treelet build's first bit.
proof fn lemma_mask_agree(a: u32, b: u32)
    by (bit_vector)
    requires
        a < 0x4000_0000,
        b < 0x4000_0000,
        a & 0b0011_1111_1111_1100_0000_0000_0000_0000u32 == b
            & 0b0011_1111_1111_1100_0000_0000_0000_0000u32,
    ensures
        a >> 18u32 == b >> 18u32,
{
}

/// Packing then unpacking returns the same Morton primitive.
proof fn lemma_pack_unpack(c: u32, i: u32)
    by (bit_vector)
    ensures
        (((c as u64) << 32) | (i as u64)) >> 32 == c as u64,
        (((c as u64) << 32) | (i as u64)) & 0xffff_ffff == i as u64,
{
}

/// Key order carries the code order.
proof fn lemma_key_code_order(k1: u64, k2: u64)
    by (bit_vector)
    requires
        k1 <= k2,
    ensures
        (k1 >> 32) <= (k2 >> 32),
        (k1 >> 32) < 0x1_0000_0000,
        (k2 >> 32) < 0x1_0000_0000,
{
}

/// A tree emitted from valid boxes keeps its bounds in range.
pub proof fn lemma_emit_bbox_range(
    n: BvhBuildNode,
    prims: Seq<AccObj>,
    mortons: Seq<MortonPrimitive>,
    offset: int,
    num: int,
    bit: int,
    max_prims: int,
)
    requires
        emit_matches(n, prims, mortons, offset, num, bit, max_prims),
        forall|i: int| 0 <= i < prims.len() ==> (#[trigger] prims[i]).bbox.valid(),
        forall|i: int| 0 <= i < mortons.len() ==> (#[trigger] mortons[i]).index < prims.len(),
        0 <= offset,
        0 <= num,
        offset + num <= mortons.len(),
        max_prims >= 1,
    ensures
        n.bbox.in_range(0x100_0000_0000),
    decreases bit + 1,
{
    if bit <= -1 || num < max_prims {
        let s = emit_ordered(prims, mortons, offset, num);
        assert forall|i: int| 0 <= i < s.len() implies (#[trigger] s[i]).bbox.valid() by {
            assert(s[i] == prims[mortons[offset + i].index as int]);
        }
        lemma_boxes_union_range(emit_ordered(prims, mortons, offset, num));
    } else {
        let mask = 1u32 << (bit as u32);
        if mortons[offset].morton_code & mask == mortons[offset + num - 1].morton_code & mask {
            lemma_emit_bbox_range(n, prims, mortons, offset, num, bit - 1, max_prims);
        } else {
            let s = spec_split_rel(mortons, offset, num, mask);
            assert(num >= 2) by {
                if num < 2 {
                    assert(offset + num - 1 == offset);
                }
            }
            lemma_flip_props(mortons, offset, num, mask, 1);
            match n.node_type {
                BvhBuildNodeType::Leaf { .. } => {
                    assert(false);
                },
                BvhBuildNodeType::Interior { split, left, right } => {
                    lemma_emit_bbox_range(*left, prims, mortons, offset, s, bit - 1, max_prims);
                    lemma_emit_bbox_range(
                        *right,
                        prims,
                        mortons,
                        offset + s,
                        num - s,
                        bit - 1,
                        max_prims,
                    );
                },
            }
        }
    }
}

/// A union of boxes drawn from valid primitives stays in range.
proof fn lemma_boxes_union_range(s: Seq<AccObj>)
    ensures
        (forall|i: int| 0 <= i < s.len() ==> (#[trigger] s[i]).bbox.valid())
            ==> boxes_union(s).in_range(0x100_0000_0000),
    decreases s.len(),
{
    if s.len() > 0 {
        lemma_boxes_union_range(s.drop_last());
    }
}

/// The centroid bound of valid primitives stays in range.
proof fn lemma_prims_centroid_bound_range(prims: Seq<AccObj>)
    requires
        forall|i: int| 0 <= i < prims.len() ==> (#[trigger] prims[i]).bbox.valid(),
    ensures
        prims_centroid_bound(prims).in_range(0x1000_0000_0000),
    decreases prims.len(),
{
    if prims.len() > 0 {
        lemma_prims_centroid_bound_range(prims.drop_last());
    }
}

/// The centroid bound contains every primitive's doubled centroid.
proof fn lemma_prims_centroid_bound_contains(prims: Seq<AccObj>)
    ensures
        forall|i: int|
            0 <= i < prims.len() ==> prims_centroid_bound(prims).contains_point(
                (#[trigger] prims[i]).bbox.spec_centroid2(),
            ),
    decreases prims.len(),
{
    if prims.len() > 0 {
        lemma_prims_centroid_bound_contains(prims.drop_last());
        assert forall|i: int|
            0 <= i < prims.len() implies prims_centroid_bound(prims).contains_point(
            (#[trigger] prims[i]).bbox.spec_centroid2(),
        ) by {
            if i < prims.len() - 1 {
                assert(prims.drop_last()[i] == prims[i]);
                assert(prims_centroid_bound(prims.drop_last()).contains_point(
                    prims[i].bbox.spec_centroid2(),
                ));
            }
        }
    }
}

/// The bound over the doubled centroids of the given primitives.
#[verifier::loop_isolation(false)]
fn prims_centroid_bound_exec(prims: &Vec<AccObj>) -> (r: Bbox)
    requires
        forall|i: int| 0 <= i < prims@.len() ==> (#[trigger] prims@[i]).bbox.valid(),
    ensures
        r == prims_centroid_bound(prims@),
{
    let mut bound = Bbox::new();
    let mut i: usize = 0;
    while i < prims.len()
        invariant
            0 <= i <= prims@.len(),
            bound == prims_centroid_bound(prims@.take(i as int)),
        decreases prims@.len() - i,
    {
        let p = &prims[i];
        let c = p.bbox.centroid2();
        bound.include_vertex(c);
        proof {
            assert(prims@.take(i + 1).drop_last() =~= prims@.take(i as int));
            assert(prims@.take(i + 1).last() == prims@[i as int]);
        }
        i += 1;
    }
    proof {
        assert(prims@.take(prims@.len() as int) =~= prims@);
    }
    bound
}

/// The Morton primitive of one input position: its index paired with the
/// code of its box's centroid inside the bound.
fn morton_primitive_for(prims: &Vec<AccObj>, bound: &Bbox, idx: u32) -> (r: MortonPrimitive)
    requires
        (idx as int) < prims@.len(),
        prims@.len() <= MAX_BVH_PRIMITIVES,
        forall|i: int| 0 <= i < prims@.len() ==> (#[trigger] prims@[i]).bbox.valid(),
        bound.in_range(0x1000_0000_0000),
        bound.contains_point(prims@[idx as int].bbox.spec_centroid2()),
    ensures
        r == spec_morton_prim(prims@, *bound, idx as int),
        r.morton_code < 0x4000_0000,
        r.index == idx,
{
    let p = &prims[idx as usize];
    let c = p.bbox.centroid2();
    let code = morton_of_point(c, bound);
    proof {
        assert((1u32 << 30) == 0x4000_0000) by (bit_vector);
    }
    MortonPrimitive { index: idx, morton_code: code }
}

/// The Morton primitives of the input, computed one after the other.
#[verifier::loop_isolation(false)]
fn morton_primitives_seq(prims: &Vec<AccObj>, bound: &Bbox) -> (r: Vec<MortonPrimitive>)
    requires
        prims@.len() <= MAX_BVH_PRIMITIVES,
        forall|i: int| 0 <= i < prims@.len() ==> (#[trigger] prims@[i]).bbox.valid(),
        bound.in_range(0x1000_0000_0000),
        forall|i: int|
            0 <= i < prims@.len() ==> bound.contains_point(
                (#[trigger] prims@[i]).bbox.spec_centroid2(),
            ),
    ensures
        r@.len() == prims@.len(),
        forall|i: int| 0 <= i < r@.len() ==> #[trigger] r@[i] == spec_morton_prim(
            prims@,
            *bound,
            i,
        ),
{
    let mut out: Vec<MortonPrimitive> = Vec::new();
    let mut i: usize = 0;
    while i < prims.len()
        invariant
            0 <= i <= prims@.len(),
            out@.len() == i,
            forall|j: int| 0 <= j < i ==> #[trigger] out@[j] == spec_morton_prim(
                prims@,
                *bound,
                j,
            ),
        decreases prims@.len() - i,
    {
        out.push(morton_primitive_for(prims, bound, i as u32));
        i += 1;
    }
    out
}

/// Relies on rayon's parallel map over an index range: `collect` gathers,
/// in index order, the values of the verified per-index function.
#[verifier::external_body]
fn morton_primitives_par(prims: &Vec<AccObj>, bound: &Bbox) -> (r: Vec<MortonPrimitive>)
    requires
        prims@.len() <= MAX_BVH_PRIMITIVES,
        forall|i: int| 0 <= i < prims@.len() ==> (#[trigger] prims@[i]).bbox.valid(),
        bound.in_range(0x1000_0000_0000),
        forall|i: int|
            0 <= i < prims@.len() ==> bound.contains_point(
                (#[trigger] prims@[i]).bbox.spec_centroid2(),
            ),
    ensures
        r@.len() == prims@.len(),
        forall|i: int| 0 <= i < r@.len() ==> #[trigger] r@[i] == spec_morton_prim(
            prims@,
            *bound,
            i,
        ),
{
    (0..prims.len() as u32)
        .into_par_iter()
        .map(|idx| morton_primitive_for(prims, bound, idx))
        .collect()
}

/// Pack a Morton primitive into its 64-bit sort key.
fn pack_key(mp: MortonPrimitive) -> (r: u64)
    ensures
        r == spec_pack_key(mp),
{
    ((mp.morton_code as u64) << 32) | (mp.index as u64)
}

/// Unpack a sort key back into a Morton primitive.
fn unpack_key(k: u64) -> (r: MortonPrimitive)
    ensures
        r == spec_unpack_key(k),
{
    MortonPrimitive { index: (k & 0xffff_ffff) as u32, morton_code: (k >> 32) as u32 }
}

/// Packing then unpacking returns the same Morton primitive, whole.
proof fn lemma_unpack_pack_id(mp: MortonPrimitive)
    ensures
        spec_unpack_key(spec_pack_key(mp)) == mp,
{
    lemma_pack_unpack(mp.morton_code, mp.index);
}

/// Treelet tasks as mathematical pairs.
pub open spec fn tasks_as_int(s: Seq<(usize, usize)>) -> Seq<(int, int)> {
    s.map_values(|t: (usize, usize)| (t.0 as int, t.1 as int))
}

/// Pool the Morton-sorted primitives into treelet runs: maximal
/// contiguous runs sharing the top 12 code bits.
#[verifier::loop_isolation(false)]
fn build_treelet_tasks(mortons: &Vec<MortonPrimitive>) -> (r: Vec<(usize, usize)>)
    requires
        mortons@.len() <= MAX_BVH_PRIMITIVES,
    ensures
        tasks_as_int(r@) == spec_treelets(mortons@, 0),
{
    let n = mortons.len();
    let mut tasks: Vec<(usize, usize)> = Vec::new();
    let mut start: usize = 0;
    let mut end: usize = 1;
    while end <= n
        invariant
            start < end <= n + 1,
            end <= n + 1,
            end == n + 1 ==> start == n,
            tasks_as_int(tasks@) + spec_treelets(mortons@, start as int) == spec_treelets(
                mortons@,
                0,
            ),
            forall|j: int|
                start < j < end && j < n ==> (#[trigger] mortons@[j]).morton_code & TREELET_MASK
                    == mortons@[start as int].morton_code & TREELET_MASK,
        decreases n + 1 - end,
    {
        let is_boundary = if end == n {
            true
        } else {
            (mortons[start].morton_code & TREELET_MASK) != (mortons[end].morton_code
                & TREELET_MASK)
        };
        if is_boundary {
            let num_primitives = end - start;
            proof {
                lemma_run_end_range(mortons@, start as int, start + 1);
                let e = run_end_from(mortons@, start as int, start + 1);
                assert(e == end) by {
                    if e < end {
                        assert(mortons@[e].morton_code & TREELET_MASK
                            == mortons@[start as int].morton_code & TREELET_MASK);
                    }
                    if e > end {
                        assert(end < mortons@.len());
                        assert(mortons@[end as int].morton_code & TREELET_MASK
                            == mortons@[start as int].morton_code & TREELET_MASK);
                    }
                }
                assert(spec_treelets(mortons@, start as int) == Seq::<(int, int)>::empty().push(
                    (start as int, end - start),
                ) + spec_treelets(mortons@, end as int));
                assert(tasks_as_int(tasks@.push((start, num_primitives))) =~= tasks_as_int(
                    tasks@,
                ).push((start as int, end - start)));
                assert(tasks_as_int(tasks@).push((start as int, end - start)) + spec_treelets(
                    mortons@,
                    end as int,
                ) =~= tasks_as_int(tasks@) + spec_treelets(mortons@, start as int));
            }
            tasks.push((start, num_primitives));
            start = end;
        }
        end += 1;
    }
    proof {
        assert(spec_treelets(mortons@, start as int) == Seq::<(int, int)>::empty());
        assert(tasks_as_int(tasks@) + Seq::<(int, int)>::empty() =~= tasks_as_int(tasks@));
    }
    tasks
}

/// Create a new leaf node.
fn new_leaf(first_prim_offset: u32, num_primitives: u32, bbox: Bbox) -> (r: BvhBuildNode)
    ensures
        r == (BvhBuildNode {
            bbox,
            node_type: BvhBuildNodeType::Leaf { num_primitives, first_prim_offset },
        }),
{
    BvhBuildNode {
        bbox,
        node_type: BvhBuildNodeType::Leaf { num_primitives, first_prim_offset },
    }
}

/// Create a new interior node whose bound is the union of its children's.
fn new_internal(axis: Split, child0: BvhBuildNode, child1: BvhBuildNode) -> (r: BvhBuildNode)
    ensures
        is_internal_of(r, axis, child0, child1),
{
    let mut bbox = child0.bbox;
    bbox.include_bbox(&child1.bbox);
    BvhBuildNode {
        bbox,
        node_type: BvhBuildNodeType::Interior {
            split: axis,
            left: Box::new(child0),
            right: Box::new(child1),
        },
    }
}

/// Create an LBVH subtree from a Morton-sorted run, returning the subtree,
/// the run's primitives in Morton order, and the node count.
#[verifier::loop_isolation(false)]
#[verifier::rlimit(100)]
fn emit_lbvh(
    prims: &Vec<AccObj>,
    mortons: &Vec<MortonPrimitive>,
    morton_offset: usize,
    num: usize,
    bit_index: i32,
    max_prims: u32,
) -> (res: (BvhBuildNode, Vec<AccObj>, usize))
    requires
        morton_offset + num <= mortons@.len(),
        mortons@.len() <= MAX_BVH_PRIMITIVES,
        forall|i: int| 0 <= i < mortons@.len() ==> (#[trigger] mortons@[i]).index < prims@.len(),
        -1 <= bit_index <= 29,
        max_prims >= 1,
        range_sorted(mortons@, morton_offset as int, num as int),
        num <= 2 || agree_above(mortons@, morton_offset as int, num as int, bit_index as int),
    ensures
        emit_matches(
            res.0,
            prims@,
            mortons@,
            morton_offset as int,
            num as int,
            bit_index as int,
            max_prims as int,
        ),
        res.1@ == emit_ordered(prims@, mortons@, morton_offset as int, num as int),
        res.2 == node_count(res.0),
    decreases bit_index + 1,
{
    let ghost goffset = morton_offset as int;
    let ghost gnum = num as int;
    let ghost gbit = bit_index as int;
    if bit_index <= -1 || num < max_prims as usize {
        let mut bbox = Bbox::new();
        let mut out: Vec<AccObj> = Vec::new();
        let ghost target = emit_ordered(prims@, mortons@, goffset, gnum);
        let mut i: usize = 0;
        while i < num
            invariant
                0 <= i <= num,
                out@ == target.take(i as int),
                bbox == boxes_union(out@),
            decreases num - i,
        {
            let mp = mortons[morton_offset + i];
            let p = prims[mp.index as usize];
            proof {
                assert(target.take(i + 1).drop_last() =~= target.take(i as int));
                assert(target.take(i + 1).last() == p);
                assert(out@.push(p) =~= target.take(i + 1));
            }
            out.push(p);
            bbox.include_bbox(&p.bbox);
            i += 1;
        }
        proof {
            assert(target.take(gnum) =~= target);
        }
        (new_leaf(morton_offset as u32, num as u32, bbox), out, 1)
    } else {
        let mask: u32 = 1u32 << (bit_index as u32);
        let first_code = mortons[morton_offset].morton_code;
        let last_code = mortons[morton_offset + num - 1].morton_code;
        let ghost bitu = bit_index as u32;
        proof {
            assert(mask == 1u32 << bitu);
        }
        if first_code & mask == last_code & mask {
            // The bit carries no information here: drop it and go on.
            proof {
                if num > 2 {
                    assert forall|r: int| 0 <= r < gnum implies shares_first_bit(
                        mortons@,
                        goffset,
                        r,
                        mask,
                    ) by {
                        lemma_pred_monotone(mortons@, goffset, gnum, bitu, r, gnum - 1);
                    }
                    assert forall|i: int, j: int|
                        goffset <= i < gnum + goffset && goffset <= j < gnum + goffset implies (
                    #[trigger] mortons@[i]).morton_code >> (gbit as u32) == (
                    #[trigger] mortons@[j]).morton_code >> (gbit as u32) by {
                        assert(shares_first_bit(mortons@, goffset, i - goffset, mask));
                        assert(shares_first_bit(mortons@, goffset, j - goffset, mask));
                        lemma_shift_down(
                            mortons@[i].morton_code,
                            mortons@[j].morton_code,
                            bitu,
                        );
                    }
                    assert(agree_above(mortons@, goffset, gnum, gbit - 1));
                }
            }
            emit_lbvh(prims, mortons, morton_offset, num, bit_index - 1, max_prims)
        } else {
            proof {
                assert(num >= 2) by {
                    if num < 2 {
                        assert(goffset + gnum - 1 == goffset);
                    }
                }
                lemma_flip_props(mortons@, goffset, gnum, mask, 1);
            }
            let ghost flip = flip_from(mortons@, goffset, gnum, mask, 1);
            // Binary search for the first position whose bit flips.
            let mut size = num - 2;
            let mut first: usize = 1;
            while size > 0
                invariant
                    1 <= first,
                    first + size <= num - 1,
                    forall|r: int|
                        1 <= r < first ==> shares_first_bit(mortons@, goffset, r, mask),
                    forall|r: int|
                        first + size <= r < gnum - 1 ==> !shares_first_bit(
                            mortons@,
                            goffset,
                            r,
                            mask,
                        ),
                decreases size,
            {
                let half = size / 2;
                let middle = first + half;
                let result = mortons[morton_offset + middle].morton_code & mask == first_code
                    & mask;
                proof {
                    if num > 2 {
                        if result {
                            assert forall|r: int| 1 <= r < middle + 1 implies shares_first_bit(
                                mortons@,
                                goffset,
                                r,
                                mask,
                            ) by {
                                lemma_pred_monotone(
                                    mortons@,
                                    goffset,
                                    gnum,
                                    bitu,
                                    r,
                                    middle as int,
                                );
                            }
                        } else {
                            assert forall|r: int|
                                middle <= r < gnum - 1 implies !shares_first_bit(
                                mortons@,
                                goffset,
                                r,
                                mask,
                            ) by {
                                if shares_first_bit(mortons@, goffset, r, mask) {
                                    lemma_pred_monotone(
                                        mortons@,
                                        goffset,
                                        gnum,
                                        bitu,
                                        middle as int,
                                        r,
                                    );
                                }
                            }
                        }
                    }
                }
                if result {
                    first = middle + 1;
                    size = size - (half + 1);
                } else {
                    size = half;
                }
            }
            proof {
                // The search found exactly the code-flip position.
                assert(!shares_first_bit(mortons@, goffset, gnum - 1, mask));
                if flip < first as int {
                    assert(shares_first_bit(mortons@, goffset, flip, mask));
                    assert(false);
                }
                if flip > first as int {
                    assert(shares_first_bit(mortons@, goffset, first as int, mask));
                    if (first as int) < gnum - 1 {
                        assert(!shares_first_bit(mortons@, goffset, first as int, mask));
                    }
                    assert(false);
                }
                assert(flip == first as int);
            }
            let split_offset = if first > num - 2 {
                num - 2
            } else {
                first
            };
            let ghost gsplit = split_offset as int;
            proof {
                assert(gsplit == spec_split_rel(mortons@, goffset, gnum, mask));
                // The left half shares the first code's bit, so it agrees
                // above the next bit; same for the right half when it is
                // the whole tail past the flip.
                if gsplit > 2 {
                    assert forall|i: int, j: int|
                        goffset <= i < gsplit + goffset && goffset <= j < gsplit
                            + goffset implies (#[trigger] mortons@[i]).morton_code >> (
                    gbit as u32) == (#[trigger] mortons@[j]).morton_code >> (gbit as u32) by {
                        assert(shares_first_bit(mortons@, goffset, i - goffset, mask));
                        assert(shares_first_bit(mortons@, goffset, j - goffset, mask));
                        lemma_shift_down(
                            mortons@[i].morton_code,
                            mortons@[j].morton_code,
                            bitu,
                        );
                    }
                    assert(agree_above(mortons@, goffset, gsplit, gbit - 1));
                }
                if gnum - gsplit > 2 {
                    assert(gsplit == flip);
                    assert forall|r: int| gsplit <= r < gnum implies !shares_first_bit(
                        mortons@,
                        goffset,
                        r,
                        mask,
                    ) by {
                        if r > flip && shares_first_bit(mortons@, goffset, r, mask) {
                            lemma_pred_monotone(mortons@, goffset, gnum, bitu, flip, r);
                        }
                    }
                    assert forall|i: int, j: int|
                        goffset + gsplit <= i < gnum + goffset && goffset + gsplit <= j < gnum
                            + goffset implies (#[trigger] mortons@[i]).morton_code >> (
                    gbit as u32) == (#[trigger] mortons@[j]).morton_code >> (gbit as u32) by {
                        assert(!shares_first_bit(mortons@, goffset, i - goffset, mask));
                        assert(!shares_first_bit(mortons@, goffset, j - goffset, mask));
                        lemma_bit_two_values(
                            mortons@[goffset].morton_code,
                            mortons@[i].morton_code,
                            mortons@[j].morton_code,
                            bitu,
                        );
                        lemma_shift_down(
                            mortons@[i].morton_code,
                            mortons@[j].morton_code,
                            bitu,
                        );
                    }
                    assert(agree_above(mortons@, goffset + gsplit, gnum - gsplit, gbit - 1));
                }
            }
            let (left_node, mut left_out, left_count) = emit_lbvh(
                prims,
                mortons,
                morton_offset,
                split_offset,
                bit_index - 1,
                max_prims,
            );
            let (right_node, mut right_out, right_count) = emit_lbvh(
                prims,
                mortons,
                morton_offset + split_offset,
                num - split_offset,
                bit_index - 1,
                max_prims,
            );
            let axis = (bit_index as u32) % 3;
            proof {
                lemma_emit_count_bound(
                    left_node,
                    prims@,
                    mortons@,
                    goffset,
                    gsplit,
                    gbit - 1,
                    max_prims as int,
                );
                lemma_emit_count_bound(
                    right_node,
                    prims@,
                    mortons@,
                    goffset + gsplit,
                    gnum - gsplit,
                    gbit - 1,
                    max_prims as int,
                );
                assert(gsplit * (gbit + 3) <= gnum * (gbit + 3) && (gnum - gsplit) * (gbit + 3)
                    <= gnum * (gbit + 3)) by (nonlinear_arith)
                    requires
                        0 <= gsplit <= gnum,
                        gbit >= 0,
                ;
                assert(gnum * (gbit + 3) <= 0x0100_0000 * 32) by (nonlinear_arith)
                    requires
                        0 <= gnum <= 0x0100_0000,
                        0 <= gbit + 3 <= 32,
                ;
                assert(node_count(left_node) <= 1 + 0x0100_0000 * 32);
                assert(node_count(right_node) <= 1 + 0x0100_0000 * 32);
                assert(left_out@ + right_out@ =~= emit_ordered(
                    prims@,
                    mortons@,
                    goffset,
                    gnum,
                ));
                assert(axis == (gbit % 3));
            }
            proof {
                assert(left_count <= 1 + 0x0100_0000 * 32);
                assert(right_count <= 1 + 0x0100_0000 * 32);
            }
            let node = new_internal(Split::from_axis(axis), left_node, right_node);
            left_out.append(&mut right_out);
            (node, left_out, left_count + right_count + 1)
        }
    }
}

/// Build the subtree of one treelet run, starting below the treelet bits.
fn emit_treelet_task(
    prims: &Vec<AccObj>,
    mortons: &Vec<MortonPrimitive>,
    start: usize,
    num: usize,
    max_prims: u32,
) -> (r: (BvhBuildNode, Vec<AccObj>, usize))
    requires
        start + num <= mortons@.len(),
        mortons@.len() <= MAX_BVH_PRIMITIVES,
        forall|i: int| 0 <= i < mortons@.len() ==> (#[trigger] mortons@[i]).index < prims@.len(),
        max_prims >= 1,
        range_sorted(mortons@, start as int, num as int),
        num <= 2 || agree_above(mortons@, start as int, num as int, FIRST_BIT_INDEX as int),
    ensures
        emit_matches(
            r.0,
            prims@,
            mortons@,
            start as int,
            num as int,
            FIRST_BIT_INDEX as int,
            max_prims as int,
        ),
        r.1@ == emit_ordered(prims@, mortons@, start as int, num as int),
        r.2 == node_count(r.0),
{
    emit_lbvh(prims, mortons, start, num, FIRST_BIT_INDEX, max_prims)
}

/// Build the treelet subtrees one after the other.
#[verifier::loop_isolation(false)]
fn emit_treelets_seq(
    prims: &Vec<AccObj>,
    mortons: &Vec<MortonPrimitive>,
    tasks: &Vec<(usize, usize)>,
    max_prims: u32,
) -> (r: Vec<(BvhBuildNode, Vec<AccObj>, usize)>)
    requires
        mortons@.len() <= MAX_BVH_PRIMITIVES,
        forall|i: int| 0 <= i < mortons@.len() ==> (#[trigger] mortons@[i]).index < prims@.len(),
        max_prims >= 1,
        forall|k: int|
            0 <= k < tasks@.len() ==> {
                let t = #[trigger] tasks@[k];
                &&& t.0 + t.1 <= mortons@.len()
                &&& range_sorted(mortons@, t.0 as int, t.1 as int)
                &&& (t.1 <= 2 || agree_above(
                    mortons@,
                    t.0 as int,
                    t.1 as int,
                    FIRST_BIT_INDEX as int,
                ))
            },
    ensures
        r@.len() == tasks@.len(),
        forall|k: int|
            0 <= k < r@.len() ==> {
                let t = tasks@[k];
                &&& emit_matches(
                    (#[trigger] r@[k]).0,
                    prims@,
                    mortons@,
                    t.0 as int,
                    t.1 as int,
                    FIRST_BIT_INDEX as int,
                    max_prims as int,
                )
                &&& r@[k].1@ == emit_ordered(prims@, mortons@, t.0 as int, t.1 as int)
                &&& r@[k].2 == node_count(r@[k].0)
            },
{
    let mut out: Vec<(BvhBuildNode, Vec<AccObj>, usize)> = Vec::new();
    let mut k: usize = 0;
    while k < tasks.len()
        invariant
            0 <= k <= tasks@.len(),
            out@.len() == k,
            forall|j: int|
                0 <= j < k ==> {
                    let t = tasks@[j];
                    &&& emit_matches(
                        (#[trigger] out@[j]).0,
                        prims@,
                        mortons@,
                        t.0 as int,
                        t.1 as int,
                        FIRST_BIT_INDEX as int,
                        max_prims as int,
                    )
                    &&& out@[j].1@ == emit_ordered(prims@, mortons@, t.0 as int, t.1 as int)
                    &&& out@[j].2 == node_count(out@[j].0)
                },
        decreases tasks@.len() - k,
    {
        let t = tasks[k];
        out.push(emit_treelet_task(prims, mortons, t.0, t.1, max_prims));
        k += 1;
    }
    out
}

/// Relies on rayon's parallel map over the treelet tasks: `collect`
/// gathers, in task order, the results of the verified per-treelet
/// builder.
#[verifier::external_body]
fn emit_treelets_par(
    prims: &Vec<AccObj>,
    mortons: &Vec<MortonPrimitive>,
    tasks: &Vec<(usize, usize)>,
    max_prims: u32,
) -> (r: Vec<(BvhBuildNode, Vec<AccObj>, usize)>)
    requires
        mortons@.len() <= MAX_BVH_PRIMITIVES,
        forall|i: int| 0 <= i < mortons@.len() ==> (#[trigger] mortons@[i]).index < prims@.len(),
        max_prims >= 1,
        forall|k: int|
            0 <= k < tasks@.len() ==> {
                let t = #[trigger] tasks@[k];
                &&& t.0 + t.1 <= mortons@.len()
                &&& range_sorted(mortons@, t.0 as int, t.1 as int)
                &&& (t.1 <= 2 || agree_above(
                    mortons@,
                    t.0 as int,
                    t.1 as int,
                    FIRST_BIT_INDEX as int,
                ))
            },
    ensures
        r@.len() == tasks@.len(),
        forall|k: int|
            0 <= k < r@.len() ==> {
                let t = tasks@[k];
                &&& emit_matches(
                    (#[trigger] r@[k]).0,
                    prims@,
                    mortons@,
                    t.0 as int,
                    t.1 as int,
                    FIRST_BIT_INDEX as int,
                    max_prims as int,
                )
                &&& r@[k].1@ == emit_ordered(prims@, mortons@, t.0 as int, t.1 as int)
                &&& r@[k].2 == node_count(r@[k].0)
            },
{
    tasks.par_iter().map(|t| emit_treelet_task(prims, mortons, t.0, t.1, max_prims)).collect()
}

/// The position right after the first `k` treelet runs.
pub open spec fn prefix_end(ts: Seq<(int, int)>, k: int) -> int {
    if k <= 0 {
        0
    } else {
        ts[k - 1].0 + ts[k - 1].1
    }
}

/// Every Morton code of three interleaved 10-bit coordinates stays below
/// 30 bits.
proof fn lemma_encode_bound(a: u32, b: u32, c: u32)
    by (bit_vector)
    ensures
        crate::morton::spec_encode_morton_3(a, b, c) < 0x4000_0000u32,
{
}

/// The functional relation pinning a finished build: its treelet roots
/// satisfy the emit relation on the sorted Morton runs, and the root
/// collapses them.
pub open spec fn bvh_build_matches(root: BvhBuildNode, prims: Seq<AccObj>, max_prims: int) -> bool {
    let mortons = spec_sorted_mortons(prims);
    let tasks = spec_treelets(mortons, 0);
    exists|roots: Seq<BvhBuildNode>|
        {
            &&& #[trigger] collapse_matches(root, roots)
            &&& roots.len() == tasks.len()
            &&& forall|k: int|
                0 <= k < tasks.len() ==> emit_matches(
                    #[trigger] roots[k],
                    prims,
                    mortons,
                    tasks[k].0,
                    tasks[k].1,
                    FIRST_BIT_INDEX as int,
                    max_prims,
                )
        }
}

/// The built tree is unique: whichever threading mode ran the build, the
/// same input yields the same tree.
pub proof fn lemma_build_unique(a: BvhBuildNode, b: BvhBuildNode, prims: Seq<AccObj>, max_prims: int)
    requires
        bvh_build_matches(a, prims, max_prims),
        bvh_build_matches(b, prims, max_prims),
    ensures
        a == b,
{
    let mortons = spec_sorted_mortons(prims);
    let tasks = spec_treelets(mortons, 0);
    let ra = choose|roots: Seq<BvhBuildNode>|
        {
            &&& #[trigger] collapse_matches(a, roots)
            &&& roots.len() == tasks.len()
            &&& forall|k: int|
                0 <= k < tasks.len() ==> emit_matches(
                    #[trigger] roots[k],
                    prims,
                    mortons,
                    tasks[k].0,
                    tasks[k].1,
                    FIRST_BIT_INDEX as int,
                    max_prims,
                )
        };
    let rb = choose|roots: Seq<BvhBuildNode>|
        {
            &&& #[trigger] collapse_matches(b, roots)
            &&& roots.len() == tasks.len()
            &&& forall|k: int|
                0 <= k < tasks.len() ==> emit_matches(
                    #[trigger] roots[k],
                    prims,
                    mortons,
                    tasks[k].0,
                    tasks[k].1,
                    FIRST_BIT_INDEX as int,
                    max_prims,
                )
        };
    assert forall|k: int| 0 <= k < tasks.len() implies ra[k] == rb[k] by {
        lemma_emit_unique(
            ra[k],
            rb[k],
            prims,
            mortons,
            tasks[k].0,
            tasks[k].1,
            FIRST_BIT_INDEX as int,
            max_prims,
        );
    }
    assert(ra =~= rb);
    lemma_collapse_unique(a, b, ra);
}

/// The bounding volume hierarchy: a build tree, the primitives reordered
/// so each leaf holds a contiguous run, and the node count that presizes
/// the flat array.
#[derive(Debug)]
pub struct Bvh {
    root: BvhBuildNode,
    primitives: Vec<AccObj>,
    total_nodes: u32,
    /// Phase timings a benchmark driver may fill in.
    pub time: BvhConstructionTime,
}

impl Bvh {
    /// The build tree.
    pub closed spec fn spec_root(self) -> BvhBuildNode {
        self.root
    }

    /// The reordered primitives.
    pub closed spec fn spec_primitives(self) -> Seq<AccObj> {
        self.primitives@
    }

    /// The number of nodes in the tree.
    pub closed spec fn spec_total_nodes(self) -> u32 {
        self.total_nodes
    }

    /// The phase timings.
    pub closed spec fn spec_time(self) -> BvhConstructionTime {
        self.time
    }

    /// Construct a BVH with the hierarchical linear BVH method: Morton
    /// codes over the centroid bound, a radix sort, treelet subtrees
    /// (in parallel unless `single_threaded`), and a median-split collapse
    /// of the treelet roots.
    #[verifier::loop_isolation(false)]
    #[verifier::rlimit(100)]
    pub fn new(primitives: &Vec<AccObj>, max_prims: u32, single_threaded: bool) -> (res: Bvh)
        requires
            1 <= primitives@.len() <= MAX_BVH_PRIMITIVES,
            max_prims >= 1,
            forall|i: int| 0 <= i < primitives@.len() ==> (#[trigger] primitives@[i]).bbox.valid(),
        ensures
            bvh_build_matches(res.spec_root(), primitives@, max_prims as int),
            res.spec_primitives() == spec_ordered_prims(primitives@),
            res.spec_total_nodes() == node_count(res.spec_root()),
            res.spec_time().morton_codes == 0 && res.spec_time().radix_sort == 0
                && res.spec_time().treelet_init == 0 && res.spec_time().treelet_build == 0
                && res.spec_time().upper_tree == 0 && res.spec_time().flattening == 0,
    {
        // Overall bound of the primitive centroids, for Morton bucketing.
        let bound = prims_centroid_bound_exec(primitives);
        proof {
            lemma_prims_centroid_bound_range(primitives@);
            lemma_prims_centroid_bound_contains(primitives@);
        }
        // One 30-bit Morton code per primitive.
        let mortons0 = if !single_threaded {
            morton_primitives_par(primitives, &bound)
        } else {
            morton_primitives_seq(primitives, &bound)
        };
        proof {
            assert(mortons0@ =~= spec_mortons(primitives@));
        }
        // Sort by packed key: code first, input position as tie-break.
        let mut keys: Vec<u64> = Vec::new();
        let mut i: usize = 0;
        while i < mortons0.len()
            invariant
                0 <= i <= mortons0@.len(),
                keys@.len() == i,
                forall|j: int| 0 <= j < i ==> #[trigger] keys@[j] == spec_pack_key(mortons0@[j]),
            decreases mortons0@.len() - i,
        {
            keys.push(pack_key(mortons0[i]));
            i += 1;
        }
        let ghost keys0 = keys@;
        proof {
            assert(keys0 =~= spec_mortons(primitives@).map_values(
                |mp: MortonPrimitive| spec_pack_key(mp),
            ));
        }
        let skeys = sort_keys(keys, !single_threaded);
        let mut mortons: Vec<MortonPrimitive> = Vec::new();
        let mut i: usize = 0;
        while i < skeys.len()
            invariant
                0 <= i <= skeys@.len(),
                mortons@.len() == i,
                forall|j: int| 0 <= j < i ==> #[trigger] mortons@[j] == spec_unpack_key(
                    skeys@[j],
                ),
            decreases skeys@.len() - i,
        {
            mortons.push(unpack_key(skeys[i]));
            i += 1;
        }
        proof {
            assert(mortons@ =~= spec_sorted_mortons(primitives@));
            broadcast use vstd::seq_lib::group_to_multiset_ensures;

            assert(vstd::relations::total_ordering(crate::sort::key_leq()));
            keys0.lemma_sort_by_ensures(crate::sort::key_leq());
            assert(skeys@.to_multiset() == keys0.to_multiset());
            skeys@.to_multiset_ensures();
            keys0.to_multiset_ensures();
            assert(skeys@.len() == keys0.len());
            assert(mortons@.len() == primitives@.len());
            assert(vstd::relations::sorted_by(skeys@, crate::sort::key_leq()));
            // Every sorted key unpacks to one of the original Morton
            // primitives: codes stay below 30 bits, positions in range.
            assert forall|q: int|
                0 <= q < mortons@.len() implies ((#[trigger] mortons@[q]).morton_code
                < 0x4000_0000 && (mortons@[q].index as int) < primitives@.len()) by {
                assert(skeys@.contains(skeys@[q]));
                assert(keys0.to_multiset().count(skeys@[q]) > 0);
                assert(keys0.contains(skeys@[q]));
                let j = choose|j: int| 0 <= j < keys0.len() && keys0[j] == skeys@[q];
                let mj = spec_mortons(primitives@)[j];
                lemma_unpack_pack_id(mj);
                lemma_encode_bound(
                    spec_quantize_arg(primitives@, j, 0),
                    spec_quantize_arg(primitives@, j, 1),
                    spec_quantize_arg(primitives@, j, 2),
                );
            }
            // Codes are ascending after the key sort.
            assert forall|q1: int, q2: int|
                0 <= q1 < q2 < mortons@.len() implies (#[trigger] mortons@[q1]).morton_code <= (
            #[trigger] mortons@[q2]).morton_code by {
                assert(crate::sort::key_leq()(skeys@[q1], skeys@[q2]));
                assert(skeys@[q1] <= skeys@[q2]);
                lemma_key_code_order(skeys@[q1], skeys@[q2]);
                assert(mortons@[q1] == spec_unpack_key(skeys@[q1]));
                assert(mortons@[q2] == spec_unpack_key(skeys@[q2]));
                assert((skeys@[q1] >> 32) <= (skeys@[q2] >> 32));
            }
            assert(range_sorted(mortons@, 0, mortons@.len() as int));
        }
        // Pool primitives into treelets by the top 12 code bits.
        let tasks = build_treelet_tasks(&mortons);
        let ghost tseq = spec_treelets(mortons@, 0);
        proof {
            lemma_treelets_props(mortons@, 0);
            assert forall|k: int| 0 <= k < tasks@.len() implies {
                let t = #[trigger] tasks@[k];
                &&& t.0 + t.1 <= mortons@.len()
                &&& range_sorted(mortons@, t.0 as int, t.1 as int)
                &&& (t.1 <= 2 || agree_above(
                    mortons@,
                    t.0 as int,
                    t.1 as int,
                    FIRST_BIT_INDEX as int,
                ))
            } by {
                assert(tasks_as_int(tasks@)[k] == tseq[k]);
                let t = tseq[k];
                if t.1 > 2 {
                    assert forall|q1: int, q2: int|
                        t.0 <= q1 < t.1 + t.0 && t.0 <= q2 < t.1 + t.0 implies (
                    #[trigger] mortons@[q1]).morton_code >> 18u32 == (
                    #[trigger] mortons@[q2]).morton_code >> 18u32 by {
                        lemma_mask_agree(mortons@[q1].morton_code, mortons@[q2].morton_code);
                    }
                }
            }
        }
        // Build every treelet's subtree.
        let results = if !single_threaded {
            emit_treelets_par(primitives, &mortons, &tasks, max_prims)
        } else {
            emit_treelets_seq(primitives, &mortons, &tasks, max_prims)
        };
        let ghost results0 = results@;
        let ghost target = spec_ordered_prims(primitives@);
        let mut results = results;
        let mut roots: Vec<BvhBuildNode> = Vec::new();
        let mut ordered: Vec<AccObj> = Vec::new();
        let mut count: usize = 0;
        let mut k: usize = 0;
        while k < tasks.len()
            invariant
                0 <= k <= tasks@.len(),
                results@ == results0.skip(k as int),
                roots@.len() == k,
                forall|j: int|
                    0 <= j < k ==> emit_matches(
                        #[trigger] roots@[j],
                        primitives@,
                        mortons@,
                        tseq[j].0,
                        tseq[j].1,
                        FIRST_BIT_INDEX as int,
                        max_prims as int,
                    ),
                count == sum_counts(roots@),
                count <= 22 * prefix_end(tseq, k as int),
                0 <= prefix_end(tseq, k as int) <= mortons@.len(),
                ordered@ == target.take(prefix_end(tseq, k as int)),
            decreases tasks@.len() - k,
        {
            let ghost pe = prefix_end(tseq, k as int);
            let (node, mut out, c) = results.remove(0);
            let ghost t = tseq[k as int];
            proof {
                assert(results0.skip(k as int)[0] == results0[k as int]);
                assert(results@ =~= results0.skip(k + 1));
                assert(tasks_as_int(tasks@)[k as int] == tseq[k as int]);
                assert(t.0 == pe) by {
                    if k == 0 {
                        assert(tseq[0].0 == 0);
                    } else {
                        assert((spec_treelets(mortons@, 0)[(k - 1) + 1]).0 == spec_treelets(
                            mortons@,
                            0,
                        )[k - 1].0 + spec_treelets(mortons@, 0)[k - 1].1);
                    }
                }
                lemma_emit_count_bound(
                    node,
                    primitives@,
                    mortons@,
                    t.0,
                    t.1,
                    FIRST_BIT_INDEX as int,
                    max_prims as int,
                );
                assert(node_count(node) <= 22 * t.1) by (nonlinear_arith)
                    requires
                        node_count(node) <= 1 + t.1 * (FIRST_BIT_INDEX + 4),
                        t.1 >= 1,
                ;
                lemma_sum_counts_push(roots@, node);
                assert(ordered@ + out@ =~= target.take(t.0 + t.1)) by {
                    assert(out@ == emit_ordered(primitives@, mortons@, t.0, t.1));
                    assert(target == emit_ordered(
                        primitives@,
                        mortons@,
                        0,
                        primitives@.len() as int,
                    ));
                }
                assert(prefix_end(tseq, k + 1) == t.0 + t.1);
            }
            roots.push(node);
            ordered.append(&mut out);
            count += c;
            k += 1;
        }
        proof {
            assert(prefix_end(tseq, tasks@.len() as int) == mortons@.len()) by {
                assert(tseq[tseq.len() - 1].0 + tseq[tseq.len() - 1].1 == mortons@.len());
            }
            assert(ordered@ =~= target);
            assert(roots@.len() >= 1);
            assert forall|j: int|
                0 <= j < roots@.len() implies (#[trigger] roots@[j]).bbox.in_range(
                0x100_0000_0000,
            ) by {
                lemma_emit_bbox_range(
                    roots@[j],
                    primitives@,
                    mortons@,
                    tseq[j].0,
                    tseq[j].1,
                    FIRST_BIT_INDEX as int,
                    max_prims as int,
                );
            }
        }
        proof {
            assert(tasks@.len() == tseq.len());
            assert(tseq.len() >= 1);
            assert(tseq.len() <= mortons@.len());
            assert(count <= 22 * 0x0100_0000);
        }
        // Collapse the treelet roots into a single tree.
        let (root, created) = collapse_build_nodes(roots);
        proof {
            assert(created <= 0x0100_0000);
            assert(count + created <= 22 * 0x0100_0000 + 0x0100_0000);
        }
        let total_nodes = (count + created as usize) as u32;
        proof {
            assert(bvh_build_matches(root, primitives@, max_prims as int));
        }
        Bvh {
            root,
            primitives: ordered,
            total_nodes,
            time: BvhConstructionTime {
                morton_codes: 0,
                radix_sort: 0,
                treelet_init: 0,
                treelet_build: 0,
                upper_tree: 0,
                flattening: 0,
            },
        }
    }
}

/// A flat GPU node record: a bound, and either a leaf (positive primitive
/// count, offset into the flat primitive-index array) or an interior node
/// (count zero, offset of the right child; the left child always sits at
/// the next slot).
#[derive(Clone, Copy, Debug, PartialEq)]
pub struct GpuNode {
    pub min: Vec3<i64>,
    pub offset_ptr: u32,
    pub max: Vec3<i64>,
    pub number_of_prims: u32,
}

impl GpuNode {
    /// A placeholder record carrying a bound and marker fields.
    pub fn new(bbox: &Bbox) -> (r: Self)
        ensures
            r == (GpuNode {
                min: bbox.min,
                offset_ptr: 9999u32,
                max: bbox.max,
                number_of_prims: 9999u32,
            }),
    {
        GpuNode { min: bbox.min, offset_ptr: 9999, max: bbox.max, number_of_prims: 9999 }
    }
}

/// The flat array a subtree writes when its own record lands at `at`:
/// depth-first pre-order, the left child immediately after its parent,
/// the right child's position stored in the parent's offset field.
pub open spec fn spec_flatten(n: BvhBuildNode, at: int) -> Seq<GpuNode>
    decreases n,
{
    match n.node_type {
        BvhBuildNodeType::Leaf { num_primitives, first_prim_offset } => seq![
            GpuNode {
                min: n.bbox.min,
                offset_ptr: first_prim_offset,
                max: n.bbox.max,
                number_of_prims: num_primitives,
            },
        ],
        BvhBuildNodeType::Interior { split, left, right } => {
            let l = spec_flatten(*left, at + 1);
            let r = spec_flatten(*right, at + 1 + l.len());
            seq![
                GpuNode {
                    min: n.bbox.min,
                    offset_ptr: (at + 1 + l.len()) as u32,
                    max: n.bbox.max,
                    number_of_prims: 0u32,
                },
            ] + l + r
        },
    }
}

/// A subtree's flat array has one record per node.
pub proof fn lemma_spec_flatten_len(n: BvhBuildNode, at: int)
    ensures
        spec_flatten(n, at).len() == node_count(n),
    decreases n,
{
    match n.node_type {
        BvhBuildNodeType::Leaf { .. } => {},
        BvhBuildNodeType::Interior { split, left, right } => {
            lemma_spec_flatten_len(*left, at + 1);
            lemma_spec_flatten_len(*right, at + 1 + spec_flatten(*left, at + 1).len());
        },
    }
}

/// Write a subtree's records into the flat array, pre-order, returning
/// the subtree root's slot.
#[verifier::loop_isolation(false)]
fn flatten_recursive(nodes: &mut Vec<GpuNode>, cluster: &BvhBuildNode, offset: &mut usize) -> (r:
    usize)
    requires
        *old(offset) + node_count(*cluster) <= old(nodes)@.len(),
        old(nodes)@.len() <= u32::MAX,
    ensures
        final(nodes)@.len() == old(nodes)@.len(),
        *final(offset) == *old(offset) + node_count(*cluster),
        r == *old(offset),
        forall|i: int|
            0 <= i < old(nodes)@.len() ==> final(nodes)@[i] == (if *old(offset) <= i < *old(
                offset,
            ) + node_count(*cluster) {
                spec_flatten(*cluster, *old(offset) as int)[i - *old(offset)]
            } else {
                old(nodes)@[i]
            }),
    decreases *cluster,
{
    let current_offset = *offset;
    proof {
        lemma_spec_flatten_len(*cluster, current_offset as int);
    }
    *offset = *offset + 1;
    match &cluster.node_type {
        BvhBuildNodeType::Leaf { num_primitives, first_prim_offset } => {
            let g = GpuNode {
                min: cluster.bbox.min,
                offset_ptr: *first_prim_offset,
                max: cluster.bbox.max,
                number_of_prims: *num_primitives,
            };
            nodes.set(current_offset, g);
            proof {
                assert(spec_flatten(*cluster, current_offset as int)[0] == g);
            }
            current_offset
        },
        BvhBuildNodeType::Interior { split, left, right } => {
            let ghost lseq = spec_flatten(**left, current_offset + 1);
            let ghost rseq = spec_flatten(**right, current_offset + 1 + lseq.len());
            proof {
                lemma_spec_flatten_len(**left, current_offset + 1);
                lemma_spec_flatten_len(**right, current_offset + 1 + lseq.len());
            }
            flatten_recursive(nodes, left, offset);
            let offset_ptr = flatten_recursive(nodes, right, offset);
            let g = GpuNode {
                min: cluster.bbox.min,
                offset_ptr: offset_ptr as u32,
                max: cluster.bbox.max,
                number_of_prims: 0,
            };
            nodes.set(current_offset, g);
            proof {
                let whole = spec_flatten(*cluster, current_offset as int);
                assert(whole == seq![g] + lseq + rseq);
                assert forall|i: int|
                    current_offset <= i < current_offset + node_count(*cluster) implies nodes@[i]
                    == whole[i - current_offset] by {
                    if i == current_offset {
                        assert(whole[0] == g);
                    } else if i < current_offset + 1 + lseq.len() {
                        assert(whole[i - current_offset] == lseq[i - (current_offset + 1)]);
                    } else {
                        assert(whole[i - current_offset] == rseq[i - (current_offset + 1
                            + lseq.len())]);
                    }
                }
            }
            current_offset
        },
    }
}

impl Bvh {
    /// The structural invariant every finished build meets: the stored
    /// node count is the tree's node count.
    pub open spec fn wf(self) -> bool {
        self.spec_total_nodes() == node_count(self.spec_root())
    }

    /// Flatten the hierarchy into its compact flat representation:
    /// exactly one record per node, in depth-first pre-order.
    pub fn flatten(&self) -> (r: Vec<GpuNode>)
        requires
            self.wf(),
        ensures
            r@ == spec_flatten(self.spec_root(), 0),
            r@.len() == self.spec_total_nodes(),
    {
        proof {
            lemma_spec_flatten_len(self.root, 0);
        }
        let total = self.total_nodes as usize;
        let mut nodes: Vec<GpuNode> = Vec::new();
        let filler = GpuNode::new(&self.root.bbox);
        let mut i: usize = 0;
        while i < total
            invariant
                0 <= i <= total,
                nodes@.len() == i,
            decreases total - i,
        {
            nodes.push(filler);
            i += 1;
        }
        let mut offset: usize = 0;
        flatten_recursive(&mut nodes, &self.root, &mut offset);
        proof {
            assert(nodes@ =~= spec_flatten(self.spec_root(), 0));
        }
        nodes
    }

    /// The primitive indices for the flat nodes: the reordered
    /// primitives' stable indices, which leaf records address by offset
    /// and count.
    pub fn triangles(&self) -> (r: Vec<u32>)
        ensures
            r@.len() == self.spec_primitives().len(),
            forall|i: int| 0 <= i < r@.len() ==> #[trigger] r@[i] == self.spec_primitives()[i].idx,
    {
        let mut out: Vec<u32> = Vec::new();
        let mut i: usize = 0;
        while i < self.primitives.len()
            invariant
                0 <= i <= self.primitives@.len(),
                out@.len() == i,
                forall|j: int| 0 <= j < i ==> #[trigger] out@[j] == self.primitives@[j].idx,
            decreases self.primitives@.len() - i,
        {
            out.push(self.primitives[i].idx);
            i += 1;
        }
        out
    }
}

/// Every interior node's bound is exactly the union of its children's
/// bounds; leaves carry the union of their primitives' boxes by
/// construction.
pub open spec fn boxes_wf(n: BvhBuildNode) -> bool
    decreases n,
{
    match n.node_type {
        BvhBuildNodeType::Leaf { .. } => true,
        BvhBuildNodeType::Interior { split, left, right } => {
            &&& n.bbox == Bbox::spec_union(left.bbox, right.bbox)
            &&& boxes_wf(*left)
            &&& boxes_wf(*right)
        },
    }
}

/// A union contains both of its arguments, on all six faces.
pub proof fn lemma_union_contains(a: Bbox, b: Bbox)
    ensures
        Bbox::spec_union(a, b).contains_box(a),
        Bbox::spec_union(a, b).contains_box(b),
{
}

/// Trees from the treelet phase have exact bounds throughout.
pub proof fn law_emit_boxes_wf(
    n: BvhBuildNode,
    prims: Seq<AccObj>,
    mortons: Seq<MortonPrimitive>,
    offset: int,
    num: int,
    bit: int,
    max_prims: int,
)
    requires
        emit_matches(n, prims, mortons, offset, num, bit, max_prims),
    ensures
        boxes_wf(n),
    decreases bit + 1,
{
    if bit <= -1 || num < max_prims {
    } else {
        let mask = 1u32 << (bit as u32);
        if mortons[offset].morton_code & mask == mortons[offset + num - 1].morton_code & mask {
            law_emit_boxes_wf(n, prims, mortons, offset, num, bit - 1, max_prims);
        } else {
            let s = spec_split_rel(mortons, offset, num, mask);
            match n.node_type {
                BvhBuildNodeType::Leaf { .. } => {
                    assert(false);
                },
                BvhBuildNodeType::Interior { split, left, right } => {
                    law_emit_boxes_wf(*left, prims, mortons, offset, s, bit - 1, max_prims);
                    law_emit_boxes_wf(
                        *right,
                        prims,
                        mortons,
                        offset + s,
                        num - s,
                        bit - 1,
                        max_prims,
                    );
                },
            }
        }
    }
}

/// The collapse keeps bounds exact when all the roots it starts from
/// have exact bounds.
pub proof fn law_collapse_boxes_wf(n: BvhBuildNode, s: Seq<BvhBuildNode>)
    requires
        collapse_matches(n, s),
        forall|i: int| 0 <= i < s.len() ==> boxes_wf(#[trigger] s[i]),
    ensures
        boxes_wf(n),
    decreases s.len(),
{
    broadcast use vstd::seq_lib::group_to_multiset_ensures;

    if s.len() <= 1 {
    } else {
        let dim = nodes_centroid_bound(s).spec_longest_axis() as int;
        lemma_sort_nodes_props(s, dim);
        let ss = sort_nodes(s, dim);
        let mid = s.len() as int / 2;
        assert forall|i: int| 0 <= i < ss.len() implies boxes_wf(#[trigger] ss[i]) by {
            assert(ss.contains(ss[i]));
            assert(ss.to_multiset().count(ss[i]) > 0);
            assert(s.contains(ss[i]));
            let j = choose|j: int| 0 <= j < s.len() && s[j] == ss[i];
            assert(boxes_wf(s[j]));
        }
        match n.node_type {
            BvhBuildNodeType::Leaf { .. } => {
                assert(false);
            },
            BvhBuildNodeType::Interior { split, left, right } => {
                assert forall|i: int|
                    0 <= i < ss.subrange(0, mid).len() implies boxes_wf(
                    #[trigger] ss.subrange(0, mid)[i],
                ) by {
                    assert(ss.subrange(0, mid)[i] == ss[i]);
                }
                assert forall|i: int|
                    0 <= i < ss.subrange(mid, s.len() as int).len() implies boxes_wf(
                    #[trigger] ss.subrange(mid, s.len() as int)[i],
                ) by {
                    assert(ss.subrange(mid, s.len() as int)[i] == ss[mid + i]);
                }
                law_collapse_boxes_wf(*left, ss.subrange(0, mid));
                law_collapse_boxes_wf(*right, ss.subrange(mid, s.len() as int));
            },
        }
    }
}

/// Bounding-box exactness of a finished build: every interior node's
/// bound is exactly the union of its children's, so in particular each
/// child's bound is contained in its parent's on all six faces.
pub proof fn law_bvh_boxes_wf(root: BvhBuildNode, prims: Seq<AccObj>, max_prims: int)
    requires
        bvh_build_matches(root, prims, max_prims),
    ensures
        boxes_wf(root),
{
    let mortons = spec_sorted_mortons(prims);
    let tasks = spec_treelets(mortons, 0);
    let roots = choose|roots: Seq<BvhBuildNode>|
        {
            &&& #[trigger] collapse_matches(root, roots)
            &&& roots.len() == tasks.len()
            &&& forall|k: int|
                0 <= k < tasks.len() ==> emit_matches(
                    #[trigger] roots[k],
                    prims,
                    mortons,
                    tasks[k].0,
                    tasks[k].1,
                    FIRST_BIT_INDEX as int,
                    max_prims,
                )
        };
    assert forall|k: int| 0 <= k < roots.len() implies boxes_wf(#[trigger] roots[k]) by {
        law_emit_boxes_wf(
            roots[k],
            prims,
            mortons,
            tasks[k].0,
            tasks[k].1,
            FIRST_BIT_INDEX as int,
            max_prims,
        );
    }
    law_collapse_boxes_wf(root, roots);
}

/// The whole build is a function of the primitives and the leaf cap
/// alone: two builds of the same input agree on the tree, the reordered
/// primitives and the node count, whichever threading mode ran each.
pub proof fn law_build_deterministic(
    a: Bvh,
    b: Bvh,
    prims: Seq<AccObj>,
    max_prims: int,
)
    requires
        bvh_build_matches(a.spec_root(), prims, max_prims),
        bvh_build_matches(b.spec_root(), prims, max_prims),
        a.spec_primitives() == spec_ordered_prims(prims),
        b.spec_primitives() == spec_ordered_prims(prims),
        a.spec_total_nodes() == node_count(a.spec_root()),
        b.spec_total_nodes() == node_count(b.spec_root()),
    ensures
        a.spec_root() == b.spec_root(),
        a.spec_primitives() == b.spec_primitives(),
        a.spec_total_nodes() == b.spec_total_nodes(),
{
    lemma_build_unique(a.spec_root(), b.spec_root(), prims, max_prims);
}

/// Flattening is a pure function of the hierarchy: the records written
/// for one tree are the same on every call.
pub proof fn law_flatten_deterministic(bvh: Bvh, r1: Seq<GpuNode>, r2: Seq<GpuNode>)
    requires
        r1 == spec_flatten(bvh.spec_root(), 0),
        r2 == spec_flatten(bvh.spec_root(), 0),
    ensures
        r1 == r2,
{
}

/// The bound a flat record carries.
pub open spec fn gpu_box(g: GpuNode) -> Bbox {
    Bbox { min: g.min, max: g.max }
}

/// Whether every leaf of the tree holds at least one primitive, so that
/// a record with a zero count is unambiguously an interior node.
pub open spec fn leaves_nonempty(n: BvhBuildNode) -> bool
    decreases n,
{
    match n.node_type {
        BvhBuildNodeType::Leaf { num_primitives, first_prim_offset } => num_primitives >= 1,
        BvhBuildNodeType::Interior { split, left, right } => leaves_nonempty(*left)
            && leaves_nonempty(*right),
    }
}

/// Every tree has at least one node.
pub proof fn lemma_node_count_pos(n: BvhBuildNode)
    ensures
        node_count(n) >= 1,
    decreases n,
{
    match n.node_type {
        BvhBuildNodeType::Leaf { .. } => {},
        BvhBuildNodeType::Interior { split, left, right } => {
            lemma_node_count_pos(*left);
            lemma_node_count_pos(*right);
        },
    }
}

/// The first record a subtree writes carries that subtree's bound.
proof fn lemma_flatten_head(n: BvhBuildNode, at: int)
    ensures
        spec_flatten(n, at).len() >= 1,
        spec_flatten(n, at)[0].min == n.bbox.min,
        spec_flatten(n, at)[0].max == n.bbox.max,
{
    match n.node_type {
        BvhBuildNodeType::Leaf { .. } => {},
        BvhBuildNodeType::Interior { split, left, right } => {},
    }
}

/// Implicit-addressing law of the flat form: in every interior record,
/// the count field is zero, the left child's record sits immediately
/// after it, the stored offset addresses the right child's record inside
/// the array, and both children's bounds lie inside the record's bound.
pub proof fn law_flat_layout(n: BvhBuildNode, at: int)
    requires
        boxes_wf(n),
        leaves_nonempty(n),
        0 <= at,
        at + node_count(n) <= 0x1_0000_0000,
    ensures
        forall|i: int|
            0 <= i < spec_flatten(n, at).len() && (#[trigger] spec_flatten(n, at)[i]).number_of_prims
                == 0 ==> {
                let fl = spec_flatten(n, at);
                let r = fl[i].offset_ptr - at;
                &&& i + 1 < r < fl.len()
                &&& gpu_box(fl[i]).contains_box(gpu_box(fl[i + 1]))
                &&& gpu_box(fl[i]).contains_box(gpu_box(fl[r]))
            },
    decreases n,
{
    lemma_spec_flatten_len(n, at);
    match n.node_type {
        BvhBuildNodeType::Leaf { .. } => {},
        BvhBuildNodeType::Interior { split, left, right } => {
            let lseq = spec_flatten(*left, at + 1);
            lemma_spec_flatten_len(*left, at + 1);
            let rseq = spec_flatten(*right, at + 1 + lseq.len());
            lemma_spec_flatten_len(*right, at + 1 + lseq.len());
            lemma_node_count_pos(*left);
            lemma_node_count_pos(*right);
            law_flat_layout(*left, at + 1);
            law_flat_layout(*right, at + 1 + lseq.len());
            lemma_flatten_head(*left, at + 1);
            lemma_flatten_head(*right, at + 1 + lseq.len());
            lemma_union_contains(left.bbox, right.bbox);
            let fl = spec_flatten(n, at);
            let llen = lseq.len() as int;
            assert forall|i: int|
                0 <= i < fl.len() && (#[trigger] fl[i]).number_of_prims == 0 implies {
                let r = fl[i].offset_ptr - at;
                &&& i + 1 < r < fl.len()
                &&& gpu_box(fl[i]).contains_box(gpu_box(fl[i + 1]))
                &&& gpu_box(fl[i]).contains_box(gpu_box(fl[r]))
            } by {
                if i == 0 {
                    assert(fl[0].offset_ptr as int == at + 1 + llen);
                    assert(fl[1] == lseq[0]);
                    assert(fl[at + 1 + llen - at] == rseq[0]);
                } else if i < 1 + llen {
                    assert(fl[i] == lseq[i - 1]);
                    let rl = lseq[i - 1].offset_ptr - (at + 1);
                    assert(i - 1 + 1 < rl < llen);
                    assert(fl[i + 1] == lseq[i]);
                    assert(fl[i].offset_ptr - at == rl + 1);
                    assert(fl[rl + 1] == lseq[rl]);
                } else {
                    assert(fl[i] == rseq[i - 1 - llen]);
                    let ir = i - 1 - llen;
                    let rr = rseq[ir].offset_ptr - (at + 1 + llen);
                    assert(ir + 1 < rr < rseq.len());
                    assert(fl[i + 1] == rseq[ir + 1]);
                    assert(fl[i].offset_ptr - at == rr + 1 + llen);
                    assert(fl[rr + 1 + llen] == rseq[rr]);
                }
            }
        },
    }
}

/// With a leaf cap of three or more, the treelet phase never emits an
/// empty leaf: every split keeps at least one primitive on each side.
pub proof fn law_emit_leaves_nonempty(
    n: BvhBuildNode,
    prims: Seq<AccObj>,
    mortons: Seq<MortonPrimitive>,
    offset: int,
    num: int,
    bit: int,
    max_prims: int,
)
    requires
        emit_matches(n, prims, mortons, offset, num, bit, max_prims),
        1 <= num <= 0xffff_ffff,
        max_prims >= 3,
    ensures
        leaves_nonempty(n),
    decreases bit + 1,
{
    if bit <= -1 || num < max_prims {
    } else {
        let mask = 1u32 << (bit as u32);
        if mortons[offset].morton_code & mask == mortons[offset + num - 1].morton_code & mask {
            law_emit_leaves_nonempty(n, prims, mortons, offset, num, bit - 1, max_prims);
        } else {
            let s = spec_split_rel(mortons, offset, num, mask);
            lemma_flip_props(mortons, offset, num, mask, 1);
            match n.node_type {
                BvhBuildNodeType::Leaf { .. } => {
                    assert(false);
                },
                BvhBuildNodeType::Interior { split, left, right } => {
                    law_emit_leaves_nonempty(
                        *left,
                        prims,
                        mortons,
                        offset,
                        s,
                        bit - 1,
                        max_prims,
                    );
                    law_emit_leaves_nonempty(
                        *right,
                        prims,
                        mortons,
                        offset + s,
                        num - s,
                        bit - 1,
                        max_prims,
                    );
                },
            }
        }
    }
}

/// The collapse keeps leaves nonempty.
pub proof fn law_collapse_leaves_nonempty(n: BvhBuildNode, s: Seq<BvhBuildNode>)
    requires
        collapse_matches(n, s),
        forall|i: int| 0 <= i < s.len() ==> leaves_nonempty(#[trigger] s[i]),
    ensures
        leaves_nonempty(n),
    decreases s.len(),
{
    broadcast use vstd::seq_lib::group_to_multiset_ensures;

    if s.len() <= 1 {
    } else {
        let dim = nodes_centroid_bound(s).spec_longest_axis() as int;
        lemma_sort_nodes_props(s, dim);
        let ss = sort_nodes(s, dim);
        let mid = s.len() as int / 2;
        assert forall|i: int| 0 <= i < ss.len() implies leaves_nonempty(#[trigger] ss[i]) by {
            assert(ss.contains(ss[i]));
            assert(ss.to_multiset().count(ss[i]) > 0);
            assert(s.contains(ss[i]));
            let j = choose|j: int| 0 <= j < s.len() && s[j] == ss[i];
            assert(leaves_nonempty(s[j]));
        }
        match n.node_type {
            BvhBuildNodeType::Leaf { .. } => {
                assert(false);
            },
            BvhBuildNodeType::Interior { split, left, right } => {
                assert forall|i: int|
                    0 <= i < ss.subrange(0, mid).len() implies leaves_nonempty(
                    #[trigger] ss.subrange(0, mid)[i],
                ) by {
                    assert(ss.subrange(0, mid)[i] == ss[i]);
                }
                assert forall|i: int|
                    0 <= i < ss.subrange(mid, s.len() as int).len() implies leaves_nonempty(
                    #[trigger] ss.subrange(mid, s.len() as int)[i],
                ) by {
                    assert(ss.subrange(mid, s.len() as int)[i] == ss[mid + i]);
                }
                law_collapse_leaves_nonempty(*left, ss.subrange(0, mid));
                law_collapse_leaves_nonempty(*right, ss.subrange(mid, s.len() as int));
            },
        }
    }
}

/// A finished build with a leaf cap of three or more has no empty leaf,
/// so every zero-count record of its flat form is an interior node and
/// the implicit-addressing law applies to the whole array.
pub proof fn law_bvh_leaves_nonempty(root: BvhBuildNode, prims: Seq<AccObj>, max_prims: int)
    requires
        bvh_build_matches(root, prims, max_prims),
        1 <= prims.len() <= MAX_BVH_PRIMITIVES,
        max_prims >= 3,
    ensures
        leaves_nonempty(root),
{
    broadcast use vstd::seq_lib::group_to_multiset_ensures;

    let mortons = spec_sorted_mortons(prims);
    let keys = spec_mortons(prims).map_values(|mp: MortonPrimitive| spec_pack_key(mp));
    keys.lemma_sort_by_ensures(crate::sort::key_leq());
    spec_sorted_keys(keys).to_multiset_ensures();
    keys.to_multiset_ensures();
    assert(mortons.len() == prims.len());
    let tasks = spec_treelets(mortons, 0);
    lemma_treelets_props(mortons, 0);
    let roots = choose|roots: Seq<BvhBuildNode>|
        {
            &&& #[trigger] collapse_matches(root, roots)
            &&& roots.len() == tasks.len()
            &&& forall|k: int|
                0 <= k < tasks.len() ==> emit_matches(
                    #[trigger] roots[k],
                    prims,
                    mortons,
                    tasks[k].0,
                    tasks[k].1,
                    FIRST_BIT_INDEX as int,
                    max_prims,
                )
        };
    assert forall|k: int| 0 <= k < roots.len() implies leaves_nonempty(#[trigger] roots[k]) by {
        law_emit_leaves_nonempty(
            roots[k],
            prims,
            mortons,
            tasks[k].0,
            tasks[k].1,
            FIRST_BIT_INDEX as int,
            max_prims,
        );
    }
    law_collapse_leaves_nonempty(root, roots);
}

/// Mapping two sequences with the same multiset gives the same multiset.
proof fn lemma_map_values_multiset<A, B>(s1: Seq<A>, s2: Seq<A>, f: spec_fn(A) -> B)
    requires
        s1.to_multiset() == s2.to_multiset(),
    ensures
        s1.map_values(f).to_multiset() == s2.map_values(f).to_multiset(),
    decreases s1.len(),
{
    broadcast use vstd::seq_lib::group_to_multiset_ensures;

    s1.to_multiset_ensures();
    s2.to_multiset_ensures();
    if s1.len() == 0 {
        assert(s2.len() == 0);
        assert(s1.map_values(f) =~= s2.map_values(f));
    } else {
        let x = s1[0];
        assert(s1.contains(x));
        assert(s2.to_multiset().count(x) > 0);
        assert(s2.contains(x));
        let j = choose|j: int| 0 <= j < s2.len() && s2[j] == x;
        let t1 = s1.remove(0);
        let t2 = s2.remove(j);
        assert(t1.to_multiset() =~= t2.to_multiset());
        lemma_map_values_multiset(t1, t2, f);
        let m1 = s1.map_values(f);
        let m2 = s2.map_values(f);
        m1.to_multiset_ensures();
        m2.to_multiset_ensures();
        assert(m1.remove(0) =~= t1.map_values(f));
        assert(m2.remove(j) =~= t2.map_values(f));
        assert(m1.remove(0).to_multiset() =~= m1.to_multiset().remove(m1[0]));
        assert(m2.remove(j).to_multiset() =~= m2.to_multiset().remove(m2[j]));
        assert(m1[0] == f(x) && m2[j] == f(x));
        assert(m1.contains(m1[0]));
        assert(m2.contains(m2[j]));
        assert(m1.to_multiset().count(f(x)) > 0);
        assert(m2.to_multiset().count(f(x)) > 0);
        assert forall|y: B| m1.to_multiset().count(y) == m2.to_multiset().count(y) by {
            if y == f(x) {
                assert(m1.to_multiset().remove(f(x)).count(y) == m1.to_multiset().count(y) - 1);
                assert(m2.to_multiset().remove(f(x)).count(y) == m2.to_multiset().count(y) - 1);
            } else {
                assert(m1.to_multiset().remove(f(x)).count(y) == m1.to_multiset().count(y));
                assert(m2.to_multiset().remove(f(x)).count(y) == m2.to_multiset().count(y));
            }
        }
        assert(m1.to_multiset() =~= m2.to_multiset());
    }
}

/// Coverage law, permutation half: the reordered primitive array of a
/// build holds exactly the input primitives, each exactly once.
pub proof fn law_ordered_prims_permutation(prims: Seq<AccObj>)
    requires
        1 <= prims.len() <= MAX_BVH_PRIMITIVES,
    ensures
        spec_ordered_prims(prims).to_multiset() == prims.to_multiset(),
        spec_ordered_prims(prims).len() == prims.len(),
{
    broadcast use vstd::seq_lib::group_to_multiset_ensures;

    let keys = spec_mortons(prims).map_values(|mp: MortonPrimitive| spec_pack_key(mp));
    let skeys = spec_sorted_keys(keys);
    keys.lemma_sort_by_ensures(crate::sort::key_leq());
    keys.to_multiset_ensures();
    skeys.to_multiset_ensures();
    assert(skeys.len() == keys.len());
    let f = |k: u64| prims[(k & 0xffff_ffff) as u32 as int];
    assert(keys.map_values(f) =~= prims) by {
        assert forall|i: int| 0 <= i < keys.len() implies keys.map_values(f)[i] == prims[i] by {
            let mp = spec_mortons(prims)[i];
            assert(keys[i] == spec_pack_key(mp));
            lemma_pack_unpack(mp.morton_code, mp.index);
            assert((keys[i] & 0xffff_ffff) as u32 == mp.index);
            assert(mp.index == i as u32);
        }
    }
    assert(skeys.map_values(f) =~= spec_ordered_prims(prims)) by {
        assert forall|i: int|
            0 <= i < skeys.len() implies skeys.map_values(f)[i] == spec_ordered_prims(prims)[i] by {
            assert(spec_sorted_mortons(prims)[i] == spec_unpack_key(skeys[i]));
        }
    }
    lemma_map_values_multiset(skeys, keys, f);
}

/// The leaf ranges of a tree, left to right: each leaf's offset and
/// count into the reordered primitive array.
pub open spec fn leaf_ranges(n: BvhBuildNode) -> Seq<(int, int)>
    decreases n,
{
    match n.node_type {
        BvhBuildNodeType::Leaf { num_primitives, first_prim_offset } => seq![
            (first_prim_offset as int, num_primitives as int),
        ],
        BvhBuildNodeType::Interior { split, left, right } => leaf_ranges(*left) + leaf_ranges(
            *right,
        ),
    }
}

/// Whether ranges follow one another without gap or overlap, from `lo`
/// up to exactly `hi`.
pub open spec fn ranges_tile(rs: Seq<(int, int)>, lo: int, hi: int) -> bool
    decreases rs.len(),
{
    if rs.len() == 0 {
        lo == hi
    } else {
        &&& rs[0].0 == lo
        &&& rs[0].1 >= 0
        &&& ranges_tile(rs.drop_first(), lo + rs[0].1, hi)
    }
}

/// Tilings concatenate.
proof fn lemma_tile_concat(a: Seq<(int, int)>, b: Seq<(int, int)>, lo: int, m: int, hi: int)
    requires
        ranges_tile(a, lo, m),
        ranges_tile(b, m, hi),
    ensures
        ranges_tile(a + b, lo, hi),
    decreases a.len(),
{
    if a.len() == 0 {
        assert(a + b =~= b);
    } else {
        lemma_tile_concat(a.drop_first(), b, lo + a[0].1, m, hi);
        assert((a + b).drop_first() =~= a.drop_first() + b);
    }
}

/// A tiling covers a nonnegative span.
proof fn lemma_tile_span(rs: Seq<(int, int)>, lo: int, hi: int)
    requires
        ranges_tile(rs, lo, hi),
    ensures
        lo <= hi,
    decreases rs.len(),
{
    if rs.len() > 0 {
        lemma_tile_span(rs.drop_first(), lo + rs[0].1, hi);
    }
}

/// The treelet phase emits leaves whose ranges tile exactly the run they
/// were built from.
pub proof fn law_emit_ranges(
    n: BvhBuildNode,
    prims: Seq<AccObj>,
    mortons: Seq<MortonPrimitive>,
    offset: int,
    num: int,
    bit: int,
    max_prims: int,
)
    requires
        emit_matches(n, prims, mortons, offset, num, bit, max_prims),
        0 <= offset,
        0 <= num,
        offset + num <= 0xffff_ffff,
        max_prims >= 1,
    ensures
        ranges_tile(leaf_ranges(n), offset, offset + num),
    decreases bit + 1,
{
    if bit <= -1 || num < max_prims {
        assert(leaf_ranges(n).drop_first() =~= Seq::<(int, int)>::empty());
        assert(leaf_ranges(n)[0].0 == offset && leaf_ranges(n)[0].1 == num);
        assert(ranges_tile(leaf_ranges(n).drop_first(), offset + num, offset + num));
    } else {
        let mask = 1u32 << (bit as u32);
        if mortons[offset].morton_code & mask == mortons[offset + num - 1].morton_code & mask {
            law_emit_ranges(n, prims, mortons, offset, num, bit - 1, max_prims);
        } else {
            let s = spec_split_rel(mortons, offset, num, mask);
            assert(num >= 2) by {
                if num < 2 {
                    assert(offset + num - 1 == offset);
                }
            }
            lemma_flip_props(mortons, offset, num, mask, 1);
            match n.node_type {
                BvhBuildNodeType::Leaf { .. } => {
                    assert(false);
                },
                BvhBuildNodeType::Interior { split, left, right } => {
                    law_emit_ranges(*left, prims, mortons, offset, s, bit - 1, max_prims);
                    law_emit_ranges(
                        *right,
                        prims,
                        mortons,
                        offset + s,
                        num - s,
                        bit - 1,
                        max_prims,
                    );
                    lemma_tile_concat(
                        leaf_ranges(*left),
                        leaf_ranges(*right),
                        offset,
                        offset + s,
                        offset + num,
                    );
                },
            }
        }
    }
}

/// The positions a range covers, as a multiset.
pub open spec fn range_ms(lo: int, len: int) -> Multiset<int>
    decreases len,
{
    if len <= 0 {
        Multiset::empty()
    } else {
        range_ms(lo, len - 1).insert(lo + len - 1)
    }
}

/// The positions a list of ranges covers, counted with multiplicity.
pub open spec fn ranges_ms(rs: Seq<(int, int)>) -> Multiset<int>
    decreases rs.len(),
{
    if rs.len() == 0 {
        Multiset::empty()
    } else {
        range_ms(rs[0].0, rs[0].1).add(ranges_ms(rs.drop_first()))
    }
}

/// A span's positions split at any interior point.
proof fn lemma_range_ms_split(lo: int, a: int, b: int)
    requires
        0 <= a,
        0 <= b,
    ensures
        range_ms(lo, a + b) == range_ms(lo, a).add(range_ms(lo + a, b)),
    decreases b,
{
    if b == 0 {
        assert(range_ms(lo, a).add(range_ms(lo + a, 0)) =~= range_ms(lo, a));
    } else {
        lemma_range_ms_split(lo, a, b - 1);
        assert(range_ms(lo, a).add(range_ms(lo + a, b - 1)).insert(lo + a + b - 1) =~= range_ms(
            lo,
            a,
        ).add(range_ms(lo + a, b - 1).insert(lo + a + b - 1)));
    }
}

/// A tiling's covered positions are exactly its span, each once.
proof fn lemma_tile_ms(rs: Seq<(int, int)>, lo: int, hi: int)
    requires
        ranges_tile(rs, lo, hi),
    ensures
        ranges_ms(rs) == range_ms(lo, hi - lo),
    decreases rs.len(),
{
    if rs.len() == 0 {
    } else {
        lemma_tile_ms(rs.drop_first(), lo + rs[0].1, hi);
        lemma_tile_span(rs.drop_first(), lo + rs[0].1, hi);
        lemma_range_ms_split(lo, rs[0].1, hi - lo - rs[0].1);
    }
}

/// Covered positions concatenate.
proof fn lemma_ranges_ms_concat(a: Seq<(int, int)>, b: Seq<(int, int)>)
    ensures
        ranges_ms(a + b) == ranges_ms(a).add(ranges_ms(b)),
    decreases a.len(),
{
    if a.len() == 0 {
        assert(a + b =~= b);
        assert(ranges_ms(a).add(ranges_ms(b)) =~= ranges_ms(b));
    } else {
        lemma_ranges_ms_concat(a.drop_first(), b);
        assert((a + b).drop_first() =~= a.drop_first() + b);
        assert(range_ms((a + b)[0].0, (a + b)[0].1).add(
            ranges_ms(a.drop_first()).add(ranges_ms(b)),
        ) =~= range_ms(a[0].0, a[0].1).add(ranges_ms(a.drop_first())).add(ranges_ms(b)));
    }
}

/// The positions covered by the leaves of a run of trees.
pub open spec fn roots_ranges_ms(s: Seq<BvhBuildNode>) -> Multiset<int>
    decreases s.len(),
{
    if s.len() == 0 {
        Multiset::empty()
    } else {
        roots_ranges_ms(s.drop_last()).add(ranges_ms(leaf_ranges(s.last())))
    }
}

/// Covered positions of tree runs concatenate.
proof fn lemma_rrms_concat(a: Seq<BvhBuildNode>, b: Seq<BvhBuildNode>)
    ensures
        roots_ranges_ms(a + b) == roots_ranges_ms(a).add(roots_ranges_ms(b)),
    decreases b.len(),
{
    if b.len() == 0 {
        assert(a + b =~= a);
        assert(roots_ranges_ms(a).add(roots_ranges_ms(b)) =~= roots_ranges_ms(a));
    } else {
        lemma_rrms_concat(a, b.drop_last());
        assert((a + b).drop_last() =~= a + b.drop_last());
        assert((a + b).last() == b.last());
        assert(roots_ranges_ms(a).add(roots_ranges_ms(b.drop_last())).add(
            ranges_ms(leaf_ranges(b.last())),
        ) =~= roots_ranges_ms(a).add(
            roots_ranges_ms(b.drop_last()).add(ranges_ms(leaf_ranges(b.last()))),
        ));
    }
}

/// Insertion keeps the covered positions.
proof fn lemma_insert_sorted_rrms(x: BvhBuildNode, s: Seq<BvhBuildNode>, dim: int)
    ensures
        roots_ranges_ms(insert_sorted(x, s, dim)) == roots_ranges_ms(s).add(
            ranges_ms(leaf_ranges(x)),
        ),
{
    lemma_insert_pos_range(x, s, dim);
    let p = insert_pos(x, s, dim);
    assert(s.take(p) + s.skip(p) =~= s);
    lemma_rrms_concat(s.take(p), s.skip(p));
    lemma_rrms_concat(s.take(p).push(x), s.skip(p));
    assert(s.take(p).push(x).drop_last() =~= s.take(p));
    assert(roots_ranges_ms(s.take(p).push(x)) == roots_ranges_ms(s.take(p)).add(
        ranges_ms(leaf_ranges(x)),
    ));
    assert(roots_ranges_ms(s.take(p)).add(ranges_ms(leaf_ranges(x))).add(
        roots_ranges_ms(s.skip(p)),
    ) =~= roots_ranges_ms(s.take(p)).add(roots_ranges_ms(s.skip(p))).add(
        ranges_ms(leaf_ranges(x)),
    ));
}

/// Sorting keeps the covered positions.
proof fn lemma_sort_rrms(s: Seq<BvhBuildNode>, dim: int)
    ensures
        roots_ranges_ms(sort_nodes(s, dim)) == roots_ranges_ms(s),
    decreases s.len(),
{
    if s.len() > 0 {
        lemma_sort_rrms(s.drop_last(), dim);
        lemma_insert_sorted_rrms(s.last(), sort_nodes(s.drop_last(), dim), dim);
    }
}

/// The collapse keeps the covered positions of the trees it joins.
pub proof fn law_collapse_ranges_ms(n: BvhBuildNode, s: Seq<BvhBuildNode>)
    requires
        collapse_matches(n, s),
    ensures
        ranges_ms(leaf_ranges(n)) == roots_ranges_ms(s),
    decreases s.len(),
{
    if s.len() <= 1 {
        assert(s.drop_last().len() == 0);
        assert(roots_ranges_ms(s.drop_last()) == Multiset::<int>::empty());
        assert(s.last() == s[0] && n == s[0]);
        assert(roots_ranges_ms(s) == Multiset::<int>::empty().add(ranges_ms(leaf_ranges(n))));
        assert(Multiset::<int>::empty().add(ranges_ms(leaf_ranges(n))) =~= ranges_ms(
            leaf_ranges(n),
        ));
    } else {
        let dim = nodes_centroid_bound(s).spec_longest_axis() as int;
        lemma_sort_nodes_props(s, dim);
        lemma_sort_rrms(s, dim);
        let ss = sort_nodes(s, dim);
        let mid = s.len() as int / 2;
        match n.node_type {
            BvhBuildNodeType::Leaf { .. } => {
                assert(false);
            },
            BvhBuildNodeType::Interior { split, left, right } => {
                law_collapse_ranges_ms(*left, ss.subrange(0, mid));
                law_collapse_ranges_ms(*right, ss.subrange(mid, s.len() as int));
                lemma_ranges_ms_concat(leaf_ranges(*left), leaf_ranges(*right));
                lemma_rrms_concat(ss.subrange(0, mid), ss.subrange(mid, s.len() as int));
                assert(ss.subrange(0, mid) + ss.subrange(mid, s.len() as int) =~= ss);
            },
        }
    }
}

/// Coverage law, partition half: the leaves of a finished build cover
/// every position of the reordered primitive array exactly once, with no
/// omission and no duplicate.
pub proof fn law_bvh_coverage(root: BvhBuildNode, prims: Seq<AccObj>, max_prims: int)
    requires
        bvh_build_matches(root, prims, max_prims),
        1 <= prims.len() <= MAX_BVH_PRIMITIVES,
        max_prims >= 1,
    ensures
        ranges_ms(leaf_ranges(root)) == range_ms(0, prims.len() as int),
{
    broadcast use vstd::seq_lib::group_to_multiset_ensures;

    let mortons = spec_sorted_mortons(prims);
    let keys = spec_mortons(prims).map_values(|mp: MortonPrimitive| spec_pack_key(mp));
    keys.lemma_sort_by_ensures(crate::sort::key_leq());
    spec_sorted_keys(keys).to_multiset_ensures();
    keys.to_multiset_ensures();
    assert(mortons.len() == prims.len());
    let tasks = spec_treelets(mortons, 0);
    lemma_treelets_props(mortons, 0);
    let roots = choose|roots: Seq<BvhBuildNode>|
        {
            &&& #[trigger] collapse_matches(root, roots)
            &&& roots.len() == tasks.len()
            &&& forall|k: int|
                0 <= k < tasks.len() ==> emit_matches(
                    #[trigger] roots[k],
                    prims,
                    mortons,
                    tasks[k].0,
                    tasks[k].1,
                    FIRST_BIT_INDEX as int,
                    max_prims,
                )
        };
    law_collapse_ranges_ms(root, roots);
    assert forall|k: int|
        0 <= k < roots.len() implies ranges_ms(leaf_ranges(#[trigger] roots[k])) == range_ms(
        tasks[k].0,
        tasks[k].1,
    ) by {
        law_emit_ranges(
            roots[k],
            prims,
            mortons,
            tasks[k].0,
            tasks[k].1,
            FIRST_BIT_INDEX as int,
            max_prims,
        );
        lemma_tile_ms(leaf_ranges(roots[k]), tasks[k].0, tasks[k].0 + tasks[k].1);
    }
    lemma_roots_prefix_ms(roots, tasks, roots.len() as int);
    assert(roots.take(roots.len() as int) =~= roots);
    assert(prefix_end(tasks, tasks.len() as int) == mortons.len());
}

/// The first `k` treelet trees cover exactly the first treelet runs.
proof fn lemma_roots_prefix_ms(roots: Seq<BvhBuildNode>, tasks: Seq<(int, int)>, k: int)
    requires
        0 <= k <= roots.len(),
        roots.len() == tasks.len(),
        forall|j: int|
            0 <= j < roots.len() ==> ranges_ms(leaf_ranges(#[trigger] roots[j])) == range_ms(
                tasks[j].0,
                tasks[j].1,
            ),
        forall|j: int|
            0 <= j < tasks.len() ==> (#[trigger] tasks[j]).1 >= 1 && tasks[j].0 >= 0,
        tasks.len() >= 1 ==> tasks[0].0 == 0,
        forall|j: int|
            0 <= j < tasks.len() - 1 ==> (#[trigger] tasks[j + 1]).0 == tasks[j].0 + tasks[j].1,
    ensures
        roots_ranges_ms(roots.take(k)) == range_ms(0, prefix_end(tasks, k)),
    decreases k,
{
    if k == 0 {
    } else {
        lemma_roots_prefix_ms(roots, tasks, k - 1);
        assert(roots.take(k).drop_last() =~= roots.take(k - 1));
        assert(roots.take(k).last() == roots[k - 1]);
        assert(prefix_end(tasks, k - 1) == tasks[k - 1].0) by {
            if k - 1 > 0 {
                assert(tasks[(k - 2) + 1].0 == tasks[k - 2].0 + tasks[k - 2].1);
            }
        }
        lemma_range_ms_split(0, tasks[k - 1].0, tasks[k - 1].1);
    }
}

/// The quantized coordinate fed to the Morton interleave for one axis of
/// one primitive.
pub open spec fn spec_quantize_arg(prims: Seq<AccObj>, i: int, axis: int) -> u32 {
    let bound = prims_centroid_bound(prims);
    let c = prims[i].bbox.spec_centroid2();
    spec_quantize(
        c.spec_axis(axis) as int,
        bound.min.spec_axis(axis) as int,
        bound.max.spec_axis(axis) as int,
    ) as u32
}

} // verus!
