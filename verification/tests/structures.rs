//! Tests of the geometric and bit-level building blocks.

use accel::bbox::Bbox;
use accel::bvh_util::{BspConstructionTime, BvhConstructionTime};
use accel::accobj::Split;
use accel::morton::{encode_morton_3, left_shift_3, morton_of_point, quantize_axis};
use accel::sort::sort_keys;
use accel::vector::{dot, vec3i, vec3u32, vec4u32, Vec3, Vec4};

#[test]
fn vector_ops() {
    let a = vec3i(1, 2, 3);
    let b = vec3i(4, 5, 6);
    assert_eq!(dot(a, b), 32);
    assert_eq!(a.vec4(), Vec4::<i64>(1, 2, 3, 0));
    assert_eq!(a.lt(b), Vec3::<bool>(true, true, true));
    assert_eq!(b.le(a), Vec3::<bool>(false, false, false));
    assert_eq!(b.gt(a), Vec3::<bool>(true, true, true));
    assert_eq!(a.ge(b), Vec3::<bool>(false, false, false));
    assert!(Vec3::<bool>(true, true, true).all());
    assert!(!Vec3::<bool>(true, false, true).all());
    assert!(Vec3::<bool>(false, true, false).any());
    assert!(!Vec3::<bool>(false, false, false).any());
    assert_eq!(Vec4::<u32>(7, 8, 9, 10).xyz(), Vec3::<u32>(7, 8, 9));
    assert_eq!(vec3u32(1, 2, 3), Vec3::<u32>(1, 2, 3));
    assert_eq!(vec4u32(1, 2, 3, 4), Vec4::<u32>(1, 2, 3, 4));
}

#[test]
fn bbox_union_and_area() {
    let mut b = Bbox::new();
    b.include_vertex(vec3i(0, 0, 0));
    b.include_vertex(vec3i(2, 3, 4));
    assert_eq!(b.min, vec3i(0, 0, 0));
    assert_eq!(b.max, vec3i(2, 3, 4));
    // half area: 2*3 + 3*4 + 4*2 = 26
    assert_eq!(b.half_area(), 26);
    assert_eq!(b.area(), 52);
    assert_eq!(b.longest_axis(), 2);
    assert_eq!(b.extent_dim(1), 3);
    assert_eq!(b.centroid2(), vec3i(2, 3, 4));

    let mut c = Bbox::new();
    c.include_vertex(vec3i(-5, 1, 1));
    c.include_vertex(vec3i(-4, 2, 2));
    let mut u = b;
    u.include_bbox(&c);
    assert_eq!(u.min, vec3i(-5, 0, 0));
    assert_eq!(u.max, vec3i(2, 3, 4));

    assert!(b.intersects(&u));
    assert!(!b.intersects(&c));

    let t = Bbox::from_triangle(vec3i(0, 0, 0), vec3i(1, 0, 0), vec3i(0, 1, 0));
    assert_eq!(t.min, vec3i(0, 0, 0));
    assert_eq!(t.max, vec3i(1, 1, 0));
}

#[test]
fn morton_bit_tiling() {
    // 10 set bits spread out with two zero bits between each.
    assert_eq!(left_shift_3(0b11_1111_1111), 0b001001001001001001001001001001);
    // The one representable value above ten bits clamps down by one.
    assert_eq!(left_shift_3(1 << 10), left_shift_3(0b11_1111_1111));
    assert_eq!(left_shift_3(1), 1);
    assert_eq!(left_shift_3(2), 0b1000);
    // x, y and z occupy interleaved bit positions.
    assert_eq!(encode_morton_3(1, 0, 0), 0b001);
    assert_eq!(encode_morton_3(0, 1, 0), 0b010);
    assert_eq!(encode_morton_3(0, 0, 1), 0b100);
    assert_eq!(encode_morton_3(3, 0, 0), 0b1001);
    assert_eq!(encode_morton_3(1023, 1023, 1023), (1 << 30) - 1);
}

#[test]
fn morton_quantization() {
    // Relative position scaled by 1024, rounded down.
    assert_eq!(quantize_axis(0, 0, 16), 0);
    assert_eq!(quantize_axis(8, 0, 16), 512);
    assert_eq!(quantize_axis(16, 0, 16), 1024);
    assert_eq!(quantize_axis(1, 0, 1024), 1);
    // A degenerate axis maps to zero.
    assert_eq!(quantize_axis(5, 5, 5), 0);

    let mut bound = Bbox::new();
    bound.include_vertex(vec3i(0, 0, 0));
    bound.include_vertex(vec3i(16, 16, 16));
    // The midpoint quantizes to 512 on each axis.
    assert_eq!(morton_of_point(vec3i(8, 8, 8), &bound), encode_morton_3(512, 512, 512));
    assert_eq!(morton_of_point(vec3i(0, 0, 0), &bound), 0);
}

#[test]
fn radix_sort_orders_keys() {
    let keys: Vec<u64> = vec![3, 1, 2, 1 << 40, 0, u64::MAX, 7];
    let sorted = sort_keys(keys.clone(), false);
    let mut expected = keys.clone();
    expected.sort_unstable();
    assert_eq!(sorted, expected);
    // The parallel configuration returns the same ordering.
    let sorted_par = sort_keys(keys, true);
    assert_eq!(sorted_par, expected);
}

#[test]
fn split_axis_roundtrip() {
    assert_eq!(Split::from_axis(0), Split::AxisX);
    assert_eq!(Split::from_axis(1), Split::AxisY);
    assert_eq!(Split::from_axis(2), Split::AxisZ);
    assert_eq!(Split::AxisX.as_axis(), 0);
    assert_eq!(Split::AxisY.as_axis(), 1);
    assert_eq!(Split::AxisZ.as_axis(), 2);
}

#[test]
fn construction_time_totals() {
    let t = BvhConstructionTime {
        morton_codes: 1,
        radix_sort: 2,
        treelet_init: 3,
        treelet_build: 4,
        upper_tree: 5,
        flattening: 6,
    };
    assert_eq!(t.total(), 21);
    let z = BvhConstructionTime::default();
    assert_eq!(z.total(), 0);
    let b = BspConstructionTime { subdivision: 40, flattening: 2 };
    assert_eq!(b.total(), 42);
    assert_eq!(BspConstructionTime::default().total(), 0);
}
