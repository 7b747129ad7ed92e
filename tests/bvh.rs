use raytrace::bvh::{build_layout, compare_keys, Axis, AxisKeys, BuildError, BvhChild, BvhLayout};
use std::cmp::Ordering;

fn keys(v: &[(u64, u64, u64)]) -> Vec<Option<AxisKeys>> {
    v.iter().map(|&(x, y, z)| Some(AxisKeys { x, y, z })).collect()
}

fn child_leaves(c: &BvhChild, out: &mut Vec<usize>) {
    match c {
        BvhChild::Primitive(i) => out.push(*i),
        BvhChild::Node(n) => layout_leaves(n, out),
    }
}

fn layout_leaves(l: &BvhLayout, out: &mut Vec<usize>) {
    child_leaves(&l.left, out);
    child_leaves(&l.right, out);
}

fn leaves(l: &BvhLayout) -> Vec<usize> {
    let mut out = Vec::new();
    layout_leaves(l, &mut out);
    out
}

fn all_axes(l: &BvhLayout, axis: Axis) -> bool {
    let side = |c: &BvhChild| match c {
        BvhChild::Primitive(_) => true,
        BvhChild::Node(n) => all_axes(n, axis),
    };
    l.axis == axis && side(&l.left) && side(&l.right)
}

#[test]
fn missing_box_is_greater() {
    let a = Some(AxisKeys { x: 5, y: 0, z: 0 });
    assert_eq!(compare_keys(&a, &None, Axis::X), Ordering::Less);
    assert_eq!(compare_keys(&None, &a, Axis::X), Ordering::Greater);
    assert_eq!(compare_keys(&None, &None, Axis::Y), Ordering::Equal);
}

#[test]
fn keys_compare_along_the_chosen_axis() {
    let a = Some(AxisKeys { x: 1, y: 9, z: 4 });
    let b = Some(AxisKeys { x: 2, y: 3, z: 4 });
    assert_eq!(compare_keys(&a, &b, Axis::X), Ordering::Less);
    assert_eq!(compare_keys(&a, &b, Axis::Y), Ordering::Greater);
    assert_eq!(compare_keys(&a, &b, Axis::Z), Ordering::Equal);
}

#[test]
fn empty_scene_is_rejected() {
    assert_eq!(build_layout(&Vec::new(), None).err(), Some(BuildError::Empty));
}

#[test]
fn first_primitive_without_box_is_reported() {
    let mut k = keys(&[(1, 1, 1), (2, 2, 2), (3, 3, 3), (4, 4, 4)]);
    k[1] = None;
    k[3] = None;
    assert_eq!(build_layout(&k, Some(Axis::X)).err(), Some(BuildError::MissingBox(1)));
}

#[test]
fn single_primitive_fills_both_sides() {
    let l = build_layout(&keys(&[(7, 7, 7)]), None).ok().unwrap();
    assert!(matches!(l.left, BvhChild::Primitive(0)));
    assert!(matches!(l.right, BvhChild::Primitive(0)));
}

#[test]
fn two_primitives_smaller_key_goes_left() {
    let l = build_layout(&keys(&[(9, 0, 0), (3, 5, 0)]), Some(Axis::X)).ok().unwrap();
    assert!(matches!(l.left, BvhChild::Primitive(1)));
    assert!(matches!(l.right, BvhChild::Primitive(0)));
    let l = build_layout(&keys(&[(9, 0, 0), (3, 5, 0)]), Some(Axis::Y)).ok().unwrap();
    assert!(matches!(l.left, BvhChild::Primitive(0)));
    assert!(matches!(l.right, BvhChild::Primitive(1)));
}

#[test]
fn pinned_axis_sorts_leaves() {
    let k = keys(&[(50, 0, 0), (10, 0, 0), (40, 0, 0), (20, 0, 0), (30, 0, 0), (0, 0, 0), (60, 0, 0), (70, 0, 0)]);
    let l = build_layout(&k, Some(Axis::X)).ok().unwrap();
    assert!(all_axes(&l, Axis::X));
    assert_eq!(leaves(&l), vec![5, 1, 3, 4, 2, 0, 6, 7]);
}

#[test]
fn odd_split_duplicates_the_lone_primitive() {
    let k = keys(&[(2, 0, 0), (1, 0, 0), (0, 0, 0)]);
    let l = build_layout(&k, Some(Axis::X)).ok().unwrap();
    // The first half holds one primitive, which fills both of its sides.
    assert_eq!(leaves(&l), vec![2, 2, 1, 0]);
}

#[test]
fn rebuilding_gives_same_leaves() {
    let k = keys(&[(5, 1, 9), (3, 8, 2), (7, 7, 7), (1, 2, 3), (9, 0, 4), (4, 6, 1), (2, 2, 2)]);
    for pinned in [None, Some(Axis::X), Some(Axis::Z)] {
        let a = leaves(&build_layout(&k, pinned).ok().unwrap());
        let b = leaves(&build_layout(&k, pinned).ok().unwrap());
        assert_eq!(a.len(), b.len());
        let (mut sa, mut sb) = (a.clone(), b.clone());
        sa.sort();
        sa.dedup();
        sb.sort();
        sb.dedup();
        assert_eq!(sa, (0..7).collect::<Vec<_>>());
        assert_eq!(sa, sb);
        if pinned.is_some() {
            assert_eq!(a, b);
        }
    }
}

#[test]
fn leaf_count_depends_on_size_only() {
    // 1 -> 2, 2 -> 2, 3 -> 2 + 2, 5 -> 2 + 4
    let expected = [(1usize, 2usize), (2, 2), (3, 4), (4, 4), (5, 6), (6, 8), (8, 8)];
    for (n, count) in expected {
        let k: Vec<_> = (0..n as u64).map(|i| Some(AxisKeys { x: i, y: 0, z: 0 })).collect();
        assert_eq!(leaves(&build_layout(&k, None).ok().unwrap()).len(), count);
    }
}
