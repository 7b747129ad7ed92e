use raytrace::perlin::{PerlinTables, POINT_COUNT};

fn is_perm(p: &[usize]) -> bool {
    let mut s = p.to_vec();
    s.sort();
    s == (0..POINT_COUNT).collect::<Vec<_>>()
}

#[test]
fn tables_are_permutations() {
    let t = PerlinTables::new();
    assert!(is_perm(&t.perm_x));
    assert!(is_perm(&t.perm_y));
    assert!(is_perm(&t.perm_z));
}

#[test]
fn slot_combines_low_bytes() {
    let t = PerlinTables::new();
    assert_eq!(t.slot(3, 4, 5), t.perm_x[3] ^ t.perm_y[4] ^ t.perm_z[5]);
    assert_eq!(t.slot(259, 4, 5), t.slot(3, 4, 5));
    assert_eq!(t.slot(-1, 0, 0), t.perm_x[255] ^ t.perm_y[0] ^ t.perm_z[0]);
    assert!(t.slot(i32::MIN, i32::MAX, -77) < POINT_COUNT);
}
