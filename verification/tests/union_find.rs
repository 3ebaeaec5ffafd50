use dsalib::union_find_set::UnionFindSet;

#[test]
fn test_union_find_merges_sets() {
    let mut unf = UnionFindSet::new(8);
    assert_eq!(unf.is_union(0, 1), false);
    unf.union(0, 1);
    assert_eq!(unf.is_union(0, 1), true);
    unf.union(2, 3);
    unf.union(1, 3);
    assert_eq!(unf.is_union(0, 2), true);
    assert_eq!(unf.is_union(0, 4), false);
    assert_eq!(unf.find(0), unf.find(3));
    unf.union(4, 4);
    assert_eq!(unf.is_union(4, 5), false);
}

#[test]
fn test_union_find_long_chain() {
    let mut unf = UnionFindSet::new(16);
    for i in 0..15 {
        unf.union(i, i + 1);
    }
    for i in 0..16 {
        assert_eq!(unf.is_union(0, i), true);
    }
}
