use archetype_ecs::bitset::BitSet;

#[test]
fn empty_bitset_contains_nothing() {
    let b = BitSet::new();
    for i in 0..=255u8 {
        assert!(!b.contains_id(i));
    }
}

#[test]
fn insert_and_remove_single_bits() {
    let mut b = BitSet::new();
    b.insert_id(0);
    b.insert_id(7);
    b.insert_id(63);
    b.insert_id(64);
    b.insert_id(128);
    b.insert_id(255);
    assert!(b.contains_id(0));
    assert!(b.contains_id(7));
    assert!(b.contains_id(63));
    assert!(b.contains_id(64));
    assert!(b.contains_id(128));
    assert!(b.contains_id(255));
    assert!(!b.contains_id(1));
    assert!(!b.contains_id(65));
    b.remove_id(64);
    assert!(!b.contains_id(64));
    assert!(b.contains_id(63));
    assert!(b.contains_id(128));
}

#[test]
fn from_id_holds_one_bit() {
    let b = BitSet::from_id(42);
    assert!(b.contains_id(42));
    for i in 0..=255u8 {
        if i != 42 {
            assert!(!b.contains_id(i));
        }
    }
}

#[test]
fn superset_test_accepts_supersets_only() {
    let mut big = BitSet::new();
    big.insert_id(1);
    big.insert_id(70);
    big.insert_id(200);
    let mut small = BitSet::new();
    small.insert_id(1);
    small.insert_id(200);
    assert!(big.contains(&small));
    assert!(!small.contains(&big));
    assert!(big.contains(&BitSet::new()));
    let mut other = BitSet::new();
    other.insert_id(2);
    assert!(!big.contains(&other));
}

#[test]
fn equal_bitsets_compare_equal() {
    let mut a = BitSet::new();
    a.insert_id(9);
    a.insert_id(130);
    let mut b = BitSet::new();
    b.insert_id(130);
    b.insert_id(9);
    assert_eq!(a, b);
    b.remove_id(9);
    assert_ne!(a, b);
}
