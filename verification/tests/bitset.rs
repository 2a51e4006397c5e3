use teac::common::bitset::Bitset;

#[test]
fn insert_contains_clear() {
    let mut b = Bitset::new(200);
    assert!(b.is_empty());
    assert!(!b.contains(5));
    assert!(b.insert(5));
    assert!(!b.insert(5));
    assert!(b.contains(5));
    assert!(b.insert(199));
    assert_eq!(b.len(), 2);

    b.clear();
    assert!(b.is_empty());
    assert!(!b.contains(5));
}

#[test]
fn iteration_is_sorted() {
    let mut b = Bitset::new(300);
    for i in [0, 63, 64, 127, 128, 256, 299] {
        b.insert(i);
    }
    let collected: Vec<usize> = b.iter().collect();
    assert_eq!(collected, vec![0, 63, 64, 127, 128, 256, 299]);
}

#[test]
fn union_with_change_tracking() {
    let mut a = Bitset::new(128);
    let mut other = Bitset::new(128);
    a.insert(1);
    a.insert(2);
    other.insert(2);
    other.insert(3);

    assert!(a.union_with(&other));
    let collected: Vec<usize> = a.iter().collect();
    assert_eq!(collected, vec![1, 2, 3]);

    assert!(!a.union_with(&other));
}

#[test]
fn assign_transfer_matches_definition() {
    let cap = 130;
    let mut gen = Bitset::new(cap);
    let mut kill = Bitset::new(cap);
    let mut out = Bitset::new(cap);
    let mut result = Bitset::new(cap);

    gen.insert(1);
    gen.insert(100);
    kill.insert(2);
    kill.insert(64);
    out.insert(2);
    out.insert(3);
    out.insert(64);
    out.insert(129);

    assert!(result.assign_transfer(&gen, &kill, &out));
    let collected: Vec<usize> = result.iter().collect();
    assert_eq!(collected, vec![1, 3, 100, 129]);

    assert!(!result.assign_transfer(&gen, &kill, &out));
}

#[test]
fn out_of_range_contains_is_false() {
    let b = Bitset::new(10);
    assert!(!b.contains(10));
    assert!(!b.contains(usize::MAX));
}

#[test]
fn remove_clears_individual_bits() {
    let mut b = Bitset::new(200);
    b.insert(0);
    b.insert(63);
    b.insert(64);
    b.insert(128);

    assert!(b.remove(64));
    assert!(!b.remove(64));
    assert!(b.contains(0));
    assert!(b.contains(63));
    assert!(!b.contains(64));
    assert!(b.contains(128));
    assert_eq!(b.len(), 3);
}

#[test]
fn equality_compares_capacity_and_bits() {
    let mut a = Bitset::new(64);
    let mut b = Bitset::new(64);
    a.insert(0);
    b.insert(0);
    assert_eq!(a, b);

    let c = Bitset::new(128);
    assert_ne!(a, c);
}
