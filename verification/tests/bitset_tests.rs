use lancy::support::bitset::FixedBitSet;

#[test]
fn test_new_and_len() {
    let bs = FixedBitSet::zeroes(100);
    assert_eq!(bs.ones_count(), 0);
    assert_eq!(bs.words_len(), (100 + 31) / 32);
}

#[test]
fn test_add_and_has() {
    let mut bs = FixedBitSet::zeroes(64);
    bs.add(0);
    bs.add(31);
    bs.add(32);
    bs.add(63);
    assert!(bs.has(0));
    assert!(bs.has(31));
    assert!(bs.has(32));
    assert!(bs.has(63));
    assert!(!bs.has(1));
    assert!(!bs.has(62));
    assert!(!bs.has(64));
}

#[test]
fn test_del() {
    let mut bs = FixedBitSet::zeroes(40);
    bs.add(10);
    assert!(bs.has(10));
    bs.del(10);
    assert!(!bs.has(10));
}

#[test]
fn test_union() {
    let mut a = FixedBitSet::zeroes(64);
    let mut b = FixedBitSet::zeroes(64);
    a.add(1);
    a.add(2);
    b.add(2);
    b.add(3);
    a.union(&b);
    assert!(a.has(1));
    assert!(a.has(2));
    assert!(a.has(3));
    assert_eq!(a.ones_count(), 3);
}

#[test]
fn test_intersect() {
    let mut a = FixedBitSet::zeroes(64);
    let mut b = FixedBitSet::zeroes(64);
    a.add(1);
    a.add(2);
    b.add(2);
    b.add(3);
    a.intersect(&b);
    assert!(!a.has(1));
    assert!(a.has(2));
    assert!(!a.has(3));
    assert_eq!(a.ones_count(), 1);
}

#[test]
fn test_equals() {
    let mut a = FixedBitSet::zeroes(32);
    let mut b = FixedBitSet::zeroes(32);
    assert!(a.equals(&b));
    a.add(5);
    assert!(!a.equals(&b));
    b.add(5);
    assert!(a.equals(&b));
    a.add(10);
    b.add(11);
    assert!(!a.equals(&b));
}

#[test]
fn test_iter_ones() {
    let mut bs = FixedBitSet::zeroes(64);
    bs.add(1);
    bs.add(3);
    bs.add(32);
    let ones: Vec<usize> = bs.iter_ones();
    assert_eq!(ones, vec![1, 3, 32]);
}

#[test]
fn test_difference() {
    let mut a = FixedBitSet::zeroes(64);
    let mut b = FixedBitSet::zeroes(64);
    a.add(1);
    a.add(2);
    b.add(2);
    a.difference(&b);
    assert!(a.has(1));
    assert!(!a.has(2));
    assert_eq!(a.ones_count(), 1);
}

#[test]
fn test_clear_and_ones() {
    let mut a = FixedBitSet::ones(32);
    assert_eq!(a.ones_count(), 32);
    a.clear();
    assert_eq!(a.ones_count(), 0);
    assert_eq!(a.iter_zeroes().len(), 32);
}

#[test]
fn has_answers_false_out_of_range() {
    let mut s = FixedBitSet::zeroes(10);
    s.add(3);
    assert!(s.has(3));
    assert!(!s.has(32));
    assert!(!s.has(1000));
}
