use interval_set::Interval;

#[test]
fn new_interval_keeps_bounds() {
    let iv = Interval::new(3i32, 7i32);
    assert_eq!(*iv.lo(), 3);
    assert_eq!(*iv.hi(), 7);
}

#[test]
fn size_of_small_interval() {
    let iv = Interval::new(3i64, 7i64);
    assert_eq!(iv.size(), 5);
    assert_eq!(iv.size_exact(), Some(5));
}

#[test]
fn size_of_single_value() {
    let iv = Interval::point(9u16);
    assert_eq!(*iv.lo(), 9);
    assert_eq!(*iv.hi(), 9);
    assert_eq!(iv.size(), 1);
    assert_eq!(iv.size_exact(), Some(1));
}

#[test]
fn size_saturates_and_exact_degrades() {
    let iv = Interval::new(0u128, u128::MAX);
    assert_eq!(iv.size(), usize::MAX);
    assert_eq!(iv.size_exact(), None);
}

#[test]
fn size_exact_at_word_boundary() {
    // the interval covers usize::MAX + 1 values, one too many for usize
    let iv = Interval::new(0u128, usize::MAX as u128);
    assert_eq!(iv.size(), usize::MAX);
    assert_eq!(iv.size_exact(), None);
    // one value fewer fits exactly
    let iv = Interval::new(1u128, usize::MAX as u128);
    assert_eq!(iv.size(), usize::MAX);
    assert_eq!(iv.size_exact(), Some(usize::MAX));
}

#[test]
fn hull_spans_both_intervals() {
    let a = Interval::new(1i32, 4i32);
    let b = Interval::new(10i32, 12i32);
    let h = a.hull(&b);
    assert_eq!(*h.lo(), 1);
    assert_eq!(*h.hi(), 12);
    let h = b.hull(&a);
    assert_eq!(*h.lo(), 1);
    assert_eq!(*h.hi(), 12);
}

#[test]
fn intersection_of_overlapping() {
    let a = Interval::new(1i32, 8i32);
    let b = Interval::new(5i32, 12i32);
    let c = a.intersection(&b).unwrap();
    assert_eq!(*c.lo(), 5);
    assert_eq!(*c.hi(), 8);
}

#[test]
fn intersection_of_disjoint_is_none() {
    let a = Interval::new(1i32, 4i32);
    let b = Interval::new(6i32, 9i32);
    assert!(a.intersection(&b).is_none());
}

#[test]
fn intersection_at_shared_value() {
    let a = Interval::new(1i32, 5i32);
    let b = Interval::new(5i32, 9i32);
    let c = a.intersection(&b).unwrap();
    assert_eq!(*c.lo(), 5);
    assert_eq!(*c.hi(), 5);
}

#[test]
fn difference_cuts_middle() {
    let a = Interval::new(1i32, 10i32);
    let b = Interval::new(4i32, 6i32);
    let (left, right) = a.difference(&b);
    let left = left.unwrap();
    let right = right.unwrap();
    assert_eq!(*left.lo(), 1);
    assert_eq!(*left.hi(), 3);
    assert_eq!(*right.lo(), 7);
    assert_eq!(*right.hi(), 10);
}

#[test]
fn difference_contained_is_empty() {
    let a = Interval::new(4i32, 6i32);
    let b = Interval::new(1i32, 10i32);
    let (left, right) = a.difference(&b);
    assert!(left.is_none());
    assert!(right.is_none());
}

#[test]
fn difference_cuts_one_side() {
    let a = Interval::new(1i32, 10i32);
    let b = Interval::new(5i32, 20i32);
    let (left, right) = a.difference(&b);
    let left = left.unwrap();
    assert_eq!(*left.lo(), 1);
    assert_eq!(*left.hi(), 4);
    assert!(right.is_none());
}

#[test]
fn overlaps_is_inclusive() {
    let a = Interval::new(1i32, 5i32);
    let b = Interval::new(5i32, 9i32);
    let c = Interval::new(6i32, 9i32);
    assert!(a.overlaps(&b));
    assert!(b.overlaps(&a));
    assert!(!a.overlaps(&c));
}

#[test]
fn full_interval_spans_type() {
    let iv = Interval::<u8>::full();
    assert_eq!(*iv.lo(), 0);
    assert_eq!(*iv.hi(), 255);
    assert_eq!(iv.size(), 256);
}

#[test]
fn from_half_open_range() {
    let iv = Interval::from_range(2i32, 6i32);
    assert_eq!(*iv.lo(), 2);
    assert_eq!(*iv.hi(), 5);
}

#[test]
fn from_range_to_variants() {
    let iv = Interval::<u8>::from_range_to(10);
    assert_eq!(*iv.lo(), 0);
    assert_eq!(*iv.hi(), 9);
    let iv = Interval::<u8>::from_range_to_inclusive(10);
    assert_eq!(*iv.lo(), 0);
    assert_eq!(*iv.hi(), 10);
    let iv = Interval::<u8>::from_range_from(10);
    assert_eq!(*iv.lo(), 10);
    assert_eq!(*iv.hi(), 255);
}

#[test]
fn char_interval_size_spans_gap() {
    let iv = Interval::new('\u{D7FE}', '\u{E001}');
    assert_eq!(iv.size(), 4);
    assert_eq!(iv.size_exact(), Some(4));
}
