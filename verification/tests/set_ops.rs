use interval_set::Interval;
use interval_set::IntervalSet;
use interval_set::Ipv4;

fn bounds<Idx: interval_set::Step>(s: &IntervalSet<Idx>) -> Vec<(Idx, Idx)> {
    s.iter().iter().map(|iv| (*iv.lo(), *iv.hi())).collect()
}

#[test]
fn empty_set_has_no_intervals() {
    let s = IntervalSet::<i32>::empty();
    assert_eq!(s.intervals(), 0);
    assert_eq!(s.size(), 0);
    assert_eq!(s.size_exact(), Some(0));
}

#[test]
fn single_interval_set() {
    let s = IntervalSet::interval(Interval::new(1i32, 3i32));
    assert_eq!(s.intervals(), 1);
    assert_eq!(bounds(&s), vec![(1, 3)]);
    assert_eq!(s.size(), 3);
}

#[test]
fn union_merges_touching_intervals() {
    // successor(3) == 4, so the intervals touch and merge into one
    let a = IntervalSet::interval(Interval::new(1i32, 3i32));
    let b = IntervalSet::interval(Interval::new(4i32, 6i32));
    let u = a.union(&b);
    assert_eq!(bounds(&u), vec![(1, 6)]);
}

#[test]
fn union_keeps_gap_of_one_value() {
    // the value 4 lies between the intervals, so they stay apart
    let a = IntervalSet::interval(Interval::new(1i32, 3i32));
    let b = IntervalSet::interval(Interval::new(5i32, 6i32));
    let u = a.union(&b);
    assert_eq!(bounds(&u), vec![(1, 3), (5, 6)]);
}

#[test]
fn union_merges_overlapping_intervals() {
    let a = IntervalSet::interval(Interval::new(1i32, 7i32));
    let b = IntervalSet::interval(Interval::new(4i32, 12i32));
    let u = a.union(&b);
    assert_eq!(bounds(&u), vec![(1, 12)]);
}

#[test]
fn union_is_commutative_on_values() {
    let mut a = IntervalSet::interval(Interval::new(1i32, 5i32));
    a.insert(Interval::new(20, 30));
    let mut b = IntervalSet::interval(Interval::new(4i32, 9i32));
    b.insert(Interval::new(40, 41));
    assert_eq!(bounds(&a.union(&b)), bounds(&b.union(&a)));
}

#[test]
fn union_is_idempotent_on_values() {
    let mut a = IntervalSet::interval(Interval::new(1i32, 5i32));
    a.insert(Interval::new(9, 12));
    assert_eq!(bounds(&a.union(&a)), bounds(&a));
}

#[test]
fn union_with_empty_set() {
    let a = IntervalSet::interval(Interval::new(1i32, 5i32));
    let e = IntervalSet::empty();
    assert_eq!(bounds(&a.union(&e)), vec![(1, 5)]);
    assert_eq!(bounds(&e.union(&a)), vec![(1, 5)]);
}

#[test]
fn intersection_of_sets() {
    let mut a = IntervalSet::interval(Interval::new(0i32, 10i32));
    a.insert(Interval::new(20, 30));
    let b = IntervalSet::interval(Interval::new(5i32, 25i32));
    let i = a.intersection(&b);
    assert_eq!(bounds(&i), vec![(5, 10), (20, 25)]);
}

#[test]
fn intersection_with_disjoint_set_is_empty() {
    let a = IntervalSet::interval(Interval::new(0i32, 4i32));
    let b = IntervalSet::interval(Interval::new(6i32, 9i32));
    assert_eq!(a.intersection(&b).intervals(), 0);
}

#[test]
fn intersection_spanning_set() {
    let big = IntervalSet::interval(Interval::new(0i32, 100i32));
    let mut small = IntervalSet::interval(Interval::new(1i32, 2i32));
    small.insert(Interval::new(5, 6));
    assert_eq!(bounds(&big.intersection(&small)), vec![(1, 2), (5, 6)]);
    assert_eq!(bounds(&small.intersection(&big)), vec![(1, 2), (5, 6)]);
}

#[test]
fn difference_cuts_hole() {
    let a = IntervalSet::interval(Interval::new(1i32, 10i32));
    let b = IntervalSet::interval(Interval::new(4i32, 6i32));
    let d = a.difference(&b);
    assert_eq!(bounds(&d), vec![(1, 3), (7, 10)]);
}

#[test]
fn difference_trims_several_pieces() {
    let a = IntervalSet::interval(Interval::new(0i32, 100i32));
    let mut b = IntervalSet::interval(Interval::new(10i32, 19i32));
    b.insert(Interval::new(30, 39));
    let d = a.difference(&b);
    assert_eq!(bounds(&d), vec![(0, 9), (20, 29), (40, 100)]);
}

#[test]
fn difference_keeps_trailing_intervals() {
    let mut a = IntervalSet::interval(Interval::new(0i32, 5i32));
    a.insert(Interval::new(10, 15));
    a.insert(Interval::new(20, 25));
    let b = IntervalSet::interval(Interval::new(4i32, 11i32));
    let d = a.difference(&b);
    assert_eq!(bounds(&d), vec![(0, 3), (12, 15), (20, 25)]);
}

#[test]
fn difference_consistency_on_values() {
    // a set equals its intersection with another set joined with its
    // difference from it
    let mut a = IntervalSet::interval(Interval::new(0i32, 10i32));
    a.insert(Interval::new(14, 30));
    let mut b = IntervalSet::interval(Interval::new(5i32, 17i32));
    b.insert(Interval::new(25, 40));
    let rebuilt = a.intersection(&b).union(&a.difference(&b));
    assert_eq!(bounds(&rebuilt), bounds(&a));
}

#[test]
fn full_byte_set_and_complements() {
    let full = IntervalSet::<u8>::full();
    assert_eq!(bounds(&full), vec![(0, 255)]);
    assert_eq!(full.size(), 256);
    let none = full.complement();
    assert_eq!(none.intervals(), 0);
    let all = none.complement();
    assert_eq!(bounds(&all), vec![(0, 255)]);
}

#[test]
fn complement_involution_on_values() {
    let mut a = IntervalSet::interval(Interval::new(3u8, 9u8));
    a.insert(Interval::new(100, 200));
    let back = a.complement().complement();
    assert_eq!(bounds(&back), bounds(&a));
}

#[test]
fn complement_of_bounded_set() {
    let a = IntervalSet::interval(Interval::new(1u8, 250u8));
    let c = a.complement();
    assert_eq!(bounds(&c), vec![(0, 0), (251, 255)]);
}

#[test]
fn difference_via_complement_on_values() {
    let mut a = IntervalSet::interval(Interval::new(0u8, 50u8));
    a.insert(Interval::new(60, 90));
    let b = IntervalSet::interval(Interval::new(40u8, 70u8));
    assert_eq!(
        bounds(&a.difference(&b)),
        bounds(&a.intersection(&b.complement()))
    );
}

#[test]
fn insert_value_into_set() {
    let mut s = IntervalSet::interval(Interval::new(1i32, 3i32));
    s.insert(Interval::point(4));
    assert_eq!(bounds(&s), vec![(1, 4)]);
    s.insert(Interval::point(10));
    assert_eq!(bounds(&s), vec![(1, 4), (10, 10)]);
    s.insert(Interval::new(5, 9));
    assert_eq!(bounds(&s), vec![(1, 10)]);
}

#[test]
fn set_size_sums_intervals() {
    let mut s = IntervalSet::interval(Interval::new(1i32, 3i32));
    s.insert(Interval::new(10, 14));
    assert_eq!(s.size(), 8);
    assert_eq!(s.size_exact(), Some(8));
}

#[test]
fn set_size_saturates() {
    let full = IntervalSet::<u64>::full();
    assert_eq!(full.size(), usize::MAX);
    assert_eq!(full.size_exact(), None);
}

#[test]
fn ports_except_two() {
    // all ports except 22 and 443
    let all = IntervalSet::<u16>::full();
    let mut blocked = IntervalSet::interval(Interval::point(22u16));
    blocked.insert(Interval::point(443));
    let open = all.difference(&blocked);
    assert_eq!(bounds(&open), vec![(0, 21), (23, 442), (444, u16::MAX)]);
    assert_eq!(open.size(), 65534);
}

#[test]
fn address_range_set() {
    let lan = IntervalSet::interval(Interval::new(
        Ipv4::from_bits(0xC0A8_0000),
        Ipv4::from_bits(0xC0A8_00FF),
    ));
    assert_eq!(lan.size(), 256);
    let gap = IntervalSet::interval(Interval::new(
        Ipv4::from_bits(0xC0A8_0010),
        Ipv4::from_bits(0xC0A8_001F),
    ));
    let rest = lan.difference(&gap);
    assert_eq!(rest.intervals(), 2);
    assert_eq!(rest.size(), 240);
}

#[test]
fn char_set_over_gap() {
    let s = IntervalSet::interval(Interval::new('\u{D7F0}', '\u{E00F}'));
    assert_eq!(s.size(), 32);
    let c = s.complement();
    assert_eq!(c.intervals(), 2);
    let pieces = bounds(&c);
    assert_eq!(pieces[0], ('\u{0}', '\u{D7EF}'));
    assert_eq!(pieces[1], ('\u{E010}', char::MAX));
}

#[test]
fn union_at_type_maximum() {
    // the candidate's upper bound has no successor here, so everything
    // later must merge into it
    let a = IntervalSet::interval(Interval::new(0u8, 255u8));
    let b = IntervalSet::interval(Interval::new(250u8, 255u8));
    assert_eq!(bounds(&a.union(&b)), vec![(0, 255)]);
    assert_eq!(bounds(&b.union(&a)), vec![(0, 255)]);
}

#[test]
fn difference_at_domain_boundaries() {
    let a = IntervalSet::interval(Interval::new(0u8, 10u8));
    let b = IntervalSet::interval(Interval::new(0u8, 5u8));
    assert_eq!(bounds(&a.difference(&b)), vec![(6, 10)]);
    let a = IntervalSet::interval(Interval::new(0u8, 255u8));
    let b = IntervalSet::interval(Interval::new(250u8, 255u8));
    assert_eq!(bounds(&a.difference(&b)), vec![(0, 249)]);
}

#[test]
fn insert_into_empty_set() {
    let mut s = IntervalSet::<i32>::empty();
    s.insert(Interval::new(5, 8));
    assert_eq!(bounds(&s), vec![(5, 8)]);
}
