use interval_set::Step;
use interval_set::Bounded;
use interval_set::Ipv4;
use interval_set::Ipv6;

#[test]
fn forward_backward_inverse_i32() {
    let x: i32 = 41;
    let y = i32::forward(&x);
    assert_eq!(y, 42);
    assert_eq!(i32::backward(&y), x);
}

#[test]
fn backward_forward_inverse_u8() {
    let x: u8 = 7;
    let y = u8::backward(&x);
    assert_eq!(y, 6);
    assert_eq!(u8::forward(&y), x);
}

#[test]
fn forward_checked_at_maximum() {
    assert_eq!(u8::forward_checked(&u8::MAX), None);
    assert_eq!(i64::forward_checked(&i64::MAX), None);
    assert_eq!(u128::forward_checked(&u128::MAX), None);
    assert_eq!(u16::forward_checked(&41u16), Some(42u16));
}

#[test]
fn backward_checked_at_minimum() {
    assert_eq!(u8::backward_checked(&0u8), None);
    assert_eq!(i64::backward_checked(&i64::MIN), None);
    assert_eq!(i128::backward_checked(&i128::MIN), None);
    assert_eq!(u16::backward_checked(&42u16), Some(41u16));
}

#[test]
fn steps_between_ordinary() {
    assert_eq!(u32::steps_between(&10, &15), (5, Some(5)));
    assert_eq!(i32::steps_between(&-3, &3), (6, Some(6)));
    assert_eq!(i8::steps_between(&i8::MIN, &i8::MAX), (255, Some(255)));
}

#[test]
fn steps_between_equal_values() {
    assert_eq!(u64::steps_between(&9, &9), (0, Some(0)));
}

#[test]
fn steps_between_reversed() {
    assert_eq!(u32::steps_between(&15, &10), (0, None));
    assert_eq!(i128::steps_between(&5, &-5), (0, None));
}

#[test]
fn steps_between_overflowing_usize() {
    assert_eq!(u128::steps_between(&0, &u128::MAX), (usize::MAX, None));
    assert_eq!(
        i128::steps_between(&i128::MIN, &i128::MAX),
        (usize::MAX, None)
    );
}

#[test]
fn char_forward_skips_surrogate_gap() {
    assert_eq!(char::forward(&'\u{D7FF}'), '\u{E000}');
    assert_eq!(char::forward_checked(&'a'), Some('b'));
    assert_eq!(char::forward_checked(&char::MAX), None);
}

#[test]
fn char_backward_skips_surrogate_gap() {
    assert_eq!(char::backward(&'\u{E000}'), '\u{D7FF}');
    assert_eq!(char::backward_checked(&'b'), Some('a'));
    assert_eq!(char::backward_checked(&'\u{0}'), None);
}

#[test]
fn char_steps_between_accounts_for_gap() {
    // from U+D7FE the walk goes D7FF, E000, E001: three steps, because the
    // naive numeric difference of 0x803 is shortened by the gap width 0x800
    let start = char::from_u32(0xD7FE).unwrap();
    let end = char::from_u32(0xE001).unwrap();
    assert_eq!(char::steps_between(&start, &end), (3, Some(3)));
}

#[test]
fn char_steps_between_without_gap() {
    assert_eq!(char::steps_between(&'a', &'f'), (5, Some(5)));
    assert_eq!(char::steps_between(&'f', &'a'), (0, None));
}

#[test]
fn char_bounds() {
    assert_eq!(char::min_value(), '\u{0}');
    assert_eq!(char::max_value(), char::MAX);
}

#[test]
fn ipv4_steps() {
    let a = Ipv4::from_bits(0x0A00_0001);
    let b = Ipv4::from_bits(0x0A00_0005);
    assert_eq!(Ipv4::steps_between(&a, &b), (4, Some(4)));
    assert_eq!(Ipv4::forward(&a).to_bits(), 0x0A00_0002);
    assert_eq!(Ipv4::backward_checked(&Ipv4::from_bits(0)), None);
    assert_eq!(Ipv4::forward_checked(&Ipv4::from_bits(u32::MAX)), None);
}

#[test]
fn ipv6_steps() {
    let a = Ipv6::from_bits(100);
    let b = Ipv6::from_bits(108);
    assert_eq!(Ipv6::steps_between(&a, &b), (8, Some(8)));
    assert_eq!(Ipv6::backward(&b).to_bits(), 107);
    assert_eq!(
        Ipv6::steps_between(&Ipv6::from_bits(0), &Ipv6::from_bits(u128::MAX)),
        (usize::MAX, None)
    );
}

#[test]
fn bounded_extremes() {
    assert_eq!(u8::min_value(), 0);
    assert_eq!(u8::max_value(), 255);
    assert_eq!(i16::min_value(), i16::MIN);
    assert_eq!(i16::max_value(), i16::MAX);
    assert_eq!(Ipv4::min_value().to_bits(), 0);
    assert_eq!(Ipv4::max_value().to_bits(), u32::MAX);
    assert_eq!(Ipv6::max_value().to_bits(), u128::MAX);
}

#[test]
fn leq_follows_order() {
    assert!(i32::leq(&-5, &3));
    assert!(!i32::leq(&3, &-5));
    assert!(char::leq(&'\u{D7FF}', &'\u{E000}'));
    assert!(u128::leq(&7, &7));
}
