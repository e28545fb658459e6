use procon_lib::traits::math::group::{Additive as A, Group};
use procon_lib::traits::math::monoid::{Max, Min, Monoid};
use procon_lib::utils::range::{range_end, range_start, Bound, RangeBounds};

#[test]
fn additive() {
    assert_eq!(A::<i32>::id().0, 0);
    assert_eq!(A::inv(A(2)).0, -2);
    assert_eq!(A::op(A(1), A(2)).0, 3);
}

#[test]
fn additive_wraps_around() {
    assert_eq!(A::op(A(i32::MAX), A(1)).0, i32::MIN);
    assert_eq!(A::inv(A(i64::MIN)).0, i64::MIN);
    assert_eq!(A::op(A(-128i8), A(-1)).0, 127);
    assert_eq!(A::op(A(5i128), A::inv(A(5i128))).0, 0);
}

#[test]
fn rminq() {
    assert_eq!(Min::op(Min(1), Min(2)).0, 1);
    assert_eq!(Min::<i32>::id().0, ::std::i32::MAX);
    assert_eq!(Min::op(Min(1), Min::id()).0, 1);
}

#[test]
fn rmaxq() {
    assert_eq!(Max::op(Max(1), Max(2)).0, 2);
    assert_eq!(Max::<i32>::id().0, ::std::i32::MIN);
    assert_eq!(Max::op(Max(1), Max::id()).0, 1);
}

#[test]
fn min_max_identities_of_every_width() {
    assert_eq!(Min::<u8>::id().0, u8::MAX);
    assert_eq!(Min::<usize>::id().0, usize::MAX);
    assert_eq!(Max::<u64>::id().0, 0);
    assert_eq!(Max::<isize>::id().0, isize::MIN);
    assert_eq!(Min::op(Min(7u16), Min(7u16)).0, 7);
    assert_eq!(Max::op(Max(-3i64), Max(-4i64)).0, -3);
}

#[test]
fn check_bounds() {
    assert_eq!(range_start(&(0..1), 0), 0);
    assert_eq!(range_start(&(0..=1), 0), 0);
    assert_eq!(range_start(&(..1), 0), 0);
    assert_eq!(range_start(&(0..), 0), 0);
    assert_eq!(range_start(&(..), 0), 0);
    assert_eq!(range_end(&(0..1), 1), 1);
    assert_eq!(range_end(&(0..=1), 1), 1);
    assert_eq!(range_end(&(..1), 1), 1);
    assert_eq!(range_end(&(0..), 1), 1);
    assert_eq!(range_end(&(..), 1), 1);
}

#[test]
fn bounds_are_clamped() {
    assert_eq!(range_start(&(3..9), 5), 5);
    assert_eq!(range_start(&(7..9), 5), 7);
    assert_eq!(range_start(&(..9), 5), 5);
    assert_eq!(range_end(&(3..9), 5), 5);
    assert_eq!(range_end(&(3..4), 5), 4);
    assert_eq!(range_end(&(3..=4), 5), 5);
    assert_eq!(range_end(&(3..=9), 5), 5);
    assert_eq!(range_end(&(..=2), 5), 3);
    assert_eq!(range_end(&(3..), 5), 5);
}

#[test]
fn ranges_contain_what_lies_between_their_endpoints() {
    assert!(RangeBounds::contains(&(3..7), &3));
    assert!(RangeBounds::contains(&(3..7), &6));
    assert!(!RangeBounds::contains(&(3..7), &7));
    assert!(!RangeBounds::contains(&(3..7), &2));
    assert!(RangeBounds::contains(&(3..=7), &7));
    assert!(RangeBounds::contains(&(..7), &0));
    assert!(!RangeBounds::contains(&(..7), &7));
    assert!(RangeBounds::contains(&(..=7), &7));
    assert!(RangeBounds::contains(&(3..), &usize::MAX));
    assert!(!RangeBounds::contains(&(3..), &2));
    assert!(RangeBounds::<i32>::contains(&(..), &-5));
    assert!(!RangeBounds::contains(&(7..3), &5));
}

#[test]
fn endpoints_of_ranges() {
    assert!(matches!(RangeBounds::start_bound(&(3..7)), Bound::Included(&3)));
    assert!(matches!(RangeBounds::end_bound(&(3..7)), Bound::Excluded(&7)));
    assert!(matches!(RangeBounds::end_bound(&(3..=7)), Bound::Included(&7)));
    assert!(matches!(RangeBounds::<u8>::start_bound(&(..)), Bound::Unbounded));
    assert!(matches!(RangeBounds::end_bound(&(3u8..)), Bound::Unbounded));
    assert!(matches!(RangeBounds::start_bound(&(..=9i64)), Bound::Unbounded));
}

#[test]
fn plain_integers_are_groups() {
    assert_eq!(<i32 as Monoid>::op(3, 4), 7);
    assert_eq!(<i64 as Monoid>::id(), 0);
    assert_eq!(<i16 as Group>::inv(5), -5);
    assert_eq!(<i8 as Monoid>::op(127, 1), -128);
    assert_eq!(<isize as Group>::inv(isize::MIN), isize::MIN);
}
