use miratope_core::rank::Rank;

#[test]
fn rank_arithmetic() {
    assert_eq!(Rank::new(2).add(Rank::new(3)), Rank::new(5));
    assert_eq!(Rank::new(7).sub(Rank::new(4)), Rank::new(3));
    assert_eq!(Rank::new(-1).try_sub(Rank::new(1)), None);
    assert_eq!(Rank::new(6).plus_one(), Rank::new(7));
    assert_eq!(Rank::new(0).minus_one(), Rank::new(-1));
    assert_eq!(Rank::new(-1).plus_one_usize(), 0);
}

#[test]
fn rank_conversions() {
    assert_eq!(Rank::new(-1).try_usize(), None);
    assert_eq!(Rank::new(4).try_usize(), Some(4));
    assert_eq!(Rank::new(4).into_usize(), 4);
    assert_eq!(Rank::new(-1).into_isize(), -1);
    assert_eq!(Rank::new(9).into_u32(), 9);
    assert_eq!(Rank::from_usize(3), Rank::new(3));
    assert_eq!(Rank::new(-1).try_minus_one(), None);
    assert_eq!(Rank::new(2).try_minus_one(), Some(Rank::new(1)));
    assert_eq!(Rank::new(5).try_sub(Rank::new(3)), Some(Rank::new(2)));
    assert_eq!(Rank::new(2).try_sub(Rank::new(3)), Some(Rank::new(-1)));
    assert_eq!(Rank::new(2).try_sub(Rank::new(4)), None);
    assert!(Rank::new(-1) < Rank::new(0));
}

#[test]
fn rank_ranges() {
    assert_eq!(Rank::range_iter(Rank::new(-1), Rank::new(2)), vec![Rank::new(-1), Rank::new(0), Rank::new(1)]);
    assert_eq!(Rank::range_iter(Rank::new(3), Rank::new(1)), Vec::<Rank>::new());
    assert_eq!(Rank::range_inclusive_iter(Rank::new(1), Rank::new(2)), vec![Rank::new(1), Rank::new(2)]);
    assert_eq!(Rank::range_inclusive_iter(Rank::new(0), Rank::new(0)), vec![Rank::new(0)]);
}
