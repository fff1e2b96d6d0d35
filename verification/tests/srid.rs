use geometry_rtree::srid::Srid;

#[test]
fn zero_is_unknown() {
    assert_eq!(Srid::new(0), Srid::unknown());
    assert_eq!(Srid::unknown().get(), 0);
}

#[test]
fn upper_bound_round_trips() {
    assert_eq!(Srid::new(u32::MAX).get(), u32::MAX);
}

#[test]
fn display_is_the_bare_decimal() {
    assert_eq!(Srid::new(4326).to_decimal_string(), "4326");
}

#[test]
fn decimal_of_small_and_large_codes() {
    assert_eq!(Srid::new(0).to_decimal_string(), "0");
    assert_eq!(Srid::new(7).to_decimal_string(), "7");
    assert_eq!(Srid::new(u32::MAX).to_decimal_string(), "4294967295");
}
