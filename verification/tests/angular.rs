use std::cmp::Ordering;

use geometry_rtree::compare::{
    ALL_DIMENSIONS, Relation, angular_latitude_outcome, angular_longitude_outcome, angular_outcome,
};

#[test]
fn equal_longitudes_poles_and_shared_antimeridian_leave_the_decision_open() {
    let less = Some(Ordering::Less);
    assert_eq!(angular_longitude_outcome(true, false, false, false, less, Relation::Less), None);
    assert_eq!(angular_longitude_outcome(false, true, true, false, less, Relation::Less), None);
    assert_eq!(angular_longitude_outcome(false, false, false, true, less, Relation::Less), None);
}

#[test]
fn a_lone_antimeridian_longitude_sorts_last() {
    let less = Some(Ordering::Less);
    assert_eq!(angular_longitude_outcome(false, true, false, false, less, Relation::Greater), Some(true));
    assert_eq!(angular_longitude_outcome(false, true, false, false, less, Relation::Less), Some(false));
    assert_eq!(angular_longitude_outcome(false, false, true, false, None, Relation::Less), Some(true));
    assert_eq!(angular_longitude_outcome(false, false, true, false, None, Relation::Equal), Some(false));
}

#[test]
fn otherwise_the_longitude_ordering_decides() {
    let greater = Some(Ordering::Greater);
    assert_eq!(angular_longitude_outcome(false, false, false, false, greater, Relation::Greater), Some(true));
    assert_eq!(angular_longitude_outcome(false, false, false, false, greater, Relation::Less), Some(false));
    assert_eq!(angular_longitude_outcome(false, false, false, false, None, Relation::Less), Some(false));
    assert_eq!(angular_latitude_outcome(true, greater, Relation::Greater), None);
    assert_eq!(angular_latitude_outcome(false, Some(Ordering::Less), Relation::Less), Some(true));
}

#[test]
fn steps_combine_by_dimension() {
    assert!(angular_outcome(ALL_DIMENSIONS, Some(true), Some(false), Relation::Less));
    assert!(!angular_outcome(ALL_DIMENSIONS, None, Some(false), Relation::Less));
    assert!(angular_outcome(ALL_DIMENSIONS, None, None, Relation::Equal));
    assert!(!angular_outcome(ALL_DIMENSIONS, None, None, Relation::Less));
    assert!(!angular_outcome(0, None, Some(true), Relation::Less));
    assert!(angular_outcome(1, Some(false), Some(true), Relation::Less));
}
