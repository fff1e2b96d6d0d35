use geometry_rtree::bounds::Bounds;
use geometry_rtree::predicate::Predicate;
use geometry_rtree::rtree::Rtree;

#[derive(Debug)]
struct Parcel {
    name: &'static str,
    boundary: [[i32; 2]; 5],
}

/// A rectangular parcel, indexed by its box.
fn rectangle(name: &'static str, min: [i32; 2], max: [i32; 2]) -> (Bounds, Parcel) {
    (
        Bounds::new(min, max),
        Parcel { name, boundary: [min, [min[0], max[1]], max, [max[0], min[1]], min] },
    )
}

#[test]
fn index_polygons_and_query_a_point() {
    let parcels = vec![
        rectangle("park", [0, 0], [4, 3]),
        rectangle("school", [5, 0], [8, 2]),
        rectangle("lake", [1, 5], [3, 7]),
    ];
    let tree: Rtree<(Bounds, Parcel)> = Rtree::from_vec(parcels);
    let hits = tree.query(Predicate::Intersects(Bounds::point([2, 1])));
    assert_eq!(hits.len(), 1);
    assert_eq!(hits[0].1.name, "park");
    assert_eq!(hits[0].1.boundary[0], [0, 0]);
}
