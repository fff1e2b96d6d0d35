# geometry_rtree

A verified R-tree spatial index over integer boxes, with the Cartesian
geometry strategies it is used with, written in Verus.

- `src/` is the verified library. Coordinates are `i32` and all box,
  distance, area and orientation arithmetic is exact (`i64`/`i128`), so
  the contracts speak of mathematical integers.
  - `bounds`, `indexable`, `node`, `rtree`: boxes, indexed values, the
    tree and its invariant (balanced, within capacity, child boxes tight).
  - `insertion`, `split`, `bulk`: insertion with the quadratic, linear and
    R* node splits, and Sort-Tile-Recursive bulk loading.
  - `predicate`, `query_iter`, `values`: spatial predicates (and their
    composition), the lazy pruning query walk, and the plain value walk.
  - `search_frontier`, `nearest_bound`, `nearest`, `nearest_iter`:
    best-first k-nearest search and the unbounded nearest-first stream.
  - `geometry`, `compare`, `envelope`, `intersects`, `disjoint`,
    `equals`, `area`, `distance`, `convex_hull`: the Cartesian strategies.
  - `chain_facts`, `segment_facts`: the geometry behind the convex hull's
    monotone chain and behind the segment intersection test (the test
    holds exactly when the two closed segments share a point).
  - `srid`: the spatial-reference identifier.
- `tests/` holds the tests, run against the compiled library.
- `app/` holds what the verified library cannot: the floating-point
  strategies (Euclidean distance, centroids, closest points,
  densification, buffer settings, and ellipsoidal geodesy: Vincenty,
  Thomas and Andoyer distances, Thomas and Vincenty direct solutions,
  azimuths, vertices, meridian arcs, rhumb lines, and the measurements of
  angular point comparison, whose decisions the library makes), the
  default strategy of each kind per coordinate family, and serde
  persistence of a tree as the sequence of its values.
- Not carried: Karney's direct and inverse solutions and the gnomonic
  and Sjoberg geodesic intersections built on them (their series
  coefficients come from a coordinate crate whose source is not part of
  this project), the ellipsoidal polygon area (it rests on a spherical
  excess accumulator that is likewise absent), and the spherical
  strategies.
