//! An R-tree spatial index with exact integer box arithmetic, the
//! spatial-reference identifier it is usually paired with, and the
//! Cartesian comparison and set-relation kernels over integer points.

mod seq_facts;
pub mod bounds;
pub mod srid;
pub mod indexable;
pub mod predicate;
pub mod split;
pub mod node;
pub mod rtree;
mod insertion;
pub mod bulk;
pub mod search_frontier;
pub mod nearest_bound;
pub mod nearest;
pub mod nearest_iter;
pub mod geometry;
pub mod compare;
pub mod envelope;
pub mod area;
pub mod intersects;
pub mod disjoint;
pub mod equals;
pub mod distance;
pub mod convex_hull;
pub mod chain_facts;
pub mod segment_facts;
pub mod polygon_facts;
pub mod values;
pub mod query_iter;
