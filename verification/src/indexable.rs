//! The [`Indexable`] trait: what can be stored in an [`Rtree`].
//!
//! An indexable value is anything from which the index can read an
//! axis-aligned bounding box.
//!
//! [`Rtree`]: crate::rtree::Rtree

use vstd::prelude::*;

use crate::bounds::Bounds;

verus! {

/// A value the [`Rtree`](crate::rtree::Rtree) can index: one that exposes
/// an axis-aligned bounding box.
///
/// Implemented for [`Bounds`] itself and for `(Bounds, T)` pairs, which
/// index an arbitrary payload by a precomputed box. Implementations
/// must return the same box every time they are asked, as stated by
/// `bounds`'s contract.
pub trait Indexable {
    /// The value's bounding box, as a specification value.
    spec fn spec_bounds(&self) -> Bounds;

    /// The value's axis-aligned bounding box.
    fn bounds(&self) -> (b: Bounds)
        ensures
            b == self.spec_bounds(),
    ;
}

impl Indexable for Bounds {
    open spec fn spec_bounds(&self) -> Bounds {
        *self
    }

    fn bounds(&self) -> (b: Bounds) {
        *self
    }
}

/// Index an arbitrary payload `T` by a precomputed box; the tree reads
/// the box from `.0`.
impl<T> Indexable for (Bounds, T) {
    open spec fn spec_bounds(&self) -> Bounds {
        self.0
    }

    fn bounds(&self) -> (b: Bounds) {
        self.0
    }
}

} // verus!
