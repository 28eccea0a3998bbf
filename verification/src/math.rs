//! Geometric types that hold no coordinates of their own.
use vstd::prelude::*;

verus! {

/// A point in space.
pub struct Point3D {}

} // verus!
