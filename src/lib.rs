//! Boundary arcs and closed contours of the region that lies inside every
//! ordinary circle of a set and outside every inverted one.
//!
//! All geometry is exact integer geometry: centers and radii are integers,
//! directions from a center are integer vectors ordered by their angle, and
//! intersection points are identified by the pair of circles that made them.
use vstd::prelude::*;

pub mod geom;
pub mod intersect;
pub mod arcs;
pub mod stitch;

verus! {

} // verus!
