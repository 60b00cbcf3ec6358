//! Grid geometry and search for tile-based worlds: Bresenham line and circle
//! rasterization, field-of-view computation by raycasting, and A* shortest
//! paths over abstract graphs and rectangular walkability grids.

use vstd::prelude::*;

pub mod bresenham;
pub mod fov;
pub mod path;

verus! {

/// A convenience type alias for a position tuple.
pub type Point = (i32, i32);

/// The mathematical value of a position: its coordinates as unbounded integers.
pub open spec fn spec_pt(p: Point) -> (int, int) {
    (p.0 as int, p.1 as int)
}

} // verus!
