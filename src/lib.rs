//! The discrete core of a CPU path tracer: the shape of its bounding-volume
//! hierarchy, the split of an image into row bands for parallel rendering,
//! the reassembly of rendered bands into one frame, and a few helpers.
use vstd::prelude::*;

pub mod bvh;
pub mod info;
pub mod render;
pub mod utils;

verus! {

} // verus!
