//! Fixed-point core of a mesh-to-anchor pipeline: slice levels, plane/triangle
//! slicing, contour assembly, grid scoring and candidate ranking.
use vstd::prelude::*;

pub mod geometry;
pub mod slicer;
pub mod contour;
pub mod scorer;
pub mod rank;
pub mod pipeline;

pub use pipeline::{AlgoType, Candidate, InputFileType, P3DError};

verus! {

} // verus!
