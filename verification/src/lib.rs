//! A mask-refinement engine for raster annotation: adaptive Otsu
//! thresholding inside a coarse mask, morphological cleanup with
//! largest-component selection, quadtree decomposition of mask
//! foreground into bounding boxes, the integer stages of a mean-field
//! mask smoother, and overlap resolution between label and query masks.
//! Every operation works on plain row-major pixel buffers.

use vstd::prelude::*;

pub mod components;
pub mod config;
pub mod connectivity;
pub mod grid;
pub mod morpho;
pub mod otsu;
pub mod overlap;
pub mod partition;
pub mod quadtree;
pub mod raster;
pub mod segmentation;
pub mod smoothing;

verus! {

/// Failure values returned by the refinement operations.
#[derive(Clone, Copy, Debug, PartialEq, Eq, Structural)]
pub enum RefineError {
    /// An image and a mask that must share dimensions do not.
    DimensionMismatch,
    /// No masked pixel exists where a distribution or a seed is required.
    EmptyInput,
    /// A pixel buffer does not match its declared width and height.
    DecodeFailure,
}

} // verus!
