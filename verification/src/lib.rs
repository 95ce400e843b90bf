//! Approximates a raster image by an evolving population of coloured triangles.
//!
//! The crate holds the scanline rasterizer, the triangle generator, the colour
//! palette, the two genome models (coverage and colour) and the generic
//! evolution engine that drives either of them.

use vstd::prelude::*;

pub mod colorize;
pub mod cover;
pub mod distance;
pub mod draw;
pub mod order;
pub mod polygonize;
pub mod raster;
pub mod selection;
pub mod sum;

verus! {

/// Why a genome could not be built or mutated.
#[derive(Copy, Clone, PartialEq, Eq, Structural, Debug)]
pub enum EvolveError {
    /// The configuration cannot be met: no triangle of the requested shape
    /// exists or none was found within the sampling bound, or the canvas or
    /// the batch size is out of range.
    UnsatisfiableConstraints,
    /// More triangles overlap on one pixel than a coverage counter can hold.
    CoverageOverflow,
}

/// Draws an integer uniformly from `l..h` with `rand::Rng::gen_range` on the
/// thread-local generator.
///
/// The contract claims only the range of the draw, `l <= r < h`, and leaves
/// out the inputs on which `gen_range` panics (`l >= h`).
#[verifier::external_body]
pub fn randrange(l: i32, h: i32) -> (r: i32)
    requires
        l < h,
    ensures
        l <= r < h,
{
    rand::Rng::gen_range(&mut rand::thread_rng(), l, h)
}

} // verus!
