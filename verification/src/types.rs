//! Shared type aliases of the evaluation system.

use vstd::prelude::*;

verus! {

/// An RGBA color value: `[red, green, blue, alpha]`.
pub type RGBA = [u8; 4];

/// Image dimensions as `(width, height)`.
pub type ImageDimensions = (usize, usize);

/// Pixel coordinates as `(x, y)`.
pub type PixelCoord = (usize, usize);

/// A two-dimensional image: rows of RGBA pixels.
pub type Image2DArray = Vec<Vec<RGBA>>;

} // verus!
