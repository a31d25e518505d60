//! What can go wrong inside the library.

use vstd::prelude::*;

verus! {

/// The error of the `image` crate's decoders, carried through unread.
#[verifier::external_type_specification]
#[verifier::external_body]
pub struct ExImageError(image::ImageError);

/// The error of the standard library's writers, which the `image` crate's
/// encoders hand on; carried through unread.
#[verifier::external_type_specification]
#[verifier::external_body]
pub struct ExIoError(std::io::Error);

/// A failure of the library. The raster codec's own errors are carried
/// along unchanged, for the caller to report.
#[derive(Debug)]
pub enum Error {
    /// A raster file is laid out so that the decoder cannot be handed it:
    /// it has no header in front, or a second one, or a sample size that
    /// its colour type lacks, or transparency behind its first data.
    Format,
    /// A raster file could not be decoded.
    Image(image::ImageError),
    /// A raster does not have the 1024x1024 pixels that every level has.
    Dimension,
    /// A raster could not be encoded.
    Io(std::io::Error),
    /// A directory or file name does not write a tile coordinate.
    Coordinate,
}

} // verus!
