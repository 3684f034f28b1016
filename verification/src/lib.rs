//! Dominant-color extraction for raster images.
//!
//! Given an encoded image, the library decodes it (through the `image`
//! crate), subsamples at most a fixed ceiling of pixels, buckets each
//! sampled pixel into a coarse RGB cluster keyed by the top two bits of
//! each channel, accumulates alpha-weighted channel sums per cluster,
//! selects the cluster with the greatest accumulated weight (ties broken
//! by the lowest cluster key), and returns the weight-averaged color of
//! that cluster packed as `0xRRGGBB`.

pub mod cluster;
pub mod decode;
pub mod laws;
pub mod model;

use vstd::prelude::*;
use crate::cluster::dominant_pixel_color;
use crate::decode::{decode_image, decode_ok, decoded_has_alpha, decoded_pixels};
use crate::model::dominant_color_spec;

verus! {

/// Why no dominant color could be produced.
#[derive(Clone, Copy, Debug, PartialEq, Eq, Structural)]
pub enum DominantColorError {
    /// The external codec could not interpret the input bytes.
    DecodeFailure,
    /// The decoded image holds no pixel, or every sampled pixel is fully
    /// transparent, so no cluster is eligible for selection.
    EmptyInputFailure,
}

/// The outcome owed for a given input byte sequence: a decode failure on
/// bytes the codec rejects, otherwise the dominant color of the decoded
/// pixel buffer, or an empty-input failure when no cluster gathered
/// positive weight.
pub open spec fn outcome_spec(bytes: Seq<u8>) -> Result<u32, DominantColorError> {
    if !decode_ok(bytes) {
        Err(DominantColorError::DecodeFailure)
    } else {
        match dominant_color_spec(decoded_pixels(bytes), decoded_has_alpha(bytes)) {
            Some(c) => Ok(c),
            None => Err(DominantColorError::EmptyInputFailure),
        }
    }
}

/// Calculates the dominant color of an image.
///
/// The image must be given as raw encoded bytes; it is decoded during
/// processing. The result is the packed color `0xRRGGBB` of the heaviest
/// color cluster among the sampled pixels. The outcome is a function of
/// the input bytes alone, so repeated calls on the same bytes return the
/// same value.
pub fn get_dominant_color(buffer: &[u8]) -> (r: Result<u32, DominantColorError>)
    ensures
        r == outcome_spec(buffer@),
        r matches Ok(c) ==> c <= 0xFFFFFF,
{
    match decode_image(buffer) {
        None => Err(DominantColorError::DecodeFailure),
        Some(decoded) => {
            let (pixels, has_alpha) = decoded;
            match dominant_pixel_color(&pixels, has_alpha) {
                Some(c) => Ok(c),
                None => Err(DominantColorError::EmptyInputFailure),
            }
        },
    }
}

} // verus!
