//! Trusted boundary to the external image codec.
//!
//! Decoding an encoded image is delegated to the `image` crate. Its result
//! is a pure function of the input bytes, so the decoded pixel buffer and
//! layout are given names that the rest of the library reasons over.

use vstd::prelude::*;

verus! {

/// Whether the external codec can decode the byte sequence at all.
pub uninterp spec fn decode_ok(bytes: Seq<u8>) -> bool;

/// The decoded samples as one flat byte sequence: 4 bytes per pixel
/// (red, green, blue, alpha) when the decoded layout has an alpha plane,
/// otherwise 3 bytes per pixel (red, green, blue).
pub uninterp spec fn decoded_pixels(bytes: Seq<u8>) -> Seq<u8>;

/// Whether the decoded layout carries an alpha plane.
pub uninterp spec fn decoded_has_alpha(bytes: Seq<u8>) -> bool;

/// Relies on `image::load_from_memory` to decode the buffer (a pure
/// computation on the bytes, no I/O and no other state, failing exactly on
/// inputs the codec cannot interpret), on `DynamicImage::color` and
/// `ColorType::has_alpha` for whether the decoded layout has an alpha
/// plane, and on `DynamicImage::to_rgba8` / `DynamicImage::to_rgb8` with
/// `ImageBuffer::into_raw` for the decoded samples as one flat byte
/// vector, 4 or 3 bytes per pixel in red, green, blue (, alpha) order.
/// All of these are deterministic functions of the input bytes alone.
#[verifier::external_body]
pub(crate) fn decode_image(buffer: &[u8]) -> (r: Option<(Vec<u8>, bool)>)
    ensures
        r is Some <==> decode_ok(buffer@),
        r matches Some(p) ==> p.0@ == decoded_pixels(buffer@) && p.1 == decoded_has_alpha(
            buffer@,
        ),
{
    match image::load_from_memory(buffer) {
        Ok(img) => {
            if img.color().has_alpha() {
                Some((img.to_rgba8().into_raw(), true))
            } else {
                Some((img.to_rgb8().into_raw(), false))
            }
        },
        Err(_) => None,
    }
}

} // verus!
