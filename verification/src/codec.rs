//! The image decode step, done by the `image` crate.  A decoded image is
//! carried opaquely; the contracts speak only of whether bytes decode.

use vstd::prelude::*;

verus! {

#[verifier::external_type_specification]
#[verifier::external_body]
pub struct ExDynamicImage(image::DynamicImage);

/// Whether the `image` crate decodes `bytes` as an image.  It detects the
/// format from the byte content alone (magic bytes), so this is a function
/// of the bytes, independent of any file name.
pub uninterp spec fn is_decodable_image(bytes: Seq<u8>) -> bool;

/// Relies on `image::load_from_memory`: it decodes from the byte content
/// alone, auto-detecting the format, so its success depends only on
/// `bytes`.  On failure the error is rendered to text.
#[verifier::external_body]
pub(crate) fn decode_image(bytes: &[u8]) -> (r: Result<image::DynamicImage, String>)
    ensures
        r is Ok <==> is_decodable_image(bytes@),
{
    match image::load_from_memory(bytes) {
        Ok(img) => Ok(img),
        Err(e) => Err(format!("{}", e)),
    }
}

} // verus!
