//! Decoding an image pasted from the clipboard into 8-bit RGBA pixels, the
//! form the board stores and uploads. The decoding itself is the image
//! crate's.
use vstd::prelude::*;

verus! {

/// An image as 8-bit RGBA pixels, row by row from the top.
pub struct RgbaImage {
    pub width: u32,
    pub height: u32,
    pub rgba: Vec<u8>,
}

/// What the image crate decodes `bytes` to (format guessed from the bytes,
/// converted to 8-bit RGBA): width, height and pixel bytes, or nothing when
/// the bytes are no image it can read.
pub uninterp spec fn decoded_rgba(bytes: Seq<u8>) -> Option<(u32, u32, Seq<u8>)>;

/// Calls `image::load_from_memory` and converts the result with
/// `DynamicImage::to_rgba8`. Believed, not proved: the result is the one
/// `decoded_rgba` names for the bytes, and the pixel buffer holds at least
/// four bytes for each pixel (an image buffer of the image crate is never
/// smaller than its dimensions ask for).
#[verifier::external_body]
fn load_rgba8(bytes: &[u8]) -> (r: Option<RgbaImage>)
    ensures
        match r {
            Some(img) => {
                &&& decoded_rgba(bytes@) == Some((img.width, img.height, img.rgba@))
                &&& img.rgba@.len() >= 4 * img.width * img.height
            },
            None => decoded_rgba(bytes@) is None,
        },
{
    match image::load_from_memory(bytes) {
        Ok(img) => {
            let rgba = img.to_rgba8();
            let (width, height) = rgba.dimensions();
            Some(RgbaImage { width, height, rgba: rgba.into_raw() })
        },
        Err(_) => None,
    }
}

/// Decodes pasted clipboard bytes (png, bmp, webp, jpeg or gif) into RGBA
/// pixels; nothing when they are no image the decoder reads.
pub fn decode_pasted_image(bytes: &[u8]) -> (r: Option<RgbaImage>)
    ensures
        match r {
            Some(img) => {
                &&& decoded_rgba(bytes@) == Some((img.width, img.height, img.rgba@))
                &&& img.rgba@.len() >= 4 * img.width * img.height
            },
            None => decoded_rgba(bytes@) is None,
        },
{
    load_rgba8(bytes)
}

} // verus!
