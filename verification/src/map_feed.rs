use vstd::prelude::*;

use image::codecs::png::PngEncoder;
use image::{ExtendedColorType, ImageEncoder, ImageFormat};

use crate::server::ServerMessage;

verus! {

/// The side, in pixels, of the square map that the simulation broadcasts.
pub const MAP_SIDE: u32 = 183;

/// The bytes that `image`'s `PngEncoder` (default compression and filter)
/// writes into an empty `Vec` for a `width` x `height` 8-bit grayscale image
/// whose rows lie one after another in `pixels`: the PNG file, or, when the
/// encoder stops with an error, what it had written by then.
pub uninterp spec fn png_gray8(pixels: Seq<u8>, width: u32, height: u32) -> Seq<u8>;

/// The eight bytes that open every PNG file.
pub open spec fn png_signature() -> Seq<u8> {
    seq![137u8, 80u8, 78u8, 71u8, 13u8, 10u8, 26u8, 10u8]
}

/// Calls `ImageEncoder::write_image` of `image::codecs::png::PngEncoder` on a
/// `Vec`, with `ExtendedColorType::L8`, and keeps what was written whether or
/// not it reports an error. Claimed: that is what `png_gray8` names; for a
/// non-empty image it opens with the PNG signature (the `png` crate rejects
/// only a zero width or height before writing the signature first).
/// `write_image` panics unless `pixels` holds exactly `width * height` bytes.
#[verifier::external_body]
fn encode_png_gray8(pixels: &[u8], width: u32, height: u32) -> (png: Vec<u8>)
    requires
        pixels@.len() == width * height,
    ensures
        png@ == png_gray8(pixels@, width, height),
        width > 0 && height > 0 ==> png@.len() >= 8 && png@.take(8) == png_signature(),
{
    let mut bytes: Vec<u8> = Vec::new();
    let _ = PngEncoder::new(&mut bytes).write_image(pixels, width, height, ExtendedColorType::L8);
    bytes
}

/// The map update that broadcasts the whole `MAP_SIDE` x `MAP_SIDE` map whose
/// 8-bit gray rows lie one after another in `pixels`: its corner is at
/// `(0, 0)` and its image is what the PNG encoder writes for the map.
pub fn map_update_message(pixels: &[u8]) -> (m: ServerMessage)
    requires
        pixels@.len() == MAP_SIDE * MAP_SIDE,
    ensures
        m matches ServerMessage::MapUpdate { x, y, img } && x == 0 && y == 0
            && img@ == png_gray8(pixels@, MAP_SIDE, MAP_SIDE),
        m matches ServerMessage::MapUpdate { img, .. } ==> img@.take(8) == png_signature(),
{
    let png = encode_png_gray8(pixels, MAP_SIDE, MAP_SIDE);
    ServerMessage::MapUpdate { x: 0, y: 0, img: Box::new(png) }
}

/// The 8-bit grayscale image that `image` decodes from the PNG file `file`
/// (`load_from_memory_with_format`, then `into_luma8`): its width, its height
/// and its rows one after another; `None` when decoding fails.
pub uninterp spec fn luma8_of_file(file: Seq<u8>) -> Option<(u32, u32, Seq<u8>)>;

/// Calls `image::load_from_memory_with_format` with `ImageFormat::Png`, then
/// `DynamicImage::into_luma8`, `width`, `height` and `into_raw`. Claimed: the
/// result is what `luma8_of_file` names; a decoded image holds exactly one
/// byte per pixel (the decoder fills a buffer of its total size, and the
/// conversion builds one of `width * height` pixels).
#[verifier::external_body]
fn decode_luma8(file: &[u8]) -> (r: Option<(u32, u32, Vec<u8>)>)
    ensures
        match r {
            Some((w, h, px)) => luma8_of_file(file@) == Some((w, h, px@)) && px@.len() == w * h,
            None => luma8_of_file(file@) is None,
        },
{
    match image::load_from_memory_with_format(file, ImageFormat::Png) {
        Ok(i) => {
            let g = i.into_luma8();
            Some((g.width(), g.height(), g.into_raw()))
        },
        Err(_) => None,
    }
}

/// Why a map file gives no map update.
#[derive(Clone, Copy, Debug, PartialEq, Eq)]
pub enum MapFileError {
    /// The file is not a PNG image that decodes.
    Decode,
    /// The image does not hold `MAP_SIDE * MAP_SIDE` pixels.
    Size,
}

/// The map update for the PNG map file `file`: the file decoded to 8-bit
/// gray, then broadcast whole as `map_update_message` does. The decoded
/// pixels must number `MAP_SIDE * MAP_SIDE`; they are sent as a
/// `MAP_SIDE` x `MAP_SIDE` image.
pub fn map_update_from_file(file: &[u8]) -> (r: Result<ServerMessage, MapFileError>)
    ensures
        match luma8_of_file(file@) {
            None => r == Err::<ServerMessage, MapFileError>(MapFileError::Decode),
            Some((w, h, px)) => if px.len() != MAP_SIDE * MAP_SIDE {
                r == Err::<ServerMessage, MapFileError>(MapFileError::Size)
            } else {
                r matches Ok(ServerMessage::MapUpdate { x, y, img }) && x == 0 && y == 0 && img@
                    == png_gray8(px, MAP_SIDE, MAP_SIDE)
            },
        },
{
    match decode_luma8(file) {
        None => Err(MapFileError::Decode),
        Some((_w, _h, px)) => {
            if px.len() != (MAP_SIDE as usize) * (MAP_SIDE as usize) {
                Err(MapFileError::Size)
            } else {
                Ok(map_update_message(px.as_slice()))
            }
        },
    }
}

} // verus!
