//! Serialization of the final raster as a PNG stream. The encoder itself is
//! an outside collaborator; the library fixes what is handed to it and names
//! its output, and the caller only writes the returned bytes out.

use vstd::prelude::*;
use crate::raster::Image;

verus! {

/// The PNG stream the encoder produces for an RGBA raster with these pixel
/// bytes and dimensions, at the fixed settings the library uses (8-bit RGBA,
/// fast compression).
pub uninterp spec fn png_stream_of(data: Seq<u8>, width: u32, height: u32) -> Seq<u8>;

/// Relies on png::Encoder and png::Writer::write_image_data: encoding an
/// 8-bit RGBA raster at a fixed compression setting depends on the pixel
/// bytes and dimensions alone, and into an in-memory sink it fails only on a
/// zero dimension or a buffer-size mismatch - refused with an error, never a
/// panic - so on a well-formed raster of nonzero size it succeeds.
#[verifier::external_body]
fn png_encode_raw(img: &Image) -> (r: Option<Vec<u8>>)
    requires
        img.wf(),
    ensures
        r matches Some(v) ==> v@ == png_stream_of(img.data@, img.width, img.height),
        img.width >= 1 && img.height >= 1 ==> r is Some,
{
    let mut out: Vec<u8> = Vec::new();
    let mut encoder = png::Encoder::new(&mut out, img.width, img.height);
    encoder.set_color(png::ColorType::Rgba);
    encoder.set_depth(png::BitDepth::Eight);
    encoder.set_compression(png::Compression::Fast);
    let mut writer = encoder.write_header().ok()?;
    writer.write_image_data(&img.data).ok()?;
    writer.finish().ok()?;
    Some(out)
}

/// Encode the final raster as a PNG stream, ready to be written to a file.
///
/// Accepts any value, and succeeds on every well-formed raster of nonzero
/// size; a raster whose buffer does not match its dimensions, or a
/// zero-sized one, yields `None`.
pub fn encode_png(img: &Image) -> (r: Option<Vec<u8>>)
    ensures
        r matches Some(v) ==> v@ == png_stream_of(img.data@, img.width, img.height),
        img.data@.len() == img.width * img.height * 4 && img.width >= 1 && img.height >= 1
            ==> r is Some,
{
    proof {
        assert((img.width as int) * (img.height as int) * 4 <= u128::MAX) by (nonlinear_arith)
            requires
                img.width <= u32::MAX,
                img.height <= u32::MAX,
        ;
    }
    let expected = (img.width as u128) * (img.height as u128) * 4;
    if (img.data.len() as u128) != expected {
        return None;
    }
    png_encode_raw(img)
}

} // verus!
