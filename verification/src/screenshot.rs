//! Screenshots of the emulator's frame buffer as PNG images, encoded by the
//! `png` crate.
use vstd::prelude::*;
use crate::pilot::xrgb_to_rgb;

verus! {

#[verifier::external_type_specification]
#[verifier::external_body]
pub struct ExEncodingError(png::EncodingError);

/// The PNG file the `png` crate writes for an 8-bit RGB image.
pub uninterp spec fn png_rgb8_file(width: u32, height: u32, rgb: Seq<u8>) -> Seq<u8>;

/// Encodes with `png::Encoder` (RGB, 8 bits per channel) into memory:
/// `write_header`, `write_image_data`, `finish`. Trusted to give the file
/// named `png_rgb8_file` on success, and to fail exactly on a zero
/// dimension or on pixel data whose length is not three bytes per pixel:
/// those are the only refusals of `Writer::init` and `write_image_data`
/// for an 8-bit RGB image, sequence validation is off by default so
/// `finish` only writes IEND, and writing into a `Vec` cannot fail.
#[verifier::external_body]
fn encode_rgb8(width: u32, height: u32, rgb: &[u8]) -> (r: Result<Vec<u8>, png::EncodingError>)
    requires
        3 * width * height < 0x1_0000_0000,
    ensures
        r matches Ok(bytes) ==> bytes@ == png_rgb8_file(width, height, rgb@),
        (width == 0 || height == 0 || rgb@.len() != 3 * width * height) ==> r is Err,
        (width > 0 && height > 0 && rgb@.len() == 3 * width * height) ==> r is Ok,
{
    let mut out: Vec<u8> = Vec::new();
    let mut enc = png::Encoder::new(&mut out, width, height);
    enc.set_color(png::ColorType::Rgb);
    enc.set_depth(png::BitDepth::Eight);
    let mut w = enc.write_header()?;
    w.write_image_data(rgb)?;
    w.finish()?;
    Ok(out)
}

/// The encoder refused the image.
#[derive(Clone, Copy, Debug, PartialEq, Eq, Structural)]
pub enum PngError {
    Encoding,
}

/// A screenshot of XRGB pixels (the emulator's 32-bit format) as a PNG
/// file of `width` x `height` RGB pixels.
pub fn screenshot_png(pixels: &[u32], width: u32, height: u32) -> (r: Result<Vec<u8>, PngError>)
    requires
        3 * width * height < 0x1_0000_0000,
    ensures
        r matches Ok(bytes) ==> exists|rgb: Seq<u8>| #[trigger] png_rgb8_file(width, height, rgb) == bytes@
            && rgb.len() == 3 * pixels@.len()
            && forall|i: int| 0 <= i < pixels@.len() ==> {
                &&& #[trigger] rgb[3 * i] == ((pixels@[i] >> 16) & 0xff)
                &&& rgb[3 * i + 1] == ((pixels@[i] >> 8) & 0xff)
                &&& rgb[3 * i + 2] == (pixels@[i] & 0xff)
            },
        (width == 0 || height == 0 || pixels@.len() != width * height) ==> r is Err,
        (width > 0 && height > 0 && pixels@.len() == width * height) ==> r is Ok,
{
    let rgb = xrgb_to_rgb(pixels);
    proof {
        let n = pixels@.len() as int;
        let w = width as int;
        let h = height as int;
        assert(n != w * h ==> 3 * n != 3 * w * h) by (nonlinear_arith);
        assert(n == w * h ==> 3 * n == 3 * w * h) by (nonlinear_arith);
    }
    match encode_rgb8(width, height, rgb.as_slice()) {
        Ok(bytes) => Ok(bytes),
        Err(_) => Err(PngError::Encoding),
    }
}

} // verus!
