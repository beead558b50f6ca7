//! Converting raw raster bytes, as an image decoder hands them out, into
//! pixel sequences, and choosing the channel count an image needs: the
//! computing half of image loading.

use vstd::prelude::*;

use crate::header::QoiChannels;
use crate::pixel::Pixel;

verus! {

/// The opaque pixel a one-byte grayscale sample expands to.
pub open spec fn gray_pixel(v: u8) -> Pixel {
    Pixel { r: v, g: v, b: v, a: 255 }
}

/// The pixel a two-byte grayscale-with-alpha sample expands to.
pub open spec fn gray_alpha_pixel(bytes: Seq<u8>, i: int) -> Pixel {
    Pixel { r: bytes[2 * i], g: bytes[2 * i], b: bytes[2 * i], a: bytes[2 * i + 1] }
}

/// The opaque pixel at offset `3 * i` of an RGB byte stream.
pub open spec fn rgb_pixel(bytes: Seq<u8>, i: int) -> Pixel {
    Pixel { r: bytes[3 * i], g: bytes[3 * i + 1], b: bytes[3 * i + 2], a: 255 }
}

/// The pixel at offset `4 * i` of an RGBA byte stream.
pub open spec fn rgba_pixel(bytes: Seq<u8>, i: int) -> Pixel {
    Pixel { r: bytes[4 * i], g: bytes[4 * i + 1], b: bytes[4 * i + 2], a: bytes[4 * i + 3] }
}

/// Expand grayscale samples, one byte per pixel, into opaque pixels.
pub fn pixels_from_gray(bytes: &Vec<u8>) -> (out: Vec<Pixel>)
    ensures
        out@.len() == bytes@.len(),
        forall|i: int| 0 <= i < out@.len() ==> out@[i] == gray_pixel(bytes@[i]),
{
    let mut out: Vec<Pixel> = Vec::new();
    let mut k: usize = 0;
    while k < bytes.len()
        invariant
            k <= bytes@.len(),
            out@.len() == k,
            forall|i: int| 0 <= i < k ==> out@[i] == gray_pixel(bytes@[i]),
        decreases bytes@.len() - k,
    {
        let v = bytes[k];
        out.push(Pixel { r: v, g: v, b: v, a: 255 });
        k = k + 1;
    }
    out
}

/// Expand grayscale-with-alpha samples, two bytes per pixel.
pub fn pixels_from_gray_alpha(bytes: &Vec<u8>) -> (out: Vec<Pixel>)
    requires
        bytes@.len() % 2 == 0,
    ensures
        out@.len() == bytes@.len() / 2,
        forall|i: int| 0 <= i < out@.len() ==> out@[i] == gray_alpha_pixel(bytes@, i),
{
    let mut out: Vec<Pixel> = Vec::new();
    let mut k: usize = 0;
    while k < bytes.len()
        invariant
            k <= bytes@.len(),
            k % 2 == 0,
            bytes@.len() % 2 == 0,
            out@.len() == k / 2,
            forall|i: int| 0 <= i < out@.len() ==> out@[i] == gray_alpha_pixel(bytes@, i),
        decreases bytes@.len() - k,
    {
        let c = bytes[k];
        let a = bytes[k + 1];
        out.push(Pixel { r: c, g: c, b: c, a });
        k = k + 2;
    }
    out
}

/// Expand RGB samples, three bytes per pixel, into opaque pixels.
pub fn pixels_from_rgb(bytes: &Vec<u8>) -> (out: Vec<Pixel>)
    requires
        bytes@.len() % 3 == 0,
    ensures
        out@.len() == bytes@.len() / 3,
        forall|i: int| 0 <= i < out@.len() ==> out@[i] == rgb_pixel(bytes@, i),
{
    let mut out: Vec<Pixel> = Vec::new();
    let mut k: usize = 0;
    while k < bytes.len()
        invariant
            k <= bytes@.len(),
            k % 3 == 0,
            bytes@.len() % 3 == 0,
            out@.len() == k / 3,
            forall|i: int| 0 <= i < out@.len() ==> out@[i] == rgb_pixel(bytes@, i),
        decreases bytes@.len() - k,
    {
        let r = bytes[k];
        let g = bytes[k + 1];
        let b = bytes[k + 2];
        out.push(Pixel { r, g, b, a: 255 });
        k = k + 3;
    }
    out
}

/// Expand RGBA samples, four bytes per pixel.
pub fn pixels_from_rgba(bytes: &Vec<u8>) -> (out: Vec<Pixel>)
    requires
        bytes@.len() % 4 == 0,
    ensures
        out@.len() == bytes@.len() / 4,
        forall|i: int| 0 <= i < out@.len() ==> out@[i] == rgba_pixel(bytes@, i),
{
    let mut out: Vec<Pixel> = Vec::new();
    let mut k: usize = 0;
    while k < bytes.len()
        invariant
            k <= bytes@.len(),
            k % 4 == 0,
            bytes@.len() % 4 == 0,
            out@.len() == k / 4,
            forall|i: int| 0 <= i < out@.len() ==> out@[i] == rgba_pixel(bytes@, i),
        decreases bytes@.len() - k,
    {
        let r = bytes[k];
        let g = bytes[k + 1];
        let b = bytes[k + 2];
        let a = bytes[k + 3];
        out.push(Pixel { r, g, b, a });
        k = k + 4;
    }
    out
}

/// The channel count an image needs: `Rgba` exactly when some pixel is not
/// fully opaque.
pub fn channels_for(pixels: &Vec<Pixel>) -> (c: QoiChannels)
    ensures
        c == (if exists|i: int| 0 <= i < pixels@.len() && pixels@[i].a != 255 {
            QoiChannels::Rgba
        } else {
            QoiChannels::Rgb
        }),
{
    let mut k: usize = 0;
    while k < pixels.len()
        invariant
            k <= pixels@.len(),
            forall|i: int| 0 <= i < k ==> pixels@[i].a == 255,
        decreases pixels@.len() - k,
    {
        if pixels[k].a != 255 {
            proof {
                assert(0 <= k < pixels@.len() && pixels@[k as int].a != 255);
            }
            return QoiChannels::Rgba;
        }
        k = k + 1;
    }
    QoiChannels::Rgb
}

} // verus!
