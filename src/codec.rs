use vstd::prelude::*;

use image::ImageError;

use crate::error::DecodeError;

verus! {

#[verifier::external_type_specification]
#[verifier::external_body]
pub struct ExImageError(ImageError);

/// Side of the square image the model takes, in pixels.
pub const INPUT_SIDE: u32 = 640;

/// Number of samples in an input tensor: three channels of `INPUT_SIDE` squared.
pub const INPUT_LEN: usize = 1_228_800;

/// Model input of shape `[1, 3, INPUT_SIDE, INPUT_SIDE]`, channel-major: all red
/// samples, then all green, then all blue, each in row-major order. A sample
/// `v` stands for the intensity `v / 255`.
#[derive(Clone, Debug)]
pub struct InputTensor {
    pub samples: Vec<u8>,
}

/// What `image::load_from_memory` decodes from the bytes, taken as interleaved
/// 8-bit RGB samples in row-major order with the width and height; `None`
/// where it refuses them.
pub uninterp spec fn decoded_rgb(bytes: Seq<u8>) -> Option<(Seq<u8>, u32, u32)>;

/// The `w` by `h` interleaved RGB samples `rgb` resized by
/// `image::imageops::resize` with the triangle filter to `nw` by `nh`.
pub uninterp spec fn resized_rgb(rgb: Seq<u8>, w: u32, h: u32, nw: u32, nh: u32) -> Seq<u8>;

/// The bytes hold an image in a format that the decoder recognises.
pub open spec fn decodes_as_image(bytes: Seq<u8>) -> bool {
    decoded_rgb(bytes) is Some
}

/// The decoded image stretched to `INPUT_SIDE` square, as interleaved RGB.
pub open spec fn stretched_rgb(bytes: Seq<u8>) -> Seq<u8> {
    let (px, w, h) = decoded_rgb(bytes)->Some_0;
    resized_rgb(px, w, h, INPUT_SIDE, INPUT_SIDE)
}

/// Relies on image::load_from_memory, which guesses the format from the bytes
/// and decodes them, the image then taken as 8-bit RGB by DynamicImage::to_rgb8
/// (three samples per pixel).
#[verifier::external_body]
fn decode_rgb8(bytes: &[u8]) -> (r: Result<(Vec<u8>, u32, u32), ImageError>)
    ensures
        r is Ok == decoded_rgb(bytes@) is Some,
        r matches Ok((v, w, h)) ==> decoded_rgb(bytes@) == Some((v@, w, h)) && v@.len() == 3 * w * h,
{
    match image::load_from_memory(bytes) {
        Ok(img) => {
            let buf = img.to_rgb8();
            let (w, h) = buf.dimensions();
            Ok((buf.into_raw(), w, h))
        },
        Err(e) => Err(e),
    }
}

/// Relies on image::imageops::resize with FilterType::Triangle, on the samples
/// taken as an RGB image by ImageBuffer::from_raw (which accepts a buffer of
/// three samples per pixel): an image of exactly `nw` by `nh` pixels.
#[verifier::external_body]
fn resize_rgb8(rgb: Vec<u8>, w: u32, h: u32, nw: u32, nh: u32) -> (r: Option<Vec<u8>>)
    requires
        rgb@.len() == 3 * w * h,
    ensures
        r is Some,
        r matches Some(v) ==> v@ == resized_rgb(rgb@, w, h, nw, nh) && v@.len() == 3 * nw * nh,
{
    match image::RgbImage::from_raw(w, h, rgb) {
        Some(img) => Some(image::imageops::resize(&img, nw, nh, image::imageops::FilterType::Triangle).into_raw()),
        None => None,
    }
}

/// Samples of channel `c` of interleaved RGB samples, pixel by pixel.
pub open spec fn channel(rgb: Seq<u8>, c: int) -> Seq<u8> {
    Seq::new(rgb.len() / 3, |p: int| rgb[3 * p + c])
}

/// Interleaved RGB samples reordered channel-major.
pub open spec fn planar(rgb: Seq<u8>) -> Seq<u8> {
    channel(rgb, 0) + channel(rgb, 1) + channel(rgb, 2)
}

/// Reorders interleaved `R, G, B, R, G, B, ...` samples into all red samples,
/// then all green, then all blue.
pub fn to_planar(rgb: &Vec<u8>) -> (r: Vec<u8>)
    requires
        rgb@.len() % 3 == 0,
    ensures
        r@ == planar(rgb@),
        r@.len() == rgb@.len(),
{
    let len = rgb.len();
    let n = len / 3;
    let mut red: Vec<u8> = Vec::new();
    let mut green: Vec<u8> = Vec::new();
    let mut blue: Vec<u8> = Vec::new();
    let mut p: usize = 0;
    while p < n
        invariant
            len == rgb@.len(),
            n == rgb@.len() / 3,
            rgb@.len() % 3 == 0,
            p <= n,
            red@ == channel(rgb@, 0).take(p as int),
            green@ == channel(rgb@, 1).take(p as int),
            blue@ == channel(rgb@, 2).take(p as int),
        decreases n - p,
    {
        assert(3 * p + 3 <= rgb@.len());
        red.push(rgb[3 * p]);
        green.push(rgb[3 * p + 1]);
        blue.push(rgb[3 * p + 2]);
        proof {
            assert(red@ =~= channel(rgb@, 0).take(p + 1));
            assert(green@ =~= channel(rgb@, 1).take(p + 1));
            assert(blue@ =~= channel(rgb@, 2).take(p + 1));
        }
        p = p + 1;
    }
    assert(red@ =~= channel(rgb@, 0));
    assert(green@ =~= channel(rgb@, 1));
    assert(blue@ =~= channel(rgb@, 2));
    red.append(&mut green);
    red.append(&mut blue);
    red
}

/// Decodes an image, stretches it to `INPUT_SIDE` square with a triangle
/// filter, and lays its samples out channel-major.
pub fn encode(image_bytes: &[u8]) -> (r: Result<InputTensor, DecodeError>)
    ensures
        r is Ok <==> decodes_as_image(image_bytes@),
        r matches Err(e) ==> e == DecodeError::NotAnImage,
        r matches Ok(t) ==> t.samples@ == planar(stretched_rgb(image_bytes@)) && t.samples@.len() == INPUT_LEN,
{
    let (px, w, h) = match decode_rgb8(image_bytes) {
        Ok(d) => d,
        Err(_) => {
            return Err(DecodeError::NotAnImage);
        },
    };
    let rgb = match resize_rgb8(px, w, h, INPUT_SIDE, INPUT_SIDE) {
        Some(v) => v,
        // The resize always yields samples: `px` holds three per pixel.
        None => {
            return Err(DecodeError::NotAnImage);
        },
    };
    let samples = to_planar(&rgb);
    Ok(InputTensor { samples })
}

/// Encoding is a function of the bytes: two tensors that `encode` returns for
/// the same bytes are equal.
pub proof fn lemma_encode_deterministic(t1: InputTensor, t2: InputTensor, bytes: Seq<u8>)
    requires
        t1.samples@ == planar(stretched_rgb(bytes)),
        t2.samples@ == planar(stretched_rgb(bytes)),
    ensures
        t1.samples@ == t2.samples@,
{
}

} // verus!
