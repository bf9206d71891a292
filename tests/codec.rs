use idcard_detect::codec::{encode, to_planar, INPUT_LEN, INPUT_SIDE};
use idcard_detect::error::DecodeError;

fn png_of(img: &image::RgbImage) -> Vec<u8> {
    let mut out = std::io::Cursor::new(Vec::new());
    img.write_to(&mut out, image::ImageFormat::Png).unwrap();
    out.into_inner()
}

#[test]
fn black_png_encodes_to_zeros() {
    let bytes = png_of(&image::RgbImage::new(2, 2));
    let t = encode(&bytes).unwrap();
    assert_eq!(t.samples.len(), 1_228_800);
    assert_eq!(t.samples.len(), 3 * 640 * 640);
    assert!(t.samples.iter().all(|&v| v == 0));
}

#[test]
fn any_size_encodes_to_fixed_shape() {
    for (w, h) in [(1u32, 1u32), (3, 7), (800, 600)] {
        let bytes = png_of(&image::RgbImage::new(w, h));
        assert_eq!(encode(&bytes).unwrap().samples.len(), INPUT_LEN);
    }
    assert_eq!(INPUT_LEN, 3 * (INPUT_SIDE as usize) * (INPUT_SIDE as usize));
}

#[test]
fn uniform_colour_is_laid_out_by_channel() {
    let img = image::RgbImage::from_pixel(5, 3, image::Rgb([255, 128, 7]));
    let t = encode(&png_of(&img)).unwrap();
    let plane = 640 * 640;
    assert!(t.samples[..plane].iter().all(|&v| v == 255));
    assert!(t.samples[plane..2 * plane].iter().all(|&v| v == 128));
    assert!(t.samples[2 * plane..].iter().all(|&v| v == 7));
}

#[test]
fn random_bytes_are_not_an_image() {
    let bytes: Vec<u8> = (0u32..256).map(|i| (i.wrapping_mul(97).wrapping_add(13) % 251) as u8).collect();
    assert_eq!(encode(&bytes).unwrap_err(), DecodeError::NotAnImage);
    assert_eq!(encode(&[]).unwrap_err(), DecodeError::NotAnImage);
}

#[test]
fn truncated_png_is_not_an_image() {
    let bytes = png_of(&image::RgbImage::new(4, 4));
    assert_eq!(encode(&bytes[..bytes.len() / 2]).unwrap_err(), DecodeError::NotAnImage);
}

#[test]
fn planar_reorders_samples() {
    let rgb = vec![1u8, 2, 3, 4, 5, 6, 7, 8, 9];
    assert_eq!(to_planar(&rgb), vec![1, 4, 7, 2, 5, 8, 3, 6, 9]);
    assert_eq!(to_planar(&vec![]), Vec::<u8>::new());
}

#[test]
fn tensor_follows_image_pixels() {
    let mut img = image::RgbImage::new(640, 640);
    img.put_pixel(3, 0, image::Rgb([10, 20, 30]));
    let t = encode(&png_of(&img)).unwrap();
    let plane = 640 * 640;
    assert_eq!((t.samples[3], t.samples[plane + 3], t.samples[2 * plane + 3]), (10, 20, 30));
    assert_eq!(t.samples[2], 0);
}
