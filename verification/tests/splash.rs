use ocarina_listener::splash::{decode_image, pack_rgb565, resize_lanczos3, spawn_points};
use std::io::Cursor;

fn png(w: u32, h: u32, px: Vec<u8>) -> Vec<u8> {
    let img = image::RgbaImage::from_raw(w, h, px).unwrap();
    let mut out = Cursor::new(Vec::new());
    img.write_to(&mut out, image::ImageFormat::Png).unwrap();
    out.into_inner()
}

fn sample_pixels() -> Vec<u8> {
    // 3 x 2 pixels; alphas: 0, 31, 30 / 255, 10, 200
    vec![
        1, 2, 3, 0, 4, 5, 6, 31, 7, 8, 9, 30, //
        10, 11, 12, 255, 13, 14, 15, 10, 16, 17, 18, 200,
    ]
}

#[test]
fn decoding_gives_back_the_pixels() {
    let img = decode_image(&png(3, 2, sample_pixels())).unwrap();
    assert_eq!(img.width(), 3);
    assert_eq!(img.height(), 2);
    assert_eq!(img.pixels(), &sample_pixels());
}

#[test]
fn garbage_does_not_decode() {
    assert!(decode_image(&[1, 2, 3, 4]).is_none());
    assert!(decode_image(&[]).is_none());
}

#[test]
fn spawn_points_are_the_opaque_pixels_row_by_row() {
    let img = decode_image(&png(3, 2, sample_pixels())).unwrap();
    assert_eq!(spawn_points(&img, 100, 50), vec![(101, 50), (100, 51), (102, 51)]);
    assert_eq!(spawn_points(&img, 0, 0), vec![(1, 0), (0, 1), (2, 1)]);
}

#[test]
fn resizing_to_the_same_size_keeps_the_pixels() {
    let img = decode_image(&png(3, 2, sample_pixels())).unwrap();
    let same = resize_lanczos3(&img, 3, 2);
    assert_eq!(same.pixels(), &sample_pixels());
    let bigger = resize_lanczos3(&img, 6, 4);
    assert_eq!((bigger.width(), bigger.height()), (6, 4));
    assert_eq!(bigger.pixels().len(), 6 * 4 * 4);
    let expected = image::imageops::resize(
        &image::RgbaImage::from_raw(3, 2, sample_pixels()).unwrap(),
        6,
        4,
        image::imageops::FilterType::Lanczos3,
    )
    .into_raw();
    assert_eq!(bigger.pixels(), &expected);
    let empty = resize_lanczos3(&img, 0, 5);
    assert_eq!(empty.pixels().len(), 0);
}

#[test]
fn rgb565_packing() {
    assert_eq!(pack_rgb565(31, 63, 31), 0xFFFF);
    assert_eq!(pack_rgb565(1, 0, 0), 0x0800);
    assert_eq!(pack_rgb565(0, 1, 0), 0x0020);
    assert_eq!(pack_rgb565(0, 0, 1), 0x0001);
    assert_eq!(pack_rgb565(0, 0, 0), 0);
}
