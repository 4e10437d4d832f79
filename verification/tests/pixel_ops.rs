use oculante::buffer::FrameBuffer;
use oculante::ops::ImageOperation;
use oculante::pixel::process_pixels;

fn buffer_from(width: u32, height: u32, bytes: Vec<u8>) -> FrameBuffer {
    FrameBuffer::from_raw(width, height, bytes).expect("well-formed buffer")
}

fn single_pixel(r: u8, g: u8, b: u8, a: u8) -> FrameBuffer {
    buffer_from(1, 1, vec![r, g, b, a])
}

fn pixel_of(buf: &FrameBuffer) -> (u8, u8, u8, u8) {
    let p = buf.get_pixel(0, 0);
    (p.r, p.g, p.b, p.a)
}

#[test]
fn load() {
    // The decoder collaborator hands over width, height and packed RGBA8
    // bytes; adopting them succeeds exactly when the shape invariant holds.
    let img = image::RgbaImage::from_pixel(3, 2, image::Rgba([1, 2, 3, 4]));
    let (w, h) = img.dimensions();
    let buf = FrameBuffer::from_raw(w, h, img.into_raw()).unwrap();
    assert_eq!(buf.width, 3);
    assert_eq!(buf.height, 2);
    assert_eq!(buf.data.len(), 24);
}

#[test]
fn from_raw_rejects_wrong_length() {
    assert!(FrameBuffer::from_raw(2, 2, vec![0u8; 15]).is_none());
    assert!(FrameBuffer::from_raw(2, 2, vec![0u8; 16]).is_some());
}

#[test]
fn brightness_concrete() {
    let mut buf = single_pixel(100, 100, 100, 255);
    process_pixels(&mut buf, &[ImageOperation::Brightness(10)]);
    assert_eq!(pixel_of(&buf), (110, 110, 110, 255));
}

#[test]
fn brightness_saturates() {
    let mut buf = single_pixel(250, 3, 128, 7);
    process_pixels(&mut buf, &[ImageOperation::Brightness(20)]);
    assert_eq!(pixel_of(&buf), (255, 23, 148, 7));
    let mut dark = single_pixel(5, 100, 0, 255);
    process_pixels(&mut dark, &[ImageOperation::Brightness(-10)]);
    assert_eq!(pixel_of(&dark), (0, 90, 0, 255));
}

#[test]
fn brightness_near_inverse() {
    let mut buf = single_pixel(100, 17, 230, 255);
    process_pixels(
        &mut buf,
        &[ImageOperation::Brightness(10), ImageOperation::Brightness(-10)],
    );
    assert_eq!(pixel_of(&buf), (100, 17, 230, 255));
}

#[test]
fn contrast_concrete() {
    // percent 10: spread factor 110/90 around the 128 midpoint.
    let mut buf = single_pixel(200, 128, 100, 255);
    process_pixels(&mut buf, &[ImageOperation::Contrast(10)]);
    // (200-128)*110/90 = 88; (128-100)*110/90 = 34
    assert_eq!(pixel_of(&buf), (216, 128, 94, 255));
}

#[test]
fn contrast_minus_hundred_flattens() {
    let mut buf = single_pixel(10, 200, 255, 9);
    process_pixels(&mut buf, &[ImageOperation::Contrast(-100)]);
    assert_eq!(pixel_of(&buf), (128, 128, 128, 9));
}

#[test]
fn exposure_concrete() {
    let mut buf = single_pixel(100, 0, 255, 255);
    process_pixels(&mut buf, &[ImageOperation::Exposure(20)]);
    // 100*120/100 = 120; 255*120/100 = 306 clamps to 255
    assert_eq!(pixel_of(&buf), (120, 0, 255, 255));
    let mut dark = single_pixel(100, 50, 0, 255);
    process_pixels(&mut dark, &[ImageOperation::Exposure(-50)]);
    assert_eq!(pixel_of(&dark), (50, 25, 0, 255));
}

#[test]
fn equalize_window() {
    let mut buf = single_pixel(150, 50, 250, 255);
    process_pixels(&mut buf, &[ImageOperation::Equalize((100, 200))]);
    // below the window -> 0, inside -> (150-100)*255/100, above -> 255
    assert_eq!(pixel_of(&buf), (127, 0, 255, 255));
}

#[test]
fn equalize_degenerate_window_is_noop() {
    let mut buf = single_pixel(150, 50, 250, 11);
    process_pixels(&mut buf, &[ImageOperation::Equalize((200, 100))]);
    assert_eq!(pixel_of(&buf), (150, 50, 250, 11));
    let mut same = single_pixel(150, 50, 250, 11);
    process_pixels(&mut same, &[ImageOperation::Equalize((100, 100))]);
    assert_eq!(pixel_of(&same), (150, 50, 250, 11));
}

#[test]
fn posterize_concrete() {
    // 4 levels quantize 200 onto {0, 85, 170, 255}: bucket 3 -> 255.
    let mut buf = single_pixel(200, 0, 85, 255);
    process_pixels(&mut buf, &[ImageOperation::Posterize(4)]);
    let (r, g, b, a) = pixel_of(&buf);
    assert_eq!(r, 255);
    assert_eq!(g, 0);
    assert_eq!(b, 85);
    assert_eq!(a, 255);
    for c in [r, g, b] {
        assert!([0u8, 85, 170, 255].contains(&c));
    }
}

#[test]
fn posterize_one_level_collapses() {
    let mut buf = single_pixel(200, 13, 255, 77);
    process_pixels(&mut buf, &[ImageOperation::Posterize(1)]);
    assert_eq!(pixel_of(&buf), (0, 0, 0, 77));
}

#[test]
fn posterize_full_levels_is_identity() {
    let mut buf = single_pixel(200, 13, 255, 77);
    process_pixels(&mut buf, &[ImageOperation::Posterize(256)]);
    assert_eq!(pixel_of(&buf), (200, 13, 255, 77));
}

#[test]
fn desaturate_full_greys() {
    let mut buf = single_pixel(200, 100, 50, 255);
    process_pixels(&mut buf, &[ImageOperation::Desaturate(100)]);
    // luminance (200*299 + 100*587 + 50*114)/1000 = 124
    assert_eq!(pixel_of(&buf), (124, 124, 124, 255));
}

#[test]
fn desaturate_zero_is_identity() {
    let mut buf = single_pixel(200, 100, 50, 255);
    process_pixels(&mut buf, &[ImageOperation::Desaturate(0)]);
    assert_eq!(pixel_of(&buf), (200, 100, 50, 255));
}

#[test]
fn hsv_zero_shift_is_identity() {
    let mut buf = buffer_from(
        2,
        2,
        vec![
            255, 0, 0, 255, 12, 200, 99, 128, 7, 7, 7, 0, 250, 10, 10, 255,
        ],
    );
    let before = buf.data.clone();
    process_pixels(&mut buf, &[ImageOperation::HSV((0, 0, 0))]);
    assert_eq!(buf.data, before);
}

#[test]
fn hsv_hue_rotation_red_to_green() {
    let mut buf = single_pixel(255, 0, 0, 255);
    process_pixels(&mut buf, &[ImageOperation::HSV((120, 0, 0))]);
    assert_eq!(pixel_of(&buf), (0, 255, 0, 255));
}

#[test]
fn hsv_value_shift_darkens() {
    let mut buf = single_pixel(0, 0, 200, 255);
    process_pixels(&mut buf, &[ImageOperation::HSV((0, 0, -100))]);
    assert_eq!(pixel_of(&buf), (0, 0, 100, 255));
}

#[test]
fn noise_zero_amount_is_identity() {
    let mut buf = single_pixel(90, 180, 20, 4);
    process_pixels(&mut buf, &[ImageOperation::Noise { amt: 0, mono: false }]);
    assert_eq!(pixel_of(&buf), (90, 180, 20, 4));
}

#[test]
fn noise_is_deterministic_per_position() {
    let bytes: Vec<u8> = (0..32).map(|v| (v * 7) as u8).collect();
    let mut one = buffer_from(4, 2, bytes.clone());
    let mut two = buffer_from(4, 2, bytes);
    let ops = [ImageOperation::Noise { amt: 30, mono: false }];
    process_pixels(&mut one, &ops);
    process_pixels(&mut two, &ops);
    assert_eq!(one.data, two.data);
}

#[test]
fn monochrome_noise_keeps_grey_balance() {
    let mut buf = buffer_from(2, 1, vec![100, 100, 100, 255, 30, 30, 30, 255]);
    process_pixels(&mut buf, &[ImageOperation::Noise { amt: 25, mono: true }]);
    for x in 0..2 {
        let p = buf.get_pixel(x, 0);
        assert_eq!(p.r, p.g);
        assert_eq!(p.g, p.b);
        assert_eq!(p.a, 255);
    }
}

#[test]
fn fused_pass_composes_in_order() {
    // Equalize then Posterize differs from Posterize then Equalize; the
    // list order must be respected.
    let mut ab = single_pixel(150, 150, 150, 255);
    process_pixels(
        &mut ab,
        &[
            ImageOperation::Equalize((100, 200)),
            ImageOperation::Posterize(2),
        ],
    );
    // equalize: (150-100)*255/100 = 127; posterize 2: bucket 127*2/256 = 0 -> 0
    assert_eq!(pixel_of(&ab), (0, 0, 0, 255));
    let mut ba = single_pixel(150, 150, 150, 255);
    process_pixels(
        &mut ba,
        &[
            ImageOperation::Posterize(2),
            ImageOperation::Equalize((100, 200)),
        ],
    );
    // posterize 2: bucket 150*2/256 = 1 -> 255; equalize clamps to 255
    assert_eq!(pixel_of(&ba), (255, 255, 255, 255));
}
