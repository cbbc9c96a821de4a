use orinium_text::{Color, RgbaImage};

#[test]
fn new_fills_every_pixel() {
    let img = RgbaImage::new(3, 2, Color(1, 2, 3, 4));
    assert_eq!(img.width, 3);
    assert_eq!(img.height, 2);
    assert_eq!(img.data.len(), 24);
    for y in 0..2 {
        for x in 0..3 {
            assert_eq!(img.get_pixel(x, y), Color(1, 2, 3, 4));
        }
    }
    assert_eq!(&img.as_bytes()[0..8], &[1, 2, 3, 4, 1, 2, 3, 4]);
}

#[test]
fn new_empty_image_has_no_bytes() {
    let img = RgbaImage::new(0, 5, Color(9, 9, 9, 9));
    assert!(img.as_bytes().is_empty());
    assert_eq!(img.get_pixel(0, 0), Color(0, 0, 0, 0));
}

#[test]
fn get_pixel_out_of_bounds_is_transparent() {
    let img = RgbaImage::new(2, 2, Color(255, 255, 255, 255));
    assert_eq!(img.get_pixel(2, 0), Color(0, 0, 0, 0));
    assert_eq!(img.get_pixel(0, 2), Color(0, 0, 0, 0));
    assert_eq!(img.get_pixel(u32::MAX, u32::MAX), Color(0, 0, 0, 0));
}

#[test]
fn set_then_get_returns_color_and_keeps_others() {
    let mut img = RgbaImage::new(3, 3, Color(0, 0, 0, 0));
    img.set_pixel(1, 2, Color(10, 20, 30, 40));
    assert_eq!(img.get_pixel(1, 2), Color(10, 20, 30, 40));
    assert_eq!(img.get_pixel(2, 1), Color(0, 0, 0, 0));
    // pixel (1, 2) of a 3-wide image starts at byte (2 * 3 + 1) * 4 = 28
    assert_eq!(&img.as_bytes()[28..32], &[10, 20, 30, 40]);
}

#[test]
fn set_pixel_out_of_bounds_changes_nothing() {
    let mut img = RgbaImage::new(2, 2, Color(5, 5, 5, 5));
    let before = img.data.clone();
    img.set_pixel(2, 0, Color(1, 1, 1, 1));
    img.set_pixel(0, 7, Color(1, 1, 1, 1));
    assert_eq!(img.data, before);
}

#[test]
fn last_write_wins() {
    let mut img = RgbaImage::new(2, 1, Color(0, 0, 0, 0));
    img.set_pixel(0, 0, Color(1, 1, 1, 1));
    img.set_pixel(0, 0, Color(2, 2, 2, 2));
    assert_eq!(img.get_pixel(0, 0), Color(2, 2, 2, 2));
}

#[test]
fn as_bytes_mut_writes_through() {
    let mut img = RgbaImage::new(1, 1, Color(0, 0, 0, 0));
    img.as_bytes_mut()[2] = 77;
    assert_eq!(img.get_pixel(0, 0), Color(0, 0, 77, 0));
}

#[test]
fn blend_full_coverage_gives_opaque_source() {
    let mut img = RgbaImage::new(2, 2, Color(10, 20, 30, 0));
    img.blend_alpha_mask(0, 0, &[255], 1, 1, Color(200, 100, 50, 255));
    assert_eq!(img.get_pixel(0, 0), Color(200, 100, 50, 255));
    assert_eq!(img.get_pixel(1, 0), Color(10, 20, 30, 0));
}

#[test]
fn blend_zero_coverage_leaves_pixel() {
    let mut img = RgbaImage::new(1, 1, Color(10, 20, 30, 40));
    img.blend_alpha_mask(0, 0, &[0], 1, 1, Color(200, 100, 50, 255));
    assert_eq!(img.get_pixel(0, 0), Color(10, 20, 30, 40));
}

#[test]
fn blend_partial_coverage_formula() {
    // a = 51: r = (255 * 51 + 0 * 204) / 255 = 51; alpha = 0 + 51 - 0 = 51
    let mut img = RgbaImage::new(1, 1, Color(0, 0, 0, 0));
    img.blend_alpha_mask(0, 0, &[51], 1, 1, Color(255, 255, 255, 255));
    assert_eq!(img.get_pixel(0, 0), Color(51, 51, 51, 51));
    // over an opaque pixel: r = (255 * 128 + 100 * 127) / 255 = 177; alpha stays 255
    let mut img = RgbaImage::new(1, 1, Color(100, 100, 100, 255));
    img.blend_alpha_mask(0, 0, &[128], 1, 1, Color(255, 0, 0, 255));
    assert_eq!(img.get_pixel(0, 0), Color(177, 49, 49, 255));
}

#[test]
fn blend_clips_to_image_and_offsets_mask() {
    let mut img = RgbaImage::new(2, 2, Color(0, 0, 0, 0));
    // a 2x2 mask placed at (1, -1): only mask element (0, 1) lands, on pixel (1, 0)
    img.blend_alpha_mask(1, -1, &[255, 255, 255, 255], 2, 2, Color(9, 8, 7, 255));
    assert_eq!(img.get_pixel(1, 0), Color(9, 8, 7, 255));
    assert_eq!(img.get_pixel(0, 0), Color(0, 0, 0, 0));
    assert_eq!(img.get_pixel(0, 1), Color(0, 0, 0, 0));
    assert_eq!(img.get_pixel(1, 1), Color(0, 0, 0, 0));
}

#[test]
fn blend_entirely_off_image_is_noop() {
    let mut img = RgbaImage::new(2, 2, Color(3, 3, 3, 3));
    let before = img.data.clone();
    img.blend_alpha_mask(-5, 10, &[], 3, 3, Color(1, 2, 3, 4));
    assert_eq!(img.data, before);
}
