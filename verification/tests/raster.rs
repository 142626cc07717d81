use image::{DynamicImage, GrayImage};
use qmk_oled_api::device::MemSink;
use qmk_oled_api::raster::{cover_dimensions, GrayBitmap, ImageSizing};
use qmk_oled_api::screen::OledScreen;

#[test]
fn test_cover_dimensions_exact_values() {
    // Height ratio dominates: scale 128/20, width stretches past the canvas.
    assert_eq!(cover_dimensions(10, 20, 32, 128), (64, 128));
    // Width ratio dominates: scale 32/16, height overshoots the canvas.
    assert_eq!(cover_dimensions(16, 100, 32, 128), (32, 200));
    // Both axes already matching the canvas's ratio.
    assert_eq!(cover_dimensions(16, 64, 32, 128), (32, 128));
}

#[test]
fn test_cover_smaller_image_fills_canvas() {
    for (iw, ih) in [(10u32, 20u32), (31, 127), (1, 1), (5, 100)] {
        let (w, h) = cover_dimensions(iw, ih, 32, 128);
        assert!(w >= 32);
        assert!(h >= 128);
    }
}

#[test]
fn test_draw_image_original_blits_mirrored() {
    let raw: Vec<u8> = vec![255, 0, 255, 0, 0, 255, 0, 255];
    let buffer = GrayImage::from_raw(4, 2, raw).unwrap();
    let image = DynamicImage::ImageLuma8(buffer);
    let mut screen = OledScreen::from_device(MemSink::new(), 32, 128).unwrap();
    screen.draw_image(image, 0, 0, &ImageSizing::Original);
    // Image row 0 lands on canvas row 2, image row 1 on canvas row 1.
    assert_eq!(screen.buffer()[2], 0b10100000);
    assert_eq!(screen.buffer()[1], 0b01010000);
    assert_eq!(screen.buffer()[0], 0);
    assert!(screen.buffer()[3..].iter().all(|b| *b == 0));
}

#[test]
fn test_draw_image_contain_stretches_to_canvas() {
    let buffer = GrayImage::from_raw(1, 1, vec![255]).unwrap();
    let image = DynamicImage::ImageLuma8(buffer);
    let mut screen = OledScreen::from_device(MemSink::new(), 32, 128).unwrap();
    screen.draw_image(image, 0, 0, &ImageSizing::Contain);
    // The vertical-flip blit fills canvas rows 1..=128; row 128 is clipped
    // and row 0 (bytes 0, 128, 256, 384) is never touched.
    for (i, b) in screen.buffer().iter().enumerate() {
        let expected = if i % 128 == 0 { 0x00 } else { 0xFF };
        assert_eq!(*b, expected, "byte {i}");
    }
}

#[test]
fn test_draw_image_cover_scales_up() {
    let buffer = GrayImage::from_raw(16, 64, vec![255; 16 * 64]).unwrap();
    let image = DynamicImage::ImageLuma8(buffer);
    let mut screen = OledScreen::from_device(MemSink::new(), 32, 128).unwrap();
    screen.draw_image(image, 0, 0, &ImageSizing::Cover);
    // As with Contain, the vertical-flip blit leaves canvas row 0 dark.
    for (i, b) in screen.buffer().iter().enumerate() {
        let expected = if i % 128 == 0 { 0x00 } else { 0xFF };
        assert_eq!(*b, expected, "byte {i}");
    }
}

#[test]
fn test_draw_bitmap_threshold() {
    let mut screen = OledScreen::from_device(MemSink::new(), 32, 128).unwrap();
    let bitmap = GrayBitmap::new(2, 1, vec![200, 100]);
    screen.draw_bitmap(&bitmap, 0, 0, 128);
    assert!(screen.get_pixel(0, 1));
    assert!(!screen.get_pixel(1, 1));
    assert_eq!(screen.buffer()[1], 0b10000000);

    let mut strict = OledScreen::from_device(MemSink::new(), 32, 128).unwrap();
    let bitmap2 = GrayBitmap::new(2, 1, vec![200, 100]);
    strict.draw_bitmap(&bitmap2, 0, 0, 255);
    assert!(strict.buffer().iter().all(|b| *b == 0));
}

#[test]
fn test_draw_bitmap_clips_silently() {
    let mut screen = OledScreen::from_device(MemSink::new(), 32, 128).unwrap();
    let bitmap = GrayBitmap::new(4, 4, vec![255; 16]);
    screen.draw_bitmap(&bitmap, 30, 126, 255);
    assert!(screen.get_pixel(30, 127));
    assert!(screen.get_pixel(31, 127));
    assert!(!screen.get_pixel(29, 127));
}
