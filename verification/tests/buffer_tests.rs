//! Pixel-buffer basics: plotting, reading, clearing, compositing.

use bitmappers_companion::color::{from_u32_rgb, from_u8_rgb, AZURE_BLUE, BLACK, GRAY82, WHITE};
use bitmappers_companion::image::Image;

#[test]
fn color_packing() {
    assert_eq!(from_u8_rgb(0, 127, 255), AZURE_BLUE);
    assert_eq!(from_u8_rgb(255, 255, 255), WHITE);
    assert_eq!(from_u8_rgb(0, 0, 0), BLACK);
    assert_eq!(from_u8_rgb(208, 208, 208), GRAY82);
    assert_eq!(from_u8_rgb(157, 37, 10), 0x009D_250A);
}

#[test]
fn color_unpacking_round_trip() {
    for v in [0u32, BLACK, WHITE, GRAY82, AZURE_BLUE, 0x009D_250A, 0x0012_3456] {
        let (r, g, b) = from_u32_rgb(v);
        assert_eq!(from_u8_rgb(r, g, b), v);
    }
}

#[test]
fn new_buffer_is_background() {
    let img = Image::new(4, 3, 0, 0);
    assert_eq!(img.bytes.len(), 12);
    for p in &img.bytes {
        assert_eq!(*p, WHITE);
    }
}

#[test]
fn plot_then_get_in_bounds() {
    let mut img = Image::new(8, 8, 0, 0);
    for x in 0..8 {
        for y in 0..8 {
            img.plot(x, y);
            assert_eq!(img.get(x, y), Some(BLACK));
        }
    }
}

#[test]
fn get_out_of_bounds_is_none() {
    let img = Image::new(8, 8, 0, 0);
    assert_eq!(img.get(-1, 0), None);
    assert_eq!(img.get(0, -1), None);
    assert_eq!(img.get(8, 0), None);
    assert_eq!(img.get(0, 8), None);
    assert_eq!(img.get(i64::MAX, i64::MAX), None);
}

#[test]
fn plot_out_of_bounds_changes_nothing() {
    let mut img = Image::new(8, 8, 0, 0);
    let before = img.bytes.clone();
    img.plot(-1, 0);
    img.plot(0, -1);
    img.plot(8, 0);
    img.plot(0, 8);
    img.plot(-100, 200);
    assert_eq!(img.bytes, before);
}

#[test]
fn plot_color_sets_explicit_color() {
    let mut img = Image::new(4, 4, 0, 0);
    img.plot_color(1, 2, Some(GRAY82));
    assert_eq!(img.get(1, 2), Some(GRAY82));
    img.plot_color(1, 2, None);
    assert_eq!(img.get(1, 2), Some(BLACK));
}

#[test]
fn clear_resets_everything() {
    let mut img = Image::new(5, 5, 0, 0);
    img.plot(2, 2);
    img.plot_color(0, 0, Some(GRAY82));
    img.clear();
    for p in &img.bytes {
        assert_eq!(*p, WHITE);
    }
}

#[test]
fn draw_composites_with_foreground_and_background() {
    let mut img = Image::new(2, 1, 1, 1);
    img.plot(0, 0); // (0,0) foreground, (1,0) background
    let mut buffer = vec![7u32; 4 * 3];
    img.draw(&mut buffer, 0xAA, Some(0xBB), 4);
    assert_eq!(buffer[1 * 4 + 1], 0xAA);
    assert_eq!(buffer[1 * 4 + 2], 0xBB);
    // untouched cells keep their old value
    assert_eq!(buffer[0], 7);
    assert_eq!(buffer[11], 7);
}

#[test]
fn draw_passes_overlay_colors_verbatim() {
    let mut img = Image::new(1, 1, 0, 0);
    img.plot_color(0, 0, Some(GRAY82));
    let mut buffer = vec![0u32; 1];
    img.draw(&mut buffer, 0xAA, Some(0xBB), 1);
    assert_eq!(buffer[0], GRAY82);
}

#[test]
fn draw_without_background_leaves_canvas() {
    let img = Image::new(2, 2, 0, 0); // all background
    let mut buffer = vec![5u32; 4];
    img.draw(&mut buffer, 0xAA, None, 2);
    assert_eq!(buffer, vec![5u32; 4]);
}

#[test]
fn draw_raw_copies_verbatim() {
    let mut img = Image::new(2, 2, 1, 0);
    img.plot(0, 0);
    img.plot_color(1, 1, Some(GRAY82));
    let mut buffer = vec![9u32; 3 * 2];
    img.draw_raw(&mut buffer, 3);
    assert_eq!(buffer[0], 9);
    assert_eq!(buffer[1], BLACK);
    assert_eq!(buffer[2], WHITE);
    assert_eq!(buffer[4], WHITE);
    assert_eq!(buffer[5], GRAY82);
}

#[test]
fn draw_outline_borders_only() {
    let mut img = Image::new(5, 4, 0, 0);
    img.draw_outline();
    for x in 0..5i64 {
        for y in 0..4i64 {
            let expected = if x == 0 || x == 4 || y == 0 || y == 3 {
                BLACK
            } else {
                WHITE
            };
            assert_eq!(img.get(x, y), Some(expected));
        }
    }
}

#[test]
fn draw_grid_marks_multiples() {
    let mut img = Image::new(7, 7, 0, 0);
    img.draw_grid(3);
    for x in 0..7i64 {
        for y in 0..7i64 {
            let expected = if x % 3 == 0 || y % 3 == 0 {
                GRAY82
            } else {
                WHITE
            };
            assert_eq!(img.get(x, y), Some(expected), "at ({}, {})", x, y);
        }
    }
}
