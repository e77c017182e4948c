//! Flood fill, blitting, resizing.

use bitmappers_companion::color::{BLACK, WHITE};
use bitmappers_companion::image::Image;

#[test]
fn fill_on_non_background_seed_is_a_no_op() {
    let mut img = Image::new(8, 8, 0, 0);
    img.plot(4, 4);
    let before = img.bytes.clone();
    img.flood_fill(4, 4);
    assert_eq!(img.bytes, before);
    img.flood_fill(-1, 0);
    img.flood_fill(8, 8);
    assert_eq!(img.bytes, before);
}

#[test]
fn fill_is_idempotent() {
    let mut img = Image::new(10, 10, 0, 0);
    img.draw_outline();
    img.flood_fill(5, 5);
    let once = img.bytes.clone();
    img.flood_fill(5, 5);
    assert_eq!(img.bytes, once);
}

#[test]
fn fill_stays_inside_a_boundary() {
    let mut img = Image::new(9, 9, 0, 0);
    // a 5x5 box outline from (2,2) to (6,6)
    for i in 2..=6i64 {
        img.plot(i, 2);
        img.plot(i, 6);
        img.plot(2, i);
        img.plot(6, i);
    }
    img.flood_fill(4, 4);
    for x in 0..9i64 {
        for y in 0..9i64 {
            let expected = if (2..=6).contains(&x) && (2..=6).contains(&y) {
                BLACK
            } else {
                WHITE
            };
            assert_eq!(img.get(x, y), Some(expected), "at ({}, {})", x, y);
        }
    }
}

#[test]
fn fill_reaches_around_corners() {
    let mut img = Image::new(5, 5, 0, 0);
    // a vertical wall splitting the buffer except at the bottom row
    for y in 0..4i64 {
        img.plot(2, y);
    }
    img.flood_fill(0, 0);
    // both sides connect through the gap at (2,4)
    assert_eq!(img.get(4, 0), Some(BLACK));
    for x in 0..5i64 {
        for y in 0..5i64 {
            assert_eq!(img.get(x, y), Some(BLACK));
        }
    }
}

#[test]
fn outline_then_fill_leaves_no_background() {
    let mut img = Image::new(50, 50, 0, 0);
    img.plot_line_width((0, 0), (49, 0), 0);
    img.plot_line_width((49, 0), (49, 49), 0);
    img.plot_line_width((49, 49), (0, 49), 0);
    img.plot_line_width((0, 49), (0, 0), 0);
    img.flood_fill(25, 25);
    for x in 0..50i64 {
        for y in 0..50i64 {
            assert_eq!(img.get(x, y), Some(BLACK), "at ({}, {})", x, y);
        }
    }
}

#[test]
fn copy_blits_only_foreground() {
    let mut src = Image::new(4, 4, 0, 0);
    src.plot(1, 1);
    src.plot(2, 2);
    let mut dst = Image::new(8, 8, 0, 0);
    dst.plot_color(3, 3, Some(0x42));
    dst.copy(&src, (2, 2), (0, 0), 4, 4);
    assert_eq!(dst.get(3, 3), Some(BLACK)); // (1,1) of src lands on (3,3)
    assert_eq!(dst.get(4, 4), Some(BLACK));
    assert_eq!(dst.get(2, 2), Some(WHITE)); // background not copied
}

#[test]
fn copy_clips_at_destination_edges() {
    let mut src = Image::new(4, 4, 0, 0);
    for x in 0..4i64 {
        for y in 0..4i64 {
            src.plot(x, y);
        }
    }
    let mut dst = Image::new(5, 5, 0, 0);
    dst.copy(&src, (3, 3), (0, 0), 4, 4);
    for x in 0..5i64 {
        for y in 0..5i64 {
            let expected = if x >= 3 && y >= 3 { BLACK } else { WHITE };
            assert_eq!(dst.get(x, y), Some(expected));
        }
    }
}

#[test]
fn copy_clips_at_source_edges() {
    let mut src = Image::new(2, 2, 0, 0);
    src.plot(0, 0);
    let mut dst = Image::new(8, 8, 0, 0);
    // reading a 4x4 window of a 2x2 source: the off-source part is absent
    dst.copy(&src, (0, 0), (0, 0), 4, 4);
    assert_eq!(dst.get(0, 0), Some(BLACK));
    assert_eq!(dst.get(3, 3), Some(WHITE));
}

#[test]
fn resize_samples_nearest_neighbor() {
    let mut img = Image::new(2, 2, 0, 0);
    img.plot(0, 0);
    let up = img.resize(4, 4, 0, 0);
    for x in 0..4i64 {
        for y in 0..4i64 {
            let expected = if x < 2 && y < 2 { BLACK } else { WHITE };
            assert_eq!(up.get(x, y), Some(expected));
        }
    }
    assert_eq!(up.width, 4);
    assert_eq!(up.height, 4);
}

#[test]
fn integer_upscale_then_downscale_is_exact() {
    let mut img = Image::new(10, 10, 0, 0);
    // a solid rectangle
    for x in 3..8i64 {
        for y in 2..6i64 {
            img.plot(x, y);
        }
    }
    let up = img.resize(30, 30, 0, 0);
    let down = up.resize(10, 10, 0, 0);
    assert_eq!(down.bytes, img.bytes);
}

#[test]
fn downscale_is_lossy_by_design() {
    let mut img = Image::new(8, 8, 0, 0);
    img.plot(1, 1); // a single pixel vanishes at quarter scale
    let down = img.resize(2, 2, 0, 0);
    for p in &down.bytes {
        assert_eq!(*p, WHITE);
    }
}
