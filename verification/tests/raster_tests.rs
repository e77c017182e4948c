//! Rasterizer primitives: line strokes, ellipses, filled triangles.

use bitmappers_companion::color::{BLACK, WHITE};
use bitmappers_companion::image::Image;

#[test]
fn width_zero_horizontal_is_exact() {
    let mut img = Image::new(16, 16, 0, 0);
    img.plot_line_width((0, 0), (10, 0), 0);
    let mut drawn = 0;
    for x in 0..16i64 {
        for y in 0..16i64 {
            let expected = if y == 0 && x <= 10 { BLACK } else { WHITE };
            assert_eq!(img.get(x, y), Some(expected), "at ({}, {})", x, y);
            if img.get(x, y) == Some(BLACK) {
                drawn += 1;
            }
        }
    }
    assert_eq!(drawn, 11);
}

#[test]
fn width_zero_vertical_is_exact() {
    let mut img = Image::new(8, 16, 0, 0);
    img.plot_line_width((3, 12), (3, 2), 0);
    for x in 0..8i64 {
        for y in 0..16i64 {
            let expected = if x == 3 && (2..=12).contains(&y) { BLACK } else { WHITE };
            assert_eq!(img.get(x, y), Some(expected));
        }
    }
}

#[test]
fn zero_length_stroke_draws_its_point() {
    let mut img = Image::new(8, 8, 0, 0);
    img.plot_line_width((4, 4), (4, 4), 3);
    assert_eq!(img.get(4, 4), Some(BLACK));

    let mut thin = Image::new(8, 8, 0, 0);
    thin.plot_line_width((4, 4), (4, 4), 0);
    assert_eq!(thin.get(4, 4), Some(BLACK));
    // width zero plots the single pixel only
    let drawn = thin.bytes.iter().filter(|p| **p == BLACK).count();
    assert_eq!(drawn, 1);
}

#[test]
fn diagonal_width_zero_is_pure_bresenham() {
    let mut img = Image::new(16, 16, 0, 0);
    img.plot_line_width((0, 0), (10, 5), 0);
    // the endpoints are always drawn, and every step plots one pixel
    assert_eq!(img.get(0, 0), Some(BLACK));
    assert_eq!(img.get(10, 5), Some(BLACK));
    let drawn = img.bytes.iter().filter(|p| **p == BLACK).count();
    assert_eq!(drawn, 11);
}

#[test]
fn stroke_endpoints_are_drawn() {
    for (a, b, delta) in [
        ((1i64, 2i64), (13i64, 9i64), 0i64),
        ((13, 9), (1, 2), 1),
        ((5, 14), (9, 1), 2),
        ((0, 0), (0, 15), 1),
    ] {
        let mut img = Image::new(16, 16, 0, 0);
        img.plot_line_width(a, b, delta);
        assert_eq!(img.get(a.0, a.1), Some(BLACK), "start of {:?}", (a, b, delta));
        assert_eq!(img.get(b.0, b.1), Some(BLACK), "end of {:?}", (a, b, delta));
    }
}

#[test]
fn stroke_color_applies() {
    let mut img = Image::new(8, 8, 0, 0);
    img.plot_line_width_color((0, 3), (7, 3), 0, Some(0x1234));
    assert_eq!(img.get(4, 3), Some(0x1234));
}

#[test]
fn square_outline_corners() {
    let mut img = Image::new(16, 16, 0, 0);
    img.plot_square((8, 8), 3, 0);
    for (x, y) in [(5i64, 5i64), (11, 5), (11, 11), (5, 11)] {
        assert_eq!(img.get(x, y), Some(BLACK));
    }
    // interior untouched
    assert_eq!(img.get(8, 8), Some(WHITE));
}

#[test]
fn triangle_outline_corners() {
    let mut img = Image::new(16, 16, 0, 0);
    img.plot_triangle((8, 8), 3, 0);
    for (x, y) in [(5i64, 5i64), (11, 5), (11, 11)] {
        assert_eq!(img.get(x, y), Some(BLACK));
    }
}

#[test]
fn circle_extremes_are_drawn() {
    let mut img = Image::new(32, 32, 0, 0);
    img.plot_circle((16, 16), 10, 0);
    assert_eq!(img.get(26, 16), Some(BLACK));
    assert_eq!(img.get(6, 16), Some(BLACK));
    assert_eq!(img.get(16, 26), Some(BLACK));
    assert_eq!(img.get(16, 6), Some(BLACK));
    // the center stays background
    assert_eq!(img.get(16, 16), Some(WHITE));
}

#[test]
fn ellipse_quadrant_mask() {
    let mut img = Image::new(32, 32, 0, 0);
    // only quadrant I (right-down): the left extreme stays background
    img.plot_ellipse((16, 16), (8, 5), [true, false, false, false], 0);
    assert_eq!(img.get(24, 16), Some(BLACK));
    assert_eq!(img.get(8, 16), Some(WHITE));
}

#[test]
fn degenerate_vertical_ellipse_tips() {
    let mut img = Image::new(16, 32, 0, 0);
    img.plot_ellipse((8, 16), (0, 9), [true, true, true, true], 0);
    assert_eq!(img.get(8, 25), Some(BLACK));
    assert_eq!(img.get(8, 7), Some(BLACK));
}

/// Independent point-in-triangle reference: `(x, y)` lies in the
/// closed triangle iff the cross products of the three directed edges
/// with the vectors to the point never take both signs.
fn in_triangle(q1: (i64, i64), q2: (i64, i64), q3: (i64, i64), x: i64, y: i64) -> bool {
    let cross = |p: (i64, i64), q: (i64, i64)| -> i64 {
        (q.0 - p.0) * (y - p.1) - (q.1 - p.1) * (x - p.0)
    };
    let d1 = cross(q1, q2);
    let d2 = cross(q2, q3);
    let d3 = cross(q3, q1);
    let has_neg = d1 < 0 || d2 < 0 || d3 < 0;
    let has_pos = d1 > 0 || d2 > 0 || d3 > 0;
    !(has_neg && has_pos)
}

#[test]
fn fill_triangle_matches_point_in_triangle() {
    let triangles = [
        ((2i64, 2i64), (12i64, 4i64), (6i64, 13i64)),
        ((0, 0), (10, 0), (0, 10)),
        ((0, 0), (15, 0), (0, 15)),
        ((14, 1), (1, 8), (13, 14)),
        ((3, 3), (3, 3), (3, 3)),
        ((5, 5), (10, 5), (7, 5)),
    ];
    for (q1, q2, q3) in triangles {
        let mut img = Image::new(16, 16, 0, 0);
        img.fill_triangle(q1, q2, q3);
        let xs = [q1.0, q2.0, q3.0];
        let ys = [q1.1, q2.1, q3.1];
        let (x_min, x_max) = (*xs.iter().min().unwrap(), *xs.iter().max().unwrap());
        let (y_min, y_max) = (*ys.iter().min().unwrap(), *ys.iter().max().unwrap());
        for x in 0..16i64 {
            for y in 0..16i64 {
                let inside = x_min <= x && x <= x_max && y_min <= y && y <= y_max
                    && in_triangle(q1, q2, q3, x, y);
                let expected = if inside { BLACK } else { WHITE };
                assert_eq!(img.get(x, y), Some(expected),
                    "triangle {:?} at ({}, {})", (q1, q2, q3), x, y);
            }
        }
    }
}
