//! Pixel-for-pixel comparison of the engine's primitives against
//! straightforward reference implementations: the classic
//! floating-point-width Bresenham stroke, the midpoint ellipse walk,
//! and a naive breadth-first flood fill.

use bitmappers_companion::color::{BLACK, WHITE};
use bitmappers_companion::image::Image;

/// The reference stroke: integer Bresenham stepping with the
/// floating-point width threshold computed up front, thickening along
/// x while the integer offset metric stays inside `[-delta, delta)`.
fn reference_line(img: &mut Image, (x1, y1): (i64, i64), (x2, y2): (i64, i64), wd: f64) {
    let dx = x2 - x1;
    let ax = (dx * 2).abs();
    let sx = if dx > 0 { 1 } else { -1 };
    let dy = y2 - y1;
    let ay = (dy * 2).abs();
    let sy = if dy > 0 { 1 } else { -1 };
    let mut x = x1;
    let mut y = y1;
    let b = if dy == 0 { -1 } else { dx / dy };
    let a = 1i64;
    let double_d = (wd * f64::sqrt((a * a + b * b) as f64)) as i64;
    let delta = double_d / 2;
    let total = |px: i64, py: i64| -> i64 {
        if dy == 0 {
            px - x1
        } else {
            px - (py * dx) / dy + (y1 * dx) / dy - x1
        }
    };
    let mut d;
    if ax > ay {
        d = ay - ax / 2;
        loop {
            img.plot(x, y);
            let mut px = x;
            loop {
                let t = total(px, y);
                if t < -delta || t >= delta {
                    break;
                }
                px += 1;
                img.plot(px, y);
            }
            let mut px = x;
            loop {
                let t = total(px, y);
                if t < -delta || t >= delta {
                    break;
                }
                px -= 1;
                img.plot(px, y);
            }
            if x == x2 {
                return;
            }
            if d >= 0 {
                y += sy;
                d -= ax;
            }
            x += sx;
            d += ay;
        }
    } else {
        d = ax - ay / 2;
        loop {
            img.plot(x, y);
            let mut px = x;
            loop {
                let t = total(px, y);
                if t < -delta || t >= delta {
                    break;
                }
                px += 1;
                img.plot(px, y);
            }
            let mut px = x;
            loop {
                let t = total(px, y);
                if t < -delta || t >= delta {
                    break;
                }
                px -= 1;
                img.plot(px, y);
            }
            if y == y2 {
                return;
            }
            if d >= 0 {
                x += sx;
                d -= ay;
            }
            y += sy;
            d += ax;
        }
    }
}

/// The engine-facing width threshold for a floating-point pen width.
fn stroke_delta((x1, y1): (i64, i64), (x2, y2): (i64, i64), wd: f64) -> i64 {
    let dx = x2 - x1;
    let dy = y2 - y1;
    let b = if dy == 0 { -1 } else { dx / dy };
    let double_d = (wd * f64::sqrt((1 + b * b) as f64)) as i64;
    double_d / 2
}

#[test]
fn strokes_match_the_float_width_reference() {
    let segments = [
        ((0i64, 0i64), (30i64, 0i64)),
        ((0, 0), (0, 30)),
        ((2, 3), (29, 17)),
        ((29, 17), (2, 3)),
        ((5, 28), (23, 4)),
        ((10, 10), (10, 10)),
        ((31, 0), (0, 31)),
        ((7, 9), (8, 25)),
    ];
    for wd in [0.0f64, 1.0, 2.0, 2.5, 5.0] {
        for (p, q) in segments {
            let mut expected = Image::new(32, 32, 0, 0);
            reference_line(&mut expected, p, q, wd);
            let mut got = Image::new(32, 32, 0, 0);
            got.plot_line_width(p, q, stroke_delta(p, q, wd));
            assert_eq!(got.bytes, expected.bytes, "stroke {:?} width {}", (p, q), wd);
        }
    }
}

/// The reference midpoint ellipse walk with the quadrant mask and the
/// vertical tip run.
fn reference_ellipse(img: &mut Image, (xm, ym): (i64, i64), (a, b): (i64, i64),
    quadrants: [bool; 4]) {
    let mut x = -a;
    let mut y = 0i64;
    let mut e2 = b;
    let mut dx = (1 + 2 * x) * e2 * e2;
    let mut dy = x * x;
    let mut err = dx + dy;
    loop {
        if quadrants[0] {
            img.plot(xm - x, ym + y);
        }
        if quadrants[1] {
            img.plot(xm + x, ym + y);
        }
        if quadrants[2] {
            img.plot(xm + x, ym - y);
        }
        if quadrants[3] {
            img.plot(xm - x, ym - y);
        }
        e2 = 2 * err;
        if e2 >= dx {
            x += 1;
            dx += 2 * b * b;
            err += dx;
        }
        if e2 <= dy {
            y += 1;
            dy += 2 * a * a;
            err += dy;
        }
        if x > 0 {
            break;
        }
    }
    while y < b {
        y += 1;
        img.plot(xm, ym + y);
        img.plot(xm, ym - y);
    }
}

#[test]
fn ellipses_match_the_midpoint_reference() {
    let cases = [
        ((16i64, 16i64), (10i64, 6i64), [true, true, true, true]),
        ((16, 16), (6, 10), [true, true, true, true]),
        ((16, 16), (9, 9), [true, false, true, false]),
        ((16, 16), (1, 12), [true, true, true, true]),
        ((16, 16), (12, 1), [true, true, true, true]),
        ((16, 16), (0, 9), [true, true, true, true]),
        ((16, 16), (9, 0), [true, true, true, true]),
        ((16, 16), (0, 0), [true, true, true, true]),
        ((5, 5), (8, 8), [false, true, false, true]),
    ];
    for (center, axes, quadrants) in cases {
        let mut expected = Image::new(32, 32, 0, 0);
        reference_ellipse(&mut expected, center, axes, quadrants);
        let mut got = Image::new(32, 32, 0, 0);
        got.plot_ellipse(center, axes, quadrants, 0);
        assert_eq!(got.bytes, expected.bytes, "ellipse {:?}", (center, axes, quadrants));
    }
}

/// A naive breadth-first fill of the 4-connected background region.
fn reference_fill(img: &mut Image, x: i64, y: i64) {
    if img.get(x, y) != Some(WHITE) {
        return;
    }
    let mut queue = vec![(x, y)];
    while let Some((cx, cy)) = queue.pop() {
        if img.get(cx, cy) != Some(WHITE) {
            continue;
        }
        img.plot(cx, cy);
        queue.push((cx + 1, cy));
        queue.push((cx - 1, cy));
        queue.push((cx, cy + 1));
        queue.push((cx, cy - 1));
    }
}

#[test]
fn flood_fill_matches_the_reachable_region() {
    // a handful of patterns: boxes, spirals, diagonal walls with gaps
    let mut patterns: Vec<Image> = Vec::new();

    let mut boxes = Image::new(24, 24, 0, 0);
    boxes.plot_square((8, 8), 5, 0);
    boxes.plot_square((16, 16), 6, 0);
    patterns.push(boxes);

    let mut spiral = Image::new(24, 24, 0, 0);
    let mut r = 11;
    while r > 2 {
        spiral.plot_square((12, 12), r, 0);
        // pierce a gap in each ring so the regions connect
        spiral.plot_color(12 - r, 12 + r - 2, Some(WHITE));
        r -= 2;
    }
    patterns.push(spiral);

    let mut diagonal = Image::new(24, 24, 0, 0);
    for i in 0..24 {
        diagonal.plot(i, i);
    }
    diagonal.plot_color(13, 13, Some(WHITE));
    patterns.push(diagonal);

    for pattern in patterns {
        for seed in [(12i64, 12i64), (0, 0), (23, 23), (3, 20)] {
            let mut expected = pattern.clone();
            reference_fill(&mut expected, seed.0, seed.1);
            let mut got = pattern.clone();
            got.flood_fill(seed.0, seed.1);
            assert_eq!(got.bytes, expected.bytes, "fill at {:?}", seed);
        }
    }
}
