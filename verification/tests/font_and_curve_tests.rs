//! Bitmap fonts, bit unpacking, curve evaluation, parsing helpers.

use bitmappers_companion::color::{BLACK, WHITE};
use bitmappers_companion::curve::{draw_curve_point, draw_weighted_curve_point};
use bitmappers_companion::font::{bits_to_bytes, BitmapFont};
use bitmappers_companion::geometry::perpendicular;
use bitmappers_companion::image::Image;
use bitmappers_companion::parse::{parse_dimensions, parse_xbm, rgb_bytes_to_pixels, XbmError};

#[test]
fn bits_unpack_lsb_first_with_row_padding() {
    // width 10: each row takes 2 bytes, the last 6 bits are discarded
    let bits = [0xFFu8, 0x01, 0x00, 0x02];
    let pixels = bits_to_bytes(&bits, 10);
    assert_eq!(pixels.len(), 20);
    for i in 0..8 {
        assert_eq!(pixels[i], BLACK);
    }
    assert_eq!(pixels[8], BLACK); // bit 0 of 0x01
    assert_eq!(pixels[9], WHITE); // bit 1 of 0x01
    for i in 10..18 {
        assert_eq!(pixels[i], WHITE);
    }
    assert_eq!(pixels[18], WHITE); // bit 0 of 0x02
    assert_eq!(pixels[19], BLACK); // bit 1 of 0x02
}

#[test]
fn bits_unpack_exact_byte_rows() {
    let bits = [0b1010_0101u8];
    let pixels = bits_to_bytes(&bits, 8);
    let expected = [BLACK, WHITE, BLACK, WHITE, WHITE, BLACK, WHITE, BLACK];
    assert_eq!(pixels, expected.to_vec());
}

fn tiny_font() -> BitmapFont {
    // a 16x16 atlas of 8x8 cells: codes 0..3 populate a 2x2 cell grid
    let mut atlas = Image::new(16, 16, 0, 0);
    atlas.plot(0, 0); // cell 0: pixel (0,0)
    atlas.plot(9, 1); // cell 1: pixel (1,1)
    atlas.plot(2, 10); // cell 2: pixel (2,2)
    atlas.plot(11, 11); // cell 3: pixel (3,3)
    BitmapFont::new(atlas, (8, 8), 0, 0)
}

#[test]
fn glyph_extracts_the_right_cell() {
    let font = tiny_font();
    let g1 = font.glyph('\u{1}').unwrap();
    assert_eq!(g1.width, 8);
    assert_eq!(g1.height, 8);
    assert_eq!(g1.get(1, 1), Some(BLACK));
    assert_eq!(g1.get(0, 0), Some(WHITE));
    let g2 = font.glyph('\u{2}').unwrap();
    assert_eq!(g2.get(2, 2), Some(BLACK));
}

#[test]
fn glyph_outside_the_atlas_is_missing() {
    let font = tiny_font();
    assert!(font.glyph('\u{0}').is_some());
    assert!(font.glyph('\u{3}').is_some());
    assert!(font.glyph('\u{4}').is_none());
    assert!(font.glyph('A').is_none());
}

#[test]
fn glyph_aliases_code_points_modulo_256() {
    let font = tiny_font();
    // code 257 aliases code 1
    let g = font.glyph('\u{101}').unwrap();
    assert_eq!(g.get(1, 1), Some(BLACK));
}

#[test]
fn write_str_advances_one_glyph_per_character() {
    let font = tiny_font();
    let mut img = Image::new(32, 8, 0, 0);
    let text = "\u{1}\u{2}";
    img.write_str(&font, text, (4, 0));
    // first glyph at x=4: its (1,1) pixel lands on (5,1)
    assert_eq!(img.get(5, 1), Some(BLACK));
    // second glyph at x=12: its (2,2) pixel lands on (14,2)
    assert_eq!(img.get(14, 2), Some(BLACK));
    // missing glyphs are skipped without panicking
    let mut img2 = Image::new(32, 8, 0, 0);
    img2.write_str(&font, "A\u{1}", (0, 0));
    assert_eq!(img2.get(9, 1), Some(BLACK));
}

#[test]
fn curve_hits_its_endpoints_exactly() {
    let points = vec![(25i64, 115i64), (135, 189), (225, 180), (250, 25)];
    assert_eq!(draw_curve_point(&points, 0, 100), Some((25, 115)));
    assert_eq!(draw_curve_point(&points, 100, 100), Some((250, 25)));
    let single = vec![(7i64, -3i64)];
    assert_eq!(draw_curve_point(&single, 33, 100), Some((7, -3)));
    let empty: Vec<(i64, i64)> = vec![];
    assert_eq!(draw_curve_point(&empty, 0, 100), None);
}

#[test]
fn curve_midpoint_of_a_segment() {
    let points = vec![(0i64, 0i64), (10, 6)];
    assert_eq!(draw_curve_point(&points, 1, 2), Some((5, 3)));
    // truncation rounds toward zero at each reduction
    let quad = vec![(0i64, 0i64), (4, 8), (8, 0)];
    // level 1: (2,4) and (6,4); level 2: (4,4)
    assert_eq!(draw_curve_point(&quad, 1, 2), Some((4, 4)));
}

#[test]
fn weighted_curve_hits_its_endpoints() {
    let points = vec![(25i64, 115i64), (135, 189), (225, 180)];
    let weights = vec![1i64, 1, 1];
    assert_eq!(draw_weighted_curve_point(&points, &weights, 0, 100), Some((25, 115)));
    assert_eq!(draw_weighted_curve_point(&points, &weights, 100, 100), Some((225, 180)));
    let heavy = vec![3i64, 1, 2];
    assert_eq!(draw_weighted_curve_point(&points, &heavy, 0, 100), Some((25, 115)));
    assert_eq!(draw_weighted_curve_point(&points, &heavy, 100, 100), Some((225, 180)));
}

#[test]
fn dimensions_parse_from_identify_output() {
    assert_eq!(parse_dimensions(b"image.png PNG 640x480 8-bit"), Some((640, 480)));
    assert_eq!(parse_dimensions(b" 12x34 "), Some((12, 34)));
    assert_eq!(parse_dimensions(b"no dimensions here"), None);
    assert_eq!(parse_dimensions(b"12y34"), None);
    // an oversized run is skipped into, down to a parseable suffix
    assert_eq!(parse_dimensions(b"99999999x3"), Some((999999, 3)));
    assert_eq!(parse_dimensions(b"x12x"), None);
}

#[test]
fn xbm_header_parses() {
    let header = b"#define glyph_width 10\n#define glyph_height 2\nstatic char glyph_bits[] = {0xFF, 0x01,\n  0x00, 0x02};\n";
    let (w, h, bits) = parse_xbm(header).unwrap();
    assert_eq!(w, 10);
    assert_eq!(h, 2);
    assert_eq!(bits, vec![0xFFu8, 0x01, 0x00, 0x02]);
    let pixels = bits_to_bytes(&bits, w);
    assert_eq!(pixels.len(), 20);
}

#[test]
fn xbm_errors_are_explicit() {
    assert_eq!(parse_xbm(b"nothing"), Err(XbmError::MissingWidth));
    assert_eq!(parse_xbm(b"x_width 4"), Err(XbmError::MissingHeight));
    assert_eq!(parse_xbm(b"x_width 4 x_height 2"), Err(XbmError::MissingBits));
    assert_eq!(parse_xbm(b"x_width 4 x_height 2 {0xZZ};"),
        Err(XbmError::BadByte));
    assert_eq!(parse_xbm(b"x_width 4 x_height 2 {0x01};"),
        Err(XbmError::BadBitsLength));
    assert_eq!(parse_xbm(b"x_width abc x_height 2 {0x01};"),
        Err(XbmError::BadNumber));
    assert_eq!(parse_xbm(b"x_width 4 x_height 2 {0x01, 0x02};"),
        Ok((4, 2, vec![1u8, 2])));
}

#[test]
fn rgb_stream_packs_per_triple() {
    let bytes = [0u8, 127, 255, 208, 208, 208];
    let pixels = rgb_bytes_to_pixels(&bytes);
    assert_eq!(pixels, vec![0x0000_7FFF, 0x00D0_D0D0]);
    let empty: [u8; 0] = [];
    assert_eq!(rgb_bytes_to_pixels(&empty), Vec::<u32>::new());
}

#[test]
fn perpendicular_passes_through_the_point() {
    let l = (2i64, -3i64, 6i64);
    let p = (4i64, 5i64);
    let r = perpendicular(l, p);
    assert_eq!(r, (-3, -2, 2 * 5 - (-3) * 4));
    assert_eq!(r.0 * p.0 + r.1 * p.1 + r.2, 0);
}
