//! Fixed-pitch bitmap fonts: a glyph atlas laid out as a grid of
//! `glyph_width x glyph_height` cells, indexed by a character's code
//! point modulo 256 in row-major order (code points above 255 alias
//! low ones — a deliberate simplification), plus the LSB-first bit
//! unpacking that turns packed scanline bytes into pixels.

use vstd::prelude::*;

use crate::color::{BLACK, WHITE};
use crate::image::Image;
use crate::ops::copy_plots;
use crate::Point;

verus! {

/// The pixel a packed scanline bit expands to: bit `n` of `b`,
/// LSB first, foreground when set.
pub open spec fn bit_pixel(b: u8, n: int) -> u32 {
    if (b >> (n as u8)) & 1 == 1 {
        BLACK
    } else {
        WHITE
    }
}

/// Bytes per packed scanline row of a `width`-pixel image.
pub open spec fn row_bytes(width: int) -> int {
    (width + 7) / 8
}

/// Basic facts about the packed row length.
pub proof fn lemma_row_bytes(width: int)
    requires
        width >= 1,
    ensures
        row_bytes(width) >= 1,
        8 * row_bytes(width) >= width,
        8 * row_bytes(width) <= width + 7,
{
    vstd::arithmetic::div_mod::lemma_fundamental_div_mod(width + 7, 8);
}

/// Unpacks an XBM-style packed bit stream into pixels: each row of
/// `width` pixels occupies `ceil(width / 8)` bytes, bits are taken LSB
/// first within each byte, and any leftover bits at the end of a row's
/// last byte are discarded.  Set bits become foreground pixels.
pub fn bits_to_bytes(bits: &[u8], width: usize) -> (ret: Vec<u32>)
    requires
        width >= 1,
        width <= usize::MAX - 7,
        bits@.len() * 8 <= usize::MAX,
        bits@.len() as int % row_bytes(width as int) == 0,
    ensures
        ret@.len() == (bits@.len() as int / row_bytes(width as int)) * width,
        forall|r: int, i: int|
            0 <= r < bits@.len() as int / row_bytes(width as int) && 0 <= i < width
                ==> #[trigger] ret@[r * width + i]
                    == bit_pixel(bits@[r * row_bytes(width as int) + i / 8], i % 8),
{
    let k = (width + 7) / 8;
    proof {
        lemma_row_bytes(width as int);
    }
    let mut ret: Vec<u32> = Vec::new();
    let mut current_row_count: usize = 0;
    let mut j: usize = 0;
    let ghost kk: int = k as int;
    proof {
        vstd::arithmetic::div_mod::lemma_fundamental_div_mod_converse(0, kk, 0, 0);
    }
    while j < bits.len()
        invariant
            width >= 1,
            kk == row_bytes(width as int),
            k == kk,
            k >= 1,
            8 * k >= width,
            8 * k <= width + 7,
            bits@.len() * 8 <= usize::MAX,
            bits@.len() as int % kk == 0,
            j <= bits@.len(),
            current_row_count == 8 * (j as int % kk),
            current_row_count < width,
            ret@.len() == (j as int / kk) * width + current_row_count,
            forall|r: int, i: int|
                0 <= r && 0 <= i < width && r * width + i < ret@.len()
                    && (r < j as int / kk || (r == j as int / kk && i < current_row_count))
                    ==> #[trigger] ret@[r * width + i]
                        == bit_pixel(bits@[r * kk + i / 8], i % 8),
        decreases bits@.len() - j,
    {
        let byte = bits[j];
        proof {
            vstd::arithmetic::div_mod::lemma_fundamental_div_mod(j as int, kk);
        }
        let ghost row: int = j as int / kk;
        let ghost col: int = j as int % kk;
        let mut n: usize = 0;
        let mut done = false;
        while n < 8 && !done
            invariant
                width >= 1,
                kk == row_bytes(width as int),
                k == kk,
                k >= 1,
                8 * k >= width,
                8 * k <= width + 7,
                bits@.len() * 8 <= usize::MAX,
                bits@.len() as int % kk == 0,
                j < bits@.len(),
                byte == bits@[j as int],
                row == j as int / kk,
                col == j as int % kk,
                0 <= col < kk,
                j == row * kk + col,
                n <= 8,
                !done ==> current_row_count == 8 * col + n,
                !done ==> current_row_count < width,
                done ==> current_row_count == 0 && 8 * col + n >= width
                    && n <= 8 && col + 1 == kk,
                ret@.len() == row * width + (if done { width as int } else { 8 * col + n }),
                forall|r: int, i: int|
                    0 <= r && 0 <= i < width && r * width + i < ret@.len()
                        && (r < row || (r == row
                            && i < (if done { width as int } else { 8 * col + n })))
                        ==> #[trigger] ret@[r * width + i]
                            == bit_pixel(bits@[r * kk + i / 8], i % 8),
            decreases 8 - n,
        {
            proof {
                assert(row * width + (8 * col + n) < bits@.len() as int / kk * width) by {
                    lemma_row_below(row, 8 * col + n as int, width as int,
                        j as int, kk, bits@.len() as int);
                }
            }
            if (byte >> (n as u8)) & 0x01 > 0 {
                ret.push(BLACK);
            } else {
                ret.push(WHITE);
            }
            proof {
                let i: int = 8 * col + n;
                assert((byte >> (n as u8)) & 0x01 == 0 || (byte >> (n as u8)) & 0x01 == 1)
                    by (bit_vector);
                assert(i / 8 == col && i % 8 == n) by {
                    vstd::arithmetic::div_mod::lemma_fundamental_div_mod_converse(
                        i, 8, col, n as int);
                }
                assert(ret@[row * width + i] == bit_pixel(bits@[row * kk + col], i % 8));
            }
            current_row_count += 1;
            n += 1;
            if current_row_count == width {
                current_row_count = 0;
                done = true;
            }
            proof {
                let cur: int = 8 * col + n - 1;
                assert forall|r: int, i2: int|
                    0 <= r && 0 <= i2 < width && r * width + i2 < ret@.len()
                        && (r < row || (r == row
                            && i2 < (if done { width as int } else { 8 * col + n })))
                    implies #[trigger] ret@[r * width + i2]
                        == bit_pixel(bits@[r * kk + i2 / 8], i2 % 8) by {
                    if r * width + i2 == row * width + cur {
                        crate::image::lemma_rowmajor_injective(width as int, r + row + 2,
                            i2, r, cur, row);
                    }
                }
            }
        }
        proof {
            if done {
                assert((row + 1) * kk == row * kk + kk
                    && (row + 1) * width == row * width + width) by (nonlinear_arith);
                assert((j as int + 1) / kk == row + 1 && (j as int + 1) % kk == 0) by {
                    vstd::arithmetic::div_mod::lemma_fundamental_div_mod_converse(
                        j as int + 1, kk, row + 1, 0);
                }
            } else {
                assert(8 * col + 8 < width);
                assert(col + 1 < kk) by (nonlinear_arith)
                    requires 8 * col + 8 < width && width <= 8 * kk;
                assert((j as int + 1) / kk == row && (j as int + 1) % kk == col + 1) by {
                    vstd::arithmetic::div_mod::lemma_fundamental_div_mod_converse(
                        j as int + 1, kk, row, col + 1);
                }
            }
        }
        j += 1;
    }
    proof {
        assert(current_row_count == 0);
        assert forall|r: int, i: int|
            0 <= r < bits@.len() as int / row_bytes(width as int) && 0 <= i < width
            implies #[trigger] ret@[r * width + i]
                == bit_pixel(bits@[r * row_bytes(width as int) + i / 8], i % 8) by {
            assert(r * width + i < (bits@.len() as int / kk) * width) by (nonlinear_arith)
                requires 0 <= r && r + 1 <= bits@.len() as int / kk && 0 <= i < width;
        }
    }
    ret
}

/// A full row-prefix index stays below the final pixel count.
proof fn lemma_row_below(row: int, i: int, width: int, j: int, k: int, len: int)
    requires
        k >= 1,
        width >= 1,
        0 <= i < width,
        row == j / k,
        0 <= j < len,
        len % k == 0,
    ensures
        row * width + i < (len / k) * width,
{
    vstd::arithmetic::div_mod::lemma_div_is_ordered(j, len - 1, k);
    vstd::arithmetic::div_mod::lemma_fundamental_div_mod(len, k);
    vstd::arithmetic::div_mod::lemma_fundamental_div_mod(len - 1, k);
    assert(row < len / k) by (nonlinear_arith)
        requires k >= 1 && row <= (len - 1) / k && len == k * (len / k)
            && len - 1 == k * ((len - 1) / k) + (len - 1) % k && 0 <= (len - 1) % k < k;
    assert(row * width + i < (len / k) * width) by (nonlinear_arith)
        requires row < len / k && 0 <= i < width;
}

/// A fixed-pitch font: one atlas image whose cells all measure
/// `glyph_width x glyph_height`, starting at `(x_offset, y_offset)`.
pub struct BitmapFont {
    pub image: Image,
    pub x_offset: usize,
    pub y_offset: usize,
    pub glyph_width: usize,
    pub glyph_height: usize,
}

impl BitmapFont {
    /// Well-formedness: the atlas is a valid image and holds at least
    /// one whole glyph cell past the starting offsets.
    pub open spec fn wf(self) -> bool {
        &&& self.image.wf()
        &&& 1 <= self.glyph_width
        &&& 1 <= self.glyph_height
        &&& self.x_offset + self.glyph_width <= self.image.width
        &&& self.y_offset + self.glyph_height <= self.image.height
    }

    /// Glyph cells per atlas row.
    pub open spec fn cells_per_row(self) -> int {
        (self.image.width - self.x_offset) / self.glyph_width as int
    }

    /// Whole rows of glyph cells the atlas holds.
    pub open spec fn cell_rows(self) -> int {
        (self.image.height - self.y_offset) / self.glyph_height as int
    }

    /// The atlas cell index of a character: its code point modulo 256.
    pub open spec fn glyph_index(c: char) -> int {
        (c as u32) as int % 256
    }

    /// Whether the character's cell lies inside the populated atlas.
    pub open spec fn glyph_available(self, c: char) -> bool {
        Self::glyph_index(c) / self.cells_per_row() < self.cell_rows()
    }

    /// The atlas position of the character's cell.
    pub open spec fn cursor(self, c: char) -> (int, int) {
        (self.x_offset + (Self::glyph_index(c) % self.cells_per_row()) * self.glyph_width,
         self.y_offset + (Self::glyph_index(c) / self.cells_per_row()) * self.glyph_height)
    }

    /// Whether the extracted glyph of `c` has a foreground pixel at
    /// `(gx, gy)`.
    pub open spec fn glyph_pixel_black(self, c: char, gx: int, gy: int) -> bool {
        copy_plots(self.image, (self.x_offset as int, self.y_offset as int),
            self.cursor(c), self.glyph_width as int, self.glyph_height as int, gx, gy)
    }

    /// Assembles a font over a glyph atlas.
    pub fn new(image: Image, glyph_size: (usize, usize), x_offset: usize, y_offset: usize)
        -> (font: BitmapFont)
        requires
            image.wf(),
            1 <= glyph_size.0,
            1 <= glyph_size.1,
            x_offset + glyph_size.0 <= image.width,
            y_offset + glyph_size.1 <= image.height,
        ensures
            font.wf(),
            font.image == image,
            font.x_offset == x_offset,
            font.y_offset == y_offset,
            font.glyph_width == glyph_size.0,
            font.glyph_height == glyph_size.1,
    {
        let (glyph_width, glyph_height) = glyph_size;
        BitmapFont { image, x_offset, y_offset, glyph_width, glyph_height }
    }

    /// Extracts the character's glyph as a fresh image, or `None` when
    /// the character's cell lies below the populated atlas (the
    /// explicit "missing glyph" signal).
    pub fn glyph(&self, c: char) -> (r: Option<Image>)
        requires
            self.wf(),
        ensures
            r is Some <==> self.glyph_available(c),
            r is Some ==> (r->0).wf() && (r->0).width == self.glyph_width
                && (r->0).height == self.glyph_height
                && (r->0).x_offset == 0 && (r->0).y_offset == 0,
            r is Some ==> forall|gx: int, gy: int| (r->0).in_bounds(gx, gy)
                ==> (r->0).pixel(gx, gy) == (if self.glyph_pixel_black(c, gx, gy) {
                    BLACK
                } else {
                    WHITE
                }),
    {
        let gwidth = (self.image.width - self.x_offset) / self.glyph_width;
        proof {
            lemma_grid_cell(self.image.width as int, self.x_offset as int,
                self.glyph_width as int);
            lemma_grid_cell(self.image.height as int, self.y_offset as int,
                self.glyph_height as int);
        }
        let idx = c as u32;
        let row = (idx & 0x00FF) as usize;
        proof {
            assert(idx & 0xFF == idx % 0x100) by (bit_vector);
        }
        let rows_avail = (self.image.height - self.y_offset) / self.glyph_height;
        if row / gwidth >= rows_avail {
            return None;
        }

        proof {
            lemma_cell_in_atlas(self.image.width as int, self.x_offset as int,
                self.glyph_width as int, row as int % gwidth as int);
            lemma_cell_in_atlas(self.image.height as int, self.y_offset as int,
                self.glyph_height as int, row as int / gwidth as int);
            crate::image::lemma_rowmajor_in_range(self.glyph_width as int,
                self.glyph_height as int, 0, 0);
            assert(self.glyph_width * self.glyph_height
                <= self.image.width * self.image.height) by (nonlinear_arith)
                requires 1 <= self.glyph_width <= self.image.width
                    && 1 <= self.glyph_height <= self.image.height;
        }
        let cursor = (
            self.x_offset + (row % gwidth) * self.glyph_width,
            self.y_offset + (row / gwidth) * self.glyph_height,
        );

        let mut glyph = Image::new(self.glyph_width, self.glyph_height, 0, 0);
        glyph.copy(
            &self.image,
            (self.x_offset, self.y_offset),
            (cursor.0, cursor.1),
            self.glyph_width,
            self.glyph_height,
        );
        Some(glyph)
    }
}

/// Whether rendering the first `upto` characters of `s` at `(x, y)`
/// paints `(px, py)`: some already-rendered character has a foreground
/// glyph pixel there, with a fixed advance of one glyph width per
/// character.
pub open spec fn write_plots_upto(
    font: BitmapFont, s: Seq<char>, x: int, y: int, upto: int, px: int, py: int,
) -> bool {
    exists|i: int|
        #![trigger s[i]]
        0 <= i < upto && i < s.len() && font.glyph_available(s[i])
            && x + i * font.glyph_width <= px < x + i * font.glyph_width + font.glyph_width
            && y <= py < y + font.glyph_height
            && font.glyph_pixel_black(s[i], px - (x + i * font.glyph_width), py - y)
}

/// Whether rendering all of `s` at `(x, y)` paints `(px, py)`.
pub open spec fn write_plots(
    font: BitmapFont, s: Seq<char>, x: int, y: int, px: int, py: int,
) -> bool {
    write_plots_upto(font, s, x, y, s.len() as int, px, py)
}

impl Image {
    /// Renders `s` left to right in the fixed-pitch `font`, starting at
    /// `pos`, with an advance of one glyph width per character and no
    /// kerning or wrapping.  Characters whose glyph cell lies outside
    /// the populated atlas are skipped.
    pub fn write_str(&mut self, font: &BitmapFont, s: &str, pos: Point)
        requires
            old(self).wf(),
            font.wf(),
            pos.0 >= 0,
            pos.1 >= 0,
            pos.0 + (s@.len() + 1) * font.glyph_width <= usize::MAX,
            pos.1 + font.glyph_height <= usize::MAX,
        ensures
            final(self).wf(),
            final(self).same_shape(*old(self)),
            forall|px: int, py: int| old(self).in_bounds(px, py)
                ==> final(self).pixel(px, py) == (if write_plots(*font, s@,
                        pos.0 as int, pos.1 as int, px, py) {
                    BLACK
                } else {
                    old(self).pixel(px, py)
                }),
    {
        let (x, y) = pos;
        let n = s.unicode_len();
        let mut i: usize = 0;
        while i < n
            invariant
                self.wf(),
                self.same_shape(*old(self)),
                font.wf(),
                x >= 0,
                y >= 0,
                x + (s@.len() + 1) * font.glyph_width <= usize::MAX,
                y + font.glyph_height <= usize::MAX,
                n == s@.len(),
                i <= n,
                forall|px: int, py: int| old(self).in_bounds(px, py)
                    ==> self.pixel(px, py) == (if write_plots_upto(*font, s@,
                            x as int, y as int, i as int, px, py) {
                        BLACK
                    } else {
                        old(self).pixel(px, py)
                    }),
            decreases n - i,
        {
            let c = s.get_char(i);
            proof {
                assert((i as int + 1) * font.glyph_width
                    == i as int * font.glyph_width + font.glyph_width
                    && i as int * font.glyph_width >= 0
                    && (i as int + 1) * font.glyph_width
                        <= (s@.len() + 1) * font.glyph_width) by (nonlinear_arith)
                    requires 0 <= i < s@.len() && font.glyph_width >= 1;
            }
            let slot = x as usize + i * font.glyph_width;
            match font.glyph(c) {
                Some(g) => {
                    self.copy(&g, (slot, y as usize), (0, 0),
                        font.glyph_width, font.glyph_height);
                }
                None => {}
            }
            i += 1;
            proof {
                assert forall|px: int, py: int| old(self).in_bounds(px, py)
                    implies self.pixel(px, py) == (if write_plots_upto(*font, s@,
                            x as int, y as int, i as int, px, py) {
                        BLACK
                    } else {
                        old(self).pixel(px, py)
                    }) by {
                    assert(s@[i as int - 1] == c);
                    if write_plots_upto(*font, s@, x as int, y as int, i as int, px, py)
                        && !write_plots_upto(*font, s@, x as int, y as int,
                            i as int - 1, px, py) {
                        let w = choose|w: int|
                            #![trigger s@[w]]
                            0 <= w < i && w < s@.len() && font.glyph_available(s@[w])
                                && x + w * font.glyph_width <= px
                                    < x + w * font.glyph_width + font.glyph_width
                                && y <= py < y + font.glyph_height
                                && font.glyph_pixel_black(s@[w],
                                    px - (x + w * font.glyph_width), py - y);
                        assert(w == i - 1);
                    }
                }
            }
        }
    }
}

/// A grid over `[offset, dim)` with cell size `cell >= 1` holds at
/// least one cell when `offset + cell <= dim`.
proof fn lemma_grid_cell(dim: int, offset: int, cell: int)
    requires
        1 <= cell,
        0 <= offset,
        offset + cell <= dim,
    ensures
        (dim - offset) / cell >= 1,
{
    vstd::arithmetic::div_mod::lemma_fundamental_div_mod(dim - offset, cell);
    assert((dim - offset) / cell >= 1) by (nonlinear_arith)
        requires cell >= 1 && dim - offset >= cell
            && dim - offset == cell * ((dim - offset) / cell) + (dim - offset) % cell
            && 0 <= (dim - offset) % cell < cell;
}

/// A cell index below the grid's capacity keeps the whole cell inside
/// the atlas dimension.
proof fn lemma_cell_in_atlas(dim: int, offset: int, cell: int, index: int)
    requires
        1 <= cell,
        0 <= offset,
        offset + cell <= dim,
        0 <= index < (dim - offset) / cell,
    ensures
        offset + index * cell + cell <= dim,
        index * cell >= 0,
{
    vstd::arithmetic::div_mod::lemma_fundamental_div_mod(dim - offset, cell);
    assert(offset + index * cell + cell <= dim && index * cell >= 0) by (nonlinear_arith)
        requires cell >= 1 && 0 <= index && index + 1 <= (dim - offset) / cell
            && dim - offset == cell * ((dim - offset) / cell) + (dim - offset) % cell
            && 0 <= (dim - offset) % cell;
}

} // verus!
