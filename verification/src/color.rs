//! Packed `0x00RRGGBB` colors and the two reserved sentinel values.

use vstd::prelude::*;

verus! {

/// The background ("unset") sentinel: white, `0x00FFFFFF`.
pub const WHITE: u32 = 0x00FF_FFFF;

/// The foreground ("drawn") sentinel: black, `0x0000_0000`.
pub const BLACK: u32 = 0;

/// An azure blue, `from_u8_rgb(0, 127, 255)`.
pub const AZURE_BLUE: u32 = 0x0000_7FFF;

/// A dark red, `from_u8_rgb(157, 37, 10)`.
pub const RED: u32 = 0x009D_250A;

/// A light gray, `from_u8_rgb(208, 208, 208)`, used for grid overlays.
pub const GRAY82: u32 = 0x00D0_D0D0;

/// Packs three 8-bit channels into one `0x00RRGGBB` word.
pub fn from_u8_rgb(r: u8, g: u8, b: u8) -> (v: u32)
    ensures
        v == (r as u32) * 0x1_0000 + (g as u32) * 0x100 + (b as u32),
{
    let (r, g, b) = (r as u32, g as u32, b as u32);
    let v = (r << 16) | (g << 8) | b;
    proof {
        assert(v == r * 0x1_0000 + g * 0x100 + b) by (bit_vector)
            requires r < 0x100 && g < 0x100 && b < 0x100 && v == (r << 16) | (g << 8) | b;
    }
    v
}

/// Splits a packed `0x00RRGGBB` word back into its three channels.
pub fn from_u32_rgb(v: u32) -> (rgb: (u8, u8, u8))
    ensures
        rgb.0 == (v / 0x1_0000) % 0x100,
        rgb.1 == (v / 0x100) % 0x100,
        rgb.2 == v % 0x100,
{
    let r = (v >> 16) & 0xff;
    let g = (v >> 8) & 0xff;
    let b = v & 0xff;
    proof {
        assert((v >> 16) & 0xff == (v / 0x1_0000) % 0x100
            && (v >> 8) & 0xff == (v / 0x100) % 0x100
            && v & 0xff == v % 0x100) by (bit_vector);
    }
    (r as u8, g as u8, b as u8)
}

} // verus!
