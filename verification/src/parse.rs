//! Byte-level parsers for the two text inputs the engine ingests: the
//! `WxH` dimension pair printed by an image-identify step, and the
//! XBM C-header format (`#define NAME_width N`, `#define NAME_height
//! N`, `static char NAME_bits[] = {0x.., ...};`), plus the packing of
//! raw RGB byte streams into pixel words.
//!
//! These are the only fallible operations in the engine; every failure
//! is reported through an explicit error value, never a panic.

use vstd::prelude::*;

use crate::color::from_u8_rgb;
use crate::font::row_bytes;

verus! {

/// Why an XBM header failed to parse.
#[derive(Debug, PartialEq, Eq, Clone, Copy)]
pub enum XbmError {
    /// No `_width` definition was found.
    MissingWidth,
    /// No `_height` definition was found.
    MissingHeight,
    /// No `{ ... }` bits array was found.
    MissingBits,
    /// A numeric field was absent or malformed.
    BadNumber,
    /// A bits-array entry was not a `0x..` byte.
    BadByte,
    /// The bits array does not hold exactly `ceil(width/8) * height`
    /// bytes.
    BadBitsLength,
}

/// ASCII decimal digit.
pub open spec fn is_digit(c: u8) -> bool {
    48 <= c <= 57
}

/// ASCII whitespace accepted between tokens.
pub open spec fn is_space(c: u8) -> bool {
    c == 32 || c == 9 || c == 10 || c == 13
}

/// The value of the decimal digit run `s[i..j)`.
pub open spec fn digits_value(s: Seq<u8>, i: int, j: int) -> int
    decreases j - i,
{
    if i >= j {
        0
    } else {
        digits_value(s, i, j - 1) * 10 + (s[j - 1] - 48)
    }
}

/// One past the last digit of the run starting at `i` (or `i` itself
/// when no digit starts there).
pub open spec fn digits_end(s: Seq<u8>, i: int) -> int
    decreases s.len() - i when 0 <= i <= s.len()
{
    if i < s.len() && is_digit(s[i]) {
        digits_end(s, i + 1)
    } else {
        i
    }
}

/// The run up to `digits_end` holds digits only, ends maximally, and
/// stays inside the input.
proof fn lemma_digits_end_facts(s: Seq<u8>, i: int)
    requires
        0 <= i <= s.len(),
    ensures
        i <= digits_end(s, i) <= s.len(),
        forall|t: int| i <= t < digits_end(s, i) ==> is_digit(s[t]),
        digits_end(s, i) < s.len() ==> !is_digit(s[digits_end(s, i)]),
    decreases s.len() - i,
{
    if i < s.len() && is_digit(s[i]) {
        lemma_digits_end_facts(s, i + 1);
    }
}

/// A maximal digit run determines `digits_end`.
proof fn lemma_digits_end_of_run(s: Seq<u8>, j: int, m: int)
    requires
        0 <= j <= m <= s.len(),
        forall|t: int| j <= t < m ==> is_digit(s[t]),
        m < s.len() ==> !is_digit(s[m]),
    ensures
        digits_end(s, j) == m,
    decreases m - j,
{
    if j < m {
        lemma_digits_end_of_run(s, j + 1, m);
    }
}

/// Over a digit run, the value of a prefix never exceeds the value of
/// the whole run, and both are non-negative.
proof fn lemma_digits_value_extend(s: Seq<u8>, i: int, k: int, j: int)
    requires
        0 <= i <= k <= j <= s.len(),
        forall|t: int| i <= t < j ==> is_digit(s[t]),
    ensures
        0 <= digits_value(s, i, k) <= digits_value(s, i, j),
    decreases j - k,
{
    if k == j {
        lemma_digits_value_nonneg(s, i, k);
    } else {
        lemma_digits_value_extend(s, i, k, j - 1);
        lemma_digits_value_nonneg(s, i, j - 1);
        assert(digits_value(s, i, j - 1) * 10 >= digits_value(s, i, j - 1)) by (nonlinear_arith)
            requires digits_value(s, i, j - 1) >= 0;
    }
}

/// The value of a digit run is non-negative.
proof fn lemma_digits_value_nonneg(s: Seq<u8>, i: int, j: int)
    requires
        0 <= i <= j <= s.len(),
        forall|t: int| i <= t < j ==> is_digit(s[t]),
    ensures
        digits_value(s, i, j) >= 0,
    decreases j - i,
{
    if i < j {
        lemma_digits_value_nonneg(s, i, j - 1);
        assert(digits_value(s, i, j - 1) * 10 >= 0) by (nonlinear_arith)
            requires digits_value(s, i, j - 1) >= 0;
    }
}

/// Whether `token` occurs in `s` at position `i`.
pub open spec fn token_at(s: Seq<u8>, token: Seq<u8>, i: int) -> bool {
    &&& 0 <= i
    &&& i + token.len() <= s.len()
    &&& forall|k: int| 0 <= k < token.len() ==> s[i + k] == token[k]
}

/// The first position at or after `i` where `token` occurs.
pub open spec fn find_from(s: Seq<u8>, token: Seq<u8>, i: int) -> Option<int>
    decreases s.len() + 1 - i when 0 <= i <= s.len() + 1 && token.len() >= 1
{
    if i + token.len() > s.len() {
        None
    } else if token_at(s, token, i) {
        Some(i)
    } else {
        find_from(s, token, i + 1)
    }
}

/// The first non-whitespace position at or after `i`.
pub open spec fn spaces_end(s: Seq<u8>, i: int) -> int
    decreases s.len() - i when 0 <= i <= s.len()
{
    if i < s.len() && is_space(s[i]) {
        spaces_end(s, i + 1)
    } else {
        i
    }
}

/// Finds the first occurrence of `token` in `s`.
fn find_token(s: &[u8], token: &[u8]) -> (r: Option<usize>)
    requires
        token@.len() >= 1,
    ensures
        s@.len() <= usize::MAX,
        r matches Some(i) ==> token_at(s@, token@, i as int)
            && forall|j: int| 0 <= j < i ==> !token_at(s@, token@, j),
        r is None ==> forall|j: int| 0 <= j ==> !token_at(s@, token@, j),
        r matches Some(i) ==> find_from(s@, token@, 0) == Some(i as int),
        r is None ==> find_from(s@, token@, 0) is None,
{
    let slen = s.len();
    if slen < token.len() {
        return None;
    }
    let mut i: usize = 0;
    while i <= s.len() - token.len()
        invariant
            token@.len() >= 1,
            token@.len() <= s@.len(),
            s@.len() <= usize::MAX,
            i <= s@.len() - token@.len() + 1,
            forall|j: int| 0 <= j < i ==> !token_at(s@, token@, j),
            find_from(s@, token@, 0) == find_from(s@, token@, i as int),
        decreases s@.len() - token@.len() + 1 - i,
    {
        let mut k: usize = 0;
        while k < token.len() && s[i + k] == token[k]
            invariant
                token@.len() <= s@.len(),
                s@.len() <= usize::MAX,
                i + token@.len() <= s@.len(),
                k <= token@.len(),
                forall|m: int| 0 <= m < k ==> s@[i + m] == token@[m],
            decreases token@.len() - k,
        {
            k = k + 1;
        }
        if k == token.len() {
            return Some(i);
        }
        proof {
            assert(s@[i + k] != token@[k as int]);
            assert(!token_at(s@, token@, i as int));
        }
        i = i + 1;
    }
    proof {
        assert forall|j: int| 0 <= j implies !token_at(s@, token@, j) by {
            if j + token@.len() > s@.len() {
            }
        }
    }
    None
}

/// Skips whitespace from `pos`, returning the first non-space index.
fn skip_spaces(s: &[u8], pos: usize) -> (r: usize)
    requires
        pos <= s@.len(),
    ensures
        s@.len() <= usize::MAX,
        pos <= r <= s@.len(),
        forall|j: int| pos <= j < r ==> is_space(s@[j]),
        r < s@.len() ==> !is_space(s@[r as int]),
        r == spaces_end(s@, pos as int),
{
    let slen = s.len();
    let mut i = pos;
    while i < slen && (s[i] == 32 || s[i] == 9 || s[i] == 10 || s[i] == 13)
        invariant
            slen == s@.len(),
            pos <= i <= s@.len(),
            forall|j: int| pos <= j < i ==> is_space(s@[j]),
            spaces_end(s@, pos as int) == spaces_end(s@, i as int),
        decreases s@.len() - i,
    {
        i += 1;
    }
    i
}

/// Parses the decimal digit run starting exactly at `pos`: its value
/// and the index one past its last digit.  `None` when `pos` does not
/// hold a digit or the value would not fit in the coordinate range.
fn parse_decimal(s: &[u8], pos: usize) -> (r: Option<(usize, usize)>)
    requires
        pos <= s@.len(),
    ensures
        r matches Some(ve) ==> pos < ve.1 <= s@.len()
            && ve.1 == digits_end(s@, pos as int)
            && (forall|j: int| pos <= j < ve.1 ==> is_digit(s@[j]))
            && (ve.1 < s@.len() ==> !is_digit(s@[ve.1 as int]))
            && ve.0 == digits_value(s@, pos as int, ve.1 as int)
            && ve.0 <= 0x10_0000,
        pos < s@.len() && is_digit(s@[pos as int])
            && digits_value(s@, pos as int, digits_end(s@, pos as int)) <= 0x10_0000
            ==> r is Some,
        r is None ==> pos == s@.len() || !is_digit(s@[pos as int])
            || digits_value(s@, pos as int, digits_end(s@, pos as int)) > 0x10_0000,
{
    if pos >= s.len() || s[pos] < 48 || s[pos] > 57 {
        return None;
    }
    let mut value: usize = 0;
    let mut i = pos;
    while i < s.len() && s[i] >= 48 && s[i] <= 57
        invariant
            pos <= i <= s@.len(),
            forall|j: int| pos <= j < i ==> is_digit(s@[j]),
            value == digits_value(s@, pos as int, i as int),
            value <= 0x10_0000,
        decreases s@.len() - i,
    {
        let d = (s[i] - 48) as usize;
        if value > (0x10_0000 - d) / 10 {
            proof {
                assert(digits_value(s@, pos as int, i as int + 1)
                    == value * 10 + (s@[i as int] - 48));
                assert(value * 10 + d > 0x10_0000) by (nonlinear_arith)
                    requires value > (0x10_0000 - d) / 10 && 0 <= d <= 9
                        && (0x10_0000 - d) / 10 == ((0x10_0000 - d) as int) / 10;
                lemma_digits_end_facts(s@, pos as int);
                lemma_digits_end_of_run(s@, i as int, digits_end(s@, pos as int));
                lemma_digits_value_extend(s@, pos as int, i as int + 1,
                    digits_end(s@, pos as int));
            }
            return None;
        }
        proof {
            assert(value * 10 + d <= 0x10_0000) by (nonlinear_arith)
                requires value <= (0x10_0000 - d) / 10 && 0 <= d <= 9
                    && (0x10_0000 - d) / 10 == ((0x10_0000 - d) as int) / 10;
        }
        value = value * 10 + d;
        i += 1;
    }
    proof {
        assert(pos < i);
        lemma_digits_end_of_run(s@, pos as int, i as int);
    }
    Some((value, i))
}

/// Whether a `WxH` dimension pair in the engine's value range starts
/// at position `j`: a digit run, the letter `x`, and a second digit
/// run, both runs maximal with values at most the coordinate limit.
pub open spec fn dim_pair_at(s: Seq<u8>, j: int) -> bool {
    let m = digits_end(s, j);
    &&& 0 <= j < s.len()
    &&& is_digit(s[j])
    &&& digits_value(s, j, m) <= 0x10_0000
    &&& m < s.len() && s[m] == 120
    &&& m + 1 < s.len() && is_digit(s[m + 1])
    &&& digits_value(s, m + 1, digits_end(s, m + 1)) <= 0x10_0000
}

/// Packs a raw byte stream of `r, g, b` triples into `0x00RRGGBB`
/// pixel words, one word per triple.
pub fn rgb_bytes_to_pixels(bytes: &[u8]) -> (pixels: Vec<u32>)
    requires
        bytes@.len() % 3 == 0,
    ensures
        pixels@.len() == bytes@.len() / 3,
        forall|i: int| 0 <= i < pixels@.len()
            ==> #[trigger] pixels@[i] == (bytes@[3 * i] as u32) * 0x1_0000
                + (bytes@[3 * i + 1] as u32) * 0x100 + (bytes@[3 * i + 2] as u32),
{
    let mut pixels: Vec<u32> = Vec::new();
    let n = bytes.len();
    proof {
        vstd::arithmetic::div_mod::lemma_fundamental_div_mod(n as int, 3);
    }
    let mut j: usize = 0;
    while j < n
        invariant
            bytes@.len() % 3 == 0,
            n == bytes@.len(),
            n == 3 * (n as int / 3),
            j % 3 == 0,
            j <= bytes@.len(),
            pixels@.len() == j / 3,
            j == 3 * (j / 3),
            forall|i: int| 0 <= i < pixels@.len()
                ==> #[trigger] pixels@[i] == (bytes@[3 * i] as u32) * 0x1_0000
                    + (bytes@[3 * i + 1] as u32) * 0x100 + (bytes@[3 * i + 2] as u32),
        decreases bytes@.len() - j,
    {
        proof {
            assert(j + 3 <= n) by (nonlinear_arith)
                requires j < n && j == 3 * (j as int / 3) && n == 3 * (n as int / 3);
        }
        let p = from_u8_rgb(bytes[j], bytes[j + 1], bytes[j + 2]);
        pixels.push(p);
        proof {
            vstd::arithmetic::div_mod::lemma_fundamental_div_mod_converse(
                j as int + 3, 3, j as int / 3 + 1, 0);
        }
        j += 3;
    }
    pixels
}

/// Parses the first `WxH` dimension pair (two maximal decimal runs
/// joined by `x`, both values in the coordinate range) out of
/// identify-style output.  Returns `None` exactly when no such pair
/// occurs anywhere in the input.
pub fn parse_dimensions(s: &[u8]) -> (r: Option<(usize, usize)>)
    ensures
        r matches Some(wh) ==> exists|j: int|
            #![trigger dim_pair_at(s@, j)]
            dim_pair_at(s@, j)
                && wh.0 == digits_value(s@, j, digits_end(s@, j))
                && wh.1 == digits_value(s@, digits_end(s@, j) + 1,
                    digits_end(s@, digits_end(s@, j) + 1)),
        r is None ==> forall|j: int| !dim_pair_at(s@, j),
{
    let mut i: usize = 0;
    while i < s.len()
        invariant
            i <= s@.len(),
            forall|j: int| 0 <= j < i ==> !dim_pair_at(s@, j),
        decreases s@.len() - i,
    {
        if s[i] >= 48 && s[i] <= 57 {
            match parse_decimal(s, i) {
                Some((w, m)) => {
                    if m < s.len() && s[m] == 120 {
                        match parse_decimal(s, m + 1) {
                            Some((h, e)) => {
                                proof {
                                    assert(dim_pair_at(s@, i as int));
                                }
                                return Some((w, h));
                            }
                            None => {}
                        }
                    }
                    proof {
                        // no pair can start inside this digit run: every
                        // start shares the run's end, which the scan just
                        // ruled out
                        assert forall|j: int| i <= j < m implies !dim_pair_at(s@, j) by {
                            lemma_digits_end_of_run(s@, j, m as int);
                        }
                    }
                    if m > i {
                        i = m;
                    } else {
                        i += 1;
                    }
                }
                None => {
                    proof {
                        assert(!dim_pair_at(s@, i as int));
                    }
                    i += 1;
                }
            }
        } else {
            proof {
                assert(!dim_pair_at(s@, i as int));
            }
            i += 1;
        }
    }
    None
}

/// The numeric value of an ASCII hex digit, or 16 when it is none.
pub open spec fn hex_digit_value(c: u8) -> int {
    if 48 <= c <= 57 {
        c - 48
    } else if 97 <= c <= 102 {
        c - 87
    } else if 65 <= c <= 70 {
        c - 55
    } else {
        16
    }
}

/// Reads one ASCII hex digit.
fn hex_digit(c: u8) -> (r: Option<u8>)
    ensures
        r matches Some(v) ==> hex_digit_value(c) == v && v < 16,
        r is None ==> hex_digit_value(c) == 16,
{
    if c >= 48 && c <= 57 {
        Some(c - 48)
    } else if c >= 97 && c <= 102 {
        Some(c - 87)
    } else if c >= 65 && c <= 70 {
        Some(c - 55)
    } else {
        None
    }
}

/// The ASCII bytes of `_width`.
pub open spec fn width_token() -> Seq<u8> {
    seq![95u8, 119, 105, 100, 116, 104]
}

/// The ASCII bytes of `_height`.
pub open spec fn height_token() -> Seq<u8> {
    seq![95u8, 104, 101, 105, 103, 104, 116]
}

/// The ASCII opening brace.
pub open spec fn brace_token() -> Seq<u8> {
    seq![123u8]
}

/// The byte values of the comma-separated `0x` literal list starting
/// at `i`, read up to its closing brace; `None` when the list is
/// malformed or unterminated.  A literal is `0x` or `0X` followed by
/// one or two hex digits.
pub open spec fn hex_list(s: Seq<u8>, i: int) -> Option<Seq<u8>>
    decreases s.len() - i, 1int when 0 <= i <= s.len()
{
    if i >= s.len() {
        None
    } else if is_space(s[i]) {
        hex_list(s, i + 1)
    } else if s[i] == 125 {
        Some(Seq::empty())
    } else if !(s[i] == 48 && i + 1 < s.len() && (s[i + 1] == 120 || s[i + 1] == 88)) {
        None
    } else if i + 2 >= s.len() || hex_digit_value(s[i + 2]) == 16 {
        None
    } else {
        let d0 = hex_digit_value(s[i + 2]);
        let two = i + 3 < s.len() && hex_digit_value(s[i + 3]) != 16;
        let v = if two { d0 * 16 + hex_digit_value(s[i + 3]) } else { d0 };
        let q = if two { i + 4 } else { i + 3 };
        if two && q < s.len() && hex_digit_value(s[q]) != 16 {
            None
        } else {
            match hex_sep(s, q) {
                Some(rest) => Some(seq![v as u8] + rest),
                None => None,
            }
        }
    }
}

/// The byte values following one literal: a comma continues the list,
/// a closing brace ends it.
pub open spec fn hex_sep(s: Seq<u8>, i: int) -> Option<Seq<u8>>
    decreases s.len() - i, 0int when 0 <= i <= s.len()
{
    if i >= s.len() {
        None
    } else if is_space(s[i]) {
        hex_sep(s, i + 1)
    } else if s[i] == 44 {
        hex_list(s, i + 1)
    } else if s[i] == 125 {
        Some(Seq::empty())
    } else {
        None
    }
}

/// Prepends a prefix to a successfully parsed byte list.
pub open spec fn opt_prepend(prefix: Seq<u8>, o: Option<Seq<u8>>) -> Option<Seq<u8>> {
    match o {
        Some(r) => Some(prefix + r),
        None => None,
    }
}

/// Prepending nothing changes nothing.
proof fn lemma_opt_prepend_empty(o: Option<Seq<u8>>)
    ensures
        opt_prepend(Seq::empty(), o) == o,
{
    match o {
        Some(r) => {
            assert(Seq::<u8>::empty() + r =~= r);
        }
        None => {}
    }
}

/// Prepending twice prepends the concatenation.
proof fn lemma_opt_prepend_assoc(p1: Seq<u8>, p2: Seq<u8>, o: Option<Seq<u8>>)
    ensures
        opt_prepend(p1, opt_prepend(p2, o)) == opt_prepend(p1 + p2, o),
{
    match o {
        Some(r) => {
            assert(p1 + (p2 + r) =~= (p1 + p2) + r);
        }
        None => {}
    }
}

/// Skipping whitespace does not change what the list parses to.
proof fn lemma_hex_list_skip(s: Seq<u8>, i: int, p: int)
    requires
        0 <= i <= p <= s.len(),
        forall|t: int| i <= t < p ==> is_space(s[t]),
    ensures
        hex_list(s, i) == hex_list(s, p),
    decreases p - i,
{
    if i < p {
        lemma_hex_list_skip(s, i + 1, p);
    }
}

/// Skipping whitespace does not change what the separator parses to.
proof fn lemma_hex_sep_skip(s: Seq<u8>, i: int, p: int)
    requires
        0 <= i <= p <= s.len(),
        forall|t: int| i <= t < p ==> is_space(s[t]),
    ensures
        hex_sep(s, i) == hex_sep(s, p),
    decreases p - i,
{
    if i < p {
        lemma_hex_sep_skip(s, i + 1, p);
    }
}

/// Whether the input is a well-formed XBM header for this parser: the
/// first `_width` and `_height` definitions carry in-range values, and
/// the first brace opens a well-formed byte list of exactly
/// `ceil(width/8) * height` entries that fits the machine's limits.
pub open spec fn xbm_well_formed(s: Seq<u8>) -> bool {
    match find_from(s, width_token(), 0) {
        None => false,
        Some(iw) => {
            let wp = spaces_end(s, iw + 6);
            let w = digits_value(s, wp, digits_end(s, wp));
            &&& wp < s.len() && is_digit(s[wp])
            &&& 1 <= w <= 0x10_0000
            &&& match find_from(s, height_token(), 0) {
                None => false,
                Some(ih) => {
                    let hp = spaces_end(s, ih + 7);
                    let h = digits_value(s, hp, digits_end(s, hp));
                    &&& hp < s.len() && is_digit(s[hp])
                    &&& 1 <= h <= 0x10_0000
                    &&& match find_from(s, brace_token(), 0) {
                        None => false,
                        Some(ib) => match hex_list(s, ib + 1) {
                            None => false,
                            Some(bits) => bits.len() == row_bytes(w) * h
                                && 8 * (row_bytes(w) * h) <= usize::MAX,
                        },
                    }
                },
            }
        },
    }
}

/// Parses an XBM C header: the `_width` and `_height` definitions and
/// the `{ 0x.., ... };` bits array.  On success the returned byte
/// array holds exactly `ceil(width/8) * height` packed scanline bytes,
/// ready for [`crate::font::bits_to_bytes`]; every malformed input is
/// reported as an [`XbmError`].
pub fn parse_xbm(s: &[u8]) -> (r: Result<(usize, usize, Vec<u8>), XbmError>)
    ensures
        r is Ok <==> xbm_well_formed(s@),
        r matches Ok(whb) ==> 1 <= whb.0 <= 0x10_0000 && 1 <= whb.1 <= 0x10_0000
            && whb.2@.len() == row_bytes(whb.0 as int) * whb.1
            && whb.2@.len() * 8 <= usize::MAX,
        r matches Ok(whb) ==> find_from(s@, width_token(), 0) matches Some(iw)
            && whb.0 == digits_value(s@, spaces_end(s@, iw + 6),
                digits_end(s@, spaces_end(s@, iw + 6))),
        r matches Ok(whb) ==> find_from(s@, height_token(), 0) matches Some(ih)
            && whb.1 == digits_value(s@, spaces_end(s@, ih + 7),
                digits_end(s@, spaces_end(s@, ih + 7))),
        r matches Ok(whb) ==> find_from(s@, brace_token(), 0) matches Some(ib)
            && hex_list(s@, ib + 1) == Some(whb.2@),
{
    // the ASCII bytes of "_width", "_height" and "{"
    let width_tag: [u8; 6] = [95, 119, 105, 100, 116, 104];
    let height_tag: [u8; 7] = [95, 104, 101, 105, 103, 104, 116];
    let brace_tag: [u8; 1] = [123];
    proof {
        assert(width_tag@ =~= width_token());
        assert(height_tag@ =~= height_token());
        assert(brace_tag@ =~= brace_token());
    }
    let iw = match find_token(s, width_tag.as_slice()) {
        Some(i) => i,
        None => {
            return Err(XbmError::MissingWidth);
        }
    };
    let wstart = skip_spaces(s, iw + 6);
    let (width, _wend) = match parse_decimal(s, wstart) {
        Some(ve) => ve,
        None => {
            return Err(XbmError::BadNumber);
        }
    };
    let ih = match find_token(s, height_tag.as_slice()) {
        Some(i) => i,
        None => {
            return Err(XbmError::MissingHeight);
        }
    };
    let hstart = skip_spaces(s, ih + 7);
    let (height, _hend) = match parse_decimal(s, hstart) {
        Some(ve) => ve,
        None => {
            return Err(XbmError::BadNumber);
        }
    };
    if width < 1 || height < 1 {
        return Err(XbmError::BadNumber);
    }
    let ib = match find_token(s, brace_tag.as_slice()) {
        Some(i) => i,
        None => {
            return Err(XbmError::MissingBits);
        }
    };

    let mut bits: Vec<u8> = Vec::new();
    let mut i = ib + 1;
    proof {
        lemma_opt_prepend_empty(hex_list(s@, ib as int + 1));
    }
    loop
        invariant_except_break
            i <= s@.len(),
            ib + 1 <= s@.len(),
            find_from(s@, brace_token(), 0) == Some(ib as int),
            hex_list(s@, ib as int + 1) == opt_prepend(bits@, hex_list(s@, i as int)),
        ensures
            i < s@.len(),
            hex_list(s@, ib as int + 1) == Some(bits@),
        decreases s@.len() - i,
    {
        let isp = skip_spaces(s, i);
        proof {
            lemma_hex_list_skip(s@, i as int, isp as int);
        }
        i = isp;
        if i >= s.len() {
            proof {
                assert(hex_list(s@, i as int) is None);
            }
            return Err(XbmError::MissingBits);
        }
        if s[i] == 125 {
            proof {
                assert(hex_list(s@, i as int) == Some(Seq::<u8>::empty()));
                assert(bits@ + Seq::<u8>::empty() =~= bits@);
            }
            break;
        }
        let ghost ei: int = i as int;
        // a byte entry: `0x` or `0X` then one or two hex digits
        if s[i] != 48 || i + 1 >= s.len() || (s[i + 1] != 120 && s[i + 1] != 88) {
            proof {
                assert(hex_list(s@, ei) is None);
            }
            return Err(XbmError::BadByte);
        }
        i += 2;
        if i >= s.len() {
            proof {
                assert(hex_list(s@, ei) is None);
            }
            return Err(XbmError::BadByte);
        }
        let d0 = match hex_digit(s[i]) {
            Some(v) => v,
            None => {
                proof {
                    assert(hex_list(s@, ei) is None);
                }
                return Err(XbmError::BadByte);
            }
        };
        let mut v = d0;
        let ghost two: bool = ei + 3 < s@.len() && hex_digit_value(s@[ei + 3]) != 16;
        i += 1;
        if i < s.len() {
            match hex_digit(s[i]) {
                Some(d1) => {
                    v = v * 16 + d1;
                    i += 1;
                    if i < s.len() {
                        match hex_digit(s[i]) {
                            Some(_) => {
                                proof {
                                    assert(hex_list(s@, ei) is None);
                                }
                                return Err(XbmError::BadByte);
                            }
                            None => {}
                        }
                    }
                }
                None => {}
            }
        }
        bits.push(v);
        let j = skip_spaces(s, i);
        proof {
            lemma_hex_sep_skip(s@, i as int, j as int);
        }
        if j >= s.len() {
            proof {
                assert(hex_sep(s@, j as int) is None);
                assert(hex_list(s@, ei) is None);
            }
            return Err(XbmError::MissingBits);
        }
        if s[j] == 44 {
            i = j + 1;
            proof {
                assert(hex_sep(s@, j as int) == hex_list(s@, i as int));
                assert(hex_list(s@, ei)
                    == opt_prepend(seq![v], hex_list(s@, i as int)));
                lemma_opt_prepend_assoc(bits@.drop_last(), seq![v], hex_list(s@, i as int));
                assert(bits@.drop_last() + seq![v] =~= bits@);
            }
        } else if s[j] == 125 {
            i = j;
            proof {
                assert(hex_sep(s@, j as int) == Some(Seq::<u8>::empty()));
                assert(hex_list(s@, ei) == Some(seq![v] + Seq::<u8>::empty()));
                assert(seq![v] + Seq::<u8>::empty() =~= seq![v]);
                assert(hex_list(s@, i as int) == Some(Seq::<u8>::empty()));
                assert(bits@.drop_last() + (seq![v] + Seq::<u8>::empty())
                    =~= bits@ + Seq::<u8>::empty());
            }
        } else {
            proof {
                assert(hex_sep(s@, j as int) is None);
                assert(hex_list(s@, ei) is None);
            }
            return Err(XbmError::BadByte);
        }
    }

    proof {
        crate::font::lemma_row_bytes(width as int);
    }
    let k = (width + 7) / 8;
    proof {
        assert(k == row_bytes(width as int));
    }
    let expected = match k.checked_mul(height) {
        Some(e) => e,
        None => {
            proof {
                assert(!xbm_well_formed(s@)) by {
                    if xbm_well_formed(s@) {
                        assert(row_bytes(width as int) * height <= usize::MAX)
                            by (nonlinear_arith)
                            requires 8 * (row_bytes(width as int) * height as int)
                                <= usize::MAX
                                && row_bytes(width as int) >= 1 && height >= 1;
                    }
                }
            }
            return Err(XbmError::BadBitsLength);
        }
    };
    if expected > usize::MAX / 8 {
        proof {
            assert(!xbm_well_formed(s@)) by {
                if xbm_well_formed(s@) {
                    vstd::arithmetic::div_mod::lemma_div_is_ordered(
                        8 * expected as int, usize::MAX as int, 8);
                    vstd::arithmetic::div_mod::lemma_div_multiples_vanish(expected as int, 8);
                }
            }
        }
        return Err(XbmError::BadBitsLength);
    }
    if bits.len() != expected {
        return Err(XbmError::BadBitsLength);
    }
    proof {
        vstd::arithmetic::div_mod::lemma_fundamental_div_mod(usize::MAX as int, 8);
        assert(xbm_well_formed(s@));
    }
    Ok((width, height, bits))
}

} // verus!
