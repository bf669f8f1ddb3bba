//! RGBA colors with 8-bit channels, and parsing of `#rrggbb` / `#rrggbbaa`.

use vstd::prelude::*;
use vstd::string::StringSliceAdditionalSpecFns;
use vstd::utf8::is_char_boundary;

verus! {

/// RGBA color, one byte per channel (straight, not premultiplied).
#[derive(Debug, Clone, Copy, PartialEq, Eq, Structural)]
pub struct Color {
    pub r: u8,
    pub g: u8,
    pub b: u8,
    pub a: u8,
}

/// Value of an ASCII hexadecimal digit.
pub open spec fn hex_digit(c: u8) -> Option<u8> {
    if 48 <= c <= 57 {
        Some((c - 48) as u8)
    } else if 97 <= c <= 102 {
        Some((c - 87) as u8)
    } else if 65 <= c <= 70 {
        Some((c - 55) as u8)
    } else {
        None
    }
}

/// What `u8::from_str_radix(chunk, 16)` gives for a chunk of two bytes:
/// two hex digits, or a `+` sign followed by one hex digit.
pub open spec fn hex_pair(c0: u8, c1: u8) -> Option<u8> {
    if c0 == 43 {
        hex_digit(c1)
    } else {
        match (hex_digit(c0), hex_digit(c1)) {
            (Some(hi), Some(lo)) => Some((hi * 16 + lo) as u8),
            _ => None,
        }
    }
}

/// Number of leading `#` bytes.
pub open spec fn leading_hashes(s: Seq<u8>) -> nat
    decreases s.len(),
{
    if s.len() > 0 && s[0] == 35 {
        1 + leading_hashes(s.drop_first())
    } else {
        0
    }
}

/// The bytes after every leading `#`.
pub open spec fn strip_hashes(s: Seq<u8>) -> Seq<u8> {
    s.skip(leading_hashes(s) as int)
}

/// Channel `i` (0-based) of a run of hex digits, or the fallback on a bad pair.
pub open spec fn channel(h: Seq<u8>, i: int, fallback: u8) -> u8 {
    match hex_pair(h[2 * i], h[2 * i + 1]) {
        Some(v) => v,
        None => fallback,
    }
}

/// The color that `from_hex` gives for a string with these bytes.
pub open spec fn hex_color(bytes: Seq<u8>) -> Color {
    let h = strip_hashes(bytes);
    if h.len() == 6 {
        Color { r: channel(h, 0, 0), g: channel(h, 1, 0), b: channel(h, 2, 0), a: 255 }
    } else if h.len() == 8 {
        Color { r: channel(h, 0, 0), g: channel(h, 1, 0), b: channel(h, 2, 0), a: channel(h, 3, 255) }
    } else {
        Color { r: 0, g: 0, b: 0, a: 255 }
    }
}

/// The two-byte chunks of the digits start and end on character boundaries
/// (slicing the string there does not panic).
pub open spec fn hex_chunks_sliceable(bytes: Seq<u8>) -> bool {
    let h = strip_hashes(bytes);
    (h.len() == 6 ==> is_char_boundary(h, 2) && is_char_boundary(h, 4))
    && (h.len() == 8 ==> is_char_boundary(h, 2) && is_char_boundary(h, 4) && is_char_boundary(h, 6))
}

proof fn lemma_leading_hashes_bound(s: Seq<u8>)
    ensures
        leading_hashes(s) <= s.len(),
        forall|i: int| 0 <= i < leading_hashes(s) ==> s[i] == 35,
        leading_hashes(s) < s.len() ==> s[leading_hashes(s) as int] != 35,
    decreases s.len(),
{
    if s.len() > 0 && s[0] == 35 {
        lemma_leading_hashes_bound(s.drop_first());
        assert forall|i: int| 0 <= i < leading_hashes(s) implies s[i] == 35 by {
            if i > 0 {
                assert(s.drop_first()[i - 1] == s[i]);
            }
        }
    }
}

proof fn lemma_leading_hashes_exact(s: Seq<u8>, k: int)
    requires
        0 <= k <= s.len(),
        forall|i: int| 0 <= i < k ==> s[i] == 35,
        k == s.len() || s[k] != 35,
    ensures
        leading_hashes(s) == k,
    decreases k,
{
    if k > 0 {
        lemma_leading_hashes_exact(s.drop_first(), k - 1);
    }
}

fn hex_value(c: u8) -> (r: Option<u8>)
    ensures
        r == hex_digit(c),
{
    if 48 <= c && c <= 57 {
        Some(c - 48)
    } else if 97 <= c && c <= 102 {
        Some(c - 87)
    } else if 65 <= c && c <= 70 {
        Some(c - 55)
    } else {
        None
    }
}

fn parse_pair(c0: u8, c1: u8) -> (r: Option<u8>)
    ensures
        r == hex_pair(c0, c1),
{
    if c0 == 43 {
        hex_value(c1)
    } else {
        match (hex_value(c0), hex_value(c1)) {
            (Some(hi), Some(lo)) => Some(hi * 16 + lo),
            _ => None,
        }
    }
}

fn pair_or(bytes: &[u8], start: usize, fallback: u8) -> (r: u8)
    requires
        start + 1 < bytes@.len(),
    ensures
        r == (match hex_pair(bytes@[start as int], bytes@[start + 1]) {
            Some(v) => v,
            None => fallback,
        }),
{
    match parse_pair(bytes[start], bytes[start + 1]) {
        Some(v) => v,
        None => fallback,
    }
}

impl Color {
    /// Opaque black.
    pub fn black() -> (c: Color)
        ensures
            c == (Color { r: 0, g: 0, b: 0, a: 255 }),
    {
        Color { r: 0, g: 0, b: 0, a: 255 }
    }

    /// Opaque white.
    pub fn white() -> (c: Color)
        ensures
            c == (Color { r: 255, g: 255, b: 255, a: 255 }),
    {
        Color { r: 255, g: 255, b: 255, a: 255 }
    }

    /// Opaque red.
    pub fn red() -> (c: Color)
        ensures
            c == (Color { r: 255, g: 0, b: 0, a: 255 }),
    {
        Color { r: 255, g: 0, b: 0, a: 255 }
    }

    /// Fully transparent black.
    pub fn transparent() -> (c: Color)
        ensures
            c == (Color { r: 0, g: 0, b: 0, a: 0 }),
    {
        Color { r: 0, g: 0, b: 0, a: 0 }
    }

    /// An opaque color.
    pub fn new(r: u8, g: u8, b: u8) -> (c: Color)
        ensures
            c == (Color { r, g, b, a: 255 }),
    {
        Color { r, g, b, a: 255 }
    }

    /// A color with explicit alpha.
    pub fn rgba(r: u8, g: u8, b: u8, a: u8) -> (c: Color)
        ensures
            c == (Color { r, g, b, a }),
    {
        Color { r, g, b, a }
    }

    /// Parses `#rrggbb` or `#rrggbbaa` (any number of leading `#`, digits of
    /// either case). A malformed channel reads as 0 (alpha: 255); any other
    /// length gives opaque black.
    pub fn from_hex(hex: &str) -> (c: Color)
        requires
            hex_chunks_sliceable(hex.spec_bytes()),
        ensures
            c == hex_color(hex.spec_bytes()),
    {
        let bytes = hex.as_bytes();
        let n = bytes.len();
        let mut k: usize = 0;
        while k < n && bytes[k] == 35
            invariant
                n == bytes@.len(),
                k <= n,
                forall|i: int| 0 <= i < k ==> bytes@[i] == 35,
            decreases n - k,
        {
            k = k + 1;
        }
        proof {
            lemma_leading_hashes_exact(bytes@, k as int);
        }
        let ghost h = strip_hashes(bytes@);
        assert(h.len() == n - k);
        if n - k == 6 {
            let r = pair_or(bytes, k, 0);
            let g = pair_or(bytes, k + 2, 0);
            let b = pair_or(bytes, k + 4, 0);
            assert(h[0] == bytes@[k as int] && h[1] == bytes@[k + 1]);
            assert(h[2] == bytes@[k + 2] && h[3] == bytes@[k + 3]);
            assert(h[4] == bytes@[k + 4] && h[5] == bytes@[k + 5]);
            Color::new(r, g, b)
        } else if n - k == 8 {
            let r = pair_or(bytes, k, 0);
            let g = pair_or(bytes, k + 2, 0);
            let b = pair_or(bytes, k + 4, 0);
            let a = pair_or(bytes, k + 6, 255);
            assert(h[0] == bytes@[k as int] && h[1] == bytes@[k + 1]);
            assert(h[2] == bytes@[k + 2] && h[3] == bytes@[k + 3]);
            assert(h[4] == bytes@[k + 4] && h[5] == bytes@[k + 5]);
            assert(h[6] == bytes@[k + 6] && h[7] == bytes@[k + 7]);
            Color::rgba(r, g, b, a)
        } else {
            Color::black()
        }
    }
}

impl Default for Color {
    fn default() -> (c: Color)
        ensures
            c == (Color { r: 0, g: 0, b: 0, a: 255 }),
    {
        Color::black()
    }
}


/// The ASCII character of the base-16 digit `d` (`0`-`9`, then `a`-`f`, or
/// `A`-`F` when `upper`).
pub open spec fn hex_char(d: int, upper: bool) -> u8 {
    if d < 10 {
        (('0' as u8) + d) as u8
    } else if upper {
        (('A' as u8) + d - 10) as u8
    } else {
        (('a' as u8) + d - 10) as u8
    }
}

/// The two characters of the byte `v` in base 16, high digit first.
pub open spec fn hex_text(v: u8, upper: bool) -> Seq<u8> {
    seq![hex_char(v as int / 16, upper), hex_char(v as int % 16, upper)]
}

/// Every ASCII hexadecimal digit of either case reads as its base-16 value,
/// and nothing else reads as a digit.
pub proof fn lemma_hex_digits_read_base16(c: u8, d: int, upper: bool)
    ensures
        0 <= d < 16 ==> hex_digit(hex_char(d, upper)) == Some(d as u8),
        hex_digit(c) matches Some(v) ==> v < 16 && (c == hex_char(v as int, false) || c == hex_char(v as int, true)),
{
}

/// Two hexadecimal digits of either case read as the byte they spell.
pub proof fn lemma_hex_pair_reads_byte(v: u8, upper: bool)
    ensures
        hex_pair(hex_text(v, upper)[0], hex_text(v, upper)[1]) == Some(v),
{
    lemma_hex_digits_read_base16(0, v as int / 16, upper);
    lemma_hex_digits_read_base16(0, v as int % 16, upper);
    assert((v as int / 16) * 16 + v as int % 16 == v as int) by (nonlinear_arith);
    assert(hex_char(v as int / 16, upper) != 43);
}

/// `#` followed by the base-16 text of each channel (either case) parses
/// back to those channels: `#rrggbb` with an opaque alpha, `#rrggbbaa` with
/// its own alpha.
pub proof fn lemma_hex_color_reads_channels(r: u8, g: u8, b: u8, a: u8, upper: bool)
    ensures
        hex_color(seq![35u8] + hex_text(r, upper) + hex_text(g, upper) + hex_text(b, upper)) == (Color {
            r,
            g,
            b,
            a: 255,
        }),
        hex_color(
            seq![35u8] + hex_text(r, upper) + hex_text(g, upper) + hex_text(b, upper) + hex_text(a, upper),
        ) == (Color { r, g, b, a }),
{
    let d6 = hex_text(r, upper) + hex_text(g, upper) + hex_text(b, upper);
    let d8 = d6 + hex_text(a, upper);
    lemma_hex_pair_reads_byte(r, upper);
    lemma_hex_pair_reads_byte(g, upper);
    lemma_hex_pair_reads_byte(b, upper);
    lemma_hex_pair_reads_byte(a, upper);
    lemma_hex_digits_read_base16(0, r as int / 16, upper);
    assert(hex_char(r as int / 16, upper) != 35);
    let s6 = seq![35u8] + hex_text(r, upper) + hex_text(g, upper) + hex_text(b, upper);
    let s8 = seq![35u8] + hex_text(r, upper) + hex_text(g, upper) + hex_text(b, upper) + hex_text(a, upper);
    assert(s6 =~= seq![35u8] + d6);
    assert(s8 =~= seq![35u8] + d8);
    lemma_leading_hashes_exact(s6, 1);
    lemma_leading_hashes_exact(s8, 1);
    assert(strip_hashes(s6) =~= d6);
    assert(strip_hashes(s8) =~= d8);
    assert(d6[0] == hex_text(r, upper)[0] && d6[1] == hex_text(r, upper)[1]);
    assert(d6[2] == hex_text(g, upper)[0] && d6[3] == hex_text(g, upper)[1]);
    assert(d6[4] == hex_text(b, upper)[0] && d6[5] == hex_text(b, upper)[1]);
    assert(d8[6] == hex_text(a, upper)[0] && d8[7] == hex_text(a, upper)[1]);
    assert(d6.len() == 6 && d8.len() == 8);
    assert(channel(d6, 0, 0) == r && channel(d6, 1, 0) == g && channel(d6, 2, 0) == b);
    assert(d8[0] == d6[0] && d8[1] == d6[1] && d8[2] == d6[2] && d8[3] == d6[3] && d8[4] == d6[4] && d8[5]
        == d6[5]);
    assert(channel(d8, 0, 0) == r && channel(d8, 1, 0) == g && channel(d8, 2, 0) == b);
    assert(channel(d8, 3, 255) == a);
}

} // verus!
