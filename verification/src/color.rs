//! Colors as 8-bit RGBA values, with a parser for CSS-style hex strings.

use vstd::prelude::*;
use vstd::slice::slice_index_get;

verus! {

/// An RGBA color with 8 bits per channel.
#[derive(Clone, Copy, Debug, PartialEq, Eq, Structural)]
pub struct Color {
    pub r: u8,
    pub g: u8,
    pub b: u8,
    pub a: u8,
}

/// The value of one hex digit, or `None` for any other character.
pub open spec fn spec_hex_digit(c: char) -> Option<u8> {
    if '0' <= c && c <= '9' {
        Some((c as u8 - '0' as u8) as u8)
    } else if 'a' <= c && c <= 'f' {
        Some((c as u8 - 'a' as u8 + 10) as u8)
    } else if 'A' <= c && c <= 'F' {
        Some((c as u8 - 'A' as u8 + 10) as u8)
    } else {
        None
    }
}

/// Whether every character of `s` is a hex digit.
pub open spec fn all_hex(s: Seq<char>) -> bool {
    forall|i: int| 0 <= i < s.len() ==> #[trigger] spec_hex_digit(s[i]) is Some
}

/// The value of the two-digit hex pair starting at `i`.
pub open spec fn spec_pair(s: Seq<char>, i: int) -> u8
    recommends
        0 <= i && i + 1 < s.len(),
        spec_hex_digit(s[i]) is Some,
        spec_hex_digit(s[i + 1]) is Some,
{
    (spec_hex_digit(s[i]).unwrap() * 16 + spec_hex_digit(s[i + 1]).unwrap()) as u8
}

/// A single hex digit expanded to a full byte, as CSS does for `#rgb` forms.
pub open spec fn spec_nibble(s: Seq<char>, i: int) -> u8
    recommends
        0 <= i < s.len(),
        spec_hex_digit(s[i]) is Some,
{
    (spec_hex_digit(s[i]).unwrap() * 17) as u8
}

/// The string with one leading `#` removed, if present.
pub open spec fn spec_strip_hash(s: Seq<char>) -> Seq<char> {
    if s.len() > 0 && s[0] == '#' {
        s.drop_first()
    } else {
        s
    }
}

/// The color a hex string of digits (without `#`) denotes: a grey pair, three
/// or four single digits, or three or four pairs.  Any other length, or any
/// non-digit, is rejected.
pub open spec fn spec_hex_color(h: Seq<char>) -> Option<Color> {
    if !all_hex(h) {
        None
    } else if h.len() == 2 {
        Some(Color { r: spec_pair(h, 0), g: spec_pair(h, 0), b: spec_pair(h, 0), a: 255 })
    } else if h.len() == 3 {
        Some(Color { r: spec_nibble(h, 0), g: spec_nibble(h, 1), b: spec_nibble(h, 2), a: 255 })
    } else if h.len() == 4 {
        Some(
            Color {
                r: spec_nibble(h, 0),
                g: spec_nibble(h, 1),
                b: spec_nibble(h, 2),
                a: spec_nibble(h, 3),
            },
        )
    } else if h.len() == 6 {
        Some(Color { r: spec_pair(h, 0), g: spec_pair(h, 2), b: spec_pair(h, 4), a: 255 })
    } else if h.len() == 8 {
        Some(
            Color { r: spec_pair(h, 0), g: spec_pair(h, 2), b: spec_pair(h, 4), a: spec_pair(h, 6) },
        )
    } else {
        None
    }
}

/// What `Color::try_hex` returns for any input string.
pub open spec fn spec_try_hex(s: Seq<char>) -> Option<Color> {
    spec_hex_color(spec_strip_hash(s))
}

impl Color {
    /// Fully transparent black.
    pub fn transparent() -> (c: Color)
        ensures
            c == (Color { r: 0, g: 0, b: 0, a: 0 }),
    {
        Color { r: 0, g: 0, b: 0, a: 0 }
    }

    /// Opaque black.
    pub fn black() -> (c: Color)
        ensures
            c == (Color { r: 0, g: 0, b: 0, a: 255 }),
    {
        Color { r: 0, g: 0, b: 0, a: 255 }
    }

    /// Opaque white.
    pub fn white() -> (c: Color)
        ensures
            c == (Color { r: 255, g: 255, b: 255, a: 255 }),
    {
        Color { r: 255, g: 255, b: 255, a: 255 }
    }

    /// An opaque color from three channels.
    pub fn rgb(r: u8, g: u8, b: u8) -> (c: Color)
        ensures
            c == (Color { r, g, b, a: 255 }),
    {
        Color { r, g, b, a: 255 }
    }

    /// A color from four channels.
    pub fn rgba(r: u8, g: u8, b: u8, a: u8) -> (c: Color)
        ensures
            c == (Color { r, g, b, a }),
    {
        Color { r, g, b, a }
    }

    /// Parse a color from a hex string such as `"#1e90ff"`, `"#abc"`,
    /// `"#abcd"`, `"#20"` (grey) or `"#11223344"`, with the `#` optional.
    pub fn try_hex(hex: &str) -> (c: Option<Color>)
        ensures
            c == spec_try_hex(hex@),
    {
        let ghost full = hex@;
        let ghost h = spec_strip_hash(full);
        if !hex.is_ascii() {
            proof {
                let i = choose|i: int|
                    0 <= i < full.len() && !('\0' <= #[trigger] full[i] <= '\u{7f}');
                let j: int = if full.len() > 0 && full[0] == '#' {
                    i - 1
                } else {
                    i
                };
                assert(h[j] == full[i]);
                assert(spec_hex_digit(h[j]) is None);
            }
            return None;
        }
        proof {
            vstd::string::is_ascii_spec_bytes(hex);
        }
        let bytes: &[u8] = hex.as_bytes();
        assert(bytes@.len() == full.len());
        assert(forall|i: int| 0 <= i < full.len() ==> #[trigger] bytes@[i] == full[i] as u8);
        assert(forall|i: int| 0 <= i < full.len() ==> #[trigger] bytes@[i] < 128);
        assert(forall|i: int| 0 <= i < full.len() ==> #[trigger] bytes@[i] as char == full[i]);
        let n: usize = bytes.len();
        let start: usize = if n > 0 && *slice_index_get(bytes, 0) == 35 {
            proof {
                assert(full[0] == '#');
            }
            1
        } else {
            0
        };
        assert(h =~= full.subrange(start as int, n as int));

        // Collect the digit values; any non-digit character rejects the string.
        let mut vals: Vec<u8> = Vec::new();
        let mut k: usize = start;
        while k < n
            invariant
                start <= k <= n,
                n == bytes@.len(),
                n == full.len(),
                full == hex@,
                h == spec_strip_hash(full),
                h == full.subrange(start as int, n as int),
                forall|i: int| 0 <= i < full.len() ==> #[trigger] bytes@[i] < 128,
                forall|i: int| 0 <= i < full.len() ==> #[trigger] bytes@[i] as char == full[i],
                vals@.len() == k - start,
                forall|j: int|
                    0 <= j < vals@.len() ==> #[trigger] spec_hex_digit(h[j]) == Some(vals@[j]),
            decreases n - k,
        {
            let b = *slice_index_get(bytes, k);
            match hex_digit_of_byte(b) {
                Some(d) => {
                    assert(spec_hex_digit(h[k - start]) == Some(d));
                    vals.push(d);
                },
                None => {
                    assert(spec_hex_digit(h[k - start]) is None);
                    return None;
                },
            }
            k += 1;
        }
        assert(all_hex(h));
        assert(forall|j: int| 0 <= j < vals@.len() ==> #[trigger] vals@[j] <= 15) by {
            assert forall|j: int| 0 <= j < vals@.len() implies #[trigger] vals@[j] <= 15 by {
                assert(spec_hex_digit(h[j]) == Some(vals@[j]));
            }
        }

        let len: usize = vals.len();
        if len == 2 {
            let v = vals[0] * 16 + vals[1];
            Some(Color { r: v, g: v, b: v, a: 255 })
        } else if len == 3 {
            Some(Color { r: vals[0] * 17, g: vals[1] * 17, b: vals[2] * 17, a: 255 })
        } else if len == 4 {
            Some(
                Color {
                    r: vals[0] * 17,
                    g: vals[1] * 17,
                    b: vals[2] * 17,
                    a: vals[3] * 17,
                },
            )
        } else if len == 6 {
            Some(
                Color {
                    r: vals[0] * 16 + vals[1],
                    g: vals[2] * 16 + vals[3],
                    b: vals[4] * 16 + vals[5],
                    a: 255,
                },
            )
        } else if len == 8 {
            Some(
                Color {
                    r: vals[0] * 16 + vals[1],
                    g: vals[2] * 16 + vals[3],
                    b: vals[4] * 16 + vals[5],
                    a: vals[6] * 16 + vals[7],
                },
            )
        } else {
            None
        }
    }
}

/// The value of the ASCII hex digit `b`, or `None`.
fn hex_digit_of_byte(b: u8) -> (v: Option<u8>)
    requires
        b < 128,
    ensures
        v == spec_hex_digit(b as char),
{
    if 48 <= b && b <= 57 {
        Some(b - 48)
    } else if 97 <= b && b <= 102 {
        Some(b - 97 + 10)
    } else if 65 <= b && b <= 70 {
        Some(b - 65 + 10)
    } else {
        None
    }
}

} // verus!
