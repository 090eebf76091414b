use vstd::prelude::*;

verus! {

/// An 8-bit sRGB color: red, green and blue channels.
///
/// Equality of colors is equality of the three channels; the derived
/// Lab and LCh forms carry rounding error and are never compared exactly.
#[derive(Clone, Copy, Debug, PartialEq, Eq, Structural, Hash)]
pub struct Color {
    pub r: u8,
    pub g: u8,
    pub b: u8,
}

impl Color {
    pub fn new(r: u8, g: u8, b: u8) -> (c: Color)
        ensures
            c == (Color { r, g, b }),
    {
        Color { r, g, b }
    }
}

/// The sixteen lowercase hexadecimal digits, in value order.
pub open spec fn hex_char(v: int) -> char
    recommends
        0 <= v < 16,
{
    "0123456789abcdef"@[v]
}

/// The value of a hexadecimal digit, or -1 for any other character.
/// Both lowercase and uppercase digits are accepted.
pub open spec fn hex_digit_val(c: char) -> int {
    if '0' as int <= c as int && c as int <= '9' as int {
        c as int - '0' as int
    } else if 'a' as int <= c as int && c as int <= 'f' as int {
        10 + c as int - 'a' as int
    } else if 'A' as int <= c as int && c as int <= 'F' as int {
        10 + c as int - 'A' as int
    } else {
        -1
    }
}

pub open spec fn is_hex_digit(c: char) -> bool {
    hex_digit_val(c) >= 0
}

/// A valid color literal: exactly six hexadecimal digits.
pub open spec fn hex6_valid(t: Seq<char>) -> bool {
    &&& t.len() == 6
    &&& forall|i: int| 0 <= i < 6 ==> is_hex_digit(#[trigger] t[i])
}

/// The color denoted by a valid six-digit literal.
pub open spec fn hex6_color(t: Seq<char>) -> Color
    recommends
        hex6_valid(t),
{
    Color {
        r: (hex_digit_val(t[0]) * 16 + hex_digit_val(t[1])) as u8,
        g: (hex_digit_val(t[2]) * 16 + hex_digit_val(t[3])) as u8,
        b: (hex_digit_val(t[4]) * 16 + hex_digit_val(t[5])) as u8,
    }
}

/// The canonical six-digit lowercase literal of a color.
pub open spec fn color_hex(c: Color) -> Seq<char> {
    seq![
        hex_char(c.r as int / 16),
        hex_char(c.r as int % 16),
        hex_char(c.g as int / 16),
        hex_char(c.g as int % 16),
        hex_char(c.b as int / 16),
        hex_char(c.b as int % 16),
    ]
}

pub proof fn lemma_hex_char_val(v: int)
    requires
        0 <= v < 16,
    ensures
        is_hex_digit(hex_char(v)),
        hex_digit_val(hex_char(v)) == v,
{
    reveal_strlit("0123456789abcdef");
}

/// Parsing the canonical literal of a color yields that color back.
pub proof fn lemma_color_hex_roundtrip(c: Color)
    ensures
        hex6_valid(color_hex(c)),
        hex6_color(color_hex(c)) == c,
{
    let t = color_hex(c);
    lemma_hex_char_val(c.r as int / 16);
    lemma_hex_char_val(c.r as int % 16);
    lemma_hex_char_val(c.g as int / 16);
    lemma_hex_char_val(c.g as int % 16);
    lemma_hex_char_val(c.b as int / 16);
    lemma_hex_char_val(c.b as int % 16);
    assert(hex6_color(t).r == c.r) by {
        assert(c.r as int == (c.r as int / 16) * 16 + c.r as int % 16) by (nonlinear_arith);
    };
    assert(hex6_color(t).g == c.g) by {
        assert(c.g as int == (c.g as int / 16) * 16 + c.g as int % 16) by (nonlinear_arith);
    };
    assert(hex6_color(t).b == c.b) by {
        assert(c.b as int == (c.b as int / 16) * 16 + c.b as int % 16) by (nonlinear_arith);
    };
}

/// The value of one hexadecimal digit character, if it is one.
pub fn hex_digit(c: char) -> (v: Option<u8>)
    ensures
        is_hex_digit(c) ==> v == Some(hex_digit_val(c) as u8),
        !is_hex_digit(c) ==> v is None,
{
    let u = c as u32;
    if 48 <= u && u <= 57 {
        Some((u - 48) as u8)
    } else if 97 <= u && u <= 102 {
        Some((u - 97 + 10) as u8)
    } else if 65 <= u && u <= 70 {
        Some((u - 65 + 10) as u8)
    } else {
        None
    }
}

/// Parses a six-hex-digit color literal such as `1d2021`.
/// Returns `None` exactly on malformed input.
pub fn parse_hex_color(s: &str) -> (c: Option<Color>)
    ensures
        hex6_valid(s@) ==> c == Some(hex6_color(s@)),
        !hex6_valid(s@) ==> c is None,
{
    let n = s.unicode_len();
    if n != 6 {
        return None;
    }
    let mut vals: [u8; 6] = [0, 0, 0, 0, 0, 0];
    for i in 0..6
        invariant
            s@.len() == 6,
            forall|j: int| 0 <= j < i ==> is_hex_digit(#[trigger] s@[j]),
            forall|j: int| 0 <= j < i ==> #[trigger] vals@[j] == hex_digit_val(s@[j]),
    {
        match hex_digit(s.get_char(i)) {
            Some(v) => {
                vals[i] = v;
            },
            None => {
                return None;
            },
        }
    }
    Some(Color {
        r: vals[0] * 16 + vals[1],
        g: vals[2] * 16 + vals[3],
        b: vals[4] * 16 + vals[5],
    })
}

/// Writes a color as its canonical six-digit lowercase literal.
pub fn to_hex(c: &Color) -> (s: String)
    ensures
        s@ == color_hex(*c),
{
    proof {
        reveal_strlit("0123456789abcdef");
        reveal_strlit("");
    }
    let digits = "0123456789abcdef";
    let mut s = String::from_str("");
    s.append(digits.substring_ascii((c.r / 16) as usize, (c.r / 16) as usize + 1));
    s.append(digits.substring_ascii((c.r % 16) as usize, (c.r % 16) as usize + 1));
    s.append(digits.substring_ascii((c.g / 16) as usize, (c.g / 16) as usize + 1));
    s.append(digits.substring_ascii((c.g % 16) as usize, (c.g % 16) as usize + 1));
    s.append(digits.substring_ascii((c.b / 16) as usize, (c.b / 16) as usize + 1));
    s.append(digits.substring_ascii((c.b % 16) as usize, (c.b % 16) as usize + 1));
    proof {
        assert(s@ =~= color_hex(*c));
    }
    s
}

} // verus!
