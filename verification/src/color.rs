//! Colors: three 8-bit channels, their six-digit uppercase hexadecimal
//! serialization, and the per-channel parse the decoder applies.

use vstd::prelude::*;

verus! {

/// An opaque color: red, green and blue channels. Alpha is not part of the
/// format; the decoder always reconstructs fully opaque pixels.
#[derive(Clone, Copy, PartialEq, Eq, Structural, Debug)]
pub struct Color {
    pub r: u8,
    pub g: u8,
    pub b: u8,
}

/// The substitute for an unreadable cell, and the fill of fresh grids.
pub open spec fn black() -> Color {
    Color { r: 0, g: 0, b: 0 }
}

/// The uppercase hexadecimal digit of a nibble.
pub open spec fn hex_digit(n: int) -> u8 {
    if n < 10 {
        (48 + n) as u8
    } else {
        (55 + n) as u8
    }
}

/// The two uppercase hexadecimal digits of a byte.
pub open spec fn spec_hex_byte(v: u8) -> Seq<u8> {
    seq![hex_digit(v as int / 16), hex_digit(v as int % 16)]
}

/// The canonical six-digit serialization `RRGGBB` of a color.
pub open spec fn spec_color_hex(c: Color) -> Seq<u8> {
    spec_hex_byte(c.r) + spec_hex_byte(c.g) + spec_hex_byte(c.b)
}

/// Hexadecimal digit in any case, as `u8::from_str_radix` accepts it.
pub open spec fn is_hex_digit(b: u8) -> bool {
    (48 <= b <= 57) || (65 <= b <= 70) || (97 <= b <= 102)
}

pub open spec fn hex_digit_val(b: u8) -> int {
    if 48 <= b <= 57 {
        b - 48
    } else if 65 <= b <= 70 {
        b - 55
    } else {
        b - 87
    }
}

/// A channel read from two bytes: their base-16 value when both are
/// hexadecimal digits, and the substitute 0 otherwise.
pub open spec fn spec_hex_pair(a: u8, b: u8) -> u8 {
    if is_hex_digit(a) && is_hex_digit(b) {
        (hex_digit_val(a) * 16 + hex_digit_val(b)) as u8
    } else {
        0
    }
}

/// Both digits of a byte's serialization are digits or uppercase letters,
/// so in particular no separator, sign, or `#` marker.
pub proof fn lemma_hex_byte_bytes(v: u8)
    ensures
        spec_hex_byte(v).len() == 2,
        forall|i: int|
            0 <= i < 2 ==> {
                let b = #[trigger] spec_hex_byte(v)[i];
                (48 <= b <= 57) || (65 <= b <= 70)
            },
{
}

/// The serialization of a color: six bytes, each a digit or an uppercase
/// letter.
pub proof fn lemma_color_hex_bytes(c: Color)
    ensures
        spec_color_hex(c).len() == 6,
        forall|i: int|
            0 <= i < 6 ==> {
                let b = #[trigger] spec_color_hex(c)[i];
                (48 <= b <= 57) || (65 <= b <= 70)
            },
{
    lemma_hex_byte_bytes(c.r);
    lemma_hex_byte_bytes(c.g);
    lemma_hex_byte_bytes(c.b);
    assert forall|i: int| 0 <= i < 6 implies {
        let b = #[trigger] spec_color_hex(c)[i];
        (48 <= b <= 57) || (65 <= b <= 70)
    } by {
        if i < 2 {
            assert(spec_color_hex(c)[i] == spec_hex_byte(c.r)[i]);
        } else if i < 4 {
            assert(spec_color_hex(c)[i] == spec_hex_byte(c.g)[i - 2]);
        } else {
            assert(spec_color_hex(c)[i] == spec_hex_byte(c.b)[i - 4]);
        }
    }
}

/// Reading a byte's two digits back gives the byte.
pub proof fn lemma_hex_pair_of_byte(v: u8)
    ensures
        spec_hex_pair(spec_hex_byte(v)[0], spec_hex_byte(v)[1]) == v,
{
    vstd::arithmetic::div_mod::lemma_fundamental_div_mod(v as int, 16);
}

fn hex_digit_byte(n: u8) -> (r: u8)
    requires
        n < 16,
    ensures
        r == hex_digit(n as int),
{
    if n < 10 {
        48 + n
    } else {
        55 + n
    }
}

/// The canonical `RRGGBB` serialization of a color.
pub fn color_hex(c: Color) -> (r: Vec<u8>)
    ensures
        r@ == spec_color_hex(c),
{
    let mut r: Vec<u8> = Vec::new();
    r.push(hex_digit_byte(c.r / 16));
    r.push(hex_digit_byte(c.r % 16));
    r.push(hex_digit_byte(c.g / 16));
    r.push(hex_digit_byte(c.g % 16));
    r.push(hex_digit_byte(c.b / 16));
    r.push(hex_digit_byte(c.b % 16));
    proof {
        assert(r@ =~= spec_color_hex(c));
    }
    r
}

/// A channel from two bytes: base-16 value of two hexadecimal digits, 0
/// when either byte is no such digit.
pub fn hex_pair(a: u8, b: u8) -> (r: u8)
    ensures
        r == spec_hex_pair(a, b),
{
    let ha = (48 <= a && a <= 57) || (65 <= a && a <= 70) || (97 <= a && a <= 102);
    let hb = (48 <= b && b <= 57) || (65 <= b && b <= 70) || (97 <= b && b <= 102);
    if ha && hb {
        let va = if a <= 57 {
            a - 48
        } else if a <= 70 {
            a - 55
        } else {
            a - 87
        };
        let vb = if b <= 57 {
            b - 48
        } else if b <= 70 {
            b - 55
        } else {
            b - 87
        };
        va * 16 + vb
    } else {
        0
    }
}

} // verus!
