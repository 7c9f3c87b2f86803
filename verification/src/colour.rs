//! Colour names as authors write them: a handful of names, or `#rrggbb`.

use vstd::prelude::*;
use vstd::utf8::encode_utf8;
use crate::reconcile::Error;
use crate::text::{chars_of, append, debug_quoted, debug_text, owned, str_eq};

verus! {

broadcast use vstd::string::group_string_axioms;

/// A colour as named by an author; the renderer turns it into channel
/// values.
#[derive(Clone, Copy, Debug, PartialEq, Eq, Structural)]
pub enum ColourSpec {
    Transparent,
    White,
    Black,
    Red,
    Cyan,
    Orange,
    Blue,
    Green,
    Grey,
    Yellow,
    Rgb(u8, u8, u8),
}

/// The colour a plain name stands for, if it is one of the known names.
pub open spec fn named_colour(s: Seq<char>) -> Option<ColourSpec> {
    if s == "none"@ || s == "transparent"@ {
        Some(ColourSpec::Transparent)
    } else if s == "white"@ {
        Some(ColourSpec::White)
    } else if s == "black"@ {
        Some(ColourSpec::Black)
    } else if s == "red"@ {
        Some(ColourSpec::Red)
    } else if s == "cyan"@ {
        Some(ColourSpec::Cyan)
    } else if s == "orange"@ {
        Some(ColourSpec::Orange)
    } else if s == "blue"@ {
        Some(ColourSpec::Blue)
    } else if s == "green"@ {
        Some(ColourSpec::Green)
    } else if s == "grey"@ || s == "gray"@ {
        Some(ColourSpec::Grey)
    } else if s == "yellow"@ {
        Some(ColourSpec::Yellow)
    } else {
        None
    }
}

/// The value of one hexadecimal digit byte, either case.
pub open spec fn hex_digit(b: u8) -> Option<int> {
    if 48 <= b <= 57 {
        Some(b - 48)
    } else if 97 <= b <= 102 {
        Some(b - 87)
    } else if 65 <= b <= 70 {
        Some(b - 55)
    } else {
        None
    }
}

/// Two bytes that are both hexadecimal digits, read as one `u8`.
pub open spec fn hex_byte(x: u8, y: u8) -> Option<u8> {
    match (hex_digit(x), hex_digit(y)) {
        (Some(a), Some(b)) => Some((16 * a + b) as u8),
        _ => None,
    }
}

/// A name that starts with `#` and is seven bytes long is read as
/// `#rrggbb`.
pub open spec fn hex_shaped(s: Seq<char>) -> bool {
    s.len() > 0 && s[0] == '#' && encode_utf8(s).len() == 7
}

/// What a colour name means, if anything.
pub open spec fn colour_named(s: Seq<char>) -> Option<ColourSpec> {
    match named_colour(s) {
        Some(c) => Some(c),
        None => if hex_shaped(s) {
            let b = encode_utf8(s);
            match (hex_byte(b[1], b[2]), hex_byte(b[3], b[4]), hex_byte(b[5], b[6])) {
                (Some(r), Some(g), Some(bl)) => Some(ColourSpec::Rgb(r, g, bl)),
                _ => None,
            }
        } else {
            None
        },
    }
}

/// The value of one hexadecimal digit byte.
pub(crate) fn hex_digit_of(b: u8) -> (r: Option<u8>)
    ensures
        match hex_digit(b) {
            Some(v) => r == Some(v as u8),
            None => r is None,
        },
{
    if 48 <= b && b <= 57 {
        Some(b - 48)
    } else if 97 <= b && b <= 102 {
        Some(b - 87)
    } else if 65 <= b && b <= 70 {
        Some(b - 55)
    } else {
        None
    }
}

/// Two bytes that are both hexadecimal digits, read as one `u8`.
pub(crate) fn hex_byte_of(x: u8, y: u8) -> (r: Option<u8>)
    ensures
        r == hex_byte(x, y),
{
    match (hex_digit_of(x), hex_digit_of(y)) {
        (Some(a), Some(b)) => Some(16 * a + b),
        _ => None,
    }
}

/// Read a colour name: `none`/`transparent`, `white`, `black`, `red`, `cyan`,
/// `orange`, `blue`, `green`, `grey`/`gray`, `yellow`, or `#rrggbb`. A
/// seven-byte name that starts with `#` is a colour only when its other six
/// bytes are all hexadecimal digits, and a bad hex colour otherwise; any other
/// name is unknown.
pub fn parse_color(name: &str) -> (r: Result<ColourSpec, Error>)
    ensures
        match colour_named(name@) {
            Some(c) => r == Ok::<ColourSpec, Error>(c),
            None => r matches Err(e) && if hex_shaped(name@) {
                e.0@ == "bad hex color: "@ + name@
            } else {
                e.0@ == "unknown color "@ + debug_text(name@) + " — use a name or #rrggbb"@
            },
        },
{
    if str_eq(name, "none") || str_eq(name, "transparent") {
        return Ok(ColourSpec::Transparent);
    } else if str_eq(name, "white") {
        return Ok(ColourSpec::White);
    } else if str_eq(name, "black") {
        return Ok(ColourSpec::Black);
    } else if str_eq(name, "red") {
        return Ok(ColourSpec::Red);
    } else if str_eq(name, "cyan") {
        return Ok(ColourSpec::Cyan);
    } else if str_eq(name, "orange") {
        return Ok(ColourSpec::Orange);
    } else if str_eq(name, "blue") {
        return Ok(ColourSpec::Blue);
    } else if str_eq(name, "green") {
        return Ok(ColourSpec::Green);
    } else if str_eq(name, "grey") || str_eq(name, "gray") {
        return Ok(ColourSpec::Grey);
    } else if str_eq(name, "yellow") {
        return Ok(ColourSpec::Yellow);
    }
    let chars = chars_of(name);
    let bytes = name.as_bytes();
    if chars.len() > 0 && chars[0] == '#' && bytes.len() == 7 {
        let parsed = match hex_byte_of(bytes[1], bytes[2]) {
            Some(r) => match hex_byte_of(bytes[3], bytes[4]) {
                Some(g) => match hex_byte_of(bytes[5], bytes[6]) {
                    Some(b) => Some(ColourSpec::Rgb(r, g, b)),
                    None => None,
                },
                None => None,
            },
            None => None,
        };
        match parsed {
            Some(c) => Ok(c),
            None => Err(Error(append(owned("bad hex color: "), name))),
        }
    } else {
        let msg = append(owned("unknown color "), debug_quoted(name).as_str());
        Err(Error(append(msg, " — use a name or #rrggbb")))
    }
}

/// The hexadecimal digits in lower case, by value.
pub open spec fn lower_hex_digits() -> Seq<char> {
    seq!['0', '1', '2', '3', '4', '5', '6', '7', '8', '9', 'a', 'b', 'c', 'd', 'e', 'f']
}

/// The hexadecimal digits in upper case, by value.
pub open spec fn upper_hex_digits() -> Seq<char> {
    seq!['0', '1', '2', '3', '4', '5', '6', '7', '8', '9', 'A', 'B', 'C', 'D', 'E', 'F']
}

/// A byte reads as a hexadecimal digit exactly when it is one of `0`-`9`,
/// `a`-`f` or `A`-`F`, in either case, and then as that digit's value: the
/// reading std's base-16 parsing gives each digit.
pub proof fn law_hex_digits_in_either_case(b: u8)
    ensures
        forall|v: int| 0 <= v < 16 && (b as u32 == lower_hex_digits()[v] as u32 || b as u32 == upper_hex_digits()[v] as u32)
            ==> hex_digit(b) == Some(v),
        (forall|v: int| 0 <= v < 16 ==> b as u32 != lower_hex_digits()[v] as u32 && b as u32 != upper_hex_digits()[v] as u32)
            ==> hex_digit(b) is None,
{
    let lo = lower_hex_digits();
    let up = upper_hex_digits();
    assert(lo[0] as u32 == 48 && lo[1] as u32 == 49 && lo[2] as u32 == 50 && lo[3] as u32 == 51);
    assert(lo[4] as u32 == 52 && lo[5] as u32 == 53 && lo[6] as u32 == 54 && lo[7] as u32 == 55);
    assert(lo[8] as u32 == 56 && lo[9] as u32 == 57 && lo[10] as u32 == 97 && lo[11] as u32 == 98);
    assert(lo[12] as u32 == 99 && lo[13] as u32 == 100 && lo[14] as u32 == 101 && lo[15] as u32 == 102);
    assert(up[0] as u32 == 48 && up[9] as u32 == 57 && up[10] as u32 == 65 && up[11] as u32 == 66);
    assert(up[12] as u32 == 67 && up[13] as u32 == 68 && up[14] as u32 == 69 && up[15] as u32 == 70);
    assert(up[1] as u32 == 49 && up[2] as u32 == 50 && up[3] as u32 == 51 && up[4] as u32 == 52);
    assert(up[5] as u32 == 53 && up[6] as u32 == 54 && up[7] as u32 == 55 && up[8] as u32 == 56);
    if hex_digit(b) is Some {
        let v = hex_digit(b)->0;
        assert(b as u32 == lo[v] as u32 || b as u32 == up[v] as u32);
    }
}

/// `x` is the hexadecimal digit for `v`, in either case.
pub open spec fn is_hex_digit_for(x: u8, v: int) -> bool {
    0 <= v < 16 && (x as u32 == lower_hex_digits()[v] as u32 || x as u32 == upper_hex_digits()[v] as u32)
}

/// Two hexadecimal digits, in either case, read as one byte: the first
/// digit's value sixteen times, plus the second's; a pair with any other
/// byte reads as nothing.
pub proof fn law_hex_pairs_read_as_bytes(x: u8, y: u8)
    ensures
        forall|vx: int, vy: int| is_hex_digit_for(x, vx) && is_hex_digit_for(y, vy) ==> hex_byte(x, y)
            == Some((16 * vx + vy) as u8),
        (forall|v: int| !is_hex_digit_for(x, v)) ==> hex_byte(x, y) is None,
        (forall|v: int| !is_hex_digit_for(y, v)) ==> hex_byte(x, y) is None,
{
    law_hex_digits_in_either_case(x);
    law_hex_digits_in_either_case(y);
    assert forall|vx: int, vy: int| is_hex_digit_for(x, vx) && is_hex_digit_for(y, vy) implies hex_byte(x, y)
        == Some((16 * vx + vy) as u8) by {
        assert(hex_digit(x) == Some(vx));
        assert(hex_digit(y) == Some(vy));
    }
    if forall|v: int| !is_hex_digit_for(x, v) {
        assert forall|v: int| 0 <= v < 16 implies x as u32 != lower_hex_digits()[v] as u32 && x as u32
            != upper_hex_digits()[v] as u32 by {
            assert(!is_hex_digit_for(x, v));
        }
    }
    if forall|v: int| !is_hex_digit_for(y, v) {
        assert forall|v: int| 0 <= v < 16 implies y as u32 != lower_hex_digits()[v] as u32 && y as u32
            != upper_hex_digits()[v] as u32 by {
            assert(!is_hex_digit_for(y, v));
        }
    }
}

} // verus!
