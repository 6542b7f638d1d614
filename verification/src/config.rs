use vstd::prelude::*;

use crate::number::{all_digits, digit_value, digits_value, unsigned_digits};
use crate::parser::{
    color_hex, lemma_color_hex, lemma_color_u32_round_trip, lemma_digits_bound,
    power, spec_parse_color,
};
use crate::pixels::Color;

verus! {

/// The options of the bar.
pub struct Config {
    pub top: bool,
    pub font: Option<String>,
    pub font_size: u32,
    pub fg: Color,
    pub bg: Color,
    pub height: u32,
}

/// The color that the whole of `s` writes as `[AA]RRGGBB`.
pub open spec fn spec_config_color(s: Seq<char>) -> Option<Color> {
    match spec_parse_color(s) {
        Some((c, n)) => if n == s.len() {
            Some(Color { a: c.a, r: c.r, g: c.g, b: c.b })
        } else {
            None
        },
        None => None,
    }
}

/// Reads a color option: the whole text must be a color `[AA]RRGGBB`.
pub fn parse_color(s: &str) -> (r: Result<Color, &'static str>)
    ensures
        match r {
            Ok(c) => spec_config_color(s@) == Some(c),
            Err(e) => spec_config_color(s@) is None && e@ == "invalid color"@,
        },
{
    let chars = crate::parser::chars_of(s);
    assert(chars@.skip(0) =~= chars@);
    match crate::parser::parse_color(chars.as_slice(), 0) {
        Some((c, end)) => if end == chars.len() {
            Ok(Color::new(c.r, c.g, c.b, c.a))
        } else {
            Err("invalid color")
        },
        None => Err("invalid color"),
    }
}

/// Every color, written `AARRGGBB` with lowercase digits, reads back as
/// itself.
pub proof fn lemma_config_color_hex(c: Color)
    ensures
        spec_config_color(color_hex(crate::parser::Color { a: c.a, r: c.r, g: c.g, b: c.b }))
            == Some(c),
{
    let pc = crate::parser::Color { a: c.a, r: c.r, g: c.g, b: c.b };
    let h = color_hex(pc);
    lemma_color_hex(pc);
    assert(h.take(8) =~= h);
}

/// A color option of 6 or 8 hexadecimal digits, of either case, reads as the
/// color whose bytes, alpha first, spell the number that the digits spell: for
/// `RRGGBB` the first two digits are red and the alpha is zero.
pub proof fn lemma_config_color_digits(s: Seq<char>)
    requires
        s.len() == 6 || s.len() == 8,
        all_digits(s, 16),
    ensures
        spec_config_color(s) matches Some(c) && c.a * 0x100_0000 + c.r * 0x1_0000 + c.g * 0x100
            + c.b == digits_value(s, 16),
{
    lemma_digits_bound(s, 16);
    reveal_with_fuel(power, 9);
    let v = digits_value(s, 16) as u32;
    assert(digit_value(s[0], 16) is Some);
    assert(unsigned_digits(s) == s);
    assert(s.take(s.len() as int) =~= s);
    lemma_color_u32_round_trip(v, Seq::empty());
}

} // verus!
