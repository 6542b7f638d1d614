use vstd::prelude::*;

use crate::parser::{Alignment, Size};
use crate::pixels::Color;

verus! {

/// A token as the bar draws it.
#[derive(Debug, Clone, Copy)]
pub enum Token<'a> {
    /// simple text
    Text(&'a str),
    /// change of alignment
    /// %{l} %{c} %{r}
    Alignment(Alignment),
    /// change of foreground color
    /// %{F:[AA]RRGGBB}
    Fg(Color),
    /// change of background color
    /// %{B:[AA]RRGGBB}
    Bg(Color),
    /// ramp
    /// %{R:WxH}
    Ramp(Size),
}

/// The drawing color of an attribute's color.
pub open spec fn pixel_color(c: crate::parser::Color) -> Color {
    Color { a: c.a, r: c.r, g: c.g, b: c.b }
}

/// The token that the bar draws for a token of an input line: texts,
/// alignments and colors carry over; underlines and overlines have no drawing
/// and are left out.
pub fn from_parsed<'a>(t: crate::parser::Token<'a>) -> (r: Option<Token<'a>>)
    ensures
        match t {
            crate::parser::Token::Text(s) => r == Some(Token::Text(s)),
            crate::parser::Token::Alignment(a) => r == Some(Token::Alignment(a)),
            crate::parser::Token::Fg(c) => r == Some(Token::Fg(pixel_color(c))),
            crate::parser::Token::Bg(c) => r == Some(Token::Bg(pixel_color(c))),
            crate::parser::Token::Underline(_) => r is None,
            crate::parser::Token::Overline(_) => r is None,
        },
{
    match t {
        crate::parser::Token::Text(s) => Some(Token::Text(s)),
        crate::parser::Token::Alignment(a) => Some(Token::Alignment(a)),
        crate::parser::Token::Fg(c) => Some(Token::Fg(Color::new(c.r, c.g, c.b, c.a))),
        crate::parser::Token::Bg(c) => Some(Token::Bg(Color::new(c.r, c.g, c.b, c.a))),
        crate::parser::Token::Underline(_) => None,
        crate::parser::Token::Overline(_) => None,
    }
}

} // verus!
