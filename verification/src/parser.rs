use vstd::prelude::*;

use crate::number::{all_digits, digit_value, digits_value, parse_u32, spec_parse_u32, unsigned_digits};

verus! {

/// A token of an input line.
#[derive(Debug, Clone, Copy)]
pub enum Token<'a> {
    /// simple text
    Text(&'a str),
    /// change of alignment
    /// %{l} %{c} %{r}
    Alignment(Alignment),
    /// change of foreground color
    /// %{F:[AA]RRGGBB}
    Fg(Color),
    /// change of background color
    /// %{B:[AA]RRGGBB}
    Bg(Color),
    /// underline
    /// %{U:WxH}
    Underline(Size),
    /// overline
    /// %{O:WxH}
    Overline(Size),
}

/// A token with its text taken as characters.
pub enum TokenView {
    Text(Seq<char>),
    Alignment(Alignment),
    Fg(Color),
    Bg(Color),
    Underline(Size),
    Overline(Size),
}

impl<'a> View for Token<'a> {
    type V = TokenView;

    open spec fn view(&self) -> TokenView {
        match *self {
            Token::Text(t) => TokenView::Text(t@),
            Token::Alignment(a) => TokenView::Alignment(a),
            Token::Fg(c) => TokenView::Fg(c),
            Token::Bg(c) => TokenView::Bg(c),
            Token::Underline(s) => TokenView::Underline(s),
            Token::Overline(s) => TokenView::Overline(s),
        }
    }
}

#[derive(Debug, Clone, Copy, PartialEq, Eq, Structural)]
pub struct Size {
    pub w: u32,
    pub h: u32,
}

#[derive(Debug, Clone, Copy, PartialEq, Eq, Structural)]
pub enum Alignment {
    Left,
    Center,
    Right,
}

/// A color as written in an attribute, with an alpha channel.
#[derive(Debug, Clone, Copy, PartialEq, Eq, Structural)]
pub struct Color {
    pub a: u8,
    pub r: u8,
    pub g: u8,
    pub b: u8,
}

impl Color {
    pub fn new(r: u8, g: u8, b: u8, a: u8) -> (c: Self)
        ensures
            c == (Color { a, r, g, b }),
    {
        Self { r, g, b, a }
    }

    /// The channels in the order alpha, red, green, blue.
    pub fn as_argb(&self) -> (bytes: [u8; 4])
        ensures
            bytes@ == seq![self.a, self.r, self.g, self.b],
    {
        [self.a, self.r, self.g, self.b]
    }
}

// ---------------------------------------------------------------------------
// The grammar, over the characters of the text that is left to read.
// ---------------------------------------------------------------------------

/// `i` is the first position of `c` in `s`.
pub open spec fn is_first_index(s: Seq<char>, c: char, i: int) -> bool {
    &&& 0 <= i < s.len()
    &&& s[i] == c
    &&& forall|j: int| 0 <= j < i ==> s[j] != c
}

/// The first position of `c` in `s`, if it occurs.
pub open spec fn find_char(s: Seq<char>, c: char) -> Option<int> {
    if exists|i: int| is_first_index(s, c, i) {
        Some(choose|i: int| is_first_index(s, c, i))
    } else {
        None
    }
}

/// The color that the 32-bit value `0xAARRGGBB` denotes.
pub open spec fn color_of_u32(v: u32) -> Color {
    Color {
        a: (v / 0x100_0000) as u8,
        r: ((v / 0x1_0000) % 0x100) as u8,
        g: ((v / 0x100) % 0x100) as u8,
        b: (v % 0x100) as u8,
    }
}

/// A color written with exactly `len` hexadecimal characters at the start of
/// `s`, and the number of characters it takes.
pub open spec fn spec_parse_color_with_len(s: Seq<char>, len: nat) -> Option<(Color, nat)> {
    if s.len() < len {
        None
    } else {
        match spec_parse_u32(s.take(len as int), 16) {
            Some(v) => Some((color_of_u32(v), len)),
            None => None,
        }
    }
}

/// A color `AARRGGBB`, or else `RRGGBB`, at the start of `s`.
pub open spec fn spec_parse_color(s: Seq<char>) -> Option<(Color, nat)> {
    match spec_parse_color_with_len(s, 8) {
        Some(r) => Some(r),
        None => spec_parse_color_with_len(s, 6),
    }
}

/// A size `WxH` that runs up to the first `}` of `s`, and the number of
/// characters before that `}`.
pub open spec fn spec_parse_size(s: Seq<char>) -> Option<(Size, nat)> {
    match find_char(s, '}') {
        None => None,
        Some(len) => {
            let content = s.take(len);
            match find_char(content, 'x') {
                None => None,
                Some(ix) => match (
                    spec_parse_u32(content.take(ix), 10),
                    spec_parse_u32(content.skip(ix + 1), 10),
                ) {
                    (Some(w), Some(h)) => Some((Size { w, h }, len as nat)),
                    _ => None,
                },
            }
        },
    }
}

/// What follows the one-letter kind of an attribute, up to its closing `}`:
/// the token and the number of characters it takes.
#[verifier::opaque]
pub open spec fn spec_attribute_body(kind: char, rest: Seq<char>) -> Option<(TokenView, nat)> {
    if kind == 'l' {
        Some((TokenView::Alignment(Alignment::Left), 0))
    } else if kind == 'c' {
        Some((TokenView::Alignment(Alignment::Center), 0))
    } else if kind == 'r' {
        Some((TokenView::Alignment(Alignment::Right), 0))
    } else if kind == 'F' || kind == 'B' || kind == 'U' || kind == 'O' {
        if rest.len() > 0 && rest[0] == ':' {
            if kind == 'F' || kind == 'B' {
                match spec_parse_color(rest.skip(1)) {
                    Some((c, n)) => Some(
                        (
                            if kind == 'F' {
                                TokenView::Fg(c)
                            } else {
                                TokenView::Bg(c)
                            },
                            n + 1,
                        ),
                    ),
                    None => None,
                }
            } else {
                match spec_parse_size(rest.skip(1)) {
                    Some((sz, n)) => Some(
                        (
                            if kind == 'U' {
                                TokenView::Underline(sz)
                            } else {
                                TokenView::Overline(sz)
                            },
                            n + 1,
                        ),
                    ),
                    None => None,
                }
            }
        } else {
            None
        }
    } else {
        None
    }
}

/// An attribute `%{..}` at the start of `s`, and the number of characters it
/// takes.
pub open spec fn spec_parse_non_text(s: Seq<char>) -> Option<(TokenView, nat)> {
    if s.len() < 3 || s[0] != '%' || s[1] != '{' {
        None
    } else {
        let rest = s.skip(3);
        match spec_attribute_body(s[2], rest) {
            Some((t, n)) => if n < rest.len() && rest[n as int] == '}' {
                Some((t, n + 4))
            } else {
                None
            },
            None => None,
        }
    }
}

/// Where a run of text that starts `s` ends: at the next `%` that does not
/// start `s`, or at the end of `s`.
pub open spec fn text_end(s: Seq<char>) -> nat {
    match find_char(s, '%') {
        None => s.len(),
        Some(i) => if i == 0 {
            match find_char(s.skip(1), '%') {
                Some(j) => (1 + j) as nat,
                None => s.len(),
            }
        } else {
            i as nat
        },
    }
}

/// The first token of `s` and the number of characters it takes.
pub open spec fn spec_parse_token(s: Seq<char>) -> (TokenView, nat) {
    match spec_parse_non_text(s) {
        Some(r) => r,
        None => (TokenView::Text(s.take(text_end(s) as int)), text_end(s)),
    }
}

/// The tokens of `s`, in order.
pub open spec fn spec_parse(s: Seq<char>) -> Seq<TokenView>
    decreases s.len(),
{
    if s.len() == 0 {
        Seq::empty()
    } else {
        let (t, n) = spec_parse_token(s);
        proof {
            lemma_parse_token_progress(s);
        }
        seq![t] + spec_parse(s.skip(n as int))
    }
}

/// The views of a run of tokens.
pub open spec fn tokens_view<'a>(tokens: Seq<Token<'a>>) -> Seq<TokenView> {
    tokens.map_values(|t: Token<'a>| t@)
}

pub proof fn lemma_find_char_first(s: Seq<char>, c: char, i: int)
    requires
        is_first_index(s, c, i),
    ensures
        find_char(s, c) == Some(i),
{
    let k = choose|k: int| is_first_index(s, c, k);
    assert(is_first_index(s, c, k));
    if k < i {
        assert(s[k] != c);
    } else if k > i {
        assert(s[i] != c);
    }
}

/// When `c` occurs in `s`, it has a first position there.
pub proof fn lemma_find_char_present(s: Seq<char>, c: char, j: int)
    requires
        0 <= j < s.len(),
        s[j] == c,
    ensures
        find_char(s, c) is Some,
    decreases j,
{
    if exists|k: int| 0 <= k < j && s[k] == c {
        let k = choose|k: int| 0 <= k < j && s[k] == c;
        lemma_find_char_present(s, c, k);
    } else {
        assert(is_first_index(s, c, j));
    }
}

pub proof fn lemma_find_char_absent(s: Seq<char>, c: char)
    requires
        forall|j: int| 0 <= j < s.len() ==> s[j] != c,
    ensures
        find_char(s, c) is None,
{
}

/// Every token takes at least one character, and no more than there are.
pub proof fn lemma_parse_token_progress(s: Seq<char>)
    requires
        s.len() > 0,
    ensures
        0 < spec_parse_token(s).1 <= s.len(),
{
    if let Some(i) = find_char(s, '%') {
        assert(is_first_index(s, '%', i));
        if i == 0 {
            if let Some(j) = find_char(s.skip(1), '%') {
                assert(is_first_index(s.skip(1), '%', j));
            }
        }
    }
}

// ---------------------------------------------------------------------------
// How each token is written.
// ---------------------------------------------------------------------------

/// The lowercase hexadecimal digit for `d < 16`.
pub open spec fn hex_char(d: nat) -> char {
    if d < 10 {
        (48 + d) as char
    } else {
        (87 + d) as char
    }
}

/// The two hexadecimal digits of a byte.
pub open spec fn hex_byte(x: u8) -> Seq<char> {
    seq![hex_char(x as nat / 16), hex_char(x as nat % 16)]
}

/// A color written `AARRGGBB`.
pub open spec fn color_hex(c: Color) -> Seq<char> {
    hex_byte(c.a) + hex_byte(c.r) + hex_byte(c.g) + hex_byte(c.b)
}

/// The decimal digits of `n`, without leading zeros.
pub open spec fn decimal(n: nat) -> Seq<char>
    decreases n,
{
    if n < 10 {
        seq![(48 + n) as char]
    } else {
        decimal(n / 10).push((48 + n % 10) as char)
    }
}

/// A size written `WxH`.
pub open spec fn size_text(sz: Size) -> Seq<char> {
    decimal(sz.w as nat) + seq!['x'] + decimal(sz.h as nat)
}

/// The text of a token as a line writes it: the text itself, or its attribute.
pub open spec fn tag_chars(t: TokenView) -> Seq<char> {
    match t {
        TokenView::Text(s) => s,
        TokenView::Alignment(Alignment::Left) => seq!['%', '{', 'l', '}'],
        TokenView::Alignment(Alignment::Center) => seq!['%', '{', 'c', '}'],
        TokenView::Alignment(Alignment::Right) => seq!['%', '{', 'r', '}'],
        TokenView::Fg(c) => seq!['%', '{', 'F', ':'] + color_hex(c) + seq!['}'],
        TokenView::Bg(c) => seq!['%', '{', 'B', ':'] + color_hex(c) + seq!['}'],
        TokenView::Underline(sz) => seq!['%', '{', 'U', ':'] + size_text(sz) + seq!['}'],
        TokenView::Overline(sz) => seq!['%', '{', 'O', ':'] + size_text(sz) + seq!['}'],
    }
}

/// A line that writes the tokens one after another.
pub open spec fn render(ts: Seq<TokenView>) -> Seq<char>
    decreases ts.len(),
{
    if ts.len() == 0 {
        Seq::empty()
    } else {
        tag_chars(ts[0]) + render(ts.drop_first())
    }
}

/// Tokens that a line can give back: every text is non-empty, holds no `%`,
/// and is not followed by another text (two texts in a row read as one).
pub open spec fn readable_tokens(ts: Seq<TokenView>) -> bool {
    forall|i: int|
        0 <= i < ts.len() ==> match #[trigger] ts[i] {
            TokenView::Text(s) => {
                &&& s.len() > 0
                &&& forall|j: int| 0 <= j < s.len() ==> s[j] != '%'
                &&& (i + 1 < ts.len() ==> !(ts[i + 1] is Text))
            },
            _ => true,
        }
}

proof fn lemma_hex_char(d: nat)
    requires
        d < 16,
    ensures
        digit_value(hex_char(d), 16) == Some(d),
        hex_char(d) != '+',
        hex_char(d) != '}',
{
}

proof fn lemma_digits_push(s: Seq<char>, c: char, radix: nat)
    ensures
        digits_value(s.push(c), radix) == digits_value(s, radix) * radix + match digit_value(
            c,
            radix,
        ) {
            Some(d) => d,
            None => 0,
        },
{
    assert(s.push(c).drop_last() =~= s);
}

proof fn lemma_digits_hex_byte(s: Seq<char>, x: u8)
    ensures
        digits_value(s + hex_byte(x), 16) == digits_value(s, 16) * 256 + x,
{
    lemma_hex_char(x as nat / 16);
    lemma_hex_char(x as nat % 16);
    let s1 = s.push(hex_char(x as nat / 16));
    assert(s + hex_byte(x) =~= s1.push(hex_char(x as nat % 16)));
    lemma_digits_push(s, hex_char(x as nat / 16), 16);
    lemma_digits_push(s1, hex_char(x as nat % 16), 16);
}

pub proof fn lemma_color_hex(c: Color)
    ensures
        spec_parse_u32(color_hex(c), 16) == Some(
            (c.a as nat * 0x100_0000 + c.r as nat * 0x1_0000 + c.g as nat * 0x100 + c.b as nat) as u32,
        ),
        color_hex(c).len() == 8,
        color_of_u32(
            (c.a as nat * 0x100_0000 + c.r as nat * 0x1_0000 + c.g as nat * 0x100 + c.b as nat) as u32,
        ) == c,
{
    let e = Seq::<char>::empty();
    let ha = hex_byte(c.a);
    let har = ha + hex_byte(c.r);
    let harg = har + hex_byte(c.g);
    let h = color_hex(c);
    assert(e + ha =~= ha);
    lemma_digits_hex_byte(e, c.a);
    lemma_digits_hex_byte(ha, c.r);
    lemma_digits_hex_byte(har, c.g);
    lemma_digits_hex_byte(harg, c.b);
    let v = c.a as nat * 0x100_0000 + c.r as nat * 0x1_0000 + c.g as nat * 0x100 + c.b as nat;
    assert(digits_value(h, 16) == v);
    assert forall|i: int| 0 <= i < h.len() implies (#[trigger] digit_value(h[i], 16)) is Some by {
        lemma_hex_char(c.a as nat / 16);
        lemma_hex_char(c.a as nat % 16);
        lemma_hex_char(c.r as nat / 16);
        lemma_hex_char(c.r as nat % 16);
        lemma_hex_char(c.g as nat / 16);
        lemma_hex_char(c.g as nat % 16);
        lemma_hex_char(c.b as nat / 16);
        lemma_hex_char(c.b as nat % 16);
    }
    lemma_hex_char(c.a as nat / 16);
    assert(unsigned_digits(h) == h);
    let w = v as u32;
    assert(w == v);
    vstd::arithmetic::div_mod::lemma_fundamental_div_mod_converse(
        v as int,
        0x100_0000,
        c.a as int,
        c.r as int * 0x1_0000 + c.g as int * 0x100 + c.b as int,
    );
    vstd::arithmetic::div_mod::lemma_fundamental_div_mod_converse(
        v as int,
        0x1_0000,
        c.a as int * 0x100 + c.r as int,
        c.g as int * 0x100 + c.b as int,
    );
    vstd::arithmetic::div_mod::lemma_fundamental_div_mod_converse(
        c.a as int * 0x100 + c.r as int,
        0x100,
        c.a as int,
        c.r as int,
    );
    vstd::arithmetic::div_mod::lemma_fundamental_div_mod_converse(
        v as int,
        0x100,
        c.a as int * 0x1_0000 + c.r as int * 0x100 + c.g as int,
        c.b as int,
    );
    vstd::arithmetic::div_mod::lemma_fundamental_div_mod_converse(
        c.a as int * 0x1_0000 + c.r as int * 0x100 + c.g as int,
        0x100,
        c.a as int * 0x100 + c.r as int,
        c.g as int,
    );
}

proof fn lemma_decimal(n: nat)
    ensures
        decimal(n).len() > 0,
        all_digits(decimal(n), 10),
        digits_value(decimal(n), 10) == n,
        forall|j: int| 0 <= j < decimal(n).len() ==> '0' <= #[trigger] decimal(n)[j] <= '9',
    decreases n,
{
    if n >= 10 {
        lemma_decimal(n / 10);
        let d = (48 + n % 10) as char;
        lemma_digits_push(decimal(n / 10), d, 10);
        assert forall|j: int| 0 <= j < decimal(n).len() implies (#[trigger] digit_value(
            decimal(n)[j],
            10,
        )) is Some by {
            if j < decimal(n / 10).len() {
                assert(decimal(n)[j] == decimal(n / 10)[j]);
            }
        }
        assert forall|j: int| 0 <= j < decimal(n).len() implies '0' <= #[trigger] decimal(n)[j]
            <= '9' by {
            if j < decimal(n / 10).len() {
                assert(decimal(n)[j] == decimal(n / 10)[j]);
            }
        }
    } else {
        let d = (48 + n) as char;
        lemma_digits_push(Seq::empty(), d, 10);
        assert(seq![d] =~= Seq::<char>::empty().push(d));
    }
}

/// `b` to the power `e`.
pub open spec fn power(b: nat, e: nat) -> nat
    decreases e,
{
    if e == 0 {
        1
    } else {
        b * power(b, (e - 1) as nat)
    }
}

/// The digits of `s` spell a number below `radix` to the power of their count.
pub proof fn lemma_digits_bound(s: Seq<char>, radix: nat)
    requires
        radix >= 2,
        all_digits(s, radix),
    ensures
        digits_value(s, radix) < power(radix, s.len()),
    decreases s.len(),
{
    if s.len() > 0 {
        let p = s.drop_last();
        assert(all_digits(p, radix)) by {
            assert forall|i: int| 0 <= i < p.len() implies (#[trigger] digit_value(p[i], radix)) is Some by {
                assert(p[i] == s[i]);
            }
        }
        lemma_digits_bound(p, radix);
        assert(digit_value(s[s.len() - 1], radix) is Some);
        let v = digits_value(p, radix) as int;
        let d = match digit_value(s.last(), radix) {
            Some(d) => d as int,
            None => 0,
        };
        let q = power(radix, p.len()) as int;
        assert(power(radix, s.len()) == radix * q);
        assert(v * radix + d < radix * q) by (nonlinear_arith)
            requires
                v < q,
                0 <= d < radix,
        ;
    }
}

/// Hexadecimal digits, 8 or 6 of them in either case, followed by `}`, read
/// as the color of the number they spell.
proof fn lemma_color_text(h: Seq<char>, rest: Seq<char>)
    requires
        h.len() == 8 || h.len() == 6,
        all_digits(h, 16),
    ensures
        spec_parse_color(h + seq!['}'] + rest) == Some(
            (color_of_u32(digits_value(h, 16) as u32), h.len()),
        ),
{
    let s = h + seq!['}'] + rest;
    lemma_digits_bound(h, 16);
    reveal_with_fuel(power, 9);
    assert(digit_value(h[0], 16) is Some);
    if h.len() == 8 {
        assert(s.take(8) =~= h);
    } else {
        assert(s.take(6) =~= h);
        if s.len() >= 8 {
            let t = s.take(8);
            assert(t[0] == h[0]);
            assert(t[6] == '}');
            assert(unsigned_digits(t) == t);
            assert(digit_value(t[6], 16) is None);
        }
    }
}

/// Two runs of decimal digits around an `x`, followed by `}`, read as the
/// size of the numbers they spell.
proof fn lemma_size_text(wd: Seq<char>, vd: Seq<char>, rest: Seq<char>)
    requires
        wd.len() > 0,
        vd.len() > 0,
        all_digits(wd, 10),
        all_digits(vd, 10),
        digits_value(wd, 10) <= u32::MAX,
        digits_value(vd, 10) <= u32::MAX,
    ensures
        spec_parse_size(wd + seq!['x'] + vd + seq!['}'] + rest) == Some(
            (
                Size { w: digits_value(wd, 10) as u32, h: digits_value(vd, 10) as u32 },
                wd.len() + 1 + vd.len(),
            ),
        ),
{
    let st = wd + seq!['x'] + vd;
    let s = st + seq!['}'] + rest;
    assert(s =~= wd + seq!['x'] + vd + seq!['}'] + rest);
    assert forall|j: int| 0 <= j < st.len() implies s[j] != '}' && st[j] == s[j] && (j
        != wd.len() ==> st[j] != 'x') by {
        if j < wd.len() {
            assert(st[j] == wd[j]);
            assert(digit_value(wd[j], 10) is Some);
        } else if j > wd.len() {
            assert(st[j] == vd[j - wd.len() - 1]);
            assert(digit_value(vd[j - wd.len() - 1], 10) is Some);
        }
    }
    assert(is_first_index(s, '}', st.len() as int));
    lemma_find_char_first(s, '}', st.len() as int);
    let content = s.take(st.len() as int);
    assert(content =~= st);
    assert(is_first_index(content, 'x', wd.len() as int));
    lemma_find_char_first(content, 'x', wd.len() as int);
    assert(content.take(wd.len() as int) =~= wd);
    assert(content.skip(wd.len() as int + 1) =~= vd);
    assert(digit_value(wd[0], 10) is Some);
    assert(digit_value(vd[0], 10) is Some);
    assert(unsigned_digits(wd) == wd);
    assert(unsigned_digits(vd) == vd);
}

/// Every attribute has `%` as its first character.
proof fn lemma_tag_starts_with_percent(t: TokenView)
    requires
        !(t is Text),
    ensures
        tag_chars(t).len() > 0,
        tag_chars(t)[0] == '%',
{
}

proof fn lemma_non_text_parts(kind: char, after: Seq<char>, t: TokenView, n: nat)
    requires
        spec_attribute_body(kind, after) == Some((t, n)),
        n < after.len(),
        after[n as int] == '}',
    ensures
        spec_parse_non_text(seq!['%', '{', kind] + after) == Some((t, n + 4)),
{
    let s = seq!['%', '{', kind] + after;
    assert(s.skip(3) =~= after);
}

proof fn lemma_color_body(kind: char, h: Seq<char>, rest: Seq<char>)
    requires
        kind == 'F' || kind == 'B',
        h.len() == 8 || h.len() == 6,
        all_digits(h, 16),
    ensures
        spec_attribute_body(kind, seq![':'] + h + seq!['}'] + rest) == Some(
            (
                if kind == 'F' {
                    TokenView::Fg(color_of_u32(digits_value(h, 16) as u32))
                } else {
                    TokenView::Bg(color_of_u32(digits_value(h, 16) as u32))
                },
                h.len() + 1,
            ),
        ),
{
    reveal(spec_attribute_body);
    lemma_color_text(h, rest);
    assert((seq![':'] + h + seq!['}'] + rest).skip(1) =~= h + seq!['}'] + rest);
}

#[verifier::rlimit(40)]
proof fn lemma_size_body(kind: char, wd: Seq<char>, vd: Seq<char>, rest: Seq<char>)
    requires
        kind == 'U' || kind == 'O',
        wd.len() > 0,
        vd.len() > 0,
        all_digits(wd, 10),
        all_digits(vd, 10),
        digits_value(wd, 10) <= u32::MAX,
        digits_value(vd, 10) <= u32::MAX,
    ensures
        spec_attribute_body(kind, seq![':'] + wd + seq!['x'] + vd + seq!['}'] + rest) == Some(
            (
                if kind == 'U' {
                    TokenView::Underline(
                        Size { w: digits_value(wd, 10) as u32, h: digits_value(vd, 10) as u32 },
                    )
                } else {
                    TokenView::Overline(
                        Size { w: digits_value(wd, 10) as u32, h: digits_value(vd, 10) as u32 },
                    )
                },
                wd.len() + vd.len() + 2,
            ),
        ),
{
    reveal(spec_attribute_body);
    lemma_size_text(wd, vd, rest);
    assert(kind != 'F' && kind != 'B' && kind != 'l' && kind != 'c' && kind != 'r');
    assert((seq![':'] + wd + seq!['x'] + vd + seq!['}'] + rest).skip(1) =~= wd + seq!['x'] + vd
        + seq!['}'] + rest);
}

/// An attribute at the start of a line is read before anything else, and
/// the rest of the line is read on after it.
pub proof fn lemma_parse_attribute_then(m: Seq<char>, rest: Seq<char>, t: TokenView)
    requires
        spec_parse_non_text(m + rest) == Some((t, m.len())),
    ensures
        spec_parse_token(m + rest) == (t, m.len()),
        spec_parse(m + rest) == seq![t] + spec_parse(rest),
{
    assert(m.len() >= 3);
    assert((m + rest).skip(m.len() as int) =~= rest);
}

/// A color attribute `%{F:..}` or `%{B:..}` with 8 or 6 hexadecimal digits
/// of either case reads as the color of the number they spell (`AARRGGBB`,
/// or `RRGGBB` with a zero alpha), and the line is read on after its `}`.
pub proof fn lemma_color_attribute(kind: char, h: Seq<char>, rest: Seq<char>)
    requires
        kind == 'F' || kind == 'B',
        h.len() == 8 || h.len() == 6,
        all_digits(h, 16),
    ensures
        ({
            let m = seq!['%', '{', kind, ':'] + h + seq!['}'];
            let c = color_of_u32(digits_value(h, 16) as u32);
            let t = if kind == 'F' {
                TokenView::Fg(c)
            } else {
                TokenView::Bg(c)
            };
            &&& spec_parse_non_text(m + rest) == Some((t, m.len()))
            &&& spec_parse(m + rest) == seq![t] + spec_parse(rest)
        }),
{
    let m = seq!['%', '{', kind, ':'] + h + seq!['}'];
    let c = color_of_u32(digits_value(h, 16) as u32);
    let t = if kind == 'F' {
        TokenView::Fg(c)
    } else {
        TokenView::Bg(c)
    };
    let after = seq![':'] + h + seq!['}'] + rest;
    assert(m + rest =~= seq!['%', '{', kind] + after);
    lemma_color_body(kind, h, rest);
    assert(after[h.len() as int + 1] == '}');
    lemma_non_text_parts(kind, after, t, h.len() + 1);
    lemma_parse_attribute_then(m, rest, t);
}

/// A size attribute `%{U:WxH}` or `%{O:WxH}`, with `W` and `H` runs of
/// decimal digits whose numbers fit in 32 bits, reads as that size, and the
/// line is read on after its `}`.
pub proof fn lemma_size_attribute(kind: char, wd: Seq<char>, vd: Seq<char>, rest: Seq<char>)
    requires
        kind == 'U' || kind == 'O',
        wd.len() > 0,
        vd.len() > 0,
        all_digits(wd, 10),
        all_digits(vd, 10),
        digits_value(wd, 10) <= u32::MAX,
        digits_value(vd, 10) <= u32::MAX,
    ensures
        ({
            let m = seq!['%', '{', kind, ':'] + wd + seq!['x'] + vd + seq!['}'];
            let sz = Size { w: digits_value(wd, 10) as u32, h: digits_value(vd, 10) as u32 };
            let t = if kind == 'U' {
                TokenView::Underline(sz)
            } else {
                TokenView::Overline(sz)
            };
            &&& spec_parse_non_text(m + rest) == Some((t, m.len()))
            &&& spec_parse(m + rest) == seq![t] + spec_parse(rest)
        }),
{
    let m = seq!['%', '{', kind, ':'] + wd + seq!['x'] + vd + seq!['}'];
    let sz = Size { w: digits_value(wd, 10) as u32, h: digits_value(vd, 10) as u32 };
    let t = if kind == 'U' {
        TokenView::Underline(sz)
    } else {
        TokenView::Overline(sz)
    };
    let after = seq![':'] + wd + seq!['x'] + vd + seq!['}'] + rest;
    assert(m + rest =~= seq!['%', '{', kind] + after);
    lemma_size_body(kind, wd, vd, rest);
    assert(after[wd.len() + vd.len() + 2int] == '}');
    lemma_non_text_parts(kind, after, t, wd.len() + vd.len() + 2);
    lemma_parse_attribute_then(m, rest, t);
}

proof fn lemma_color_tag(kind: char, c: Color, rest: Seq<char>)
    requires
        kind == 'F' || kind == 'B',
    ensures
        spec_parse_non_text(seq!['%', '{', kind, ':'] + color_hex(c) + seq!['}'] + rest) == Some(
            (
                if kind == 'F' {
                    TokenView::Fg(c)
                } else {
                    TokenView::Bg(c)
                },
                13nat,
            ),
        ),
{
    lemma_color_hex(c);
    lemma_color_attribute(kind, color_hex(c), rest);
    assert(seq!['%', '{', kind, ':'] + color_hex(c) + seq!['}'] + rest =~= (seq![
        '%',
        '{',
        kind,
        ':',
    ] + color_hex(c) + seq!['}']) + rest);
}

proof fn lemma_size_tag(kind: char, sz: Size, rest: Seq<char>)
    requires
        kind == 'U' || kind == 'O',
    ensures
        spec_parse_non_text(seq!['%', '{', kind, ':'] + size_text(sz) + seq!['}'] + rest) == Some(
            (
                if kind == 'U' {
                    TokenView::Underline(sz)
                } else {
                    TokenView::Overline(sz)
                },
                size_text(sz).len() + 5,
            ),
        ),
{
    let wd = decimal(sz.w as nat);
    let vd = decimal(sz.h as nat);
    lemma_decimal(sz.w as nat);
    lemma_decimal(sz.h as nat);
    lemma_size_attribute(kind, wd, vd, rest);
    assert(seq!['%', '{', kind, ':'] + size_text(sz) + seq!['}'] + rest =~= (seq![
        '%',
        '{',
        kind,
        ':',
    ] + wd + seq!['x'] + vd + seq!['}']) + rest);
}

proof fn lemma_alignment_tag(a: Alignment, rest: Seq<char>)
    ensures
        tag_reads_back(TokenView::Alignment(a), rest),
{
    let kind = match a {
        Alignment::Left => 'l',
        Alignment::Center => 'c',
        Alignment::Right => 'r',
    };
    let after = seq!['}'] + rest;
    reveal(spec_attribute_body);
    assert(tag_chars(TokenView::Alignment(a)) + rest =~= seq!['%', '{', kind] + after);
    lemma_non_text_parts(kind, after, TokenView::Alignment(a), 0);
}

/// The attribute of a non-text token reads back as that token.
pub open spec fn tag_reads_back(t: TokenView, rest: Seq<char>) -> bool {
    spec_parse_non_text(tag_chars(t) + rest) == Some((t, tag_chars(t).len()))
}

proof fn lemma_fg_tag(c: Color, rest: Seq<char>)
    ensures
        tag_reads_back(TokenView::Fg(c), rest),
{
    lemma_color_tag('F', c, rest);
    assert(color_hex(c).len() == 8);
}

proof fn lemma_bg_tag(c: Color, rest: Seq<char>)
    ensures
        tag_reads_back(TokenView::Bg(c), rest),
{
    lemma_color_tag('B', c, rest);
    assert(color_hex(c).len() == 8);
}

proof fn lemma_underline_tag(sz: Size, rest: Seq<char>)
    ensures
        tag_reads_back(TokenView::Underline(sz), rest),
{
    lemma_size_tag('U', sz, rest);
}

proof fn lemma_overline_tag(sz: Size, rest: Seq<char>)
    ensures
        tag_reads_back(TokenView::Overline(sz), rest),
{
    lemma_size_tag('O', sz, rest);
}

proof fn lemma_tag_non_text(t: TokenView, rest: Seq<char>)
    requires
        !(t is Text),
    ensures
        tag_reads_back(t, rest),
{
    match t {
        TokenView::Fg(c) => lemma_fg_tag(c, rest),
        TokenView::Bg(c) => lemma_bg_tag(c, rest),
        TokenView::Underline(sz) => lemma_underline_tag(sz, rest),
        TokenView::Overline(sz) => lemma_overline_tag(sz, rest),
        TokenView::Alignment(a) => lemma_alignment_tag(a, rest),
        TokenView::Text(_) => {},
    }
}

/// Reading the attribute that writes `t`, followed by anything, gives back `t`
/// and goes on with what follows.
pub proof fn lemma_parse_tag(t: TokenView, rest: Seq<char>)
    requires
        !(t is Text),
    ensures
        spec_parse_non_text(tag_chars(t) + rest) == Some((t, tag_chars(t).len())),
        spec_parse_token(tag_chars(t) + rest) == (t, tag_chars(t).len()),
        spec_parse(tag_chars(t) + rest) == seq![t] + spec_parse(rest),
{
    let tag = tag_chars(t);
    let s = tag + rest;
    lemma_tag_non_text(t, rest);
    lemma_tag_starts_with_percent(t);
    assert(s.skip(tag.len() as int) =~= rest);
}

/// A text with no `%`, followed by nothing or by an attribute, reads as one
/// text token.
proof fn lemma_parse_text(text: Seq<char>, rest: Seq<char>)
    requires
        text.len() > 0,
        forall|j: int| 0 <= j < text.len() ==> text[j] != '%',
        rest.len() == 0 || rest[0] == '%',
    ensures
        spec_parse(text + rest) == seq![TokenView::Text(text)] + spec_parse(rest),
{
    let s = text + rest;
    assert(s[0] == text[0]);
    if rest.len() == 0 {
        assert(s =~= text);
        lemma_find_char_absent(s, '%');
    } else {
        assert(is_first_index(s, '%', text.len() as int));
        lemma_find_char_first(s, '%', text.len() as int);
    }
    assert(s.take(text.len() as int) =~= text);
    assert(s.skip(text.len() as int) =~= rest);
}

/// Writing a run of readable tokens as a line and reading that line gives the
/// same tokens back.
pub proof fn lemma_parse_render(ts: Seq<TokenView>)
    requires
        readable_tokens(ts),
    ensures
        spec_parse(render(ts)) == ts,
    decreases ts.len(),
{
    if ts.len() > 0 {
        let t = ts[0];
        let rest = ts.drop_first();
        assert(readable_tokens(rest)) by {
            assert forall|i: int| 0 <= i < rest.len() implies match #[trigger] rest[i] {
                TokenView::Text(s) => {
                    &&& s.len() > 0
                    &&& forall|j: int| 0 <= j < s.len() ==> s[j] != '%'
                    &&& (i + 1 < rest.len() ==> !(rest[i + 1] is Text))
                },
                _ => true,
            } by {
                assert(rest[i] == ts[i + 1]);
                assert(ts[i + 1] matches TokenView::Text(_) ==> (i + 2 < ts.len() ==> !(ts[i
                    + 2] is Text)));
            }
        }
        lemma_parse_render(rest);
        let tail = render(rest);
        if rest.len() > 0 && !(rest[0] is Text) {
            lemma_tag_starts_with_percent(rest[0]);
            assert(tail[0] == '%');
        }
        match t {
            TokenView::Text(text) => {
                assert(ts[0] == t);
                lemma_parse_text(text, tail);
            },
            _ => {
                lemma_parse_tag(t, tail);
            },
        }
        assert(seq![t] + rest =~= ts);
    }
}

/// What an attribute at the start of `s` takes: it opens with `%{`, closes
/// with `}`, is no text, and is the token read there. An alignment takes 4
/// characters, a color 11 or 13.
pub proof fn lemma_attribute_shape(s: Seq<char>)
    requires
        spec_parse_non_text(s) is Some,
    ensures
        ({
            let (t, n) = spec_parse_non_text(s).unwrap();
            &&& 4 <= n <= s.len()
            &&& s[0] == '%' && s[1] == '{' && s[n - 1] == '}'
            &&& !(t is Text)
            &&& t is Alignment ==> n == 4
            &&& (t is Fg || t is Bg) ==> (n == 11 || n == 13)
            &&& spec_parse_token(s) == (t, n)
        }),
{
    reveal(spec_attribute_body);
    let rest = s.skip(3);
    let kind = s[2];
    if kind == 'F' || kind == 'B' {
        let r = spec_parse_color(rest.skip(1));
        assert(r is Some);
        assert(r.unwrap().1 == 8 || r.unwrap().1 == 6);
    }
}

/// A text token starts where no attribute does, is not empty, is the start
/// of the line, and holds no `%` after its first character.
pub proof fn lemma_text_token(s: Seq<char>)
    requires
        s.len() > 0,
        spec_parse_token(s).0 is Text,
    ensures
        ({
            let (t, n) = spec_parse_token(s);
            &&& spec_parse_non_text(s) is None
            &&& 0 < n <= s.len()
            &&& t == TokenView::Text(s.take(n as int))
            &&& forall|j: int| 1 <= j < n ==> s[j] != '%'
        }),
{
    if spec_parse_non_text(s) is Some {
        lemma_attribute_shape(s);
    }
    lemma_parse_token_progress(s);
    match find_char(s, '%') {
        None => {
            assert forall|k: int| 0 <= k < s.len() implies s[k] != '%' by {
                if s[k] == '%' {
                    lemma_find_char_present(s, '%', k);
                }
            }
        },
        Some(i) => {
            assert(is_first_index(s, '%', i));
            if i == 0 {
                match find_char(s.skip(1), '%') {
                    Some(j) => {
                        assert(is_first_index(s.skip(1), '%', j));
                        assert forall|k: int| 1 <= k < 1 + j implies s[k] != '%' by {
                            assert(s.skip(1)[k - 1] == s[k]);
                        }
                    },
                    None => {
                        assert forall|k: int| 1 <= k < s.len() implies s[k] != '%' by {
                            assert(s.skip(1)[k - 1] == s[k]);
                            if s[k] == '%' {
                                lemma_find_char_present(s.skip(1), '%', k - 1);
                            }
                        }
                    },
                }
            }
        },
    }
}

/// A line reads as at most as many tokens as it has characters.
pub proof fn lemma_parse_len(s: Seq<char>)
    ensures
        spec_parse(s).len() <= s.len(),
    decreases s.len(),
{
    if s.len() > 0 {
        let (t, n) = spec_parse_token(s);
        lemma_parse_token_progress(s);
        lemma_parse_len(s.skip(n as int));
    }
}

/// The characters at `i` open an attribute: `%{`.
pub open spec fn opens_attribute(s: Seq<char>, i: int) -> bool {
    s[i] == '%' && s[i + 1] == '{'
}

/// A line in which no `%` is followed by `{` reads as texts only, and these
/// texts join back into the line.
pub proof fn lemma_parse_plain(s: Seq<char>)
    requires
        forall|i: int| 0 <= i < s.len() - 1 ==> !#[trigger] opens_attribute(s, i),
    ensures
        forall|k: int| 0 <= k < spec_parse(s).len() ==> #[trigger] spec_parse(s)[k] is Text,
        render(spec_parse(s)) == s,
    decreases s.len(),
{
    if s.len() > 0 {
        let (t, n) = spec_parse_token(s);
        lemma_parse_token_progress(s);
        if s.len() >= 2 {
            assert(!opens_attribute(s, 0));
        }
        assert(spec_parse_non_text(s) is None);
        let rest = s.skip(n as int);
        assert forall|i: int| 0 <= i < rest.len() - 1 implies !#[trigger] opens_attribute(rest, i) by {
            assert(rest[i] == s[i + n] && rest[i + 1] == s[i + 1 + n]);
            assert(!opens_attribute(s, i + n));
        }
        lemma_parse_plain(rest);
        let ts = spec_parse(s);
        assert(ts == seq![t] + spec_parse(rest));
        assert(ts.drop_first() =~= spec_parse(rest));
        assert forall|k: int| 0 <= k < ts.len() implies #[trigger] ts[k] is Text by {
            if k > 0 {
                assert(ts[k] == spec_parse(rest)[k - 1]);
            }
        }
        assert(s.take(n as int) + rest =~= s);
    }
}

/// The bytes of the color that a number denotes spell that number again,
/// alpha first, and the number written with 8 lowercase hexadecimal digits
/// reads back as that color.
pub proof fn lemma_color_u32_round_trip(v: u32, rest: Seq<char>)
    ensures
        ({
            let c = color_of_u32(v);
            &&& c.a as int * 0x100_0000 + c.r as int * 0x1_0000 + c.g as int * 0x100 + c.b as int
                == v
            &&& spec_parse_color_with_len(color_hex(c) + rest, 8) == Some((c, 8nat))
        }),
{
    let c = color_of_u32(v);
    assert(((v / 0x100_0000) as u8) as u32 * 0x100_0000 + (((v / 0x1_0000) % 0x100) as u8) as u32
        * 0x1_0000 + (((v / 0x100) % 0x100) as u8) as u32 * 0x100 + ((v % 0x100) as u8) as u32 == v)
        by (bit_vector);
    lemma_color_hex(c);
    assert((color_hex(c) + rest).take(8) =~= color_hex(c));
}

// ---------------------------------------------------------------------------
// The parser.
// ---------------------------------------------------------------------------

/// The first position of `c` in `s[from..to]`.
fn find_in(s: &[char], from: usize, to: usize, c: char) -> (r: Option<usize>)
    requires
        from <= to <= s@.len(),
    ensures
        match r {
            Some(k) => from <= k < to && find_char(s@.subrange(from as int, to as int), c) == Some(
                k - from,
            ),
            None => find_char(s@.subrange(from as int, to as int), c) is None,
        },
{
    let ghost part = s@.subrange(from as int, to as int);
    let mut i = from;
    while i < to
        invariant
            from <= i <= to <= s@.len(),
            part == s@.subrange(from as int, to as int),
            forall|j: int| 0 <= j < i - from ==> part[j] != c,
        decreases to - i,
    {
        if s[i] == c {
            proof {
                lemma_find_char_first(part, c, i - from);
            }
            return Some(i);
        }
        i = i + 1;
    }
    None
}

/// The characters of `input`.
pub(crate) fn chars_of(input: &str) -> (v: Vec<char>)
    ensures
        v@ == input@,
{
    broadcast use vstd::string::group_string_axioms;

    let mut v: Vec<char> = Vec::new();
    let mut it = input.chars();
    loop
        invariant
            v@ + vstd::std_specs::iter::IteratorSpec::remaining(&it) == input@,
            vstd::std_specs::iter::IteratorSpec::obeys_prophetic_iter_laws(&it),
            vstd::std_specs::iter::IteratorSpec::decrease(&it) is Some,
        decreases vstd::std_specs::iter::IteratorSpec::decrease(&it)->0,
    {
        let ghost before = vstd::std_specs::iter::IteratorSpec::remaining(&it);
        match it.next() {
            Some(c) => {
                assert(before.len() > 0);
                v.push(c);
                assert(v@ + vstd::std_specs::iter::IteratorSpec::remaining(&it) =~= input@);
            },
            None => {
                assert(before.len() == 0);
                assert(v@ =~= input@);
                return v;
            },
        }
    }
}


/// The color written with exactly `len` hexadecimal characters at `s[pos..]`,
/// and the position after them.
fn parse_color_with_len(s: &[char], pos: usize, len: usize) -> (r: Option<(Color, usize)>)
    requires
        pos <= s@.len(),
    ensures
        match r {
            Some((c, end)) => pos <= end <= s@.len() && spec_parse_color_with_len(
                s@.skip(pos as int),
                len as nat,
            ) == Some((c, (end - pos) as nat)),
            None => spec_parse_color_with_len(s@.skip(pos as int), len as nat) is None,
        },
{
    if s.len() - pos < len {
        return None;
    }
    let end = pos + len;
    assert(s@.skip(pos as int).take(len as int) =~= s@.subrange(pos as int, end as int));
    let value = match parse_u32(s, pos, end, 16) {
        Some(v) => v,
        None => return None,
    };
    let a = (value / 0x100_0000) as u8;
    let r = ((value / 0x1_0000) % 0x100) as u8;
    let g = ((value / 0x100) % 0x100) as u8;
    let b = (value % 0x100) as u8;
    let color = Color::new(r, g, b, a);
    Some((color, end))
}

/// The color `AARRGGBB`, or else `RRGGBB`, at `s[pos..]`, and the position
/// after it.
pub(crate) fn parse_color(s: &[char], pos: usize) -> (r: Option<(Color, usize)>)
    requires
        pos <= s@.len(),
    ensures
        match r {
            Some((c, end)) => pos <= end <= s@.len() && spec_parse_color(s@.skip(pos as int))
                == Some((c, (end - pos) as nat)),
            None => spec_parse_color(s@.skip(pos as int)) is None,
        },
{
    match parse_color_with_len(s, pos, 8) {
        Some(r) => Some(r),
        None => parse_color_with_len(s, pos, 6),
    }
}

/// The size `WxH` that runs from `s[pos..]` up to the next `}`, and the
/// position of that `}`.
fn parse_size(s: &[char], pos: usize) -> (r: Option<(Size, usize)>)
    requires
        pos <= s@.len(),
    ensures
        match r {
            Some((sz, end)) => pos <= end <= s@.len() && spec_parse_size(s@.skip(pos as int))
                == Some((sz, (end - pos) as nat)),
            None => spec_parse_size(s@.skip(pos as int)) is None,
        },
{
    let ghost rest = s@.skip(pos as int);
    assert(rest =~= s@.subrange(pos as int, s@.len() as int));
    let close = match find_in(s, pos, s.len(), '}') {
        Some(k) => k,
        None => return None,
    };
    let ghost content = rest.take(close - pos);
    assert(content =~= s@.subrange(pos as int, close as int));
    let cross = match find_in(s, pos, close, 'x') {
        Some(k) => k,
        None => return None,
    };
    assert(content.take(cross - pos) =~= s@.subrange(pos as int, cross as int));
    assert(content.skip(cross - pos + 1) =~= s@.subrange(cross + 1, close as int));
    let w = match parse_u32(s, pos, cross, 10) {
        Some(w) => w,
        None => return None,
    };
    let h = match parse_u32(s, cross + 1, close, 10) {
        Some(h) => h,
        None => return None,
    };
    Some((Size { w, h }, close))
}

/// The part of an attribute of the given kind that starts at `s[pos..]` and
/// runs up to its closing `}`: the token and the position of that `}`.
fn parse_attribute_body<'a>(kind: char, s: &[char], pos: usize) -> (r: Option<(Token<'a>, usize)>)
    requires
        pos <= s@.len(),
    ensures
        match r {
            Some((t, end)) => pos <= end <= s@.len() && spec_attribute_body(
                kind,
                s@.skip(pos as int),
            ) == Some((t@, (end - pos) as nat)),
            None => spec_attribute_body(kind, s@.skip(pos as int)) is None,
        },
{
    reveal(spec_attribute_body);
    let ghost after = s@.skip(pos as int);
    if kind == 'l' {
        Some((Token::Alignment(Alignment::Left), pos))
    } else if kind == 'c' {
        Some((Token::Alignment(Alignment::Center), pos))
    } else if kind == 'r' {
        Some((Token::Alignment(Alignment::Right), pos))
    } else if kind == 'F' || kind == 'B' || kind == 'U' || kind == 'O' {
        if pos >= s.len() || s[pos] != ':' {
            return None;
        }
        assert(after.skip(1) =~= s@.skip(pos + 1));
        if kind == 'F' || kind == 'B' {
            let (color, end) = match parse_color(s, pos + 1) {
                Some(r) => r,
                None => return None,
            };
            let token = if kind == 'F' {
                Token::Fg(color)
            } else {
                Token::Bg(color)
            };
            Some((token, end))
        } else {
            let (size, end) = match parse_size(s, pos + 1) {
                Some(r) => r,
                None => return None,
            };
            let token = if kind == 'U' {
                Token::Underline(size)
            } else {
                Token::Overline(size)
            };
            Some((token, end))
        }
    } else {
        None
    }
}

/// The attribute `%{..}` at `s[pos..]`, and the position after it.
fn parse_non_text<'a>(s: &[char], pos: usize) -> (r: Option<(Token<'a>, usize)>)
    requires
        pos <= s@.len(),
    ensures
        match r {
            Some((t, end)) => pos <= end <= s@.len() && spec_parse_non_text(s@.skip(pos as int))
                == Some((t@, (end - pos) as nat)),
            None => spec_parse_non_text(s@.skip(pos as int)) is None,
        },
{
    let ghost rest = s@.skip(pos as int);
    if s.len() - pos < 3 || s[pos] != '%' || s[pos + 1] != '{' {
        return None;
    }
    let kind = s[pos + 2];
    let body = pos + 3;
    assert(rest.skip(3) =~= s@.skip(body as int));
    let (token, end) = match parse_attribute_body(kind, s, body) {
        Some(r) => r,
        None => return None,
    };
    if end >= s.len() || s[end] != '}' {
        return None;
    }
    Some((token, end + 1))
}

/// The first token of `input[pos..]`, whose characters are `s`, and the
/// position after it.
fn parse_token<'a>(input: &'a str, s: &[char], pos: usize) -> (r: (Token<'a>, usize))
    requires
        s@ == input@,
        pos < s@.len(),
    ensures
        pos < r.1 <= s@.len(),
        spec_parse_token(s@.skip(pos as int)) == (r.0@, (r.1 - pos) as nat),
{
    let ghost rest = s@.skip(pos as int);
    proof {
        lemma_parse_token_progress(rest);
    }
    if let Some(r) = parse_non_text(s, pos) {
        return r;
    }
    assert(rest =~= s@.subrange(pos as int, s@.len() as int));
    let end = match find_in(s, pos, s.len(), '%') {
        None => s.len(),
        Some(index) => if index == pos {
            assert(rest.skip(1) =~= s@.subrange(pos + 1, s@.len() as int));
            match find_in(s, pos + 1, s.len(), '%') {
                Some(next) => next,
                None => s.len(),
            }
        } else {
            index
        },
    };
    assert(end - pos == text_end(rest));
    let text = input.substring_char(pos, end);
    assert(text@ =~= rest.take(end - pos));
    (Token::Text(text), end)
}

/// The tokens of `input`, in order.
pub fn parse<'a>(input: &'a str) -> (tokens: Vec<Token<'a>>)
    ensures
        tokens_view(tokens@) == spec_parse(input@),
{
    let s = chars_of(input);
    let mut tokens: Vec<Token<'a>> = Vec::new();
    let mut pos: usize = 0;
    assert(input@.skip(0) =~= input@);
    while pos < s.len()
        invariant
            pos <= s@.len(),
            s@ == input@,
            tokens_view(tokens@) + spec_parse(input@.skip(pos as int)) == spec_parse(input@),
        decreases s@.len() - pos,
    {
        let ghost rest = input@.skip(pos as int);
        let (token, next) = parse_token(input, s.as_slice(), pos);
        assert(rest.skip(next - pos) =~= input@.skip(next as int));
        assert(spec_parse(rest) == seq![token@] + spec_parse(input@.skip(next as int)));
        let ghost before = tokens_view(tokens@);
        tokens.push(token);
        assert(tokens_view(tokens@) =~= before.push(token@));
        assert(tokens_view(tokens@) + spec_parse(input@.skip(next as int)) =~= before + spec_parse(rest));
        pos = next;
    }
    assert(input@.skip(pos as int) =~= Seq::<char>::empty());
    assert(tokens_view(tokens@) =~= spec_parse(input@));
    tokens
}

} // verus!
