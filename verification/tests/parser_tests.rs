use bread::parser::{parse, Alignment, Color, Size, Token};

fn text_of(t: &Token) -> Option<String> {
    match t {
        Token::Text(s) => Some(s.to_string()),
        _ => None,
    }
}

#[test]
fn empty_line_has_no_tokens() {
    assert!(parse("").is_empty());
}

#[test]
fn plain_text_is_one_token() {
    let tokens = parse("hello world");
    assert_eq!(tokens.len(), 1);
    assert_eq!(text_of(&tokens[0]).as_deref(), Some("hello world"));
}

#[test]
fn alignments_split_text() {
    let tokens = parse("a%{l}b%{c}c%{r}d");
    assert_eq!(tokens.len(), 7);
    assert_eq!(text_of(&tokens[0]).as_deref(), Some("a"));
    assert!(matches!(tokens[1], Token::Alignment(Alignment::Left)));
    assert_eq!(text_of(&tokens[2]).as_deref(), Some("b"));
    assert!(matches!(tokens[3], Token::Alignment(Alignment::Center)));
    assert_eq!(text_of(&tokens[4]).as_deref(), Some("c"));
    assert!(matches!(tokens[5], Token::Alignment(Alignment::Right)));
    assert_eq!(text_of(&tokens[6]).as_deref(), Some("d"));
}

#[test]
fn foreground_with_alpha() {
    let tokens = parse("%{F:ff112233}x");
    assert_eq!(tokens.len(), 2);
    match tokens[0] {
        Token::Fg(c) => assert_eq!(c, Color { a: 0xff, r: 0x11, g: 0x22, b: 0x33 }),
        _ => panic!("expected a foreground color"),
    }
    assert_eq!(text_of(&tokens[1]).as_deref(), Some("x"));
}

#[test]
fn background_without_alpha_is_transparent() {
    let tokens = parse("%{B:A0b1C2}");
    assert_eq!(tokens.len(), 1);
    match tokens[0] {
        Token::Bg(c) => assert_eq!(c, Color { a: 0, r: 0xa0, g: 0xb1, b: 0xc2 }),
        _ => panic!("expected a background color"),
    }
}

#[test]
fn color_with_plus_sign() {
    let tokens = parse("%{F:+1234567}");
    assert_eq!(tokens.len(), 1);
    match tokens[0] {
        Token::Fg(c) => assert_eq!(c, Color { a: 0x01, r: 0x23, g: 0x45, b: 0x67 }),
        _ => panic!("expected a foreground color"),
    }
}

#[test]
fn underline_and_overline_sizes() {
    let tokens = parse("%{U:10x2}%{O:+3x40}");
    assert_eq!(tokens.len(), 2);
    match tokens[0] {
        Token::Underline(Size { w, h }) => assert_eq!((w, h), (10, 2)),
        _ => panic!("expected an underline"),
    }
    match tokens[1] {
        Token::Overline(Size { w, h }) => assert_eq!((w, h), (3, 40)),
        _ => panic!("expected an overline"),
    }
}

#[test]
fn unknown_attribute_is_text() {
    let tokens = parse("%{x}");
    assert_eq!(tokens.len(), 1);
    assert_eq!(text_of(&tokens[0]).as_deref(), Some("%{x}"));
}

#[test]
fn broken_color_reads_as_text_up_to_next_percent() {
    let tokens = parse("%{F:zz}rest%{l}");
    assert_eq!(tokens.len(), 2);
    assert_eq!(text_of(&tokens[0]).as_deref(), Some("%{F:zz}rest"));
    assert!(matches!(tokens[1], Token::Alignment(Alignment::Left)));
}

#[test]
fn lone_percent_signs() {
    let tokens = parse("100%");
    assert_eq!(tokens.len(), 2);
    assert_eq!(text_of(&tokens[0]).as_deref(), Some("100"));
    assert_eq!(text_of(&tokens[1]).as_deref(), Some("%"));
}

#[test]
fn size_overflow_is_text() {
    let tokens = parse("%{U:4294967296x1}");
    assert_eq!(tokens.len(), 1);
    assert_eq!(text_of(&tokens[0]).as_deref(), Some("%{U:4294967296x1}"));
    let tokens = parse("%{U:4294967295x0}");
    match tokens[0] {
        Token::Underline(Size { w, h }) => assert_eq!((w, h), (4294967295, 0)),
        _ => panic!("expected an underline"),
    }
}

#[test]
fn size_needs_both_numbers() {
    let tokens = parse("%{U:x1}%{O:1x}");
    assert_eq!(tokens.len(), 2);
    assert_eq!(text_of(&tokens[0]).as_deref(), Some("%{U:x1}"));
    assert_eq!(text_of(&tokens[1]).as_deref(), Some("%{O:1x}"));
}

#[test]
fn non_ascii_text() {
    let tokens = parse("héllo ✓%{r}ünï");
    assert_eq!(tokens.len(), 3);
    assert_eq!(text_of(&tokens[0]).as_deref(), Some("héllo ✓"));
    assert!(matches!(tokens[1], Token::Alignment(Alignment::Right)));
    assert_eq!(text_of(&tokens[2]).as_deref(), Some("ünï"));
}

#[test]
fn written_tokens_read_back() {
    // a line written from tokens, as the round-trip law describes
    let line = "cpu%{F:80ff0000}%{U:12x3}%{c}12:00%{B:00000000}%{r}%{O:0x0}bat";
    let tokens = parse(line);
    assert_eq!(tokens.len(), 9);
    assert_eq!(text_of(&tokens[0]).as_deref(), Some("cpu"));
    assert!(matches!(tokens[1], Token::Fg(Color { a: 0x80, r: 0xff, g: 0, b: 0 })));
    assert!(matches!(tokens[2], Token::Underline(Size { w: 12, h: 3 })));
    assert!(matches!(tokens[3], Token::Alignment(Alignment::Center)));
    assert_eq!(text_of(&tokens[4]).as_deref(), Some("12:00"));
    assert!(matches!(tokens[5], Token::Bg(Color { a: 0, r: 0, g: 0, b: 0 })));
    assert!(matches!(tokens[6], Token::Alignment(Alignment::Right)));
    assert!(matches!(tokens[7], Token::Overline(Size { w: 0, h: 0 })));
    assert_eq!(text_of(&tokens[8]).as_deref(), Some("bat"));
}

#[test]
fn parser_color_bytes() {
    let c = Color::new(1, 2, 3, 4);
    assert_eq!(c, Color { a: 4, r: 1, g: 2, b: 3 });
    assert_eq!(c.as_argb(), [4, 1, 2, 3]);
}

#[test]
fn sizes_with_leading_zeros_and_uppercase_colors() {
    let tokens = parse("%{U:007x01}%{F:FFAA00}%{B:0A0B0C0D}");
    assert_eq!(tokens.len(), 3);
    assert!(matches!(tokens[0], Token::Underline(Size { w: 7, h: 1 })));
    assert!(matches!(tokens[1], Token::Fg(Color { a: 0, r: 0xff, g: 0xaa, b: 0 })));
    assert!(matches!(tokens[2], Token::Bg(Color { a: 0x0a, r: 0x0b, g: 0x0c, b: 0x0d })));
}

#[test]
fn line_without_attributes_joins_back() {
    let line = "50% %cpu % {x}";
    let tokens = parse(line);
    assert!(tokens.len() <= line.chars().count());
    let joined: String = tokens.iter().map(|t| text_of(t).expect("only texts")).collect();
    assert_eq!(joined, line);
}
