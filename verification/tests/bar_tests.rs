use bread::bar::split_sections;
use bread::parser::{Alignment, Size};
use bread::pixels::Color;
use bread::parser;
use bread::token::{from_parsed, Token};

#[test]
fn tokens_go_to_the_last_selected_section() {
    let tokens = [
        Token::Text("a"),
        Token::Fg(Color::new(1, 2, 3, 4)),
        Token::Alignment(Alignment::Right),
        Token::Text("b"),
        Token::Alignment(Alignment::Center),
        Token::Ramp(Size { w: 1, h: 1 }),
        Token::Alignment(Alignment::Left),
        Token::Bg(Color::new(0, 0, 0, 0)),
        Token::Alignment(Alignment::Right),
        Token::Text("c"),
    ];
    let s = split_sections(&tokens);
    assert_eq!(s.left, vec![0, 1, 7]);
    assert_eq!(s.center, vec![5]);
    assert_eq!(s.right, vec![3, 9]);
}

#[test]
fn no_tokens_no_sections() {
    let s = split_sections(&[]);
    assert!(s.left.is_empty() && s.center.is_empty() && s.right.is_empty());
}

#[test]
fn parsed_tokens_to_drawn_tokens() {
    assert!(matches!(from_parsed(parser::Token::Text("x")), Some(Token::Text("x"))));
    assert!(matches!(
        from_parsed(parser::Token::Alignment(Alignment::Center)),
        Some(Token::Alignment(Alignment::Center))
    ));
    match from_parsed(parser::Token::Fg(parser::Color::new(1, 2, 3, 4))) {
        Some(Token::Fg(c)) => assert_eq!(c, Color::new(1, 2, 3, 4)),
        _ => panic!("expected a foreground color"),
    }
    match from_parsed(parser::Token::Bg(parser::Color::new(5, 6, 7, 8))) {
        Some(Token::Bg(c)) => assert_eq!(c, Color::new(5, 6, 7, 8)),
        _ => panic!("expected a background color"),
    }
    assert!(from_parsed(parser::Token::Underline(Size { w: 1, h: 2 })).is_none());
    assert!(from_parsed(parser::Token::Overline(Size { w: 1, h: 2 })).is_none());
}
