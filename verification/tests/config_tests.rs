use bread::config::parse_color;
use bread::pixels::Color;

#[test]
fn six_digit_color_has_zero_alpha() {
    assert_eq!(parse_color("ffffff"), Ok(Color::new(0xff, 0xff, 0xff, 0)));
    assert_eq!(parse_color("000000"), Ok(Color::new(0, 0, 0, 0)));
}

#[test]
fn eight_digit_color() {
    assert_eq!(parse_color("80102030"), Ok(Color::new(0x10, 0x20, 0x30, 0x80)));
}

#[test]
fn invalid_colors() {
    assert_eq!(parse_color("fffffff"), Err("invalid color"));
    assert_eq!(parse_color("ggggggg"), Err("invalid color"));
    assert_eq!(parse_color(""), Err("invalid color"));
    assert_eq!(parse_color("ffffff00ff"), Err("invalid color"));
}
