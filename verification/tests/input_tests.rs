use bread::input::{last_line, trim};

#[test]
fn last_line_of_a_chunk() {
    assert_eq!(last_line("a\nb\n"), "b");
    assert_eq!(last_line("a\nb"), "b");
    assert_eq!(last_line("one line"), "one line");
    assert_eq!(last_line(""), "");
}

#[test]
fn last_line_endings() {
    assert_eq!(last_line("a\r\n"), "a");
    assert_eq!(last_line("a\rb"), "a\rb");
    assert_eq!(last_line("x\n\n"), "");
    assert_eq!(last_line("x\r"), "x\r");
    assert_eq!(last_line("\n"), "");
}

#[test]
fn last_line_agrees_with_lines() {
    for s in ["a\nb\n", "a\r\n", "a\rb", "x\n\n", "x\r", "\n", "", "é\nü\r\n", "\r\n\r\n"] {
        assert_eq!(last_line(s), s.lines().last().unwrap_or_default());
    }
}

#[test]
fn trim_white_space() {
    assert_eq!(trim("  hi \t"), "hi");
    assert_eq!(trim(" \u{3000}"), "");
    assert_eq!(trim(""), "");
    assert_eq!(trim("\u{a0}a b\u{2028}"), "a b");
    for s in ["  x ", "\t\n", "a", " é ", "\u{85}y\u{205f}"] {
        assert_eq!(trim(s), s.trim());
    }
}
