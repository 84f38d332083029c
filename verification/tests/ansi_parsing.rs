use crossterm::style::{Color, Colored, Stylize};
use termframe::ansi::{parse_styled_graphemes, TextStyle};
use termframe::style::{FrameColor, TextAttribute};

#[test]
fn parse_plain_text() {
    let parsed = parse_styled_graphemes("hello");
    assert_eq!(parsed.len(), 5);
    assert!(parsed.iter().all(|(_, s)| *s == TextStyle::default()));
}

#[test]
fn parse_crossterm_styled_content() {
    // colors may be globally disabled (eg NO_COLOR env)
    Colored::set_ansi_color_disabled(false);
    let s = format!("{}", "ab".red().bold());
    let parsed = parse_styled_graphemes(&s);
    assert_eq!(parsed.len(), 2);
    for (g, style) in &parsed {
        assert_eq!(style.foreground_color, Some(FrameColor::Red));
        assert!(style.attributes.has(TextAttribute::Bold));
        assert!(g == "a" || g == "b");
    }
    // the reset written by crossterm must bring us back to default
    let s = format!("{}\u{1b}[0mx", "a".red());
    let parsed = parse_styled_graphemes(&s);
    assert_eq!(parsed.len(), 2);
    assert_eq!(parsed[1].0, "x");
    assert_eq!(parsed[1].1, TextStyle::default());
}

#[test]
fn parse_rgb_and_ansi_value() {
    Colored::set_ansi_color_disabled(false);
    let s = format!(
        "{}",
        "x".with(Color::Rgb { r: 12, g: 34, b: 56 }).on(Color::AnsiValue(42))
    );
    let parsed = parse_styled_graphemes(&s);
    assert_eq!(parsed.len(), 1);
    assert_eq!(parsed[0].1.foreground_color, Some(FrameColor::Rgb(12, 34, 56)));
    assert_eq!(parsed[0].1.background_color, Some(FrameColor::AnsiValue(42)));
}
