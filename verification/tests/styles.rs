use termframe::ansi::{parse_styled_graphemes, TextStyle};
use termframe::style::{
    CellStyle, FrameColor, TextAttribute, ATTR_BLINK, ATTR_BOLD, ATTR_DIM, ATTR_HIDDEN, ATTR_ITALIC,
};

fn sgr(params: &[u16]) -> CellStyle {
    let mut style = CellStyle { fg: Some(FrameColor::Red), bg: Some(FrameColor::Blue), attrs: ATTR_ITALIC };
    style.apply_sgr(params);
    style
}

#[test]
fn sgr_reset_gives_default_style() {
    assert!(sgr(&[]).is_default());
    assert!(sgr(&[0]).is_default());
    let mut style = sgr(&[1]);
    style.reset();
    assert_eq!(style, CellStyle::default());
}

#[test]
fn sgr_attributes() {
    assert_eq!(sgr(&[0, 1, 2]).attrs, ATTR_BOLD | ATTR_DIM);
    assert_eq!(sgr(&[0, 1, 2, 22]).attrs, 0);
    assert_eq!(sgr(&[23]).attrs, 0);
    assert_eq!(sgr(&[0, 5]).attrs, ATTR_BLINK);
    assert_eq!(sgr(&[0, 6, 25]).attrs, 0);
    assert_eq!(sgr(&[0, 8]).attrs, ATTR_HIDDEN);
}

#[test]
fn sgr_basic_colors() {
    let style = sgr(&[31, 47]);
    assert_eq!(style.fg, Some(FrameColor::AnsiValue(1)));
    assert_eq!(style.bg, Some(FrameColor::AnsiValue(7)));
    let style = sgr(&[91, 105]);
    assert_eq!(style.fg, Some(FrameColor::AnsiValue(9)));
    assert_eq!(style.bg, Some(FrameColor::AnsiValue(13)));
    let style = sgr(&[39, 49]);
    assert_eq!((style.fg, style.bg), (None, None));
    assert_eq!(style.attrs, ATTR_ITALIC);
}

#[test]
fn sgr_extended_colors() {
    assert_eq!(sgr(&[38, 5, 200]).fg, Some(FrameColor::AnsiValue(200)));
    assert_eq!(sgr(&[48, 2, 1, 2, 3]).bg, Some(FrameColor::Rgb(1, 2, 3)));
    // missing channels read as 0
    assert_eq!(sgr(&[38, 2, 9]).fg, Some(FrameColor::Rgb(9, 0, 0)));
    // a missing palette index leaves the color unchanged
    assert_eq!(sgr(&[38, 5]).fg, Some(FrameColor::Red));
    // an unknown color kind is skipped with its parameter
    let style = sgr(&[0, 38, 7, 1]);
    assert_eq!(style.fg, None);
    assert_eq!(style.attrs, ATTR_BOLD);
    // values are truncated to a byte
    assert_eq!(sgr(&[38, 5, 300]).fg, Some(FrameColor::AnsiValue(44)));
}

#[test]
fn attribute_bits_and_list() {
    let mut style = CellStyle::default();
    style.set_attr(ATTR_BOLD, true);
    style.set_attr(ATTR_BLINK, true);
    assert!(style.has(ATTR_BOLD));
    assert!(!style.has(ATTR_DIM));
    assert_eq!(
        style.attributes(),
        vec![TextAttribute::Bold, TextAttribute::SlowBlink, TextAttribute::RapidBlink]
    );
    style.set_attr(ATTR_BOLD, false);
    assert!(!style.has(ATTR_BOLD));
    assert_eq!(style.attributes(), vec![TextAttribute::SlowBlink, TextAttribute::RapidBlink]);
    assert!(CellStyle::default().attributes().is_empty());
}

fn parsed_style(s: &str) -> TextStyle {
    let parsed = parse_styled_graphemes(s);
    assert_eq!(parsed.len(), 1);
    assert_eq!(parsed[0].0, "x");
    parsed[0].1
}

#[test]
fn parse_palette_colors_map_to_named_ones() {
    assert_eq!(parsed_style("\u{1b}[38;5;9mx").foreground_color, Some(FrameColor::Red));
    assert_eq!(parsed_style("\u{1b}[38;5;0mx").foreground_color, Some(FrameColor::Black));
    assert_eq!(parsed_style("\u{1b}[38;5;7mx").foreground_color, Some(FrameColor::Grey));
    assert_eq!(parsed_style("\u{1b}[48;5;200mx").background_color, Some(FrameColor::AnsiValue(200)));
    assert_eq!(parsed_style("\u{1b}[58;5;1mx").underline_color, Some(FrameColor::DarkRed));
}

#[test]
fn parse_incomplete_rgb_reads_the_rest_as_parameters() {
    let style = parsed_style("\u{1b}[48;2;1;2mx");
    assert_eq!(style.background_color, None);
    assert!(style.attributes.has(TextAttribute::Bold));
    assert!(style.attributes.has(TextAttribute::Dim));
}

#[test]
fn parse_attribute_switches() {
    let style = parsed_style("\u{1b}[1;22;4:3;20mx");
    assert!(!style.attributes.has(TextAttribute::Bold));
    assert!(style.attributes.has(TextAttribute::Underlined));
    assert!(style.attributes.has(TextAttribute::Fraktur));
    let style = parsed_style("\u{1b}[5;6;25;51;52;54;53mx");
    assert!(!style.attributes.has(TextAttribute::SlowBlink));
    assert!(!style.attributes.has(TextAttribute::RapidBlink));
    assert!(!style.attributes.has(TextAttribute::Framed));
    assert!(style.attributes.has(TextAttribute::OverLined));
    // an empty parameter resets
    let style = parsed_style("\u{1b}[1;;3mx");
    assert!(!style.attributes.has(TextAttribute::Bold));
    assert!(style.attributes.has(TextAttribute::Italic));
}

#[test]
fn parse_ignores_basic_color_codes_and_other_sequences() {
    assert_eq!(parsed_style("\u{1b}[31mx"), TextStyle::default());
    let parsed = parse_styled_graphemes("a\u{1b}[2Jb");
    assert_eq!(parsed.len(), 2);
    assert!(parsed.iter().all(|(_, s)| *s == TextStyle::default()));
    assert!(parse_styled_graphemes("").is_empty());
    assert!(parse_styled_graphemes("\u{1b}[1").is_empty());
}

#[test]
fn parse_keeps_grapheme_clusters() {
    let parsed = parse_styled_graphemes("e\u{301}好\u{1b}[1m!");
    let graphemes: Vec<&str> = parsed.iter().map(|(g, _)| g.as_str()).collect();
    assert_eq!(graphemes, vec!["e\u{301}", "好", "!"]);
    assert!(parsed[2].1.attributes.has(TextAttribute::Bold));
    assert!(!parsed[1].1.attributes.has(TextAttribute::Bold));
}

#[test]
fn sgr_sequences_apply_in_pieces() {
    let mut whole = CellStyle::default();
    whole.apply_sgr(&[1, 38, 5, 3, 48, 2, 1, 2, 3, 4]);
    let mut pieces = CellStyle::default();
    pieces.apply_sgr(&[1, 38, 5, 3]);
    pieces.apply_sgr(&[48, 2, 1, 2, 3, 4]);
    assert_eq!(whole, pieces);
}

#[test]
fn parse_keeps_the_text_outside_csi_sequences() {
    let input = "a\u{1b}[1mb\u{301}c\u{1b}[2Jd\u{1b}[3";
    let parsed = parse_styled_graphemes(input);
    assert!(parsed.iter().all(|(g, _)| !g.is_empty()));
    let text: String = parsed.iter().map(|(g, _)| g.as_str()).collect();
    assert_eq!(text, "ab\u{301}cd");
}

#[test]
fn text_sgr_strings_apply_in_pieces() {
    use_text_sgr_pieces();
}

fn use_text_sgr_pieces() {
    let a: Vec<char> = "1;38;5;9;48;2;1;2;3".chars().collect();
    let b: Vec<char> = "4:3;39".chars().collect();
    let joined: Vec<char> = "1;38;5;9;48;2;1;2;3;4:3;39".chars().collect();
    let mut whole = TextStyle::default();
    termframe::ansi::apply_sgr(&joined, &mut whole);
    let mut pieces = TextStyle::default();
    termframe::ansi::apply_sgr(&a, &mut pieces);
    termframe::ansi::apply_sgr(&b, &mut pieces);
    assert_eq!(whole, pieces);
    assert_eq!(whole.background_color, Some(FrameColor::Rgb(1, 2, 3)));
    assert_eq!(whole.foreground_color, None);
    assert!(whole.attributes.has(TextAttribute::Underlined));
}
