use termframe::builder::FrameBuilder;
use termframe::cell::Cell;
use termframe::frame::{Area, Frame};
use termframe::style::{CellStyle, FrameColor, ATTR_BOLD};

fn build(width: u16, height: u16, input: &[u8]) -> Frame {
    let area = Area { left: 0, top: 0, width, height };
    let mut builder = FrameBuilder::new(&area, "skin");
    assert_eq!(builder.write(input), input.len());
    builder.try_finish().unwrap()
}

fn row(frame: &Frame, y: usize) -> String {
    frame.cells[y].iter().map(|c| c.symbol.as_str()).collect()
}

#[test]
fn plain_text_and_newlines() {
    let frame = build(5, 2, b"ab\ncd");
    assert_eq!(row(&frame, 0), "ab   ");
    assert_eq!(row(&frame, 1), "cd   ");
}

#[test]
fn carriage_return_and_ignored_controls() {
    let frame = build(5, 1, b"abc\rX\x07y");
    assert_eq!(row(&frame, 0), "Xyc  ");
}

#[test]
fn tab_stops_every_eight_columns() {
    let frame = build(12, 1, b"a\tb");
    assert_eq!(frame.cells[0][8].symbol, "b");
    assert!(frame.cells[0][1..8].iter().all(|c| c.symbol == " "));
}

#[test]
fn cropped_wide_grapheme_blanks_and_blocks_the_line() {
    let frame = build(5, 2, "abcd好efgh\ngh".as_bytes());
    assert_eq!(row(&frame, 0), "abcd ");
    assert!(!frame.cells[0][4].continuation);
    assert_eq!(row(&frame, 1), "gh   ");
}

#[test]
fn combining_marks_stay_in_their_cell() {
    let frame = build(4, 1, "e\u{301}x".as_bytes());
    assert_eq!(frame.cells[0][0].symbol, "e\u{301}");
    assert_eq!(frame.cells[0][1].symbol, "x");
}

#[test]
fn zero_width_after_wide_grapheme_joins_its_leading_cell() {
    let frame = build(6, 1, "好\u{200B}x".as_bytes());
    assert_eq!(frame.cells[0][0].symbol, "好\u{200B}");
    assert!(frame.cells[0][1].continuation);
    assert_eq!(frame.cells[0][2].symbol, "x");
}

#[test]
fn cursor_position_and_moves() {
    let frame = build(5, 3, b"\x1b[2;3Hx\x1b[1Dy\x1b[3;1Hz\x1b[2Cw");
    assert_eq!(row(&frame, 1), "  y  ");
    assert_eq!(row(&frame, 2), "z  w ");
}

#[test]
fn positions_are_absolute_screen_coordinates() {
    let area = Area { left: 2, top: 1, width: 3, height: 2 };
    let mut builder = FrameBuilder::new(&area, "skin");
    builder.write(b"\x1b[2;3Hx\x1b[1;1Hhidden");
    let frame = builder.try_finish().unwrap();
    assert_eq!(row(&frame, 0), "x  ");
    assert_eq!(row(&frame, 1), "   ");
}

#[test]
fn line_erasures() {
    assert_eq!(row(&build(4, 1, b"abcd\x1b[2K"), 0), "    ");
    assert_eq!(row(&build(4, 1, b"abcd\x1b[3G\x1b[K"), 0), "ab  ");
    assert_eq!(row(&build(4, 1, b"abcd\x1b[3G\x1b[1K"), 0), "   d");
}

#[test]
fn display_erasures() {
    let frame = build(3, 3, b"abc\ndef\nghi\x1b[2;2H\x1b[J");
    assert_eq!(row(&frame, 0), "abc");
    assert_eq!(row(&frame, 1), "d  ");
    assert_eq!(row(&frame, 2), "   ");
    let frame = build(3, 3, b"abc\ndef\nghi\x1b[2;2H\x1b[1J");
    assert_eq!(row(&frame, 0), "   ");
    assert_eq!(row(&frame, 1), "  f");
    assert_eq!(row(&frame, 2), "ghi");
    let frame = build(3, 2, b"abc\ndef\x1b[2J");
    assert_eq!(row(&frame, 0), "   ");
    assert_eq!(row(&frame, 1), "   ");
}

#[test]
fn sgr_styles_cells() {
    let frame = build(3, 1, b"\x1b[1;31mx\x1b[0my");
    assert_eq!(
        frame.cells[0][0].style,
        CellStyle { fg: Some(FrameColor::AnsiValue(1)), bg: None, attrs: ATTR_BOLD }
    );
    assert_eq!(frame.cells[0][1].style, CellStyle::default());
}

#[test]
fn erasure_uses_the_current_style() {
    let frame = build(3, 1, b"\x1b[44m\x1b[2K");
    let blue = CellStyle { fg: None, bg: Some(FrameColor::AnsiValue(4)), attrs: 0 };
    assert!(frame.cells[0].iter().all(|c| *c == Cell::blank(blue)));
}

#[test]
fn osc_and_private_sequences_are_ignored() {
    let frame = build(4, 1, b"\x1b]0;title\x07a\x1b[?25lb");
    assert_eq!(row(&frame, 0), "ab  ");
}

#[test]
fn sequences_split_across_writes() {
    let area = Area { left: 0, top: 0, width: 3, height: 1 };
    let mut builder = FrameBuilder::new(&area, "skin");
    builder.write(b"\x1b[1");
    builder.write(b"mx");
    let frame = builder.try_finish().unwrap();
    assert_eq!(frame.cells[0][0].symbol, "x");
    assert_eq!(frame.cells[0][0].style.attrs, ATTR_BOLD);
}

#[test]
fn invalid_utf8_is_replaced() {
    let frame = build(3, 1, &[0xff, b'a']);
    assert_eq!(frame.cells[0][0].symbol, "\u{fffd}");
    assert_eq!(frame.cells[0][1].symbol, "a");
}

#[test]
fn escape_cut_in_a_character_is_refused() {
    let area = Area { left: 0, top: 0, width: 3, height: 1 };
    let mut builder = FrameBuilder::new(&area, "skin");
    builder.write("\u{1b}\u{e9}".as_bytes());
    assert!(builder.try_finish().is_none());
}

#[test]
fn seeded_builder_changes_only_what_is_written() {
    let area = Area { left: 0, top: 0, width: 3, height: 2 };
    let mut first = FrameBuilder::new(&area, "skin");
    first.write(b"abc\ndef");
    let frame = first.finish();
    let mut second = FrameBuilder::seeded(frame.clone());
    second.write(b"\x1b[2;2HZ");
    let changed = second.finish();
    assert_eq!(row(&changed, 0), "abc");
    assert_eq!(row(&changed, 1), "dZf");
    assert_eq!(changed.skin_fingerprint, frame.skin_fingerprint);
}

#[test]
fn checked_frame_is_compatible_with_new_renderings() {
    let area = Area { left: 1, top: 2, width: 6, height: 2 };
    let saved = Frame::blank(&area, "skin");
    let mut builder = FrameBuilder::new(&area, "skin");
    builder.write(b"\x1b[3;2Hhello");
    let next = builder.try_finish().unwrap();
    assert_eq!(row(&next, 0), "hello ");
    assert_eq!(saved.check(&area, "skin"), Ok(()));
    assert!(saved.is_compatible(&next));
    assert!(!saved.diff(&next).is_full());
    let mut builder = FrameBuilder::new(&area, "other skin");
    builder.write(b"hello");
    let other = builder.try_finish().unwrap();
    assert!(saved.check(&area, "other skin").is_err());
    assert!(saved.diff(&other).is_full());
}

#[test]
fn sized_graphemes_advance_by_their_width() {
    let area = Area { left: 0, top: 0, width: 6, height: 1 };
    let mut builder = FrameBuilder::new(&area, "skin");
    builder.put_sized_grapheme("x", 3);
    builder.put_sized_grapheme("y", 2);
    builder.put_sized_grapheme("\u{301}", 0);
    builder.put_sized_grapheme("z", 2);
    let frame = builder.try_finish().unwrap();
    assert_eq!(row(&frame, 0), "x  y\u{301} ");
    assert!(frame.cells[0][4].continuation);
    assert!(!frame.cells[0][1].continuation);
    assert_eq!(frame.cells[0][5].symbol, " ");
}

#[test]
fn fresh_builder_finishes_to_its_blank_frame() {
    let area = Area { left: 3, top: 1, width: 4, height: 2 };
    let builder = FrameBuilder::new(&area, "skin");
    assert_eq!(builder.finish(), Frame::blank(&area, "skin"));
    let mut builder = FrameBuilder::new(&area, "skin");
    builder.write(b"");
    assert_eq!(builder.try_finish(), Some(Frame::blank(&area, "skin")));
}

#[test]
fn set_row_keeps_the_frame_shape() {
    let mut frame = Frame::blank(&Area { left: 2, top: 5, width: 4, height: 2 }, "skin");
    assert!(frame.set_row_from_ansi(1, "ab"));
    assert!(frame.set_row_from_ansi(0, "\u{1b}[1mcd"));
    assert_eq!((frame.left, frame.top, frame.width, frame.height), (2, 5, 4, 2));
    assert_eq!(frame.skin_fingerprint, Frame::skin_fingerprint("skin"));
    assert_eq!(row(&frame, 0), "cd  ");
    assert_eq!(row(&frame, 1), "ab  ");
}
