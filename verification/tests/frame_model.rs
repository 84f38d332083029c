use termframe::cell::Cell;
use termframe::frame::{Area, Frame, FrameMismatch, FRAME_FORMAT_VERSION};
use termframe::line::PatchSpan;
use termframe::patch::{FramePatch, PatchOp};
use termframe::style::{CellStyle, FrameColor, ATTR_BOLD};

fn area(left: u16, top: u16, width: u16, height: u16) -> Area {
    Area { left, top, width, height }
}

fn row_frame(rows: &[&str], width: u16) -> Frame {
    let mut frame = Frame::new(width, rows.len() as u16, 0);
    for (y, row) in rows.iter().enumerate() {
        assert!(frame.set_row_from_ansi(y, row));
    }
    frame
}

fn symbols(frame: &Frame, row: usize) -> Vec<String> {
    frame.row_cells(row).unwrap().iter().map(|c| c.symbol.clone()).collect()
}

#[test]
fn fingerprint_is_fnv1a_of_the_skin() {
    assert_eq!(Frame::skin_fingerprint(""), 0xcbf29ce484222325);
    assert_eq!(Frame::skin_fingerprint("a"), 0xaf63dc4c8601ec8c);
    assert_ne!(Frame::skin_fingerprint("a"), Frame::skin_fingerprint("b"));
}

#[test]
fn blank_frame_covers_the_area() {
    let frame = Frame::blank(&area(2, 3, 4, 2), "skin");
    assert_eq!(frame.version, FRAME_FORMAT_VERSION);
    assert_eq!((frame.left, frame.top, frame.width, frame.height), (2, 3, 4, 2));
    assert_eq!(frame.skin_fingerprint, Frame::skin_fingerprint("skin"));
    assert_eq!(frame.cells.len(), 2);
    for row in &frame.cells {
        assert_eq!(row.len(), 4);
        assert!(row.iter().all(|c| *c == Cell::default()));
    }
    assert!(frame.cell(1, 3).is_some());
    assert!(frame.cell(2, 0).is_none());
    assert!(frame.cell(0, 4).is_none());
    assert_eq!(frame.row_cells(1).unwrap().len(), 4);
    assert!(frame.row_cells(2).is_none());
}

#[test]
fn check_reports_each_mismatch() {
    let a = area(0, 0, 10, 3);
    let frame = Frame::blank(&a, "skin");
    assert_eq!(frame.check(&a, "skin"), Ok(()));
    assert_eq!(frame.check(&area(0, 0, 11, 3), "skin"), Err(FrameMismatch::Geometry));
    assert_eq!(frame.check(&area(1, 0, 10, 3), "skin"), Err(FrameMismatch::Geometry));
    assert_eq!(frame.check(&a, "other skin"), Err(FrameMismatch::SkinFingerprint));
    let mut old = frame.clone();
    old.version += 1;
    // the version is checked first
    assert_eq!(old.check(&area(0, 0, 1, 1), "other"), Err(FrameMismatch::Version));
    // the geometry before the skin
    assert_eq!(frame.check(&area(0, 0, 1, 1), "other"), Err(FrameMismatch::Geometry));
}

#[test]
fn mismatch_descriptions() {
    assert_eq!(FrameMismatch::Version.description(), "frame format version mismatch");
    assert_eq!(FrameMismatch::Geometry.description(), "frame geometry mismatch");
    assert_eq!(FrameMismatch::SkinFingerprint.description(), "frame skin mismatch");
}

#[test]
fn compatibility_needs_same_version_geometry_and_skin() {
    let a = Frame::blank(&area(0, 0, 5, 2), "skin");
    let b = row_frame(&["x", "y"], 5);
    assert!(!a.is_compatible(&b)); // other skin fingerprint
    let mut c = a.clone();
    c.cells[0][0] = Cell::blank(CellStyle { fg: Some(FrameColor::Red), bg: None, attrs: 0 });
    assert!(a.is_compatible(&c)); // cells don't matter
    let mut d = a.clone();
    d.top = 1;
    assert!(!a.is_compatible(&d));
}

#[test]
fn cells_blank_continuation_default() {
    let bold = CellStyle { fg: None, bg: None, attrs: ATTR_BOLD };
    let blank = Cell::blank(bold);
    assert_eq!(blank.symbol, " ");
    assert!(blank.is_blank());
    assert!(!blank.is_default_blank());
    assert!(Cell::default().is_default_blank());
    assert!(Cell::blank(CellStyle::default()).is_default_blank());
    let cont = Cell::continuation(bold);
    assert_eq!(cont.symbol, "");
    assert!(cont.continuation);
    assert!(!cont.is_blank());
    let x = Cell { symbol: "x".to_string(), style: CellStyle::default(), continuation: false };
    assert!(!x.is_blank());
    assert!(x.same_as(&x.duplicate()));
    assert!(!x.same_as(&blank));
}

#[test]
fn set_row_reports_an_escape_cut_in_a_character() {
    let mut frame = row_frame(&["abc"], 4);
    let before = frame.clone();
    assert!(!frame.set_row_from_ansi(0, "x\u{1b}\u{e9}y"));
    assert_eq!(frame, before);
}

#[test]
fn full_patch_of_a_short_row_erases_the_rest() {
    let frame = row_frame(&["hi"], 4);
    let patch = frame.full_patch();
    assert!(patch.is_full());
    assert_eq!(
        patch.ops(),
        &[
            PatchOp::MoveTo { x: 0, y: 0 },
            PatchOp::Print { style: CellStyle::default(), text: "hi".to_string() },
            PatchOp::ClearToEndOfLine,
        ]
    );
    assert_eq!(patch.cells_written(), 2);
}

#[test]
fn diff_rewrites_only_the_changed_span() {
    let a = row_frame(&["same", "hello"], 8);
    let b = row_frame(&["same", "help!"], 8);
    let patch = a.diff(&b);
    assert!(!patch.is_full());
    assert_eq!(
        patch.ops(),
        &[
            PatchOp::MoveTo { x: 3, y: 1 },
            PatchOp::Print { style: CellStyle::default(), text: "p!".to_string() },
        ]
    );
    assert_eq!(patch.cells_written(), 2);
    let mut applied = a.clone();
    patch.apply_to(&mut applied);
    assert_eq!(applied, b);
}

#[test]
fn emptied_row_is_erased() {
    let a = row_frame(&["ab"], 4);
    let b = row_frame(&[""], 4);
    let patch = a.diff(&b);
    assert_eq!(patch.ops(), &[PatchOp::MoveTo { x: 0, y: 0 }, PatchOp::ClearToEndOfLine]);
    assert_eq!(patch.cells_written(), 0);
    let mut applied = a.clone();
    patch.apply_to(&mut applied);
    assert_eq!(applied, b);
}

#[test]
fn styled_blanks_are_printed_not_erased() {
    let a = row_frame(&[""], 4);
    let b = row_frame(&["\u{1b}[44mab\u{1b}[K"], 4);
    let blue = CellStyle { fg: None, bg: Some(FrameColor::AnsiValue(4)), attrs: 0 };
    assert_eq!(b.cells[0][3], Cell::blank(blue));
    let patch = a.diff(&b);
    assert_eq!(
        patch.ops(),
        &[
            PatchOp::MoveTo { x: 0, y: 0 },
            PatchOp::Print { style: blue, text: "ab".to_string() },
            PatchOp::MoveTo { x: 2, y: 0 },
            PatchOp::Print { style: blue, text: "  ".to_string() },
        ]
    );
    let mut applied = a.clone();
    patch.apply_to(&mut applied);
    assert_eq!(applied, b);
}

#[test]
fn wide_graphemes_count_two_cells() {
    let frame = row_frame(&["a好"], 4);
    assert_eq!(symbols(&frame, 0), vec!["a", "好", "", " "]);
    assert!(frame.cells[0][2].continuation);
    let patch = frame.full_patch();
    assert_eq!(
        patch.ops(),
        &[
            PatchOp::MoveTo { x: 0, y: 0 },
            PatchOp::Print { style: CellStyle::default(), text: "a好".to_string() },
            PatchOp::ClearToEndOfLine,
        ]
    );
    assert_eq!(patch.cells_written(), 3);
    assert_eq!(patch.checked_cells_written(), Some(3));
    let mut blank = Frame::new(4, 1, 0);
    patch.apply_to(&mut blank);
    assert_eq!(blank, frame);
}

#[test]
fn wide_grapheme_replaced_after_trailing_styled_blanks() {
    // the blank fill must start after the continuation cell
    let red = "\u{1b}[41m";
    let a = row_frame(&[""], 6);
    let b = row_frame(&[&format!("{red}x好{red}\u{1b}[K")], 6);
    let patch = a.diff(&b);
    let mut applied = a.clone();
    patch.apply_to(&mut applied);
    assert_eq!(applied, b);
}

#[test]
fn unchanged_rows_are_not_touched() {
    let a = row_frame(&["one", "two", "three"], 8);
    let b = row_frame(&["one", "TWO", "three"], 8);
    let patch = a.diff(&b);
    for op in patch.ops() {
        if let PatchOp::MoveTo { y, .. } = op {
            assert_eq!(*y, 1);
        }
    }
}

#[test]
fn rebuilt_frame_gives_empty_patch() {
    let a = row_frame(&["\u{1b}[1mbold\u{1b}[0m text", "more"], 12);
    let b = row_frame(&["\u{1b}[1mbold\u{1b}[0m text", "more"], 12);
    let patch = a.diff(&b);
    assert!(patch.is_empty());
    assert!(!patch.is_full());
}

#[test]
fn screen_ops_place_moves_in_the_area() {
    let frame = row_frame(&["x", "y"], 3);
    let patch = frame.full_patch();
    let placed = patch.screen_ops(&area(5, 7, 3, 2)).unwrap();
    assert_eq!(placed.len(), patch.ops().len());
    assert_eq!(placed[0], PatchOp::MoveTo { x: 5, y: 7 });
    assert_eq!(placed[1], patch.ops()[1]);
    assert!(placed.contains(&PatchOp::MoveTo { x: 5, y: 8 }));
    assert!(patch.screen_ops(&area(0, u16::MAX, 3, 2)).is_none());
}

#[test]
fn empty_frame_patch() {
    let frame = Frame::new(0, 0, 0);
    let patch = FramePatch::between(None, &frame);
    assert!(patch.is_full());
    assert!(patch.is_empty());
    assert_eq!(patch.cells_written(), 0);
}

#[test]
fn line_patch_spans_and_erasure() {
    let bold = CellStyle { fg: None, bg: None, attrs: ATTR_BOLD };
    let frame = row_frame(&["\u{1b}[1mab\u{1b}[0mc", "a好b", "\u{1b}[44m \u{1b}[0m", ""], 4);
    let line = frame.line_patch(0);
    assert_eq!(line.row, 0);
    assert_eq!(
        line.spans,
        vec![
            PatchSpan { style: bold, text: "ab".to_string() },
            PatchSpan { style: CellStyle::default(), text: "c".to_string() },
        ]
    );
    assert!(line.erase_to_eol);
    let line = frame.line_patch(1);
    assert_eq!(line.spans, vec![PatchSpan { style: CellStyle::default(), text: "a好b".to_string() }]);
    assert!(!line.erase_to_eol);
    let blue = CellStyle { fg: None, bg: Some(FrameColor::AnsiValue(4)), attrs: 0 };
    let line = frame.line_patch(2);
    assert_eq!(line.spans, vec![PatchSpan { style: blue, text: " ".to_string() }]);
    assert!(line.erase_to_eol);
    let line = frame.line_patch(3);
    assert_eq!(line.row, 3);
    assert!(line.spans.is_empty());
    assert!(line.erase_to_eol);
}

#[test]
fn patch_moves_go_in_reading_order() {
    let a = row_frame(&["", "x", "\u{1b}[44m  "], 6);
    let b = row_frame(&["\u{1b}[41mab\u{1b}[K", "", "zz"], 6);
    let patch = a.diff(&b);
    let moves: Vec<(u16, u16)> = patch
        .ops()
        .iter()
        .filter_map(|op| match op {
            PatchOp::MoveTo { x, y } => Some((*y, *x)),
            _ => None,
        })
        .collect();
    assert_eq!(moves, vec![(0, 0), (0, 2), (1, 0), (2, 0)]);
    let mut applied = a.clone();
    patch.apply_to(&mut applied);
    assert_eq!(applied, b);
}

#[test]
fn zero_width_frames_get_empty_patches() {
    let frame = Frame::new(0, 3, 0);
    let full = frame.full_patch();
    assert!(full.is_full());
    assert!(full.is_empty());
    let other = Frame::new(0, 3, 1);
    assert!(other.diff(&frame).is_full());
    assert!(other.diff(&frame).is_empty());
    let mut applied = other.clone();
    full.apply_to(&mut applied);
    assert_eq!(applied.cells, frame.cells);
}

#[test]
fn patch_conditions_are_checked() {
    let frame = row_frame(&["a好b", "e\u{301}x"], 5);
    assert!(frame.glyphs_well_formed());
    assert!(frame.segments_stable());
    let mut broken = frame.clone();
    broken.cells[0][2] = Cell { symbol: "x".to_string(), style: CellStyle::default(), continuation: false };
    assert!(!broken.glyphs_well_formed());
    let mut split = frame.clone();
    split.cells[1][0] = Cell { symbol: "e".to_string(), style: CellStyle::default(), continuation: false };
    split.cells[1][1] = Cell { symbol: "\u{301}".to_string(), style: CellStyle::default(), continuation: false };
    assert!(!split.segments_stable());
}
