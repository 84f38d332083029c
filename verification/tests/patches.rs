use termframe::frame::Frame;
use termframe::patch::{FramePatch, PatchOp};

fn frame_from_rows(rows: &[&str]) -> Frame {
    frame_from_rows_width(rows, 12)
}

fn frame_from_rows_width(rows: &[&str], width: u16) -> Frame {
    let height = rows.len() as u16;
    let mut frame = Frame::new(width, height, 0);
    for (y, row) in rows.iter().enumerate() {
        frame.set_row_from_ansi(y, row);
    }
    frame
}

#[test]
fn no_change_no_op() {
    let a = frame_from_rows(&["hello", "world"]);
    let b = frame_from_rows(&["hello", "world"]);
    let patch = FramePatch::between(Some(&a), &b);
    assert!(patch.is_empty());
    assert!(!patch.is_full());
    assert_eq!(patch.cells_written(), 0);
}

#[test]
fn patch_is_deterministic() {
    let a = frame_from_rows(&["hello", "world"]);
    let b = frame_from_rows(&["hello!", "world"]);
    assert_eq!(
        FramePatch::between(Some(&a), &b),
        FramePatch::between(Some(&a), &b)
    );
}

#[test]
fn incompatible_frames_give_full_patch() {
    let a = frame_from_rows(&["hello"]);
    let mut b = frame_from_rows(&["hello"]);
    b.skin_fingerprint = 42;
    let patch = FramePatch::between(Some(&a), &b);
    assert!(patch.is_full());
    let c = frame_from_rows_width(&["hello"], a.width + 1);
    assert!(FramePatch::between(Some(&a), &c).is_full());
    let mut d = a.clone();
    d.version += 1;
    assert!(FramePatch::between(Some(&a), &d).is_full());
}

#[test]
fn shortened_line_is_erased() {
    let a = frame_from_rows(&["hello world"]);
    let b = frame_from_rows(&["hello"]);
    let patch = FramePatch::between(Some(&a), &b);
    assert!(!patch.is_full());
    assert!(patch
        .ops()
        .iter()
        .any(|op| matches!(op, PatchOp::ClearToEndOfLine)));
    assert!(patch.cells_written() <= 5);
}

#[test]
fn apply_to_reproduces_next_frame() {
    let a = frame_from_rows(&["hello world", "a 好 b", "third line"]);
    let b = frame_from_rows(&["hello", "a 好c", "third line!"]);
    let patch = FramePatch::between(Some(&a), &b);
    let mut applied = a.clone();
    patch.apply_to(&mut applied);
    assert_eq!(applied, b);
    // a full patch applied on a blank frame also works
    let full = FramePatch::between(None, &b);
    assert!(full.is_full());
    let mut blank = Frame::new(b.width, b.height, b.skin_fingerprint);
    full.apply_to(&mut blank);
    assert_eq!(blank, b);
}
