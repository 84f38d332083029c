use crossterm::cursor::MoveTo;
use crossterm::style::{Attribute, Attributes, Color, Colored, ContentStyle, PrintStyledContent};
use crossterm::terminal::{Clear, ClearType};
use crossterm::QueueableCommand;
use termframe::builder::FrameBuilder;
use termframe::frame::{Area, Frame};
use termframe::patch::{FramePatch, PatchOp};
use termframe::style::{CellStyle, FrameColor, TextAttribute};

fn color(c: FrameColor) -> Color {
    match c {
        FrameColor::Black => Color::Black,
        FrameColor::DarkGrey => Color::DarkGrey,
        FrameColor::Red => Color::Red,
        FrameColor::DarkRed => Color::DarkRed,
        FrameColor::Green => Color::Green,
        FrameColor::DarkGreen => Color::DarkGreen,
        FrameColor::Yellow => Color::Yellow,
        FrameColor::DarkYellow => Color::DarkYellow,
        FrameColor::Blue => Color::Blue,
        FrameColor::DarkBlue => Color::DarkBlue,
        FrameColor::Magenta => Color::Magenta,
        FrameColor::DarkMagenta => Color::DarkMagenta,
        FrameColor::Cyan => Color::Cyan,
        FrameColor::DarkCyan => Color::DarkCyan,
        FrameColor::White => Color::White,
        FrameColor::Grey => Color::Grey,
        FrameColor::Rgb(r, g, b) => Color::Rgb { r, g, b },
        FrameColor::AnsiValue(v) => Color::AnsiValue(v),
    }
}

fn attribute(a: TextAttribute) -> Attribute {
    match a {
        TextAttribute::Bold => Attribute::Bold,
        TextAttribute::Dim => Attribute::Dim,
        TextAttribute::Italic => Attribute::Italic,
        TextAttribute::Underlined => Attribute::Underlined,
        TextAttribute::SlowBlink => Attribute::SlowBlink,
        TextAttribute::RapidBlink => Attribute::RapidBlink,
        TextAttribute::Reverse => Attribute::Reverse,
        TextAttribute::Hidden => Attribute::Hidden,
        TextAttribute::CrossedOut => Attribute::CrossedOut,
        TextAttribute::Fraktur => Attribute::Fraktur,
        TextAttribute::Framed => Attribute::Framed,
        TextAttribute::Encircled => Attribute::Encircled,
        TextAttribute::OverLined => Attribute::OverLined,
    }
}

fn content_style(style: &CellStyle) -> ContentStyle {
    let mut attributes = Attributes::default();
    for a in style.attributes() {
        attributes.set(attribute(a));
    }
    ContentStyle {
        foreground_color: style.fg.map(color),
        background_color: style.bg.map(color),
        underline_color: None,
        attributes,
    }
}

fn terminal_bytes(patch: &FramePatch, area: &Area) -> Vec<u8> {
    let mut out: Vec<u8> = Vec::new();
    for op in patch.screen_ops(area).unwrap() {
        match op {
            PatchOp::MoveTo { x, y } => {
                out.queue(MoveTo(x, y)).unwrap();
            }
            PatchOp::Print { style, text } => {
                out.queue(PrintStyledContent(content_style(&style).apply(text))).unwrap();
            }
            PatchOp::ClearToEndOfLine => {
                out.queue(Clear(ClearType::UntilNewLine)).unwrap();
            }
        }
    }
    out
}

fn render(area: &Area, text: &str) -> Frame {
    let mut builder = FrameBuilder::new(area, "skin");
    builder.write(text.as_bytes());
    builder.try_finish().unwrap()
}

#[test]
fn patch_written_on_a_terminal_gives_the_next_frame() {
    Colored::set_ansi_color_disabled(false);
    let area = Area { left: 2, top: 1, width: 20, height: 4 };
    let prev = render(
        &area,
        "\u{1b}[2;3H# Status\u{1b}[3;3H\u{1b}[1mapi\u{1b}[0m is up\u{1b}[4;3Hlatency: 12ms\u{1b}[5;3Husers 🦀",
    );
    let next = render(
        &area,
        "\u{1b}[2;3H# Status\u{1b}[3;3H\u{1b}[1;38;5;2mapi\u{1b}[0m is \u{1b}[44mup  \u{1b}[4;3Hlatency: 128ms\u{1b}[5;3Husers",
    );
    let patch = prev.diff(&next);
    assert!(!patch.is_full());
    assert!(patch.cells_written() < next.full_patch().cells_written());
    let bytes = terminal_bytes(&patch, &area);
    let mut terminal = FrameBuilder::seeded(prev.clone());
    terminal.write(&bytes);
    assert_eq!(terminal.try_finish().unwrap(), next);
    // a full patch written over anything also gives the frame
    let full = next.full_patch();
    let mut terminal = FrameBuilder::new(&area, "skin");
    terminal.write(b"\x1b[2;3Hgarbage everywhere");
    terminal.write(&terminal_bytes(&full, &area));
    assert_eq!(terminal.try_finish().unwrap(), next);
}
