//! Frames: snapshots of the cells of a rectangular screen area.

use crate::cell::{blank_cell, Cell, CellView};
use crate::style::default_style;
use vstd::prelude::*;
use vstd::string::*;

verus! {

/// Version of the frame serialization format.
///
/// Frames saved with a different version must not be
/// patched over: a full frame is required.
pub const FRAME_FORMAT_VERSION: u16 = 1;

/// A rectangular area of the screen.
#[derive(Debug, Clone, Copy, PartialEq, Eq, Structural)]
pub struct Area {
    pub left: u16,
    pub top: u16,
    pub width: u16,
    pub height: u16,
}

/// Why a saved frame can't be used as the base of a patch
#[derive(Debug, Clone, Copy, PartialEq, Eq, Structural)]
pub enum FrameMismatch {
    /// the frame was saved with another format version
    Version,
    /// the frame doesn't cover the same area
    Geometry,
    /// the frame was rendered with another skin
    SkinFingerprint,
}

impl FrameMismatch {
    /// A description of the mismatch.
    pub fn description(&self) -> (s: &'static str)
        ensures
            *self == FrameMismatch::Version ==> s@ == "frame format version mismatch"@,
            *self == FrameMismatch::Geometry ==> s@ == "frame geometry mismatch"@,
            *self == FrameMismatch::SkinFingerprint ==> s@ == "frame skin mismatch"@,
    {
        match self {
            FrameMismatch::Version => "frame format version mismatch",
            FrameMismatch::Geometry => "frame geometry mismatch",
            FrameMismatch::SkinFingerprint => "frame skin mismatch",
        }
    }
}

/// A snapshot of a viewport: the content and style of every
/// cell of a rectangular screen area.
///
/// Frames can be saved (eg. when a connection drops) and checked
/// later against the current area and skin with
/// [`check`](Self::check) before being used as the base of a patch.
#[derive(Debug, Clone, PartialEq)]
pub struct Frame {
    /// format version, see [`FRAME_FORMAT_VERSION`]
    pub version: u16,
    pub left: u16,
    pub top: u16,
    pub width: u16,
    pub height: u16,
    /// fingerprint of the skin used for the rendering
    pub skin_fingerprint: u64,
    /// the rows of cells, top to bottom
    pub cells: Vec<Vec<Cell>>,
}

/// The mathematical value of a frame.
pub struct FrameView {
    pub version: u16,
    pub left: u16,
    pub top: u16,
    pub width: u16,
    pub height: u16,
    pub skin_fingerprint: u64,
    /// the rows of cells, top to bottom
    pub cells: Seq<Seq<CellView>>,
}

/// The values of a row of cells.
pub open spec fn row_view(row: Seq<Cell>) -> Seq<CellView> {
    row.map_values(|c: Cell| c@)
}

/// The values of the rows of a frame.
pub open spec fn rows_view(rows: Seq<Vec<Cell>>) -> Seq<Seq<CellView>> {
    rows.map_values(|r: Vec<Cell>| row_view(r@))
}

impl View for Frame {
    type V = FrameView;

    open spec fn view(&self) -> FrameView {
        FrameView {
            version: self.version,
            left: self.left,
            top: self.top,
            width: self.width,
            height: self.height,
            skin_fingerprint: self.skin_fingerprint,
            cells: rows_view(self.cells@),
        }
    }
}

/// A frame is well formed when it has `height` rows of `width` cells.
pub open spec fn frame_wf(f: FrameView) -> bool {
    &&& f.cells.len() == f.height
    &&& forall|y: int| 0 <= y < f.cells.len() ==> (#[trigger] f.cells[y]).len() == f.width
}

/// A row of `width` blank cells of the default style.
pub open spec fn blank_row(width: int) -> Seq<CellView> {
    Seq::new(width as nat, |x: int| blank_cell(default_style()))
}

/// `height` rows of `width` blank cells of the default style.
pub open spec fn blank_rows(width: int, height: int) -> Seq<Seq<CellView>> {
    Seq::new(height as nat, |y: int| blank_row(width))
}

/// FNV-1a offset basis (64 bits)
pub const FNV_OFFSET: u64 = 0xcbf29ce484222325;

/// FNV-1a prime (64 bits)
pub const FNV_PRIME: u64 = 0x100000001b3;

/// The 64-bit FNV-1a hash of bytes.
pub open spec fn fnv1a(bytes: Seq<u8>) -> u64
    decreases bytes.len(),
{
    if bytes.len() == 0 {
        FNV_OFFSET
    } else {
        (fnv1a(bytes.drop_last()) ^ (bytes.last() as u64)).wrapping_mul(FNV_PRIME)
    }
}

/// Whether two frames can be diffed: same version, geometry and skin.
pub open spec fn compatible(a: FrameView, b: FrameView) -> bool {
    &&& a.version == b.version
    &&& a.left == b.left
    &&& a.top == b.top
    &&& a.width == b.width
    &&& a.height == b.height
    &&& a.skin_fingerprint == b.skin_fingerprint
}

/// The outcome of checking a frame against an area and a skin
/// fingerprint.
pub open spec fn check_spec(f: FrameView, area: Area, fingerprint: u64) -> Result<(), FrameMismatch> {
    if f.version != FRAME_FORMAT_VERSION {
        Err(FrameMismatch::Version)
    } else if f.left != area.left || f.top != area.top || f.width != area.width || f.height
        != area.height {
        Err(FrameMismatch::Geometry)
    } else if f.skin_fingerprint != fingerprint {
        Err(FrameMismatch::SkinFingerprint)
    } else {
        Ok(())
    }
}

fn blank_cells(width: u16, height: u16) -> (cells: Vec<Vec<Cell>>)
    ensures
        rows_view(cells@) == blank_rows(width as int, height as int),
{
    let mut cells: Vec<Vec<Cell>> = Vec::new();
    let mut y: u16 = 0;
    while y < height
        invariant
            y <= height,
            cells@.len() == y,
            forall|j: int| 0 <= j < y ==> row_view(#[trigger] cells@[j]@) == blank_row(width as int),
        decreases height - y,
    {
        let mut row: Vec<Cell> = Vec::new();
        let mut x: u16 = 0;
        while x < width
            invariant
                x <= width,
                row@.len() == x,
                forall|i: int| 0 <= i < x ==> (#[trigger] row@[i])@ == blank_cell(default_style()),
            decreases width - x,
        {
            row.push(Cell::default());
            x = x + 1;
        }
        proof {
            assert(row_view(row@) =~= blank_row(width as int));
        }
        cells.push(row);
        y = y + 1;
    }
    proof {
        assert(rows_view(cells@) =~= blank_rows(width as int, height as int));
    }
    cells
}

impl Frame {
    /// The blank frame for an area and the bytes of a skin's
    /// representation.
    pub open spec fn blank_spec(area: Area, skin: Seq<u8>) -> FrameView {
        FrameView {
            version: FRAME_FORMAT_VERSION,
            left: area.left,
            top: area.top,
            width: area.width,
            height: area.height,
            skin_fingerprint: fnv1a(skin),
            cells: blank_rows(area.width as int, area.height as int),
        }
    }

    /// A blank frame of the given size, at the origin of the screen,
    /// for the given skin fingerprint.
    pub fn new(width: u16, height: u16, skin_fingerprint: u64) -> (f: Frame)
        ensures
            f@ == (FrameView {
                version: FRAME_FORMAT_VERSION,
                left: 0,
                top: 0,
                width,
                height,
                skin_fingerprint,
                cells: blank_rows(width as int, height as int),
            }),
            frame_wf(f@),
    {
        Frame {
            version: FRAME_FORMAT_VERSION,
            left: 0,
            top: 0,
            width,
            height,
            skin_fingerprint,
            cells: blank_cells(width, height),
        }
    }

    /// Build a blank frame for the given area and skin (given by its
    /// debug representation).
    pub fn blank(area: &Area, skin: &str) -> (f: Frame)
        ensures
            f@ == Frame::blank_spec(*area, skin.spec_bytes()),
            frame_wf(f@),
    {
        Frame {
            version: FRAME_FORMAT_VERSION,
            left: area.left,
            top: area.top,
            width: area.width,
            height: area.height,
            skin_fingerprint: Self::skin_fingerprint(skin),
            cells: blank_cells(area.width, area.height),
        }
    }

    /// A fingerprint of the skin, given by its debug representation,
    /// suitable to detect skin changes between two renderings.
    ///
    /// It's the FNV-1a hash of the UTF-8 bytes of the representation,
    /// so it's stable across processes.
    pub fn skin_fingerprint(skin: &str) -> (h: u64)
        ensures
            h == fnv1a(skin.spec_bytes()),
    {
        let bytes = skin.as_bytes();
        let mut hash: u64 = FNV_OFFSET;
        let mut i: usize = 0;
        while i < bytes.len()
            invariant
                i <= bytes@.len(),
                bytes@ == skin.spec_bytes(),
                hash == fnv1a(bytes@.subrange(0, i as int)),
            decreases bytes@.len() - i,
        {
            proof {
                let pre = bytes@.subrange(0, i + 1);
                assert(pre.drop_last() =~= bytes@.subrange(0, i as int));
            }
            hash = (hash ^ (bytes[i] as u64)).wrapping_mul(FNV_PRIME);
            i = i + 1;
        }
        proof {
            assert(bytes@.subrange(0, i as int) =~= bytes@);
        }
        hash
    }

    /// The cell at the given 0-based position, relative to
    /// the frame's top-left corner
    pub fn cell(&self, row: usize, col: usize) -> (c: Option<&Cell>)
        ensures
            match c {
                Some(c) => row < self.cells@.len() && col < self.cells@[row as int]@.len()
                    && c@ == self@.cells[row as int][col as int],
                None => !(row < self.cells@.len() && col < self.cells@[row as int]@.len()),
            },
    {
        if row < self.cells.len() && col < self.cells[row].len() {
            Some(&self.cells[row][col])
        } else {
            None
        }
    }

    /// The cells of the given 0-based row
    pub fn row_cells(&self, row: usize) -> (r: Option<&[Cell]>)
        ensures
            match r {
                Some(r) => row < self.cells@.len() && row_view(r@) == self@.cells[row as int],
                None => row >= self.cells@.len(),
            },
    {
        if row < self.cells.len() {
            Some(self.cells[row].as_slice())
        } else {
            None
        }
    }

    /// Check this frame can be used as the base of a patch
    /// for a rendering in the given area with the given skin.
    ///
    /// On `Err(mismatch)`, a full frame must be written
    /// instead of a patch.
    pub fn check(&self, area: &Area, skin: &str) -> (r: Result<(), FrameMismatch>)
        ensures
            r == check_spec(self@, *area, fnv1a(skin.spec_bytes())),
    {
        if self.version != FRAME_FORMAT_VERSION {
            return Err(FrameMismatch::Version);
        }
        if self.left != area.left || self.top != area.top || self.width != area.width
            || self.height != area.height {
            return Err(FrameMismatch::Geometry);
        }
        if self.skin_fingerprint != Self::skin_fingerprint(skin) {
            return Err(FrameMismatch::SkinFingerprint);
        }
        Ok(())
    }

    /// whether this frame can be diffed with another one
    pub fn is_compatible(&self, other: &Frame) -> (b: bool)
        ensures
            b == compatible(self@, other@),
    {
        self.version == other.version && self.left == other.left && self.top == other.top
            && self.width == other.width && self.height == other.height
            && self.skin_fingerprint == other.skin_fingerprint
    }

    /// Whether the frame has `height` rows of `width` cells, as every
    /// frame built here has (a frame read back from a saved form may
    /// not).
    pub fn is_well_formed(&self) -> (b: bool)
        ensures
            b == frame_wf(self@),
    {
        if self.cells.len() != self.height as usize {
            return false;
        }
        let mut y: usize = 0;
        while y < self.cells.len()
            invariant
                y <= self.cells@.len(),
                forall|k: int| 0 <= k < y ==> (#[trigger] self@.cells[k]).len() == self.width,
            decreases self.cells@.len() - y,
        {
            if self.cells[y].len() != self.width as usize {
                assert(self@.cells[y as int].len() != self.width);
                return false;
            }
            y = y + 1;
        }
        true
    }
}

} // verus!
