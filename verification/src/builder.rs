//! A writer interpreting ANSI escape sequences and printable text to
//! build a frame, emulating a fixed size terminal screen.

use crate::ansi::{main_param, parse_unsigned, parse_unsigned_spec, split_chars, split_on, tokens_view};
use crate::cell::{blank_cell, continuation_cell, Cell, CellView};
use crate::frame::{frame_wf, row_view, rows_view, Area, Frame, FrameView};
use crate::style::{apply_sgr_spec, default_style, CellStyle};
use crate::text::{all_ascii, ascii_chars, display_width, grapheme_clusters, graphemes, str_width, string_from_chars, string_views, utf8_lossy, utf8_lossy_chars};
use crate::laws::law_builder_keeps_frame_shape;
use vstd::prelude::*;
use vstd::pervasive::VecAdditionalExecFns;
use vstd::slice::slice_subrange;
use vstd::string::*;

verus! {

/// The state of a frame builder: the frame being built, the cursor
/// (absolute screen coordinates), the current style, and whether the
/// rest of the line is discarded after a cropped grapheme.
pub struct BuilderView {
    pub frame: FrameView,
    pub col: int,
    pub row: int,
    pub style: CellStyle,
    pub blocked: bool,
}

/// A position saturated to `usize::MAX`.
pub open spec fn sat(v: int) -> int {
    if v > usize::MAX {
        usize::MAX as int
    } else {
        v
    }
}

/// A difference saturated to 0.
pub open spec fn sat_sub(a: int, b: int) -> int {
    if a < b {
        0
    } else {
        a - b
    }
}

/// The smaller of two integers.
pub open spec fn min(a: int, b: int) -> int {
    if a < b {
        a
    } else {
        b
    }
}

/// The first column of the builder's frame on the screen.
pub open spec fn b_left(b: BuilderView) -> int {
    b.frame.left as int
}

/// The first row of the builder's frame on the screen.
pub open spec fn b_top(b: BuilderView) -> int {
    b.frame.top as int
}

/// The column just after the builder's frame on the screen.
pub open spec fn b_right(b: BuilderView) -> int {
    b.frame.left + b.frame.width
}

/// The row just below the builder's frame on the screen.
pub open spec fn b_bottom(b: BuilderView) -> int {
    b.frame.top + b.frame.height
}

/// Whether absolute screen coordinates fall into the frame.
pub open spec fn in_frame(b: BuilderView, row: int, col: int) -> bool {
    b_top(b) <= row < b_bottom(b) && b_left(b) <= col < b_right(b)
}

/// The builder with the cell at frame relative coordinates (`r`, `k`)
/// replaced.
pub open spec fn with_cell(b: BuilderView, r: int, k: int, c: CellView) -> BuilderView {
    BuilderView {
        frame: FrameView { cells: b.frame.cells.update(r, b.frame.cells[r].update(k, c)), ..b.frame },
        ..b
    }
}

/// The builder with the cells `[from, to)` of the frame relative row
/// `r` made blank in the current style.
pub open spec fn with_blank_span(b: BuilderView, r: int, from: int, to: int) -> BuilderView {
    let row = b.frame.cells[r];
    BuilderView {
        frame: FrameView {
            cells: b.frame.cells.update(
                r,
                Seq::new(row.len(), |k: int| if from <= k < to { blank_cell(b.style) } else { row[k] }),
            ),
            ..b.frame
        },
        ..b
    }
}

/// The builder with the rows of absolute indexes `[from, to)` made blank
/// in the current style.
pub open spec fn with_blank_rows(b: BuilderView, from: int, to: int) -> BuilderView {
    BuilderView {
        frame: FrameView {
            cells: Seq::new(
                b.frame.cells.len(),
                |r: int|
                    if from <= b_top(b) + r < to {
                        Seq::new(b.frame.cells[r].len(), |k: int| blank_cell(b.style))
                    } else {
                        b.frame.cells[r]
                    },
            ),
            ..b.frame
        },
        ..b
    }
}

/// Erase (part of) the cursor's line: from the cursor (mode 0), up to
/// the cursor (mode 1), or all of it.
pub open spec fn erase_line_spec(b: BuilderView, mode: u16) -> BuilderView {
    if b.row < b_top(b) || b.row >= b_bottom(b) {
        b
    } else {
        let r = b.row - b_top(b);
        let width = b.frame.width as int;
        let start = min(sat_sub(b.col, b_left(b)), width);
        let end = min(sat_sub(sat(b.col + 1), b_left(b)), width);
        if mode == 0 {
            with_blank_span(b, r, start, width)
        } else if mode == 1 {
            with_blank_span(b, r, 0, end)
        } else {
            with_blank_span(b, r, 0, width)
        }
    }
}

/// Erase (part of) the display: from the cursor (mode 0), up to the
/// cursor (mode 1), or all of it.
pub open spec fn erase_display_spec(b: BuilderView, mode: u16) -> BuilderView {
    if mode == 0 {
        with_blank_rows(erase_line_spec(b, 0), sat(b.row + 1), b_bottom(b))
    } else if mode == 1 {
        erase_line_spec(with_blank_rows(b, b_top(b), min(b.row, b_bottom(b))), 1)
    } else {
        with_blank_rows(b, b_top(b), b_bottom(b))
    }
}

/// Move to the next tab stop (every 8 columns), blanking the cells
/// passed over, without going past the right edge.
pub open spec fn put_tab_spec(b: BuilderView) -> BuilderView {
    let next = sat((b.col / 8 + 1) * 8);
    let end = min(next, b_right(b));
    if b.col < end {
        let moved = BuilderView { col: end, ..b };
        if b_top(b) <= b.row < b_bottom(b) {
            with_blank_span(moved, b.row - b_top(b), sat_sub(b.col, b_left(b)), end - b_left(b))
        } else {
            moved
        }
    } else {
        b
    }
}

/// Write at the cursor a grapheme whose display width is `w`.
///
/// A zero width grapheme (combining mark, variation selector, ...) is
/// merged into the cluster of the previous cell (of the leading cell
/// when it's the continuation of a wide grapheme). A grapheme which
/// doesn't fit in the rest of the line is cropped: the cursor's cell
/// is blanked and the rest of the line is discarded.
pub open spec fn put_sized_grapheme_spec(b: BuilderView, g: Seq<char>, w: int) -> BuilderView {
    if b.blocked {
        b
    } else if w == 0 {
        let col = if b.col > 0 { b.col - 1 } else { b.col };
        if in_frame(b, b.row, col) {
            let r = b.row - b_top(b);
            let k = col - b_left(b);
            let c = b.frame.cells[r][k];
            if b.col > 0 && c.continuation && k > 0 {
                let lead = b.frame.cells[r][k - 1];
                with_cell(b, r, k - 1, CellView { symbol: lead.symbol + g, ..lead })
            } else {
                with_cell(b, r, k, CellView { symbol: c.symbol + g, ..c })
            }
        } else {
            b
        }
    } else if b.col >= b_left(b) && b.col + w > b_right(b) {
        let cropped = BuilderView { blocked: true, ..b };
        if in_frame(b, b.row, b.col) {
            with_cell(cropped, b.row - b_top(b), b.col - b_left(b), blank_cell(b.style))
        } else {
            cropped
        }
    } else {
        let moved = BuilderView { col: sat(b.col + w), ..b };
        if in_frame(b, b.row, b.col) {
            let r = b.row - b_top(b);
            let k = b.col - b_left(b);
            let written = with_cell(moved, r, k, CellView { symbol: g, style: b.style, continuation: false });
            if w == 2 {
                with_cell(written, r, k + 1, continuation_cell(b.style))
            } else {
                written
            }
        } else {
            moved
        }
    }
}

/// Write a grapheme at the cursor (see [`put_sized_grapheme_spec`]).
pub open spec fn put_grapheme_spec(b: BuilderView, g: Seq<char>) -> BuilderView {
    put_sized_grapheme_spec(b, g, display_width(g) as int)
}

/// The first index from `k` on whose character isn't in `lo..=hi`.
pub open spec fn scan_while(s: Seq<char>, k: int, lo: char, hi: char) -> int
    decreases s.len() - k,
{
    if k < 0 || k >= s.len() || !(lo <= s[k] <= hi) {
        k
    } else {
        scan_while(s, k + 1, lo, hi)
    }
}

/// The value of a CSI parameter: its main part (before any `:`) as a
/// `u16`, or 0 when it isn't one.
pub open spec fn csi_param_value(part: Seq<char>) -> u16 {
    match parse_unsigned_spec(main_param(part), 65535) {
        Some(v) => v as u16,
        None => 0,
    }
}

/// The parameters of a CSI sequence, separated by `;`.
pub open spec fn csi_params(ps: Seq<char>) -> Seq<u16> {
    if ps.len() == 0 {
        Seq::empty()
    } else {
        split_on(ps, ';').map_values(|part: Seq<char>| csi_param_value(part))
    }
}

/// The parameter `idx` when it's given and not 0, and `default`
/// otherwise.
pub open spec fn csi_param(params: Seq<u16>, idx: int, default: u16) -> int {
    if 0 <= idx < params.len() && params[idx] > 0 {
        params[idx] as int
    } else {
        default as int
    }
}

/// The first parameter, or 0.
pub open spec fn csi_mode(params: Seq<u16>) -> u16 {
    if params.len() > 0 {
        params[0]
    } else {
        0
    }
}

/// The effect of a CSI sequence with the given parameters and final
/// character: styles, cursor moves, erasures.
pub open spec fn csi_effect(b: BuilderView, params: Seq<u16>, fin: char) -> BuilderView {
    let p = csi_param(params, 0, 1);
    if fin == 'm' {
        BuilderView { style: apply_sgr_spec(b.style, params), ..b }
    } else if fin == 'H' || fin == 'f' {
        BuilderView { row: p - 1, col: csi_param(params, 1, 1) - 1, blocked: false, ..b }
    } else if fin == 'A' {
        BuilderView { row: sat_sub(b.row, p), blocked: false, ..b }
    } else if fin == 'B' || fin == 'e' {
        BuilderView { row: sat(b.row + p), blocked: false, ..b }
    } else if fin == 'C' || fin == 'a' {
        BuilderView { col: sat(b.col + p), blocked: false, ..b }
    } else if fin == 'D' {
        BuilderView { col: sat_sub(b.col, p), blocked: false, ..b }
    } else if fin == 'E' {
        BuilderView { row: sat(b.row + p), col: 0, blocked: false, ..b }
    } else if fin == 'F' {
        BuilderView { row: sat_sub(b.row, p), col: 0, blocked: false, ..b }
    } else if fin == 'G' || fin == '`' {
        BuilderView { col: p - 1, blocked: false, ..b }
    } else if fin == 'd' {
        BuilderView { row: p - 1, blocked: false, ..b }
    } else if fin == 'J' {
        erase_display_spec(b, csi_mode(params))
    } else if fin == 'K' {
        erase_line_spec(b, csi_mode(params))
    } else {
        b
    }
}

/// Whether a character isn't ASCII (its UTF-8 encoding has several
/// bytes).
pub open spec fn is_non_ascii(c: char) -> bool {
    c > '\x7f'
}

/// Interpret the CSI sequence at the start of `rest` (which starts with
/// `ESC [`): the new state and the number of characters consumed, or
/// `None` when the sequence ends in the middle of a multi-byte
/// character.
pub open spec fn csi_step(b: BuilderView, rest: Seq<char>) -> Option<(BuilderView, int)> {
    let pe = scan_while(rest, 2, '0', '?');
    let p = scan_while(rest, pe, ' ', '/');
    if p >= rest.len() {
        Some((b, p))
    } else {
        let fin = rest[p];
        if !('@' <= fin <= '~') {
            if is_non_ascii(fin) {
                None
            } else {
                Some((b, p + 1))
            }
        } else {
            let ps = rest.subrange(2, pe);
            if ps.len() > 0 && (ps[0] == '?' || ps[0] == '>') {
                Some((b, p + 1))
            } else {
                Some((csi_effect(b, csi_params(ps), fin), p + 1))
            }
        }
    }
}

/// The end of an OSC sequence: after the BEL or the ST (`ESC \`) ending
/// it, or the end of the input.
pub open spec fn osc_end(rest: Seq<char>, k: int) -> int
    decreases rest.len() - k,
{
    if k < 0 || k >= rest.len() {
        rest.len() as int
    } else if rest[k] == '\x07' {
        k + 1
    } else if rest[k] == '\x1b' && k + 1 < rest.len() && rest[k + 1] == '\\' {
        k + 2
    } else {
        osc_end(rest, k + 1)
    }
}

/// Interpret the escape sequence at the start of `rest` (which starts
/// with ESC).
pub open spec fn escape_step(b: BuilderView, rest: Seq<char>) -> Option<(BuilderView, int)> {
    if rest.len() < 2 {
        Some((b, 1))
    } else if rest[1] == '[' {
        csi_step(b, rest)
    } else if rest[1] == ']' {
        Some((b, osc_end(rest, 2)))
    } else if rest[1] == '(' || rest[1] == ')' || rest[1] == '*' || rest[1] == '+' {
        if rest.len() < 3 {
            Some((b, 2))
        } else if is_non_ascii(rest[2]) {
            None
        } else {
            Some((b, 3))
        }
    } else if is_non_ascii(rest[1]) {
        None
    } else {
        Some((b, 2))
    }
}

/// Interpret the start of the (non-empty) input: the new state and the
/// number of characters consumed, or `None` when the input can't be
/// interpreted (an escape sequence cut in the middle of a multi-byte
/// character).
pub open spec fn step_spec(b: BuilderView, s: Seq<char>) -> Option<(BuilderView, int)> {
    let c = s[0];
    if c == '\x1b' {
        escape_step(b, s)
    } else if c == '\n' {
        Some((BuilderView { row: sat(b.row + 1), col: 0, blocked: false, ..b }, 1))
    } else if c == '\r' {
        Some((BuilderView { col: 0, ..b }, 1))
    } else if c == '\t' {
        Some((put_tab_spec(b), 1))
    } else if c < ' ' || c == '\x7f' {
        Some((b, 1))
    } else {
        let g = grapheme_clusters(s)[0];
        Some((put_grapheme_spec(b, g), g.len() as int))
    }
}

/// Interpret a whole input: the final state, or `None` when the input
/// can't be interpreted.
pub open spec fn run_spec(b: BuilderView, s: Seq<char>) -> Option<BuilderView>
    decreases s.len(),
{
    if s.len() == 0 {
        Some(b)
    } else {
        match step_spec(b, s) {
            None => None,
            Some((next, n)) => {
                let consumed = if n < 1 {
                    1
                } else if n > s.len() {
                    s.len() as int
                } else {
                    n
                };
                run_spec(next, s.subrange(consumed, s.len() as int))
            },
        }
    }
}

// ---------------------------------------------------------------------
// The builder

/// A writer interpreting ANSI escape sequences and printable
/// text to build a [`Frame`].
///
/// It understands the sequences emitted when rendering (SGR styles,
/// cursor moves, erasures) and emulates a fixed size terminal screen,
/// with correct handling of wide graphemes, combining characters, zero
/// width joiners and tabulations.
///
/// Anything written is buffered then interpreted on
/// [`finish`](Self::finish), so partial escape sequences
/// split across several writes are correctly handled.
pub struct FrameBuilder {
    frame: Frame,
    /// absolute cursor column
    col: usize,
    /// absolute cursor row
    row: usize,
    style: CellStyle,
    /// set when a grapheme had to be cropped at the right
    /// edge: following printable characters of the line are
    /// discarded
    line_blocked: bool,
    buf: Vec<u8>,
}

impl View for FrameBuilder {
    type V = BuilderView;

    closed spec fn view(&self) -> BuilderView {
        BuilderView {
            frame: self.frame@,
            col: self.col as int,
            row: self.row as int,
            style: self.style,
            blocked: self.line_blocked,
        }
    }
}

/// The state of a builder starting from a frame.
pub open spec fn seeded_state(f: FrameView) -> BuilderView {
    BuilderView { frame: f, col: 0, row: 0, style: default_style(), blocked: false }
}

impl FrameBuilder {
    /// The bytes written and not interpreted yet.
    pub closed spec fn pending(&self) -> Seq<u8> {
        self.buf@
    }

    /// The frame being built has its declared size.
    pub closed spec fn wf(&self) -> bool {
        frame_wf(self.frame@)
    }

    /// A builder is well formed exactly when the frame it builds has its
    /// declared size.
    pub proof fn lemma_wf(&self)
        ensures
            self.wf() <==> frame_wf(self@.frame),
    {
    }

    /// Build a builder for a blank frame covering the given area, for
    /// the skin of the given debug representation.
    pub fn new(area: &Area, skin: &str) -> (b: Self)
        ensures
            b.wf(),
            b.pending() == Seq::<u8>::empty(),
            b@ == seeded_state(Frame::blank_spec(*area, skin.spec_bytes())),
    {
        Self::seeded(Frame::blank(area, skin))
    }

    /// Build a builder starting from an existing frame.
    ///
    /// This is mostly useful to apply a patch on a previously
    /// captured frame, eg. to check or simulate a restoration.
    pub fn seeded(frame: Frame) -> (b: Self)
        requires
            frame_wf(frame@),
        ensures
            b.wf(),
            b.pending() == Seq::<u8>::empty(),
            b@ == seeded_state(frame@),
    {
        FrameBuilder {
            frame,
            col: 0,
            row: 0,
            style: CellStyle::default(),
            line_blocked: false,
            buf: Vec::new(),
        }
    }

    /// Buffer bytes to interpret: returns the number of bytes taken
    /// (all of them).
    pub fn write(&mut self, buf: &[u8]) -> (n: usize)
        ensures
            n == buf@.len(),
            final(self)@ == old(self)@,
            final(self).wf() == old(self).wf(),
            final(self).pending() == old(self).pending() + buf@,
    {
        let mut i: usize = 0;
        while i < buf.len()
            invariant
                i <= buf@.len(),
                self@ == old(self)@,
                self.wf() == old(self).wf(),
                self.pending() == old(self).pending() + buf@.subrange(0, i as int),
            decreases buf@.len() - i,
        {
            self.buf.push(buf[i]);
            i = i + 1;
            proof {
                assert(self.pending() =~= old(self).pending() + buf@.subrange(0, i as int));
            }
        }
        proof {
            assert(buf@.subrange(0, i as int) =~= buf@);
        }
        buf.len()
    }

    fn left(&self) -> (v: usize)
        ensures
            v == b_left(self@),
    {
        self.frame.left as usize
    }

    fn top(&self) -> (v: usize)
        ensures
            v == b_top(self@),
    {
        self.frame.top as usize
    }

    fn right(&self) -> (v: usize)
        ensures
            v == b_right(self@),
    {
        self.left() + self.frame.width as usize
    }

    fn bottom(&self) -> (v: usize)
        ensures
            v == b_bottom(self@),
    {
        self.top() + self.frame.height as usize
    }

    /// Convert absolute screen coordinates into frame
    /// relative ones, if they fall into the frame
    fn rel(&self, row: usize, col: usize) -> (r: Option<(usize, usize)>)
        ensures
            match r {
                Some((rr, kk)) => in_frame(self@, row as int, col as int) && rr == row - b_top(self@)
                    && kk == col - b_left(self@),
                None => !in_frame(self@, row as int, col as int),
            },
    {
        if row >= self.top() && row < self.bottom() && col >= self.left() && col < self.right() {
            Some((row - self.top(), col - self.left()))
        } else {
            None
        }
    }

    fn set_cell(&mut self, r: usize, k: usize, cell: Cell)
        requires
            old(self).wf(),
            r < old(self)@.frame.height,
            k < old(self)@.frame.width,
        ensures
            final(self).wf(),
            final(self).pending() == old(self).pending(),
            final(self)@ == with_cell(old(self)@, r as int, k as int, cell@),
    {
        let ghost cv = cell@;
        let ghost old_row = old(self)@.frame.cells[r as int];
        let mut row: Vec<Cell> = Vec::new();
        self.frame.cells.set_and_swap(r, &mut row);
        proof {
            assert(row@.len() == self.frame.width);
        }
        row.set(k, cell);
        proof {
            assert(row_view(row@) =~= old_row.update(k as int, cv));
        }
        self.frame.cells.set_and_swap(r, &mut row);
        proof {
            assert(rows_view(self.frame.cells@) =~= old(self)@.frame.cells.update(
                r as int,
                old(self)@.frame.cells[r as int].update(k as int, cv),
            ));
        }
    }

    /// Append a grapheme to the symbol of a cell.
    fn append_symbol(&mut self, r: usize, k: usize, g: &str)
        requires
            old(self).wf(),
            r < old(self)@.frame.height,
            k < old(self)@.frame.width,
        ensures
            final(self).wf(),
            final(self).pending() == old(self).pending(),
            final(self)@ == with_cell(
                old(self)@,
                r as int,
                k as int,
                CellView { symbol: old(self)@.frame.cells[r as int][k as int].symbol + g@, ..old(self)@.frame.cells[r as int][k as int] },
            ),
    {
        let ghost old_row = old(self)@.frame.cells[r as int];
        let mut row: Vec<Cell> = Vec::new();
        self.frame.cells.set_and_swap(r, &mut row);
        proof {
            assert(row@.len() == self.frame.width);
        }
        let mut cell = Cell::continuation(CellStyle::default());
        row.set_and_swap(k, &mut cell);
        cell.symbol.append(g);
        let ghost cv = cell@;
        row.set_and_swap(k, &mut cell);
        proof {
            assert(row_view(row@) =~= old_row.update(k as int, cv));
        }
        self.frame.cells.set_and_swap(r, &mut row);
        proof {
            assert(rows_view(self.frame.cells@) =~= old(self)@.frame.cells.update(
                r as int,
                old(self)@.frame.cells[r as int].update(k as int, cv),
            ));
        }
    }

    /// Blank the cells `[from, to)` of the frame relative row `r`.
    fn blank_span(&mut self, r: usize, from: usize, to: usize)
        requires
            old(self).wf(),
            r < old(self)@.frame.height,
            to <= old(self)@.frame.width,
        ensures
            final(self).wf(),
            final(self).pending() == old(self).pending(),
            final(self)@ == with_blank_span(old(self)@, r as int, from as int, to as int),
    {
        let ghost old_row = old(self)@.frame.cells[r as int];
        let style = self.style;
        let mut row: Vec<Cell> = Vec::new();
        self.frame.cells.set_and_swap(r, &mut row);
        proof {
            assert(row_view(row@) == old_row);
        }
        let mut k = from;
        while k < to
            invariant
                from <= k,
                k <= to || k == from,
                style == old(self).style,
                to <= row@.len(),
                row@.len() == old_row.len(),
                forall|i: int|
                    0 <= i < row@.len() ==> (#[trigger] row@[i])@ == (if from <= i < k {
                        blank_cell(style)
                    } else {
                        old_row[i]
                    }),
            decreases to - k,
        {
            let blank = Cell::blank(style);
            row.set(k, blank);
            k = k + 1;
        }
        let ghost new_row = row_view(row@);
        self.frame.cells.set_and_swap(r, &mut row);
        proof {
            assert(new_row =~= Seq::new(
                old_row.len(),
                |i: int|
                    if from <= i < to {
                        blank_cell(old(self)@.style)
                    } else {
                        old_row[i]
                    },
            ));
            assert(rows_view(self.frame.cells@) =~= with_blank_span(old(self)@, r as int, from as int, to as int).frame.cells);
        }
    }

    fn erase_row(&mut self, row: usize)
        requires
            old(self).wf(),
        ensures
            final(self).wf(),
            final(self).pending() == old(self).pending(),
            final(self)@ == with_blank_rows(old(self)@, row as int, row + 1),
    {
        let ghost b = self@;
        if let Some((rel_row, _)) = self.rel(row, self.left()) {
            let width = self.frame.width as usize;
            self.blank_span(rel_row, 0, width);
            proof {
                assert(self@.frame.cells =~= with_blank_rows(b, row as int, row + 1).frame.cells) by {
                    assert forall|r: int| 0 <= r < b.frame.cells.len() implies self@.frame.cells[r]
                        =~= with_blank_rows(b, row as int, row + 1).frame.cells[r] by {
                        assert(b.frame.cells[r].len() == b.frame.width);
                    }
                }
            }
        } else {
            proof {
                assert forall|r: int| 0 <= r < b.frame.cells.len() implies b.frame.cells[r]
                    =~= with_blank_rows(b, row as int, row + 1).frame.cells[r] by {
                    assert(b.frame.cells[r].len() == b.frame.width);
                }
                assert(b.frame.cells =~= with_blank_rows(b, row as int, row + 1).frame.cells);
            }
        }
    }

    /// Erase the rows `[from, to)`.
    fn erase_rows(&mut self, from: usize, to: usize)
        requires
            old(self).wf(),
        ensures
            final(self).wf(),
            final(self).pending() == old(self).pending(),
            final(self)@ == with_blank_rows(old(self)@, from as int, to as int),
    {
        let ghost b = self@;
        let mut row = from;
        proof {
            assert forall|r: int| 0 <= r < b.frame.cells.len() implies b.frame.cells[r]
                =~= with_blank_rows(b, from as int, from as int).frame.cells[r] by {}
            assert(b.frame.cells =~= with_blank_rows(b, from as int, from as int).frame.cells);
        }
        while row < to
            invariant
                from <= row,
                row <= to || row == from,
                self.wf(),
                self.pending() == old(self).pending(),
                self@ == with_blank_rows(b, from as int, row as int),
                b == old(self)@,
            decreases to - row,
        {
            let ghost before = self@;
            self.erase_row(row);
            proof {
                assert forall|r: int| 0 <= r < b.frame.cells.len() implies self@.frame.cells[r]
                    =~= with_blank_rows(b, from as int, row + 1).frame.cells[r] by {
                    assert(b.frame.cells[r].len() == before.frame.cells[r].len());
                }
                assert(self@.frame.cells =~= with_blank_rows(b, from as int, row + 1).frame.cells);
            }
            row = row + 1;
        }
        proof {
            if to < from {
                assert forall|r: int| 0 <= r < b.frame.cells.len() implies self@.frame.cells[r]
                    =~= with_blank_rows(b, from as int, to as int).frame.cells[r] by {}
                assert(self@.frame.cells =~= with_blank_rows(b, from as int, to as int).frame.cells);
            }
        }
    }

    fn erase_line(&mut self, mode: u16)
        requires
            old(self).wf(),
        ensures
            final(self).wf(),
            final(self).pending() == old(self).pending(),
            final(self)@ == erase_line_spec(old(self)@, mode),
    {
        if self.row < self.top() || self.row >= self.bottom() {
            return;
        }
        let rel_row = self.row - self.top();
        let width = self.frame.width as usize;
        let s = self.col.saturating_sub(self.left());
        let start = if s < width {
            s
        } else {
            width
        };
        let e = self.col.saturating_add(1).saturating_sub(self.left());
        let end = if e < width {
            e
        } else {
            width
        };
        if mode == 0 {
            self.blank_span(rel_row, start, width);
        } else if mode == 1 {
            self.blank_span(rel_row, 0, end);
        } else {
            self.blank_span(rel_row, 0, width);
        }
    }

    fn erase_display(&mut self, mode: u16)
        requires
            old(self).wf(),
        ensures
            final(self).wf(),
            final(self).pending() == old(self).pending(),
            final(self)@ == erase_display_spec(old(self)@, mode),
    {
        if mode == 0 {
            self.erase_line(0);
            let from = self.row.saturating_add(1);
            let to = self.bottom();
            self.erase_rows(from, to);
        } else if mode == 1 {
            let top = self.top();
            let bottom = self.bottom();
            let to = if self.row < bottom {
                self.row
            } else {
                bottom
            };
            self.erase_rows(top, to);
            self.erase_line(1);
        } else {
            let top = self.top();
            let bottom = self.bottom();
            self.erase_rows(top, bottom);
        }
    }

    fn put_tab(&mut self)
        requires
            old(self).wf(),
        ensures
            final(self).wf(),
            final(self).pending() == old(self).pending(),
            final(self)@ == put_tab_spec(old(self)@),
    {
        let ghost b = self@;
        // standard terminal tab stops, every 8 columns
        let q = self.col / 8 + 1;
        let next = if q > usize::MAX / 8 {
            usize::MAX
        } else {
            q * 8
        };
        proof {
            if q > usize::MAX / 8 {
                assert(q * 8 > usize::MAX) by (nonlinear_arith)
                    requires
                        q > usize::MAX / 8,
                ;
            }
            assert(next == sat((b.col / 8 + 1) * 8));
        }
        let left = self.left();
        let right = self.right();
        let end = if next < right {
            next
        } else {
            right
        };
        if self.col < end {
            if self.row >= self.top() && self.row < self.bottom() {
                let r = self.row - self.top();
                let from = self.col.saturating_sub(left);
                let to = end.saturating_sub(left);
                self.blank_span(r, from, to);
                proof {
                    let expected = with_blank_span(
                        BuilderView { col: end as int, ..b },
                        b.row - b_top(b),
                        sat_sub(b.col, b_left(b)),
                        end - b_left(b),
                    );
                    assert(self@.frame.cells[r as int] =~= expected.frame.cells[r as int]);
                    assert(self@.frame.cells =~= expected.frame.cells);
                }
            }
            self.col = end;
        }
    }

    fn put_grapheme(&mut self, g: &str)
        requires
            old(self).wf(),
        ensures
            final(self).wf(),
            final(self).pending() == old(self).pending(),
            final(self)@ == put_grapheme_spec(old(self)@, g@),
    {
        let width = str_width(g);
        self.put_sized_grapheme(g, width);
    }

    /// Write at the cursor a grapheme whose display width is `width`:
    /// a zero width grapheme joins the cluster of the previous cell, a
    /// grapheme which doesn't fit in the rest of the line is cropped.
    pub fn put_sized_grapheme(&mut self, g: &str, width: usize)
        requires
            old(self).wf(),
        ensures
            final(self).wf(),
            final(self).pending() == old(self).pending(),
            final(self)@ == put_sized_grapheme_spec(old(self)@, g@, width as int),
    {
        let ghost b = self@;
        if self.line_blocked {
            return;
        }
        if width == 0 {
            // zero width cluster (combining mark, variation
            // selector, ...): merge it into the cluster of
            // the current or previous cell
            let mut col = self.col;
            if col > 0 {
                col = col - 1;
                if let Some((r, k)) = self.rel(self.row, col) {
                    proof {
                        assert(self.frame.cells@[r as int]@.len() == self.frame.width);
                    }
                    if self.frame.cells[r][k].continuation && k > 0 {
                        self.append_symbol(r, k - 1, g);
                        return;
                    }
                    self.append_symbol(r, k, g);
                }
            } else if let Some((r, k)) = self.rel(self.row, col) {
                self.append_symbol(r, k, g);
            }
            return;
        }
        let left = self.left();
        let right = self.right();
        if self.col >= left && (self.col > right || width > right - self.col) {
            // a grapheme (usually a wide one) doesn't fit in
            // the remaining cells of the line: it's cropped.
            // The current cell is blanked so that no stale
            // half-grapheme remains, and the rest of the line
            // is discarded.
            if let Some((r, k)) = self.rel(self.row, self.col) {
                self.set_cell(r, k, Cell::blank(self.style));
            }
            self.line_blocked = true;
            return;
        }
        if let Some((r, k)) = self.rel(self.row, self.col) {
            let symbol = String::from_str(g);
            let style = self.style;
            self.set_cell(r, k, Cell { symbol, style, continuation: false });
            if width == 2 {
                self.set_cell(r, k + 1, Cell::continuation(style));
            }
        }
        self.col = self.col.saturating_add(width);
    }
}

proof fn lemma_scan_while(s: Seq<char>, k: int, lo: char, hi: char)
    requires
        0 <= k <= s.len(),
    ensures
        k <= scan_while(s, k, lo, hi) <= s.len(),
        scan_while(s, k, lo, hi) < s.len() ==> !(lo <= s[scan_while(s, k, lo, hi)] <= hi),
    decreases s.len() - k,
{
    if k < s.len() && lo <= s[k] <= hi {
        lemma_scan_while(s, k + 1, lo, hi);
    }
}

proof fn lemma_osc_end(rest: Seq<char>, k: int)
    requires
        0 <= k <= rest.len(),
    ensures
        k <= osc_end(rest, k) <= rest.len(),
    decreases rest.len() - k,
{
    if k < rest.len() && rest[k] != '\x07' && !(rest[k] == '\x1b' && k + 1 < rest.len() && rest[k + 1]
        == '\\') {
        lemma_osc_end(rest, k + 1);
    }
}

/// The number of characters an escape sequence consumes is between 1
/// and the length of the input.
proof fn lemma_escape_step_len(b: BuilderView, rest: Seq<char>)
    requires
        rest.len() >= 1,
        escape_step(b, rest) is Some,
    ensures
        1 <= escape_step(b, rest).unwrap().1 <= rest.len(),
{
    if rest.len() >= 2 {
        if rest[1] == '[' {
            lemma_scan_while(rest, 2, '0', '?');
            let pe = scan_while(rest, 2, '0', '?');
            lemma_scan_while(rest, pe, ' ', '/');
        } else if rest[1] == ']' {
            lemma_osc_end(rest, 2);
        }
    }
}

/// The CSI parameters of the parameter characters.
fn csi_params_exec(ps: &[char]) -> (params: Vec<u16>)
    ensures
        params@ == csi_params(ps@),
{
    let mut params: Vec<u16> = Vec::new();
    if ps.len() == 0 {
        proof {
            assert(params@ =~= csi_params(ps@));
        }
        return params;
    }
    let parts = split_chars(ps, ';');
    let ghost tv = tokens_view(parts@);
    proof {
        assert(tv == split_on(ps@, ';'));
    }
    let mut i: usize = 0;
    while i < parts.len()
        invariant
            i <= parts@.len(),
            tv == tokens_view(parts@),
            params@ == tv.subrange(0, i as int).map_values(|part: Seq<char>| csi_param_value(part)),
        decreases parts@.len() - i,
    {
        let part = parts[i].as_slice();
        proof {
            assert(part@ == tv[i as int]);
        }
        let mut cut: usize = 0;
        while cut < part.len() && part[cut] != ':'
            invariant
                cut <= part@.len(),
                crate::ansi::sep_index(part@, ':', cut as int) == crate::ansi::sep_index(part@, ':', 0),
            decreases part@.len() - cut,
        {
            cut = cut + 1;
        }
        let main = slice_subrange(part, 0, cut);
        proof {
            assert(main@ == main_param(part@));
        }
        let v: u16 = match parse_unsigned(main, 65535) {
            Some(v) => v as u16,
            None => 0,
        };
        params.push(v);
        i = i + 1;
        proof {
            assert(params@ =~= tv.subrange(0, i as int).map_values(|part: Seq<char>| csi_param_value(part)));
        }
    }
    proof {
        assert(tv.subrange(0, i as int) =~= tv);
    }
    params
}

/// The parameter `idx` when it's given and not 0, `default` otherwise.
fn csi_param_exec(params: &Vec<u16>, idx: usize, default: u16) -> (v: u16)
    ensures
        v as int == csi_param(params@, idx as int, default),
{
    if idx < params.len() && params[idx] > 0 {
        params[idx]
    } else {
        default
    }
}

impl FrameBuilder {
    /// Interpret a CSI sequence (`rest` starts with `ESC [`). Return
    /// the consumed length.
    fn interpret_csi(&mut self, rest: &[char]) -> (n: Option<usize>)
        requires
            old(self).wf(),
            rest@.len() >= 2,
        ensures
            final(self).wf(),
            final(self).pending() == old(self).pending(),
            n is Some <==> csi_step(old(self)@, rest@) is Some,
            n is Some ==> final(self)@ == csi_step(old(self)@, rest@).unwrap().0,
            n is Some ==> n.unwrap() as int == csi_step(old(self)@, rest@).unwrap().1,
    {
        let ghost b = self@;
        let len = rest.len();
        let mut pos: usize = 2;
        proof {
            lemma_scan_while(rest@, 2, '0', '?');
        }
        while pos < len && '0' <= rest[pos] && rest[pos] <= '?'
            invariant
                2 <= pos <= len,
                len == rest@.len(),
                scan_while(rest@, pos as int, '0', '?') == scan_while(rest@, 2, '0', '?'),
            decreases len - pos,
        {
            pos = pos + 1;
        }
        let params_end = pos;
        proof {
            lemma_scan_while(rest@, params_end as int, ' ', '/');
        }
        while pos < len && ' ' <= rest[pos] && rest[pos] <= '/'
            invariant
                params_end <= pos <= len,
                len == rest@.len(),
                scan_while(rest@, pos as int, ' ', '/') == scan_while(rest@, params_end as int, ' ', '/'),
            decreases len - pos,
        {
            pos = pos + 1;
        }
        if pos >= len {
            // unterminated sequence at end of input
            return Some(pos);
        }
        let final_char = rest[pos];
        if !('@' <= final_char && final_char <= '~') {
            if final_char > '\x7f' {
                // the sequence would end inside a multi-byte character
                return None;
            }
            return Some(pos + 1);
        }
        let ps = slice_subrange(rest, 2, params_end);
        // DEC private sequences (eg "?25l") are ignored
        if ps.len() > 0 && (ps[0] == '?' || ps[0] == '>') {
            return Some(pos + 1);
        }
        let params = csi_params_exec(ps);
        let p = csi_param_exec(&params, 0, 1);
        if final_char == 'm' {
            self.style.apply_sgr(params.as_slice());
        } else if final_char == 'H' || final_char == 'f' {
            let p1 = csi_param_exec(&params, 1, 1);
            self.row = (p - 1) as usize;
            self.col = (p1 - 1) as usize;
            self.line_blocked = false;
        } else if final_char == 'A' {
            self.row = self.row.saturating_sub(p as usize);
            self.line_blocked = false;
        } else if final_char == 'B' || final_char == 'e' {
            self.row = self.row.saturating_add(p as usize);
            self.line_blocked = false;
        } else if final_char == 'C' || final_char == 'a' {
            self.col = self.col.saturating_add(p as usize);
            self.line_blocked = false;
        } else if final_char == 'D' {
            self.col = self.col.saturating_sub(p as usize);
            self.line_blocked = false;
        } else if final_char == 'E' {
            self.row = self.row.saturating_add(p as usize);
            self.col = 0;
            self.line_blocked = false;
        } else if final_char == 'F' {
            self.row = self.row.saturating_sub(p as usize);
            self.col = 0;
            self.line_blocked = false;
        } else if final_char == 'G' || final_char == '`' {
            self.col = (p - 1) as usize;
            self.line_blocked = false;
        } else if final_char == 'd' {
            self.row = (p - 1) as usize;
            self.line_blocked = false;
        } else if final_char == 'J' {
            let mode = if params.len() > 0 {
                params[0]
            } else {
                0
            };
            self.erase_display(mode);
        } else if final_char == 'K' {
            let mode = if params.len() > 0 {
                params[0]
            } else {
                0
            };
            self.erase_line(mode);
        }
        Some(pos + 1)
    }

    /// Interpret an escape sequence at the start of `rest`
    /// (which starts with ESC). Return the consumed length.
    fn interpret_escape(&mut self, rest: &[char]) -> (n: Option<usize>)
        requires
            old(self).wf(),
            rest@.len() >= 1,
        ensures
            final(self).wf(),
            final(self).pending() == old(self).pending(),
            n is Some <==> escape_step(old(self)@, rest@) is Some,
            n is Some ==> final(self)@ == escape_step(old(self)@, rest@).unwrap().0,
            n is Some ==> n.unwrap() as int == escape_step(old(self)@, rest@).unwrap().1,
    {
        let len = rest.len();
        if len < 2 {
            return Some(1);
        }
        let c = rest[1];
        if c == '[' {
            self.interpret_csi(rest)
        } else if c == ']' {
            // OSC: consume until BEL or ST (ESC \)
            let mut end: usize = 2;
            while end < len
                invariant
                    2 <= end <= len,
                    len == rest@.len(),
                    self@ == old(self)@,
                    self.wf(),
                    self.pending() == old(self).pending(),
                    rest@[1] == ']',
                    osc_end(rest@, end as int) == osc_end(rest@, 2),
                decreases len - end,
            {
                if rest[end] == '\x07' {
                    return Some(end + 1);
                }
                if rest[end] == '\x1b' && end + 1 < len && rest[end + 1] == '\\' {
                    return Some(end + 2);
                }
                end = end + 1;
            }
            Some(end)
        } else if c == '(' || c == ')' || c == '*' || c == '+' {
            // charset selection: ESC + 2 characters
            if len < 3 {
                Some(2)
            } else if rest[2] > '\x7f' {
                None
            } else {
                Some(3)
            }
        } else if c > '\x7f' {
            None
        } else {
            Some(2)
        }
    }

    /// Interpret characters, the pending bytes being left alone.
    fn interpret_chars(&mut self, input: &[char]) -> (ok: bool)
        requires
            old(self).wf(),
        ensures
            final(self).wf(),
            final(self).pending() == old(self).pending(),
            ok == run_spec(old(self)@, input@) is Some,
            ok ==> final(self)@ == run_spec(old(self)@, input@).unwrap(),
    {
        let ghost target = run_spec(old(self)@, input@);
        let n = input.len();
        let mut pos: usize = 0;
        proof {
            assert(input@.subrange(0, n as int) =~= input@);
        }
        while pos < n
            invariant
                pos <= n,
                n == input@.len(),
                self.wf(),
                self.pending() == old(self).pending(),
                run_spec(self@, input@.subrange(pos as int, n as int)) == target,
                target == run_spec(old(self)@, input@),
            decreases n - pos,
        {
            let rest = slice_subrange(input, pos, n);
            let ghost b = self@;
            let ghost rs = rest@;
            let ch = rest[0];
            let consumed: usize = if ch == '\x1b' {
                match self.interpret_escape(rest) {
                    Some(n) => {
                        proof {
                            lemma_escape_step_len(b, rs);
                        }
                        n
                    },
                    None => {
                        proof {
                            assert(step_spec(b, rs) is None);
                            assert(run_spec(b, rs) is None);
                        }
                        return false;
                    },
                }
            } else if ch == '\n' {
                self.row = self.row.saturating_add(1);
                self.col = 0;
                self.line_blocked = false;
                1
            } else if ch == '\r' {
                self.col = 0;
                1
            } else if ch == '\t' {
                self.put_tab();
                1
            } else if ch < ' ' || ch == '\x7f' {
                // other control characters are ignored
                1
            } else {
                let rest_string = string_from_chars(rest);
                let gs = graphemes(rest_string.as_str());
                proof {
                    if gs@.len() == 0 {
                        assert(string_views(gs@) =~= Seq::<Seq<char>>::empty());
                    }
                    assert(string_views(gs@).flatten() == string_views(gs@)[0] + string_views(gs@).drop_first().flatten());
                }
                let g = gs[0].as_str();
                proof {
                    assert(grapheme_clusters(rs)[0] == g@);
                }
                self.put_grapheme(g);
                g.unicode_len()
            };
            proof {
                let st = step_spec(b, rs);
                assert(st is Some);
                assert(self@ == st.unwrap().0);
                assert(consumed as int == st.unwrap().1);
                assert(1 <= consumed <= rs.len());
                assert(rs.subrange(consumed as int, rs.len() as int) =~= input@.subrange(pos + consumed, n as int));
            }
            pos = pos + consumed;
        }
        proof {
            assert(input@.subrange(n as int, n as int) =~= Seq::<char>::empty());
        }
        true
    }

    fn interpret_buffer(&mut self)
        requires
            old(self).wf(),
            finishable(old(self)@, old(self).pending()),
        ensures
            final(self).wf(),
            final(self).pending() == Seq::<u8>::empty(),
            run_spec(old(self)@, utf8_lossy(old(self).pending())) is Some,
            final(self)@ == run_spec(old(self)@, utf8_lossy(old(self).pending())).unwrap(),
            all_ascii(old(self).pending()) ==> utf8_lossy(old(self).pending()) == ascii_chars(old(self).pending()),
    {
        let input = utf8_lossy_chars(self.buf.as_slice());
        self.buf.clear();
        let _ = self.interpret_chars(input.as_slice());
    }

    /// Interpret everything which was written and return the resulting
    /// frame, or `None` when the input holds an escape sequence ending
    /// in the middle of a multi-byte character.
    pub fn try_finish(self) -> (f: Option<Frame>)
        requires
            self.wf(),
        ensures
            f is Some <==> run_spec(self@, utf8_lossy(self.pending())) is Some,
            f is Some ==> frame_wf(f.unwrap()@) && f.unwrap()@ == run_spec(
                self@,
                utf8_lossy(self.pending()),
            ).unwrap().frame,
            all_ascii(self.pending()) ==> (f is Some <==> run_spec(self@, ascii_chars(self.pending())) is Some),
            all_ascii(self.pending()) && f is Some ==> f.unwrap()@ == run_spec(
                self@,
                ascii_chars(self.pending()),
            ).unwrap().frame,
            self.pending().len() == 0 ==> f is Some && f.unwrap()@ == self@.frame,
    {
        // whether the input can be interpreted doesn't depend on the
        // state: it's checked on an empty frame
        let input = utf8_lossy_chars(self.buf.as_slice());
        let mut probe = FrameBuilder::seeded(Frame::new(0, 0, 0));
        let ghost probe_state = probe@;
        let ok = probe.interpret_chars(input.as_slice());
        proof {
            lemma_run_shape(probe_state, self@, input@);
            if self.pending().len() == 0 {
                assert(input@ =~= Seq::<char>::empty());
            }
        }
        if ok {
            Some(self.finish())
        } else {
            None
        }
    }

    /// Interpret everything which was written and return
    /// the resulting frame.
    pub fn finish(self) -> (f: Frame)
        requires
            self.wf(),
            finishable(self@, self.pending()),
        ensures
            frame_wf(f@),
            run_spec(self@, utf8_lossy(self.pending())) is Some,
            f@ == run_spec(self@, utf8_lossy(self.pending())).unwrap().frame,
            all_ascii(self.pending()) ==> f@ == run_spec(self@, ascii_chars(self.pending())).unwrap().frame,
            self.pending().len() == 0 ==> f@ == self@.frame,
    {
        let ghost pending = self.pending();
        proof {
            if pending.len() == 0 {
                assert(ascii_chars(pending) =~= Seq::<char>::empty());
            }
        }
        let mut builder = self;
        builder.interpret_buffer();
        builder.frame
    }
}

/// Whether the bytes written to a builder can be interpreted: their
/// decoding holds no escape sequence ending in the middle of a
/// multi-byte character. Stated on ASCII bytes by their characters.
pub open spec fn finishable(b: BuilderView, pending: Seq<u8>) -> bool {
    ||| run_spec(b, utf8_lossy(pending)) is Some
    ||| all_ascii(pending) && run_spec(b, ascii_chars(pending)) is Some
}

/// The state of a builder writing the row `y` of a frame: the row is
/// blank, the cursor at its start.
pub open spec fn row_writing_state(f: FrameView, y: int) -> BuilderView {
    BuilderView {
        frame: FrameView {
            cells: f.cells.update(y, Seq::new(f.width as nat, |k: int| blank_cell(default_style()))),
            ..f
        },
        col: f.left as int,
        row: f.top + y,
        style: default_style(),
        blocked: false,
    }
}

impl Frame {
    /// Set the content of the row `y` from a text holding ANSI
    /// sequences: the row is blanked, then the text is written from
    /// its start like a terminal would (wide graphemes taking two
    /// cells, graphemes which don't fit being cropped).
    ///
    /// Returns `false`, the frame being left unchanged, when the text
    /// holds an escape sequence ending in the middle of a multi-byte
    /// character.
    pub fn set_row_from_ansi(&mut self, y: usize, s: &str) -> (ok: bool)
        requires
            frame_wf(old(self)@),
            y < old(self).height,
        ensures
            frame_wf(final(self)@),
            ok == run_spec(row_writing_state(old(self)@, y as int), s@) is Some,
            ok ==> final(self)@ == run_spec(row_writing_state(old(self)@, y as int), s@).unwrap().frame,
            !ok ==> final(self)@ == old(self)@,
            final(self).version == old(self).version,
            final(self).left == old(self).left && final(self).top == old(self).top,
            final(self).width == old(self).width && final(self).height == old(self).height,
            final(self).skin_fingerprint == old(self).skin_fingerprint,
    {
        let ghost start = row_writing_state(old(self)@, y as int);
        proof {
            assert(frame_wf(start.frame)) by {
                assert forall|k: int| 0 <= k < start.frame.cells.len() implies (#[trigger] start.frame.cells[k]).len()
                    == start.frame.width by {
                    if k != y {
                        assert(start.frame.cells[k] == old(self)@.cells[k]);
                    }
                }
            }
            if run_spec(start, s@) is Some {
                law_builder_keeps_frame_shape(start, s@);
            }
        }
        let chars = crate::text::chars_of(s);
        let mut probe = FrameBuilder::seeded(Frame::new(0, 0, 0));
        let ghost probe_state = probe@;
        let interpretable = probe.interpret_chars(chars.as_slice());
        proof {
            lemma_run_shape(probe_state, start, chars@);
        }
        if !interpretable {
            return false;
        }
        let width = self.width;
        let mut blank: Vec<Cell> = Vec::new();
        let mut k: u16 = 0;
        while k < width
            invariant
                k <= width,
                blank@.len() == k,
                forall|i: int| 0 <= i < k ==> (#[trigger] blank@[i])@ == blank_cell(default_style()),
            decreases width - k,
        {
            blank.push(Cell::default());
            k = k + 1;
        }
        proof {
            assert(row_view(blank@) =~= Seq::new(width as nat, |k: int| blank_cell(default_style())));
        }
        self.cells.set_and_swap(y, &mut blank);
        proof {
            assert(self@.cells =~= start.frame.cells);
            assert(self@ == start.frame);
        }
        let mut frame = Frame::new(0, 0, 0);
        std::mem::swap(self, &mut frame);
        let col = frame.left as usize;
        let row = frame.top as usize + y;
        let mut builder = FrameBuilder {
            frame,
            col,
            row,
            style: CellStyle::default(),
            line_blocked: false,
            buf: Vec::new(),
        };
        let _ = builder.interpret_chars(chars.as_slice());
        *self = builder.frame;
        true
    }
}

/// Whether a step can be taken, and how many characters it consumes,
/// doesn't depend on the state.
proof fn lemma_step_shape(b1: BuilderView, b2: BuilderView, s: Seq<char>)
    requires
        s.len() > 0,
    ensures
        step_spec(b1, s) is Some <==> step_spec(b2, s) is Some,
        step_spec(b1, s) is Some ==> step_spec(b1, s).unwrap().1 == step_spec(b2, s).unwrap().1,
{
}

/// Whether an input can be interpreted doesn't depend on the state.
proof fn lemma_run_shape(b1: BuilderView, b2: BuilderView, s: Seq<char>)
    ensures
        run_spec(b1, s) is Some <==> run_spec(b2, s) is Some,
    decreases s.len(),
{
    if s.len() > 0 {
        lemma_step_shape(b1, b2, s);
        if step_spec(b1, s) is Some {
            let n = step_spec(b1, s).unwrap().1;
            let consumed = if n < 1 {
                1
            } else if n > s.len() {
                s.len() as int
            } else {
                n
            };
            lemma_run_shape(
                step_spec(b1, s).unwrap().0,
                step_spec(b2, s).unwrap().0,
                s.subrange(consumed, s.len() as int),
            );
        }
    }
}

} // verus!
