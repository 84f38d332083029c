//! Minimal row-level patches between two frames.

use crate::cell::{blank_cell, continuation_cell, is_blank_cell, is_default_blank_cell, Cell, CellView};
use crate::frame::{compatible, frame_wf, row_view, rows_view, Area, Frame, FrameView};
use crate::style::{default_style, CellStyle};
use crate::text::{all_printable_ascii, singletons, display_width, grapheme_clusters, graphemes, str_width, string_views};
use vstd::prelude::*;
use vstd::pervasive::VecAdditionalExecFns;
use vstd::string::*;

verus! {

/// One operation of a [`FramePatch`].
///
/// Coordinates are relative to the frame (ie to the area's origin).
#[derive(Clone, Debug, PartialEq)]
pub enum PatchOp {
    /// Move the cursor to a cell of the frame.
    MoveTo { x: u16, y: u16 },
    /// Write a run of same-style graphemes. The cursor advances by
    /// the display width of the text (wide graphemes included).
    Print { style: CellStyle, text: String },
    /// Erase from the cursor to the end of the line. Only emitted
    /// when the remaining cells of the row must be blank with the
    /// default style.
    ClearToEndOfLine,
}

/// The mathematical value of a patch operation.
pub enum OpView {
    MoveTo { x: u16, y: u16 },
    Print { style: CellStyle, text: Seq<char> },
    ClearToEndOfLine,
}

impl View for PatchOp {
    type V = OpView;

    open spec fn view(&self) -> OpView {
        match self {
            PatchOp::MoveTo { x, y } => OpView::MoveTo { x: *x, y: *y },
            PatchOp::Print { style, text } => OpView::Print { style: *style, text: text@ },
            PatchOp::ClearToEndOfLine => OpView::ClearToEndOfLine,
        }
    }
}

/// The values of a sequence of operations.
pub open spec fn ops_view(ops: Seq<PatchOp>) -> Seq<OpView> {
    ops.map_values(|op: PatchOp| op@)
}

/// A minimal, deterministic, row-level patch between two frames.
///
/// Applying the patch to a terminal which displays the `prev` frame
/// produces exactly the cells of the `next` frame. Operations are
/// emitted in a stable order (rows top to bottom, spans left to
/// right): the same inputs always produce the same patch.
#[derive(Clone, Debug, Default, PartialEq)]
pub struct FramePatch {
    /// Whether this patch rewrites the whole frame (because there
    /// was no previous frame, or because size, skin or format
    /// version didn't match).
    full: bool,
    ops: Vec<PatchOp>,
}

/// The mathematical value of a patch.
pub struct PatchView {
    pub full: bool,
    pub ops: Seq<OpView>,
}

impl View for FramePatch {
    type V = PatchView;

    closed spec fn view(&self) -> PatchView {
        PatchView { full: self.full, ops: ops_view(self.ops@) }
    }
}

// ---------------------------------------------------------------------
// What a patch is

/// The index of the first cell, from `i` on, where two rows differ (the
/// row length when they don't).
pub open spec fn first_diff(prev: Seq<CellView>, cur: Seq<CellView>, i: int) -> int
    decreases cur.len() - i,
{
    if i < 0 || i >= cur.len() || prev[i] != cur[i] {
        i
    } else {
        first_diff(prev, cur, i + 1)
    }
}

/// The index of the last cell in `(first, j]` where two rows differ,
/// or `first` when they don't differ there.
pub open spec fn last_diff(prev: Seq<CellView>, cur: Seq<CellView>, first: int, j: int) -> int
    decreases j - first,
{
    if j <= first || prev[j] != cur[j] {
        j
    } else {
        last_diff(prev, cur, first, j - 1)
    }
}

/// Whether a cell shows content: neither a blank nor the second half
/// of a wide grapheme.
pub open spec fn is_content(c: CellView) -> bool {
    !is_blank_cell(c) && !c.continuation
}

/// The index of the last content cell in `[0, j]`, or -1.
pub open spec fn last_content(cur: Seq<CellView>, j: int) -> int
    decreases j + 1,
{
    if j < 0 {
        -1
    } else if is_content(cur[j]) {
        j
    } else {
        last_content(cur, j - 1)
    }
}

/// The first index from `k` on which isn't a continuation cell.
pub open spec fn skip_continuations(cur: Seq<CellView>, k: int) -> int
    decreases cur.len() - k,
{
    if 0 <= k < cur.len() && cur[k].continuation {
        skip_continuations(cur, k + 1)
    } else {
        k
    }
}

/// The first index from `k` on (up to `end`) whose cell hasn't the
/// given style.
pub open spec fn run_end(cells: Seq<CellView>, k: int, style: CellStyle, end: int) -> int
    decreases end - k,
{
    if k >= end || cells[k].style != style {
        k
    } else {
        run_end(cells, k + 1, style, end)
    }
}

/// The end of a run isn't before its start.
pub proof fn lemma_run_end_bounds(cells: Seq<CellView>, k: int, style: CellStyle, end: int)
    ensures
        run_end(cells, k, style, end) >= k,
        k <= end ==> run_end(cells, k, style, end) <= end,
    decreases end - k,
{
    if k < end && cells[k].style == style {
        lemma_run_end_bounds(cells, k + 1, style, end);
    }
}

/// The symbol a cell contributes to a printed text: its grapheme, or
/// nothing for a continuation cell.
pub open spec fn printed_symbol(c: CellView) -> Seq<char> {
    if c.continuation {
        Seq::empty()
    } else {
        c.symbol
    }
}

/// The concatenation of the symbols of the cells `[i, j)`,
/// continuation cells skipped.
pub open spec fn run_text(cells: Seq<CellView>, i: int, j: int) -> Seq<char>
    decreases j - i,
{
    if j <= i {
        Seq::empty()
    } else {
        run_text(cells, i, j - 1) + printed_symbol(cells[j - 1])
    }
}

/// One `Print` per run of same-style cells in `[i, end)` (runs of
/// continuation cells only print nothing).
pub open spec fn span_ops(cells: Seq<CellView>, i: int, end: int) -> Seq<OpView>
    decreases end - i,
{
    if i < 0 || i >= end {
        Seq::empty()
    } else {
        let j = run_end(cells, i + 1, cells[i].style, end);
        proof {
            lemma_run_end_bounds(cells, i + 1, cells[i].style, end);
        }
        let text = run_text(cells, i, j);
        let print = if text.len() > 0 {
            seq![OpView::Print { style: cells[i].style, text }]
        } else {
            Seq::empty()
        };
        print + span_ops(cells, j, end)
    }
}

/// A move to (`x`, `y`) then the prints of the cells `[from, to]`.
pub open spec fn spans_spec(y: u16, x: u16, cells: Seq<CellView>, from: int, to: int) -> Seq<OpView> {
    seq![OpView::MoveTo { x, y }] + span_ops(cells, from, to + 1)
}

/// Whether all the cells from `from` to the end of the row are blank
/// with the default style.
pub open spec fn erasable_from(cur: Seq<CellView>, from: int) -> bool {
    forall|k: int| from <= k < cur.len() ==> is_default_blank_cell(#[trigger] cur[k])
}

/// The operations making the cells `[from, to]` blank, the cursor being
/// at (`x`, `y`): an erasure when the rest of the row is blank with the
/// default style, the cells' own spaces otherwise.
pub open spec fn blank_fill_spec(y: u16, x: u16, cur: Seq<CellView>, from: int, to: int) -> Seq<OpView> {
    if erasable_from(cur, from) {
        seq![OpView::ClearToEndOfLine]
    } else {
        spans_spec(y, x, cur, from, to)
    }
}

/// The operations updating the row `y`, from `prev` (`None` for a full
/// rewrite) to `cur`.
pub open spec fn row_ops(y: u16, prev: Option<Seq<CellView>>, cur: Seq<CellView>) -> Seq<OpView> {
    let width = cur.len() as int;
    let first = match prev {
        Some(p) => first_diff(p, cur, 0),
        None => 0,
    };
    let last = match prev {
        Some(p) => last_diff(p, cur, first, width - 1),
        None => width - 1,
    };
    if first >= width {
        Seq::empty()
    } else {
        let end = last_content(cur, width - 1);
        if end >= first {
            let write_to = if end < last { end } else { last };
            let spans = spans_spec(y, first as u16, cur, first, write_to);
            let fill_from = skip_continuations(cur, write_to + 1);
            if last >= fill_from {
                spans + blank_fill_spec(y, fill_from as u16, cur, fill_from, last)
            } else {
                spans
            }
        } else {
            seq![OpView::MoveTo { x: first as u16, y }] + blank_fill_spec(
                y,
                first as u16,
                cur,
                first,
                last,
            )
        }
    }
}

/// The previous row `y` to diff with: none for a full rewrite.
pub open spec fn prev_row(prev: Option<Seq<Seq<CellView>>>, y: int) -> Option<Seq<CellView>> {
    match prev {
        Some(p) => Some(p[y]),
        None => None,
    }
}

/// The operations updating the rows `[0, n)`.
pub open spec fn rows_ops(prev: Option<Seq<Seq<CellView>>>, cur: Seq<Seq<CellView>>, n: int) -> Seq<OpView>
    decreases n,
{
    if n <= 0 {
        Seq::empty()
    } else {
        rows_ops(prev, cur, n - 1) + row_ops((n - 1) as u16, prev_row(prev, n - 1), cur[n - 1])
    }
}

/// Whether the patch from `prev` to `next` must rewrite the whole
/// frame: no previous frame, or an incompatible one.
pub open spec fn is_full_between(prev: Option<FrameView>, next: FrameView) -> bool {
    match prev {
        Some(p) => !compatible(next, p),
        None => true,
    }
}

/// The patch from `prev` to `next`.
pub open spec fn between_spec(prev: Option<FrameView>, next: FrameView) -> PatchView {
    let full = is_full_between(prev, next);
    let prev_rows = if full {
        None
    } else {
        Some(prev.unwrap().cells)
    };
    PatchView { full, ops: rows_ops(prev_rows, next.cells, next.height as int) }
}

// ---------------------------------------------------------------------
// What applying a patch does

/// The state of a terminal applying a patch: the rows of cells and the
/// cursor position.
pub struct Screen {
    pub rows: Seq<Seq<CellView>>,
    pub x: int,
    pub y: int,
}

/// Write one grapheme at the cursor: a zero-width grapheme is skipped;
/// otherwise it fills its leading cell and continuation cells (when in
/// the frame) and the cursor advances by its width.
pub open spec fn screen_put_grapheme(s: Screen, g: Seq<char>, style: CellStyle) -> Screen {
    let gw = display_width(g) as int;
    if gw == 0 {
        s
    } else if 0 <= s.y < s.rows.len() && 0 <= s.x < s.rows[s.y].len() {
        let row = s.rows[s.y];
        let new_row = Seq::new(
            row.len(),
            |k: int|
                if k == s.x {
                    CellView { symbol: g, style, continuation: false }
                } else if s.x < k < s.x + gw {
                    continuation_cell(style)
                } else {
                    row[k]
                },
        );
        Screen { rows: s.rows.update(s.y, new_row), x: s.x + gw, y: s.y }
    } else {
        Screen { x: s.x + gw, ..s }
    }
}

/// Write the first `n` graphemes of `gs`.
pub open spec fn put_graphemes(s: Screen, gs: Seq<Seq<char>>, n: int, style: CellStyle) -> Screen
    decreases n,
{
    if n <= 0 {
        s
    } else {
        screen_put_grapheme(put_graphemes(s, gs, n - 1, style), gs[n - 1], style)
    }
}

/// Erase from the cursor to the end of its line.
pub open spec fn clear_to_eol(s: Screen) -> Screen {
    if 0 <= s.y < s.rows.len() {
        let row = s.rows[s.y];
        let new_row = Seq::new(
            row.len(),
            |k: int|
                if k >= s.x {
                    blank_cell(default_style())
                } else {
                    row[k]
                },
        );
        Screen { rows: s.rows.update(s.y, new_row), ..s }
    } else {
        s
    }
}

/// Apply one operation.
pub open spec fn apply_op(s: Screen, op: OpView) -> Screen {
    match op {
        OpView::MoveTo { x, y } => Screen { x: x as int, y: y as int, ..s },
        OpView::Print { style, text } => {
            let gs = grapheme_clusters(text);
            put_graphemes(s, gs, gs.len() as int, style)
        },
        OpView::ClearToEndOfLine => clear_to_eol(s),
    }
}

/// Apply the first `n` operations.
pub open spec fn apply_ops(s: Screen, ops: Seq<OpView>, n: int) -> Screen
    decreases n,
{
    if n <= 0 {
        s
    } else {
        apply_op(apply_ops(s, ops, n - 1), ops[n - 1])
    }
}

/// The rows of cells obtained by applying a sequence of operations to
/// rows of cells, the cursor starting at the origin.
pub open spec fn applied_rows(ops: Seq<OpView>, rows: Seq<Seq<CellView>>) -> Seq<Seq<CellView>> {
    apply_ops(Screen { rows, x: 0, y: 0 }, ops, ops.len() as int).rows
}

/// The sum of the display widths of the first `n` graphemes.
pub open spec fn widths_sum(gs: Seq<Seq<char>>, n: int) -> int
    decreases n,
{
    if n <= 0 {
        0
    } else {
        widths_sum(gs, n - 1) + display_width(gs[n - 1]) as int
    }
}

/// The number of cells the first `n` operations print.
pub open spec fn cells_printed(ops: Seq<OpView>, n: int) -> int
    decreases n,
{
    if n <= 0 {
        0
    } else {
        cells_printed(ops, n - 1) + match ops[n - 1] {
            OpView::Print { text, .. } => {
                let gs = grapheme_clusters(text);
                widths_sum(gs, gs.len() as int)
            },
            _ => 0,
        }
    }
}

/// The number of characters the `Print` operations among the first `n`
/// operations print.
pub open spec fn chars_printed(ops: Seq<OpView>, n: int) -> int
    decreases n,
{
    if n <= 0 {
        0
    } else {
        chars_printed(ops, n - 1) + match ops[n - 1] {
            OpView::Print { text, .. } => text.len() as int,
            _ => 0,
        }
    }
}

/// Whether every `Print` operation prints printable ASCII characters.
pub open spec fn prints_printable_ascii(ops: Seq<OpView>) -> bool {
    forall|k: int|
        0 <= k < ops.len() ==> match #[trigger] ops[k] {
            OpView::Print { text, .. } => all_printable_ascii(text),
            _ => true,
        }
}

proof fn lemma_chars_printed_monotonic(ops: Seq<OpView>, a: int, b: int)
    requires
        a <= b,
    ensures
        chars_printed(ops, a) <= chars_printed(ops, b),
    decreases b - a,
{
    if a < b {
        lemma_chars_printed_monotonic(ops, a, b - 1);
    }
}

/// The value of an optional frame.
pub open spec fn opt_frame_view(f: Option<&Frame>) -> Option<FrameView> {
    match f {
        Some(f) => Some(f@),
        None => None,
    }
}

/// The value of an optional row.
pub open spec fn opt_row_view(r: Option<&[Cell]>) -> Option<Seq<CellView>> {
    match r {
        Some(r) => Some(row_view(r@)),
        None => None,
    }
}

proof fn lemma_ops_view_push(ops: Seq<PatchOp>, op: PatchOp)
    ensures
        ops_view(ops.push(op)) == ops_view(ops) + seq![op@],
{
    assert(ops_view(ops.push(op)) =~= ops_view(ops) + seq![op@]);
}

/// Emit a `MoveTo` (at `x`, `y`) then one `Print` operation per run
/// of same-style cells of `cells[from..=to]`. Continuation cells
/// aren't printed: they're covered by the wide grapheme of their start
/// cell.
fn emit_spans(ops: &mut Vec<PatchOp>, y: u16, x: u16, cells: &[Cell], from: usize, to: usize)
    requires
        from <= to < cells@.len(),
    ensures
        ops_view(final(ops)@) == ops_view(old(ops)@) + spans_spec(y, x, row_view(cells@), from as int, to as int),
{
    let ghost cv = row_view(cells@);
    let ghost target = ops_view(old(ops)@) + spans_spec(y, x, cv, from as int, to as int);
    proof {
        lemma_ops_view_push(ops@, PatchOp::MoveTo { x, y });
    }
    ops.push(PatchOp::MoveTo { x, y });
    proof {
        assert(ops_view(ops@) + span_ops(cv, from as int, to + 1) =~= target);
    }
    let n = cells.len();
    let end = to + 1;
    let mut idx = from;
    while idx < end
        invariant
            from <= idx <= end,
            end == to + 1,
            end <= cells@.len(),
            cv == row_view(cells@),
            ops_view(ops@) + span_ops(cv, idx as int, end as int) == target,
        decreases end - idx,
    {
        let style = cells[idx].style;
        let mut text = String::new();
        if !cells[idx].continuation {
            text.append(cells[idx].symbol.as_str());
        }
        proof {
            assert(run_text(cv, idx as int, idx as int) =~= Seq::<char>::empty());
            assert(text@ =~= run_text(cv, idx as int, idx + 1));
        }
        let mut k = idx + 1;
        while k < end && cells[k].style == style
            invariant
                idx < k <= end,
                end <= cells@.len(),
                cv == row_view(cells@),
                style == cv[idx as int].style,
                text@ == run_text(cv, idx as int, k as int),
                run_end(cv, k as int, style, end as int) == run_end(cv, idx + 1, style, end as int),
            decreases end - k,
        {
            if !cells[k].continuation {
                text.append(cells[k].symbol.as_str());
            }
            proof {
                assert(text@ =~= run_text(cv, idx as int, k + 1));
            }
            k = k + 1;
        }
        let ghost print_ops = if text@.len() > 0 {
            seq![OpView::Print { style, text: text@ }]
        } else {
            Seq::<OpView>::empty()
        };
        proof {
            assert(span_ops(cv, idx as int, end as int) == print_ops + span_ops(cv, k as int, end as int));
        }
        if !text.as_str().is_empty() {
            let op = PatchOp::Print { style, text };
            proof {
                lemma_ops_view_push(ops@, op);
            }
            ops.push(op);
        }
        proof {
            assert(ops_view(ops@) + span_ops(cv, k as int, end as int) =~= target);
        }
        idx = k;
    }
}

/// Emit the operations making the cells `from..=to` blank, assuming
/// the cursor is at (`x`, `y`).
///
/// Uses an erasure when all the cells up to the end of the row are
/// blank with the default style, and styled spaces otherwise (an
/// erasure would paint the terminal's default background, not the
/// one of the skin).
fn emit_blank_fill(ops: &mut Vec<PatchOp>, y: u16, x: u16, cur: &[Cell], from: usize, to: usize)
    requires
        from <= to < cur@.len(),
    ensures
        ops_view(final(ops)@) == ops_view(old(ops)@) + blank_fill_spec(y, x, row_view(cur@), from as int, to as int),
{
    let ghost cv = row_view(cur@);
    let mut k = from;
    let mut erasable = true;
    while k < cur.len()
        invariant
            from <= k <= cur@.len(),
            cv == row_view(cur@),
            erasable == (forall|i: int| from <= i < k ==> is_default_blank_cell(#[trigger] cv[i])),
        decreases cur@.len() - k,
    {
        proof {
            assert(cv[k as int] == cur@[k as int]@);
        }
        if !cur[k].is_default_blank() {
            erasable = false;
        }
        k = k + 1;
    }
    if erasable {
        proof {
            lemma_ops_view_push(ops@, PatchOp::ClearToEndOfLine);
        }
        ops.push(PatchOp::ClearToEndOfLine);
    } else {
        emit_spans(ops, y, x, cur, from, to);
    }
}

/// Emit the operations updating a row, `prev` being the row
/// currently displayed (`None` for a full rewrite) and `cur` the
/// row to obtain.
fn emit_row_ops(ops: &mut Vec<PatchOp>, y: u16, prev: Option<&[Cell]>, cur: &[Cell])
    requires
        cur@.len() <= u16::MAX,
        match prev {
            Some(p) => p@.len() == cur@.len(),
            None => true,
        },
    ensures
        ops_view(final(ops)@) == ops_view(old(ops)@) + row_ops(y, opt_row_view(prev), row_view(cur@)),
{
    let ghost cv = row_view(cur@);
    let ghost pv = opt_row_view(prev);
    let width = cur.len();
    if width == 0 {
        // an empty row has nothing to update
        proof {
            assert(row_ops(y, pv, cv) =~= Seq::<OpView>::empty());
            assert(ops_view(ops@) =~= ops_view(ops@) + Seq::<OpView>::empty());
        }
        return;
    }
    let mut first: usize = 0;
    let mut last: usize = 0;
    match prev {
        Some(p) => {
            let ghost pr = row_view(p@);
            while first < width && p[first].same_as(&cur[first])
                invariant
                    first <= width,
                    width == cur@.len(),
                    width == p@.len(),
                    pr == row_view(p@),
                    cv == row_view(cur@),
                    first_diff(pr, cv, first as int) == first_diff(pr, cv, 0),
                decreases width - first,
            {
                first = first + 1;
            }
            if first == width {
                proof {
                    assert(row_ops(y, pv, cv) =~= Seq::<OpView>::empty());
                    assert(ops_view(ops@) =~= ops_view(ops@) + Seq::<OpView>::empty());
                }
                return;
            }
            last = width - 1;
            while last > first && p[last].same_as(&cur[last])
                invariant
                    first <= last < width,
                    width == cur@.len(),
                    width == p@.len(),
                    pr == row_view(p@),
                    cv == row_view(cur@),
                    last_diff(pr, cv, first as int, last as int) == last_diff(pr, cv, first as int, width - 1),
                decreases last,
            {
                last = last - 1;
            }
        },
        None => {
            last = width - 1;
        },
    }
    // one after the last content cell (0 when there's none)
    let mut e = width;
    while e > 0 && (cur[e - 1].is_blank() || cur[e - 1].continuation)
        invariant
            e <= width,
            width == cur@.len(),
            cv == row_view(cur@),
            last_content(cv, e - 1) == last_content(cv, width - 1),
        decreases e,
    {
        e = e - 1;
    }
    if e > 0 && e - 1 >= first {
        let end = e - 1;
        let write_to = if end < last {
            end
        } else {
            last
        };
        emit_spans(ops, y, first as u16, cur, first, write_to);
        let mut fill_from = write_to + 1;
        while fill_from < width && cur[fill_from].continuation
            invariant
                write_to < fill_from <= width,
                width == cur@.len(),
                cv == row_view(cur@),
                skip_continuations(cv, fill_from as int) == skip_continuations(cv, write_to + 1),
            decreases width - fill_from,
        {
            fill_from = fill_from + 1;
        }
        if last >= fill_from {
            emit_blank_fill(ops, y, fill_from as u16, cur, fill_from, last);
        }
    } else {
        proof {
            lemma_ops_view_push(ops@, PatchOp::MoveTo { x: first as u16, y });
        }
        ops.push(PatchOp::MoveTo { x: first as u16, y });
        emit_blank_fill(ops, y, first as u16, cur, first, last);
    }
}

proof fn lemma_widths_sum_monotonic(gs: Seq<Seq<char>>, a: int, b: int)
    requires
        a <= b,
    ensures
        widths_sum(gs, a) <= widths_sum(gs, b),
    decreases b - a,
{
    if a < b {
        lemma_widths_sum_monotonic(gs, a, b - 1);
    }
}

proof fn lemma_cells_printed_monotonic(ops: Seq<OpView>, a: int, b: int)
    requires
        a <= b,
    ensures
        cells_printed(ops, a) <= cells_printed(ops, b),
    decreases b - a,
{
    if a < b {
        lemma_cells_printed_monotonic(ops, a, b - 1);
        match ops[b - 1] {
            OpView::Print { text, .. } => {
                let gs = grapheme_clusters(text);
                lemma_widths_sum_monotonic(gs, 0, gs.len() as int);
            },
            _ => {},
        }
    }
}

/// Write a grapheme of width `gw` (not zero) at (`x`, `y`), which is
/// a cell of the frame.
fn write_grapheme(cells: &mut Vec<Vec<Cell>>, x: usize, y: usize, g: &String, gw: usize, style: CellStyle)
    requires
        gw > 0,
        gw == display_width(g@),
        y < old(cells)@.len(),
        x < old(cells)@[y as int]@.len(),
    ensures
        rows_view(final(cells)@) == screen_put_grapheme(
            Screen { rows: rows_view(old(cells)@), x: x as int, y: y as int },
            g@,
            style,
        ).rows,
{
    let ghost s = Screen { rows: rows_view(old(cells)@), x: x as int, y: y as int };
    let ghost old_row = row_view(old(cells)@[y as int]@);
    let mut row: Vec<Cell> = Vec::new();
    cells.set_and_swap(y, &mut row);
    let len = row.len();
    row.set(x, Cell { symbol: g.clone(), style, continuation: false });
    let mut k: usize = 1;
    while k < gw && k < len - x
        invariant
            1 <= k <= gw,
            x < len,
            len == row@.len(),
            len == old_row.len(),
            x + k <= len,
            forall|i: int|
                0 <= i < len ==> (#[trigger] row@[i])@ == (if i == x {
                    CellView { symbol: g@, style, continuation: false }
                } else if x < i < x + k {
                    continuation_cell(style)
                } else {
                    old_row[i]
                }),
        decreases gw - k,
    {
        row.set(x + k, Cell::continuation(style));
        k = k + 1;
    }
    proof {
        let new_row = screen_put_grapheme(s, g@, style).rows[y as int];
        assert(row_view(row@) =~= new_row);
    }
    cells.set_and_swap(y, &mut row);
    proof {
        assert(rows_view(cells@) =~= screen_put_grapheme(s, g@, style).rows);
    }
}

/// Erase the row `y` from the column `x` on.
fn clear_row_from(cells: &mut Vec<Vec<Cell>>, x: usize, y: usize)
    requires
        y < old(cells)@.len(),
    ensures
        rows_view(final(cells)@) == clear_to_eol(
            Screen { rows: rows_view(old(cells)@), x: x as int, y: y as int },
        ).rows,
{
    let ghost s = Screen { rows: rows_view(old(cells)@), x: x as int, y: y as int };
    let ghost old_row = row_view(old(cells)@[y as int]@);
    let mut row: Vec<Cell> = Vec::new();
    cells.set_and_swap(y, &mut row);
    let len = row.len();
    let mut k: usize = x;
    while k < len
        invariant
            x <= k,
            len == row@.len(),
            len == old_row.len(),
            forall|i: int|
                0 <= i < len ==> (#[trigger] row@[i])@ == (if x <= i < k {
                    blank_cell(default_style())
                } else {
                    old_row[i]
                }),
        decreases len - k,
    {
        let blank = Cell::blank(CellStyle::default());
        row.set(k, blank);
        k = k + 1;
    }
    proof {
        assert(row_view(row@) =~= clear_to_eol(s).rows[y as int]);
    }
    cells.set_and_swap(y, &mut row);
    proof {
        assert(rows_view(cells@) =~= clear_to_eol(s).rows);
    }
}

/// The column of the cursor: its position, saturated to `usize::MAX`.
pub open spec fn cursor_column(x: int) -> int {
    if x > usize::MAX {
        usize::MAX as int
    } else {
        x
    }
}

/// An operation placed on the screen, the frame being displayed in
/// `area`: a cursor move gets the area's origin added, the other
/// operations are unchanged. `None` when the target of a move falls
/// beyond the terminal's `u16` coordinates.
pub open spec fn placed_op(op: OpView, area: Area) -> Option<OpView> {
    match op {
        OpView::MoveTo { x, y } => {
            if area.left + x <= u16::MAX && area.top + y <= u16::MAX {
                Some(OpView::MoveTo { x: (area.left + x) as u16, y: (area.top + y) as u16 })
            } else {
                None
            }
        },
        _ => Some(op),
    }
}

/// Whether every operation can be placed in `area`.
pub open spec fn placeable(ops: Seq<OpView>, area: Area) -> bool {
    forall|i: int| 0 <= i < ops.len() ==> (#[trigger] placed_op(ops[i], area)) is Some
}

/// The operations placed in `area`, in order.
pub open spec fn placed_ops(ops: Seq<OpView>, area: Area) -> Seq<OpView> {
    ops.map_values(|op: OpView| placed_op(op, area).unwrap())
}

impl FramePatch {
    /// Apply the patch to a frame, mutating its cells exactly like
    /// a terminal would: the frame must be the one the patch was
    /// computed from (or a copy of it, eg deserialized after a
    /// reconnection), and it becomes cell-equal to the frame the
    /// patch was computed for.
    pub fn apply_to(&self, frame: &mut Frame)
        ensures
            final(frame)@ == (FrameView { cells: applied_rows(self@.ops, old(frame)@.cells), ..old(frame)@ }),
    {
        let ghost ops = self@.ops;
        let ghost start = Screen { rows: old(frame)@.cells, x: 0, y: 0 };
        let mut x: usize = 0;
        let mut y: usize = 0;
        let mut i: usize = 0;
        while i < self.ops.len()
            invariant
                i <= self.ops@.len(),
                ops == ops_view(self.ops@),
                frame@ == (FrameView { cells: frame@.cells, ..old(frame)@ }),
                frame@.cells == apply_ops(start, ops, i as int).rows,
                x as int == cursor_column(apply_ops(start, ops, i as int).x),
                y as int == apply_ops(start, ops, i as int).y,
                apply_ops(start, ops, i as int).x >= 0,
            decreases self.ops@.len() - i,
        {
            let ghost before = apply_ops(start, ops, i as int);
            proof {
                assert(ops[i as int] == self.ops@[i as int]@);
                assert(apply_ops(start, ops, i + 1) == apply_op(before, ops[i as int]));
            }
            match &self.ops[i] {
                PatchOp::MoveTo { x: nx, y: ny } => {
                    x = *nx as usize;
                    y = *ny as usize;
                    assert(frame@.cells == apply_op(before, ops[i as int]).rows);
                },
                PatchOp::Print { style, text } => {
                    let gs = graphemes(text.as_str());
                    let ghost gsv = grapheme_clusters(text@);
                    let mut j: usize = 0;
                    while j < gs.len()
                        invariant
                            j <= gs@.len(),
                            string_views(gs@) == gsv,
                            frame@ == (FrameView { cells: frame@.cells, ..old(frame)@ }),
                            frame@.cells == put_graphemes(before, gsv, j as int, *style).rows,
                            x as int == cursor_column(put_graphemes(before, gsv, j as int, *style).x),
                            y as int == put_graphemes(before, gsv, j as int, *style).y,
                            put_graphemes(before, gsv, j as int, *style).x >= 0,
                        decreases gs@.len() - j,
                    {
                        let g = &gs[j];
                        let gw = str_width(g.as_str());
                        proof {
                            assert(gsv[j as int] == g@);
                        }
                        if gw != 0 {
                            if y < frame.cells.len() && x < frame.cells[y].len() {
                                write_grapheme(&mut frame.cells, x, y, g, gw, *style);
                            }
                            x = x.saturating_add(gw);
                        }
                        j = j + 1;
                    }
                    proof {
                        assert(gsv.len() == gs@.len());
                        assert(ops[i as int] == OpView::Print { style: *style, text: text@ });
                        assert(frame@.cells == apply_op(before, ops[i as int]).rows);
                    }
                },
                PatchOp::ClearToEndOfLine => {
                    proof {
                        assert(ops[i as int] == OpView::ClearToEndOfLine);
                    }
                    if y < frame.cells.len() {
                        let ghost len = frame.cells@[y as int]@.len();
                        let _ = frame.cells[y].len();
                        clear_row_from(&mut frame.cells, x, y);
                        proof {
                            let a = clear_to_eol(Screen { rows: before.rows, x: x as int, y: y as int });
                            let b = clear_to_eol(before);
                            assert(a.rows[y as int] =~= b.rows[y as int]);
                            assert(a.rows =~= b.rows);
                        }
                    }
                    assert(frame@.cells == apply_op(before, ops[i as int]).rows);
                },
            }
            i = i + 1;
        }
    }

    /// The number of cells the `Print` operations of this patch
    /// write, in terminal columns (a wide grapheme counts for 2).
    ///
    /// Erasures don't write cells and aren't counted.
    pub fn cells_written(&self) -> (n: usize)
        requires
            cells_printed(self@.ops, self@.ops.len() as int) <= usize::MAX,
        ensures
            n == cells_printed(self@.ops, self@.ops.len() as int),
            prints_printable_ascii(self@.ops) ==> n == chars_printed(self@.ops, self@.ops.len() as int),
    {
        match self.checked_cells_written() {
            Some(n) => n,
            None => 0,
        }
    }

    /// The number of cells the `Print` operations of this patch write,
    /// or `None` when it doesn't fit in a `usize`.
    pub fn checked_cells_written(&self) -> (r: Option<usize>)
        ensures
            match r {
                Some(n) => n == cells_printed(self@.ops, self@.ops.len() as int),
                None => cells_printed(self@.ops, self@.ops.len() as int) > usize::MAX,
            },
            prints_printable_ascii(self@.ops) ==> match r {
                Some(n) => n == chars_printed(self@.ops, self@.ops.len() as int),
                None => chars_printed(self@.ops, self@.ops.len() as int) > usize::MAX,
            },
    {
        let ghost ops = self@.ops;
        let ghost pa = prints_printable_ascii(ops);
        let mut n: usize = 0;
        let mut i: usize = 0;
        while i < self.ops.len()
            invariant
                i <= self.ops@.len(),
                ops == ops_view(self.ops@),
                ops == self@.ops,
                pa == prints_printable_ascii(ops),
                n == cells_printed(ops, i as int),
                pa ==> n == chars_printed(ops, i as int),
            decreases self.ops@.len() - i,
        {
            proof {
                assert(ops[i as int] == self.ops@[i as int]@);
                lemma_cells_printed_monotonic(ops, i + 1, ops.len() as int);
                lemma_chars_printed_monotonic(ops, i + 1, ops.len() as int);
            }
            match &self.ops[i] {
                PatchOp::Print { text, .. } => {
                    let gs = graphemes(text.as_str());
                    let ghost gsv = grapheme_clusters(text@);
                    let ghost base = n as int;
                    proof {
                        assert(cells_printed(ops, i + 1) == base + widths_sum(gsv, gsv.len() as int));
                        assert(chars_printed(ops, i + 1) == chars_printed(ops, i as int) + text@.len());
                        if pa {
                            assert(all_printable_ascii(text@));
                        }
                    }
                    let mut j: usize = 0;
                    while j < gs.len()
                        invariant
                            j <= gs@.len(),
                            string_views(gs@) == gsv,
                            gsv.len() == gs@.len(),
                            n == base + widths_sum(gsv, j as int),
                            cells_printed(ops, i + 1) == base + widths_sum(gsv, gsv.len() as int),
                            cells_printed(ops, i + 1) <= cells_printed(ops, ops.len() as int),
                            ops == self@.ops,
                            pa == prints_printable_ascii(ops),
                            pa ==> gsv == singletons(text@),
                            pa ==> all_printable_ascii(text@),
                            pa ==> base == chars_printed(ops, i as int),
                            pa ==> n == base + j,
                            chars_printed(ops, i + 1) == chars_printed(ops, i as int) + text@.len(),
                            chars_printed(ops, i + 1) <= chars_printed(ops, ops.len() as int),
                        decreases gs@.len() - j,
                    {
                        let w = str_width(gs[j].as_str());
                        proof {
                            assert(gsv[j as int] == gs@[j as int]@);
                            lemma_widths_sum_monotonic(gsv, j + 1, gsv.len() as int);
                            if pa {
                                assert(gs@[j as int]@ == seq![text@[j as int]]);
                                assert(all_printable_ascii(text@));
                                assert(' ' <= text@[j as int] <= '~');
                                assert(w == 1);
                            }
                            assert(pa ==> w == 1);
                        }
                        match n.checked_add(w) {
                            Some(m) => {
                                n = m;
                            },
                            None => {
                                assert(widths_sum(gsv, j + 1) == widths_sum(gsv, j as int) + w);
                                proof {
                                    if pa {
                                        assert(gsv.len() == text@.len());
                                        assert(j < text@.len());
                                        assert(base + j + 1 > usize::MAX);
                                        assert(chars_printed(ops, i + 1) > usize::MAX);
                                        assert(chars_printed(ops, ops.len() as int) > usize::MAX);
                                    }
                                    assert(pa ==> chars_printed(self@.ops, self@.ops.len() as int) > usize::MAX);
                                }
                                return None;
                            },
                        }
                        j = j + 1;
                    }
                },
                _ => {
                    proof {
                        assert(chars_printed(ops, i + 1) == chars_printed(ops, i as int));
                    }
                },
            }
            i = i + 1;
        }
        Some(n)
    }

    /// Compute the patch transforming `prev` into `next`.
    ///
    /// If `prev` is `None` or isn't compatible with `next` (size,
    /// skin fingerprint or format version differ), a full patch is
    /// returned: diffs are never forced onto an incompatible frame.
    pub fn between(prev: Option<&Frame>, next: &Frame) -> (patch: FramePatch)
        requires
            frame_wf(next@),
            match prev {
                Some(p) => frame_wf(p@),
                None => true,
            },
        ensures
            patch@ == between_spec(opt_frame_view(prev), next@),
    {
        let full = match prev {
            Some(p) => !next.is_compatible(p),
            None => true,
        };
        let ghost prev_rows: Option<Seq<Seq<CellView>>> = if full {
            None
        } else {
            Some(opt_frame_view(prev).unwrap().cells)
        };
        let mut ops: Vec<PatchOp> = Vec::new();
        let height = next.height as usize;
        let mut y: usize = 0;
        while y < height
            invariant
                y <= height,
                height == next.height,
                frame_wf(next@),
                match prev {
                    Some(p) => frame_wf(p@),
                    None => true,
                },
                full == is_full_between(opt_frame_view(prev), next@),
                prev_rows == (if full {
                    None
                } else {
                    Some(opt_frame_view(prev).unwrap().cells)
                }),
                ops_view(ops@) == rows_ops(prev_rows, next@.cells, y as int),
            decreases height - y,
        {
            let prev_cells: Option<&[Cell]> = if full {
                None
            } else {
                match prev {
                    Some(p) => p.row_cells(y),
                    None => None,
                }
            };
            proof {
                assert(next@.cells[y as int].len() == next.width);
                assert(opt_row_view(prev_cells) == prev_row(prev_rows, y as int));
            }
            emit_row_ops(&mut ops, y as u16, prev_cells, next.cells[y].as_slice());
            y = y + 1;
        }
        FramePatch { full, ops }
    }

    /// The operations of the patch in screen coordinates, the frame
    /// being displayed in `area`: what is queued on a terminal to
    /// apply the patch there.
    ///
    /// `None` when a cursor target falls beyond `u16` (the area
    /// doesn't fit on any terminal).
    pub fn screen_ops(&self, area: &Area) -> (r: Option<Vec<PatchOp>>)
        ensures
            r is Some <==> placeable(self@.ops, *area),
            r matches Some(v) ==> ops_view(v@) == placed_ops(self@.ops, *area),
    {
        let ghost ops = self@.ops;
        let mut out: Vec<PatchOp> = Vec::new();
        let mut i: usize = 0;
        while i < self.ops.len()
            invariant
                i <= self.ops@.len(),
                ops == ops_view(self.ops@),
                forall|k: int| 0 <= k < i ==> (#[trigger] placed_op(ops[k], *area)) is Some,
                ops_view(out@) == placed_ops(ops, *area).subrange(0, i as int),
            decreases self.ops@.len() - i,
        {
            proof {
                assert(ops[i as int] == self.ops@[i as int]@);
            }
            let placed = match &self.ops[i] {
                PatchOp::MoveTo { x, y } => {
                    match (area.left.checked_add(*x), area.top.checked_add(*y)) {
                        (Some(sx), Some(sy)) => PatchOp::MoveTo { x: sx, y: sy },
                        _ => {
                            assert(placed_op(ops[i as int], *area) is None);
                            return None;
                        },
                    }
                },
                PatchOp::Print { style, text } => PatchOp::Print { style: *style, text: text.clone() },
                PatchOp::ClearToEndOfLine => PatchOp::ClearToEndOfLine,
            };
            let ghost before = out@;
            out.push(placed);
            proof {
                assert(placed@ == placed_op(ops[i as int], *area).unwrap());
                assert(ops_view(out@) =~= ops_view(before).push(placed@));
                assert(ops_view(out@) =~= placed_ops(ops, *area).subrange(0, i + 1));
            }
            i = i + 1;
        }
        proof {
            assert(placed_ops(ops, *area).subrange(0, i as int) =~= placed_ops(ops, *area));
        }
        Some(out)
    }

    /// The patch made of the given operations, eg read back from a
    /// saved form.
    pub fn from_ops(full: bool, ops: Vec<PatchOp>) -> (patch: FramePatch)
        ensures
            patch@ == (PatchView { full, ops: ops_view(ops@) }),
    {
        FramePatch { full, ops }
    }

    /// Whether this patch rewrites the whole frame.
    pub fn is_full(&self) -> (b: bool)
        ensures
            b == self@.full,
    {
        self.full
    }

    /// Whether this patch does nothing.
    pub fn is_empty(&self) -> (b: bool)
        ensures
            b == (self@.ops.len() == 0),
    {
        self.ops.len() == 0
    }

    /// The operations of the patch, in application order.
    pub fn ops(&self) -> (ops: &[PatchOp])
        ensures
            ops_view(ops@) == self@.ops,
    {
        self.ops.as_slice()
    }
}

impl Frame {
    /// Compute the minimal line-level patch turning this
    /// frame into `next`.
    ///
    /// If the frames aren't compatible (different version,
    /// geometry or skin), the returned patch is a full rewrite
    /// of `next`.
    ///
    /// The computation is purely cell-based: rebuilding the
    /// content without changing it produces an empty patch, and
    /// identical inputs always produce identical patches.
    pub fn diff(&self, next: &Frame) -> (patch: FramePatch)
        requires
            frame_wf(self@),
            frame_wf(next@),
        ensures
            patch@ == between_spec(Some(self@), next@),
    {
        FramePatch::between(Some(self), next)
    }

    /// A patch writing the whole frame
    pub fn full_patch(&self) -> (patch: FramePatch)
        requires
            frame_wf(self@),
        ensures
            patch@ == between_spec(None, self@),
    {
        FramePatch::between(None, self)
    }
}

} // verus!
