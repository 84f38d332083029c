//! The laws of the library: what patches guarantee (applied to the
//! frame they were computed from, they give the frame they were
//! computed for), what a frame builder keeps, and what styles, parsed
//! text and row rewrites satisfy.

use crate::ansi::{
    csi_final,
    attribute_bit, TextAttributes,
    decimal_value, digit_value, parse_unsigned_spec, sep_index,
    default_text_style, extended_color_spec, is_extended_color_code, lemma_split_on_nonempty, main_param,
    parse_styled_spec, scan_styled, sgr_code_of, split_on, styled_graphemes, text_apply_sgr, text_code_effect,
    text_sgr_from, token_u8, with_slot_color, TextStyle,
};
use crate::builder::{
    b_bottom, b_left, b_top, csi_effect, sat, csi_params, csi_step, scan_while, erase_display_spec, erase_line_spec, in_frame, put_grapheme_spec, put_sized_grapheme_spec,
    finishable, run_spec, step_spec, with_blank_rows, with_blank_span, with_cell, BuilderView,
};
use crate::cell::{blank_cell, continuation_cell, is_default_blank_cell, CellView};
use crate::frame::{check_spec, compatible, fnv1a, frame_wf, Area, Frame, FrameView};
use crate::line::{lemma_span_end_bounds, line_patch_spec, line_spans, span_end, trimmed_end, SpanView};
use crate::patch::{
    applied_rows, apply_op, apply_ops, between_spec, blank_fill_spec, clear_to_eol, erasable_from,
    first_diff, is_content, is_full_between, last_content, last_diff, prev_row, printed_symbol, screen_put_grapheme,
    put_graphemes, row_ops, rows_ops, run_end, run_text, skip_continuations, span_ops, spans_spec,
    OpView, Screen,
};
use crate::style::{apply_sgr_spec, FrameColor, TextAttribute, default_style, param_or_zero, sgr_code, sgr_extended_color, sgr_from, CellStyle};
use crate::text::{display_width, grapheme_clusters, utf8_lossy};
use vstd::prelude::*;

verus! {

// ---------------------------------------------------------------------
// Well-formed rows

/// The cell `j` is the leading cell of a grapheme which fits in the
/// row: its symbol isn't empty, it's followed by as many continuation
/// cells of its style as needed for its display width (at least 1), and
/// the next cell starts another grapheme.
pub open spec fn lead_fits(cur: Seq<CellView>, j: int) -> bool {
    let w = display_width(cur[j].symbol) as int;
    &&& cur[j].symbol.len() > 0
    &&& w >= 1
    &&& j + w <= cur.len()
    &&& forall|k: int| j < k < j + w ==> #[trigger] cur[k] == continuation_cell(cur[j].style)
    &&& (j + w < cur.len() ==> !cur[j + w].continuation)
}

/// A row is a succession of graphemes, each a leading cell followed by
/// the continuation cells of its width.
pub open spec fn row_glyphs_wf(cur: Seq<CellView>) -> bool {
    &&& (cur.len() > 0 ==> !cur[0].continuation)
    &&& forall|j: int| 0 <= j < cur.len() && !cur[j].continuation ==> #[trigger] lead_fits(cur, j)
}

/// Every row of the frame is a succession of graphemes.
pub open spec fn frame_glyphs_wf(f: FrameView) -> bool {
    forall|y: int| 0 <= y < f.cells.len() ==> row_glyphs_wf(#[trigger] f.cells[y])
}

/// The symbols of the leading cells of `[i, j)`.
pub open spec fn lead_symbols(cur: Seq<CellView>, i: int, j: int) -> Seq<Seq<char>>
    decreases j - i,
{
    if j <= i {
        Seq::empty()
    } else if cur[j - 1].continuation {
        lead_symbols(cur, i, j - 1)
    } else {
        lead_symbols(cur, i, j - 1).push(cur[j - 1].symbol)
    }
}

/// Splitting into graphemes the text of any run of cells of the row
/// gives back the symbols of its leading cells.
pub open spec fn row_segments_stable(cur: Seq<CellView>) -> bool {
    forall|i: int, j: int|
        0 <= i <= j <= cur.len() ==> grapheme_clusters(#[trigger] run_text(cur, i, j)) == lead_symbols(cur, i, j)
}

/// Every row of the frame segments stably.
pub open spec fn frame_segments_stable(f: FrameView) -> bool {
    forall|y: int| 0 <= y < f.cells.len() ==> row_segments_stable(#[trigger] f.cells[y])
}

/// The row `row` with its cells `[a, b)` replaced by those of `cur`.
pub open spec fn overwrite(row: Seq<CellView>, cur: Seq<CellView>, a: int, b: int) -> Seq<CellView> {
    Seq::new(row.len(), |k: int| if a <= k < b { cur[k] } else { row[k] })
}

// ---------------------------------------------------------------------
// Cell level facts

proof fn lemma_skip_block(cur: Seq<CellView>, j: int, w: int)
    requires
        0 <= j,
        1 <= w,
        j + w <= cur.len(),
        forall|k: int| j < k < j + w ==> #[trigger] cur[k].continuation,
        j + w < cur.len() ==> !cur[j + w].continuation,
    ensures
        skip_continuations(cur, j + 1) == j + w,
    decreases w,
{
    if w > 1 {
        assert(cur[j + 1].continuation);
        lemma_skip_block(cur, j + 1, w - 1);
    }
}

proof fn lemma_skip_bounds(cur: Seq<CellView>, k: int)
    requires
        0 <= k,
    ensures
        skip_continuations(cur, k) >= k,
        k <= cur.len() ==> skip_continuations(cur, k) <= cur.len(),
        skip_continuations(cur, k) < cur.len() ==> !cur[skip_continuations(cur, k)].continuation,
        forall|m: int| k <= m < skip_continuations(cur, k) ==> #[trigger] cur[m].continuation,
    decreases cur.len() - k,
{
    if 0 <= k < cur.len() && cur[k].continuation {
        lemma_skip_bounds(cur, k + 1);
    }
}

/// A continuation cell is covered by an earlier leading cell.
proof fn lemma_covering_lead(cur: Seq<CellView>, m: int) -> (l: int)
    requires
        row_glyphs_wf(cur),
        0 <= m < cur.len(),
        cur[m].continuation,
    ensures
        0 <= l < m,
        !cur[l].continuation,
        m < l + display_width(cur[l].symbol) as int,
    decreases m,
{
    assert(m > 0);
    if !cur[m - 1].continuation {
        let l = m - 1;
        assert(lead_fits(cur, l));
        l
    } else {
        let l = lemma_covering_lead(cur, m - 1);
        assert(lead_fits(cur, l));
        l
    }
}

/// A continuation cell has the style of the cell before it.
proof fn lemma_continuation_style(cur: Seq<CellView>, m: int)
    requires
        row_glyphs_wf(cur),
        0 <= m < cur.len(),
        cur[m].continuation,
    ensures
        m > 0,
        cur[m - 1].style == cur[m].style,
{
    let l = lemma_covering_lead(cur, m);
    assert(lead_fits(cur, l));
    assert(cur[m] == continuation_cell(cur[l].style));
    if m - 1 > l {
        assert(cur[m - 1] == continuation_cell(cur[l].style));
    }
}

// ---------------------------------------------------------------------
// Facts on the positions a patch is built from

proof fn lemma_first_diff(p: Seq<CellView>, cur: Seq<CellView>, i: int)
    requires
        0 <= i <= cur.len(),
    ensures
        i <= first_diff(p, cur, i) <= cur.len(),
        forall|k: int| i <= k < first_diff(p, cur, i) ==> #[trigger] p[k] == cur[k],
        first_diff(p, cur, i) < cur.len() ==> p[first_diff(p, cur, i)] != cur[first_diff(p, cur, i)],
    decreases cur.len() - i,
{
    if i < cur.len() && p[i] == cur[i] {
        lemma_first_diff(p, cur, i + 1);
    }
}

proof fn lemma_last_diff(p: Seq<CellView>, cur: Seq<CellView>, first: int, j: int)
    requires
        first <= j,
    ensures
        first <= last_diff(p, cur, first, j) <= j,
        forall|k: int| last_diff(p, cur, first, j) < k <= j ==> #[trigger] p[k] == cur[k],
        last_diff(p, cur, first, j) > first ==> p[last_diff(p, cur, first, j)] != cur[last_diff(p, cur, first, j)],
    decreases j - first,
{
    if j > first && p[j] == cur[j] {
        lemma_last_diff(p, cur, first, j - 1);
    }
}

proof fn lemma_last_content(cur: Seq<CellView>, j: int)
    requires
        -1 <= j < cur.len(),
    ensures
        -1 <= last_content(cur, j) <= j,
        forall|k: int| last_content(cur, j) < k <= j ==> !is_content(#[trigger] cur[k]),
        last_content(cur, j) >= 0 ==> is_content(cur[last_content(cur, j)]),
    decreases j + 1,
{
    if j >= 0 && !is_content(cur[j]) {
        lemma_last_content(cur, j - 1);
    }
}

proof fn lemma_run_end(cells: Seq<CellView>, k: int, style: CellStyle, end: int)
    requires
        k <= end,
    ensures
        k <= run_end(cells, k, style, end) <= end,
        forall|m: int| k <= m < run_end(cells, k, style, end) ==> #[trigger] cells[m].style == style,
        run_end(cells, k, style, end) < end ==> cells[run_end(cells, k, style, end)].style != style,
    decreases end - k,
{
    if k < end && cells[k].style == style {
        lemma_run_end(cells, k + 1, style, end);
    }
}

proof fn lemma_run_text_prefix(cells: Seq<CellView>, i: int, j: int)
    requires
        i < j,
    ensures
        run_text(cells, i, j).len() >= printed_symbol(cells[i]).len(),
    decreases j - i,
{
    if j - 1 > i {
        lemma_run_text_prefix(cells, i, j - 1);
    } else {
        assert(run_text(cells, i, i) =~= Seq::<char>::empty());
    }
}

/// When two rows differ at `first`, the cell `first` of the new row
/// starts a grapheme.
proof fn lemma_first_diff_starts_glyph(p: Seq<CellView>, cur: Seq<CellView>, first: int)
    requires
        row_glyphs_wf(p),
        row_glyphs_wf(cur),
        p.len() == cur.len(),
        0 <= first < cur.len(),
        p[first] != cur[first],
        forall|k: int| 0 <= k < first ==> #[trigger] p[k] == cur[k],
    ensures
        !cur[first].continuation,
{
    if cur[first].continuation {
        let l = lemma_covering_lead(cur, first);
        assert(p[l] == cur[l]);
        assert(lead_fits(cur, l));
        assert(lead_fits(p, l));
        assert(cur[first] == continuation_cell(cur[l].style));
        assert(p[first] == continuation_cell(p[l].style));
    }
}

// ---------------------------------------------------------------------
// Running operations

/// The screen after all the operations.
pub open spec fn run_ops(s: Screen, ops: Seq<OpView>) -> Screen {
    apply_ops(s, ops, ops.len() as int)
}

proof fn lemma_apply_ops_prefix(s: Screen, a: Seq<OpView>, b: Seq<OpView>, n: int)
    requires
        n <= a.len(),
        n <= b.len(),
        forall|k: int| 0 <= k < n ==> a[k] == b[k],
    ensures
        apply_ops(s, a, n) == apply_ops(s, b, n),
    decreases n,
{
    if n > 0 {
        lemma_apply_ops_prefix(s, a, b, n - 1);
    }
}

proof fn lemma_run_ops_concat(s: Screen, a: Seq<OpView>, b: Seq<OpView>)
    ensures
        run_ops(s, a + b) == run_ops(run_ops(s, a), b),
    decreases b.len(),
{
    if b.len() == 0 {
        assert(a + b =~= a);
    } else {
        let bl = b.drop_last();
        lemma_run_ops_concat(s, a, bl);
        lemma_apply_ops_prefix(s, a + b, a + bl, (a + bl).len() as int);
        lemma_apply_ops_prefix(run_ops(s, a), b, bl, bl.len() as int);
    }
}

proof fn lemma_put_graphemes_prefix(s: Screen, a: Seq<Seq<char>>, b: Seq<Seq<char>>, n: int, style: CellStyle)
    requires
        n <= a.len(),
        n <= b.len(),
        forall|k: int| 0 <= k < n ==> a[k] == b[k],
    ensures
        put_graphemes(s, a, n, style) == put_graphemes(s, b, n, style),
    decreases n,
{
    if n > 0 {
        lemma_put_graphemes_prefix(s, a, b, n - 1, style);
    }
}

// ---------------------------------------------------------------------
// Printing runs of cells

/// Printing the leading symbols of the cells `[i, j)` of a row, from the
/// column `i`, writes the cells `[i, ge)` of the row, `ge` being the end
/// of the grapheme the cell `j - 1` belongs to.
proof fn lemma_print_leads(s: Screen, cur: Seq<CellView>, i: int, j: int, style: CellStyle)
    requires
        row_glyphs_wf(cur),
        0 <= i <= j <= cur.len(),
        i == cur.len() || !cur[i].continuation,
        forall|k: int| i <= k < j ==> #[trigger] cur[k].style == style,
        0 <= s.y < s.rows.len(),
        s.rows[s.y].len() == cur.len(),
        s.x == i,
    ensures
        put_graphemes(s, lead_symbols(cur, i, j), lead_symbols(cur, i, j).len() as int, style) == (Screen {
            rows: s.rows.update(s.y, overwrite(s.rows[s.y], cur, i, skip_continuations(cur, j))),
            x: skip_continuations(cur, j),
            y: s.y,
        }),
    decreases j - i,
{
    let row = s.rows[s.y];
    if j == i {
        assert(overwrite(row, cur, i, i) =~= row);
        assert(s.rows.update(s.y, row) =~= s.rows);
    } else {
        lemma_print_leads(s, cur, i, j - 1, style);
        let ls = lead_symbols(cur, i, j - 1);
        if cur[j - 1].continuation {
        } else {
            let sym = cur[j - 1].symbol;
            let ls2 = ls.push(sym);
            assert(lead_symbols(cur, i, j) == ls2);
            lemma_put_graphemes_prefix(s, ls2, ls, ls.len() as int, style);
            let mid = put_graphemes(s, ls, ls.len() as int, style);
            assert(lead_fits(cur, j - 1));
            let w = display_width(sym) as int;
            lemma_skip_block(cur, j - 1, w);
            assert(skip_continuations(cur, j - 1) == j - 1);
            let after = screen_put_grapheme(mid, sym, style);
            assert(after.rows[s.y] =~= overwrite(row, cur, i, j - 1 + w));
            assert(after.rows =~= s.rows.update(s.y, overwrite(row, cur, i, j - 1 + w)));
        }
    }
}

/// Running the prints of the runs of cells `[i, end)`, from the column
/// `i` (which starts a grapheme), writes the cells `[i, ge)`, `ge`
/// being the end of the grapheme the cell `end - 1` belongs to.
proof fn lemma_run_span_ops(s: Screen, cur: Seq<CellView>, i: int, end: int)
    requires
        row_glyphs_wf(cur),
        row_segments_stable(cur),
        0 <= i < end <= cur.len(),
        !cur[i].continuation,
        0 <= s.y < s.rows.len(),
        s.rows[s.y].len() == cur.len(),
        s.x == i,
    ensures
        run_ops(s, span_ops(cur, i, end)) == (Screen {
            rows: s.rows.update(s.y, overwrite(s.rows[s.y], cur, i, skip_continuations(cur, end))),
            x: skip_continuations(cur, end),
            y: s.y,
        }),
    decreases end - i,
{
    let row = s.rows[s.y];
    let style = cur[i].style;
    let j = run_end(cur, i + 1, style, end);
    lemma_run_end(cur, i + 1, style, end);
    let text = run_text(cur, i, j);
    lemma_run_text_prefix(cur, i, j);
    assert(lead_fits(cur, i));
    assert(text.len() > 0);
    let print = OpView::Print { style, text };
    let rest = span_ops(cur, j, end);
    assert(span_ops(cur, i, end) == seq![print] + rest);
    lemma_run_ops_concat(s, seq![print], rest);
    assert(grapheme_clusters(text) == lead_symbols(cur, i, j));
    assert forall|k: int| i <= k < j implies #[trigger] cur[k].style == style by {
        if k > i {
            assert(cur[k].style == style);
        }
    }
    lemma_print_leads(s, cur, i, j, style);
    let s1 = run_ops(s, seq![print]);
    assert(seq![print][0] == print);
    assert(apply_ops(s, seq![print], 0) == s);
    assert(s1 == apply_op(s, print));
    if j == end {
        assert(rest =~= Seq::<OpView>::empty());
    } else {
        assert(cur[j].style != style);
        assert(cur[j - 1].style == style);
        if cur[j].continuation {
            lemma_continuation_style(cur, j);
        }
        assert(skip_continuations(cur, j) == j);
        lemma_run_span_ops(s1, cur, j, end);
        let e = skip_continuations(cur, end);
        lemma_skip_bounds(cur, end);
        assert(overwrite(overwrite(row, cur, i, j), cur, j, e) =~= overwrite(row, cur, i, e));
        assert(s1.rows.update(s.y, overwrite(overwrite(row, cur, i, j), cur, j, e)) =~= s.rows.update(
            s.y,
            overwrite(row, cur, i, e),
        ));
    }
}

/// Running a single operation.
proof fn lemma_run_one(s: Screen, op: OpView)
    ensures
        run_ops(s, seq![op]) == apply_op(s, op),
{
    assert(seq![op][0] == op);
    assert(apply_ops(s, seq![op], 0) == s);
}

/// Erasing from the column `f`, when the new row is blank with the
/// default style from `f` on, writes the cells `[f, width)`.
proof fn lemma_clear_erasable(s: Screen, rows0: Seq<Seq<CellView>>, y: int, base: Seq<CellView>, cur: Seq<CellView>, first: int, f: int)
    requires
        0 <= y < rows0.len(),
        rows0[y] == base,
        base.len() == cur.len(),
        0 <= first <= f <= cur.len(),
        s == (Screen { rows: rows0.update(y, overwrite(base, cur, first, f)), x: f, y }),
        erasable_from(cur, f),
    ensures
        clear_to_eol(s).rows == rows0.update(y, overwrite(base, cur, first, cur.len() as int)),
{
    let cleared = clear_to_eol(s);
    assert forall|k: int| f <= k < cur.len() implies cur[k] == blank_cell(default_style()) by {
        assert(is_default_blank_cell(cur[k]));
    }
    assert(cleared.rows[y] =~= overwrite(base, cur, first, cur.len() as int));
    assert(cleared.rows =~= rows0.update(y, overwrite(base, cur, first, cur.len() as int)));
}

/// Running the operations updating a row writes the new row in place of
/// the old one: entirely for a full rewrite, and otherwise where they
/// differ.
proof fn lemma_run_row_ops(s: Screen, y: u16, prev: Option<Seq<CellView>>, cur: Seq<CellView>)
    requires
        0 <= y < s.rows.len(),
        s.rows[y as int].len() == cur.len(),
        cur.len() <= u16::MAX,
        row_glyphs_wf(cur),
        row_segments_stable(cur),
        match prev {
            Some(p) => p == s.rows[y as int] && row_glyphs_wf(p),
            None => true,
        },
    ensures
        run_ops(s, row_ops(y, prev, cur)).rows == s.rows.update(y as int, cur),
{
    let yi = y as int;
    let base = s.rows[yi];
    let width = cur.len() as int;
    let first = match prev {
        Some(p) => first_diff(p, cur, 0),
        None => 0,
    };
    let last = match prev {
        Some(p) => last_diff(p, cur, first, width - 1),
        None => width - 1,
    };
    let ops = row_ops(y, prev, cur);
    match prev {
        Some(p) => {
            lemma_first_diff(p, cur, 0);
        },
        None => {},
    }
    if first >= width {
        assert(base =~= cur);
        assert(s.rows.update(yi, cur) =~= s.rows);
        assert(ops =~= Seq::<OpView>::empty());
        return;
    }
    match prev {
        Some(p) => {
            lemma_last_diff(p, cur, first, width - 1);
            lemma_first_diff_starts_glyph(p, cur, first);
        },
        None => {},
    }
    assert(first <= last < width);
    assert(!cur[first].continuation);
    // the old and new rows agree outside [first, last]
    assert forall|k: int| 0 <= k < width && (k < first || k > last) implies #[trigger] base[k] == cur[k] by {
        match prev {
            Some(p) => {
                if k < first {
                    assert(p[k] == cur[k]);
                } else {
                    assert(p[k] == cur[k]);
                }
            },
            None => {},
        }
    }
    let end = last_content(cur, width - 1);
    lemma_last_content(cur, width - 1);
    let mv = OpView::MoveTo { x: first as u16, y };
    let s1 = Screen { x: first, y: yi, ..s };
    lemma_run_one(s, mv);
    assert(run_ops(s, seq![mv]) == s1);
    if end >= first {
        let write_to = if end < last { end } else { last };
        let spans = spans_spec(y, first as u16, cur, first, write_to);
        let f = skip_continuations(cur, write_to + 1);
        lemma_skip_bounds(cur, write_to + 1);
        lemma_run_ops_concat(s, seq![mv], span_ops(cur, first, write_to + 1));
        lemma_run_span_ops(s1, cur, first, write_to + 1);
        let s2 = run_ops(s, spans);
        assert(s2 == Screen { rows: s.rows.update(yi, overwrite(base, cur, first, f)), x: f, y: yi });
        if last >= f {
            let fill = blank_fill_spec(y, f as u16, cur, f, last);
            assert(ops == spans + fill);
            lemma_run_ops_concat(s, spans, fill);
            assert(!cur[f].continuation);
            if erasable_from(cur, f) {
                lemma_run_one(s2, OpView::ClearToEndOfLine);
                lemma_clear_erasable(s2, s.rows, yi, base, cur, first, f);
                assert(overwrite(base, cur, first, width) =~= cur);
            } else {
                let mv2 = OpView::MoveTo { x: f as u16, y };
                lemma_run_one(s2, mv2);
                lemma_run_ops_concat(s2, seq![mv2], span_ops(cur, f, last + 1));
                let s3 = Screen { rows: s.rows.update(yi, overwrite(base, cur, first, f)), x: f, y: yi };
                assert(run_ops(s2, seq![mv2]) == s3);
                lemma_run_span_ops(s3, cur, f, last + 1);
                let g = skip_continuations(cur, last + 1);
                lemma_skip_bounds(cur, last + 1);
                assert(overwrite(overwrite(base, cur, first, f), cur, f, g) =~= cur);
                assert(s.rows.update(yi, overwrite(base, cur, first, f)).update(
                    yi,
                    overwrite(overwrite(base, cur, first, f), cur, f, g),
                ) =~= s.rows.update(yi, cur));
            }
        } else {
            assert(ops == spans);
            assert(overwrite(base, cur, first, f) =~= cur);
        }
    } else {
        let fill = blank_fill_spec(y, first as u16, cur, first, last);
        assert(ops == seq![mv] + fill);
        lemma_run_ops_concat(s, seq![mv], fill);
        if erasable_from(cur, first) {
            lemma_run_one(s1, OpView::ClearToEndOfLine);
            assert(overwrite(base, cur, first, first) =~= base);
            assert(s.rows.update(yi, overwrite(base, cur, first, first)) =~= s.rows);
            lemma_clear_erasable(s1, s.rows, yi, base, cur, first, first);
            assert(overwrite(base, cur, first, width) =~= cur);
        } else {
            lemma_run_one(s1, mv);
            lemma_run_ops_concat(s1, seq![mv], span_ops(cur, first, last + 1));
            assert(run_ops(s1, seq![mv]) == s1);
            lemma_run_span_ops(s1, cur, first, last + 1);
            let g = skip_continuations(cur, last + 1);
            lemma_skip_bounds(cur, last + 1);
            assert(overwrite(base, cur, first, g) =~= cur);
        }
    }
}

/// The rows of a patch target for the rows `[0, n)`.
pub open spec fn rows_ready(s: Screen, prev: Option<Seq<Seq<CellView>>>, cur: Seq<Seq<CellView>>, n: int) -> bool {
    forall|y: int|
        0 <= y < n ==> {
            &&& (#[trigger] cur[y]).len() == s.rows[y].len()
            &&& cur[y].len() <= u16::MAX
            &&& row_glyphs_wf(cur[y])
            &&& row_segments_stable(cur[y])
            &&& match prev {
                Some(p) => p[y] == s.rows[y] && row_glyphs_wf(p[y]),
                None => true,
            }
        }
}

/// Running the operations of the rows `[0, n)` writes these rows.
proof fn lemma_run_rows_ops(s: Screen, prev: Option<Seq<Seq<CellView>>>, cur: Seq<Seq<CellView>>, n: int)
    requires
        0 <= n <= cur.len(),
        cur.len() == s.rows.len(),
        n <= u16::MAX + 1,
        rows_ready(s, prev, cur, n),
    ensures
        run_ops(s, rows_ops(prev, cur, n)).rows == Seq::new(
            cur.len(),
            |k: int|
                if k < n {
                    cur[k]
                } else {
                    s.rows[k]
                },
        ),
    decreases n,
{
    if n == 0 {
        assert(rows_ops(prev, cur, 0) =~= Seq::<OpView>::empty());
        assert(s.rows =~= Seq::new(cur.len(), |k: int| if k < 0 { cur[k] } else { s.rows[k] }));
    } else {
        let y = n - 1;
        let before = rows_ops(prev, cur, y);
        let row = row_ops(y as u16, prev_row(prev, y), cur[y]);
        lemma_run_rows_ops(s, prev, cur, y);
        lemma_run_ops_concat(s, before, row);
        let s1 = run_ops(s, before);
        assert(cur[y].len() == s.rows[y].len());
        assert(s1.rows[y] == s.rows[y]);
        lemma_run_row_ops(s1, y as u16, prev_row(prev, y), cur[y]);
        assert(s1.rows.update(y, cur[y]) =~= Seq::new(
            cur.len(),
            |k: int|
                if k < n {
                    cur[k]
                } else {
                    s.rows[k]
                },
        ));
    }
}

/// The frame's rows are ready to be written by a patch.
proof fn lemma_frame_rows_ready(rows: Seq<Seq<CellView>>, prev: Option<Seq<Seq<CellView>>>, next: FrameView)
    requires
        frame_wf(next),
        frame_glyphs_wf(next),
        frame_segments_stable(next),
        rows.len() == next.height,
        forall|y: int| 0 <= y < rows.len() ==> (#[trigger] rows[y]).len() == next.width,
        match prev {
            Some(p) => p == rows && frame_glyphs_wf(FrameView { cells: p, ..next }),
            None => true,
        },
    ensures
        rows_ready(Screen { rows, x: 0, y: 0 }, prev, next.cells, next.height as int),
{
    let s = Screen { rows, x: 0, y: 0 };
    assert forall|y: int| 0 <= y < next.height implies {
        &&& (#[trigger] next.cells[y]).len() == s.rows[y].len()
        &&& next.cells[y].len() <= u16::MAX
        &&& row_glyphs_wf(next.cells[y])
        &&& row_segments_stable(next.cells[y])
        &&& match prev {
            Some(p) => p[y] == s.rows[y] && row_glyphs_wf(p[y]),
            None => true,
        }
    } by {
        assert(next.cells[y].len() == next.width);
        assert(rows[y].len() == next.width);
        match prev {
            Some(p) => {
                assert(row_glyphs_wf(FrameView { cells: p, ..next }.cells[y]));
            },
            None => {},
        }
    }
}

// ---------------------------------------------------------------------
// The laws of patches

/// Applying the patch between two compatible frames to the first one
/// gives exactly the cells of the second one; such a patch isn't a full
/// rewrite.
///
/// The frames' rows must be successions of graphemes, and the texts of
/// the runs of cells of the second one must split back into its cells'
/// graphemes: `Frame::glyphs_well_formed` and `Frame::segments_stable`
/// check these conditions.
pub proof fn law_patch_reproduces_next(prev: FrameView, next: FrameView)
    requires
        frame_wf(prev),
        frame_wf(next),
        compatible(next, prev),
        frame_glyphs_wf(prev),
        frame_glyphs_wf(next),
        frame_segments_stable(next),
    ensures
        !between_spec(Some(prev), next).full,
        applied_rows(between_spec(Some(prev), next).ops, prev.cells) == next.cells,
{
    let rows = prev.cells;
    assert(FrameView { cells: rows, ..next } == FrameView { version: next.version, ..prev });
    assert(frame_glyphs_wf(FrameView { cells: rows, ..next }));
    lemma_frame_rows_ready(rows, Some(rows), next);
    let s = Screen { rows, x: 0, y: 0 };
    lemma_run_rows_ops(s, Some(rows), next.cells, next.height as int);
    assert(Seq::new(
        next.cells.len(),
        |k: int|
            if k < next.height {
                next.cells[k]
            } else {
                rows[k]
            },
    ) =~= next.cells);
}

/// Applying a full patch of a frame to any rows of the same size gives
/// exactly the cells of the frame.
pub proof fn law_full_patch_rewrites_all(base: Seq<Seq<CellView>>, next: FrameView)
    requires
        frame_wf(next),
        frame_glyphs_wf(next),
        frame_segments_stable(next),
        base.len() == next.height,
        forall|y: int| 0 <= y < base.len() ==> (#[trigger] base[y]).len() == next.width,
    ensures
        between_spec(None, next).full,
        applied_rows(between_spec(None, next).ops, base) == next.cells,
{
    lemma_frame_rows_ready(base, None, next);
    let s = Screen { rows: base, x: 0, y: 0 };
    lemma_run_rows_ops(s, None, next.cells, next.height as int);
    assert(Seq::new(
        next.cells.len(),
        |k: int|
            if k < next.height {
                next.cells[k]
            } else {
                base[k]
            },
    ) =~= next.cells);
}

/// Every end-of-line erasure of the operations, run from `s`, happens at
/// a cursor on one of the rows, from which that row holds only blanks of
/// the default style.
pub open spec fn clears_on_blanks(s: Screen, ops: Seq<OpView>, rows: Seq<Seq<CellView>>) -> bool {
    forall|k: int|
        0 <= k < ops.len() && (#[trigger] ops[k]) is ClearToEndOfLine ==> {
            let c = apply_ops(s, ops, k);
            &&& 0 <= c.y < rows.len()
            &&& 0 <= c.x
            &&& erasable_from(rows[c.y], c.x)
        }
}

/// No end-of-line erasure among the operations.
spec fn no_clear(ops: Seq<OpView>) -> bool {
    forall|k: int| 0 <= k < ops.len() ==> !((#[trigger] ops[k]) is ClearToEndOfLine)
}

proof fn lemma_span_ops_no_clear(cells: Seq<CellView>, i: int, end: int)
    ensures
        no_clear(span_ops(cells, i, end)),
    decreases end - i,
{
    if 0 <= i < end {
        let j = run_end(cells, i + 1, cells[i].style, end);
        lemma_run_end(cells, i + 1, cells[i].style, end);
        lemma_span_ops_no_clear(cells, j, end);
        let text = run_text(cells, i, j);
        let print = if text.len() > 0 {
            seq![OpView::Print { style: cells[i].style, text }]
        } else {
            Seq::empty()
        };
        let rest = span_ops(cells, j, end);
        assert(span_ops(cells, i, end) == print + rest);
        assert forall|k: int| 0 <= k < (print + rest).len() implies !((#[trigger] (print + rest)[k]) is ClearToEndOfLine) by {
            if k < print.len() {
                assert((print + rest)[k] == print[k]);
            } else {
                assert((print + rest)[k] == rest[k - print.len()]);
            }
        }
    }
}

proof fn lemma_spans_no_clear(y: u16, x: u16, cells: Seq<CellView>, from: int, to: int)
    ensures
        no_clear(spans_spec(y, x, cells, from, to)),
{
    let sp = span_ops(cells, from, to + 1);
    lemma_span_ops_no_clear(cells, from, to + 1);
    let ops = spans_spec(y, x, cells, from, to);
    assert forall|k: int| 0 <= k < ops.len() implies !((#[trigger] ops[k]) is ClearToEndOfLine) by {
        if k > 0 {
            assert(ops[k] == sp[k - 1]);
        }
    }
}

proof fn lemma_apply_ops_shift(s: Screen, a: Seq<OpView>, b: Seq<OpView>, k: int)
    requires
        0 <= k <= b.len(),
    ensures
        apply_ops(s, a + b, a.len() + k) == apply_ops(run_ops(s, a), b, k),
    decreases k,
{
    if k == 0 {
        lemma_apply_ops_prefix(s, a + b, a, a.len() as int);
    } else {
        lemma_apply_ops_shift(s, a, b, k - 1);
        assert((a + b)[a.len() + k - 1] == b[k - 1]);
    }
}

proof fn lemma_clears_concat(s: Screen, a: Seq<OpView>, b: Seq<OpView>, rows: Seq<Seq<CellView>>)
    requires
        clears_on_blanks(s, a, rows),
        clears_on_blanks(run_ops(s, a), b, rows),
    ensures
        clears_on_blanks(s, a + b, rows),
{
    let ops = a + b;
    assert forall|k: int| 0 <= k < ops.len() && (#[trigger] ops[k]) is ClearToEndOfLine implies {
        let c = apply_ops(s, ops, k);
        &&& 0 <= c.y < rows.len()
        &&& 0 <= c.x
        &&& erasable_from(rows[c.y], c.x)
    } by {
        if k < a.len() {
            assert(ops[k] == a[k]);
            lemma_apply_ops_prefix(s, ops, a, k);
        } else {
            assert(ops[k] == b[k - a.len()]);
            lemma_apply_ops_shift(s, a, b, k - a.len());
        }
    }
}

proof fn lemma_clears_last(s: Screen, a: Seq<OpView>, rows: Seq<Seq<CellView>>)
    requires
        no_clear(a),
        0 <= run_ops(s, a).y < rows.len(),
        0 <= run_ops(s, a).x,
        erasable_from(rows[run_ops(s, a).y], run_ops(s, a).x),
    ensures
        clears_on_blanks(s, a + seq![OpView::ClearToEndOfLine], rows),
{
    let ops = a + seq![OpView::ClearToEndOfLine];
    assert forall|k: int| 0 <= k < ops.len() && (#[trigger] ops[k]) is ClearToEndOfLine implies {
        let c = apply_ops(s, ops, k);
        &&& 0 <= c.y < rows.len()
        &&& 0 <= c.x
        &&& erasable_from(rows[c.y], c.x)
    } by {
        if k < a.len() {
            assert(ops[k] == a[k]);
        } else {
            lemma_apply_ops_prefix(s, ops, a, a.len() as int);
        }
    }
}

/// The erasures of the operations of a row happen on that row, at a
/// column from which the new row holds only default blanks.
proof fn lemma_row_clears(s: Screen, y: u16, prev: Option<Seq<CellView>>, cur: Seq<CellView>, rows: Seq<Seq<CellView>>)
    requires
        0 <= y < s.rows.len(),
        y < rows.len(),
        rows[y as int] == cur,
        s.rows[y as int].len() == cur.len(),
        cur.len() <= u16::MAX,
        row_glyphs_wf(cur),
        row_segments_stable(cur),
        match prev {
            Some(p) => p == s.rows[y as int] && row_glyphs_wf(p),
            None => true,
        },
    ensures
        clears_on_blanks(s, row_ops(y, prev, cur), rows),
{
    let yi = y as int;
    let base = s.rows[yi];
    let width = cur.len() as int;
    let first = match prev {
        Some(p) => first_diff(p, cur, 0),
        None => 0,
    };
    let last = match prev {
        Some(p) => last_diff(p, cur, first, width - 1),
        None => width - 1,
    };
    let ops = row_ops(y, prev, cur);
    match prev {
        Some(p) => {
            lemma_first_diff(p, cur, 0);
        },
        None => {},
    }
    if first >= width {
        assert(ops =~= Seq::<OpView>::empty());
        return;
    }
    match prev {
        Some(p) => {
            lemma_last_diff(p, cur, first, width - 1);
            lemma_first_diff_starts_glyph(p, cur, first);
        },
        None => {},
    }
    let end = last_content(cur, width - 1);
    lemma_last_content(cur, width - 1);
    let mv = OpView::MoveTo { x: first as u16, y };
    let s1 = Screen { x: first, y: yi, ..s };
    lemma_run_one(s, mv);
    if end >= first {
        let write_to = if end < last { end } else { last };
        let spans = spans_spec(y, first as u16, cur, first, write_to);
        let f = skip_continuations(cur, write_to + 1);
        lemma_skip_bounds(cur, write_to + 1);
        lemma_spans_no_clear(y, first as u16, cur, first, write_to);
        if last >= f {
            let fill = blank_fill_spec(y, f as u16, cur, f, last);
            assert(ops == spans + fill);
            if erasable_from(cur, f) {
                lemma_run_ops_concat(s, seq![mv], span_ops(cur, first, write_to + 1));
                lemma_run_span_ops(s1, cur, first, write_to + 1);
                assert(fill == seq![OpView::ClearToEndOfLine]);
                lemma_clears_last(s, spans, rows);
            } else {
                lemma_spans_no_clear(y, f as u16, cur, f, last);
                assert forall|k: int| 0 <= k < ops.len() implies !((#[trigger] ops[k]) is ClearToEndOfLine) by {
                    if k < spans.len() {
                        assert(ops[k] == spans[k]);
                    } else {
                        assert(ops[k] == fill[k - spans.len()]);
                    }
                }
            }
        } else {
            assert(ops == spans);
        }
    } else {
        let fill = blank_fill_spec(y, first as u16, cur, first, last);
        assert(ops == seq![mv] + fill);
        if erasable_from(cur, first) {
            assert(fill == seq![OpView::ClearToEndOfLine]);
            assert(seq![mv] =~= seq![mv]);
            assert forall|k: int| 0 <= k < 1 implies !((#[trigger] seq![mv][k]) is ClearToEndOfLine) by {}
            lemma_clears_last(s, seq![mv], rows);
        } else {
            lemma_spans_no_clear(y, first as u16, cur, first, last);
            assert forall|k: int| 0 <= k < ops.len() implies !((#[trigger] ops[k]) is ClearToEndOfLine) by {
                if k >= 1 {
                    assert(ops[k] == fill[k - 1]);
                }
            }
        }
    }
}

proof fn lemma_rows_clears(s: Screen, prev: Option<Seq<Seq<CellView>>>, cur: Seq<Seq<CellView>>, n: int)
    requires
        0 <= n <= cur.len(),
        cur.len() == s.rows.len(),
        n <= u16::MAX + 1,
        rows_ready(s, prev, cur, n),
    ensures
        clears_on_blanks(s, rows_ops(prev, cur, n), cur),
    decreases n,
{
    if n == 0 {
        assert(rows_ops(prev, cur, 0) =~= Seq::<OpView>::empty());
    } else {
        let y = n - 1;
        let before = rows_ops(prev, cur, y);
        let row = row_ops(y as u16, prev_row(prev, y), cur[y]);
        lemma_rows_clears(s, prev, cur, y);
        lemma_run_rows_ops(s, prev, cur, y);
        let s1 = run_ops(s, before);
        assert(cur[y].len() == s.rows[y].len());
        assert(s1.rows[y] == s.rows[y]);
        lemma_row_clears(s1, y as u16, prev_row(prev, y), cur[y], cur);
        lemma_clears_concat(s, before, row, cur);
    }
}

/// An end-of-line erasure of a patch only ever erases blanks of the
/// default style: run on the rows the patch was computed from (any rows
/// of the frame's size for a full rewrite), each erasure happens at a
/// cursor on a row of the frame from which the new row holds only
/// default blanks. The conditions are those of
/// [`law_patch_reproduces_next`].
pub proof fn law_clear_erases_default_blanks(prev: Option<FrameView>, next: FrameView, rows: Seq<Seq<CellView>>)
    requires
        frame_wf(next),
        frame_glyphs_wf(next),
        frame_segments_stable(next),
        rows.len() == next.height,
        forall|y: int| 0 <= y < rows.len() ==> (#[trigger] rows[y]).len() == next.width,
        prev is Some && compatible(next, prev.unwrap()) ==> prev.unwrap().cells == rows && frame_wf(prev.unwrap())
            && frame_glyphs_wf(prev.unwrap()),
    ensures
        clears_on_blanks(Screen { rows, x: 0, y: 0 }, between_spec(prev, next).ops, next.cells),
{
    let full = is_full_between(prev, next);
    let s = Screen { rows, x: 0, y: 0 };
    if full {
        lemma_frame_rows_ready(rows, None, next);
        lemma_rows_clears(s, None, next.cells, next.height as int);
    } else {
        let p = prev.unwrap();
        assert(FrameView { cells: rows, ..next } == FrameView { version: next.version, ..p });
        assert(frame_glyphs_wf(FrameView { cells: rows, ..next }));
        lemma_frame_rows_ready(rows, Some(rows), next);
        lemma_rows_clears(s, Some(rows), next.cells, next.height as int);
    }
}

/// The patch from a frame incompatible with the new one is the full
/// rewrite of the new one.
pub proof fn law_incompatible_gives_full_patch(prev: FrameView, next: FrameView)
    requires
        !compatible(next, prev),
    ensures
        between_spec(Some(prev), next) == between_spec(None, next),
        between_spec(Some(prev), next).full,
{
}

/// The operations only move the cursor to the row `y`.
pub open spec fn moves_within_row(ops: Seq<OpView>, y: u16) -> bool {
    forall|k: int| 0 <= k < ops.len() ==> match #[trigger] ops[k] {
        OpView::MoveTo { y: yy, .. } => yy == y,
        _ => true,
    }
}

proof fn lemma_span_ops_print_only(cells: Seq<CellView>, i: int, end: int, y: u16)
    ensures
        moves_within_row(span_ops(cells, i, end), y),
    decreases end - i,
{
    if 0 <= i < end {
        let j = run_end(cells, i + 1, cells[i].style, end);
        lemma_run_end(cells, i + 1, cells[i].style, end);
        lemma_span_ops_print_only(cells, j, end, y);
    }
}

proof fn lemma_moves_concat(a: Seq<OpView>, b: Seq<OpView>, y: u16)
    requires
        moves_within_row(a, y),
        moves_within_row(b, y),
    ensures
        moves_within_row(a + b, y),
{
    assert forall|k: int| 0 <= k < (a + b).len() implies match #[trigger] (a + b)[k] {
        OpView::MoveTo { y: yy, .. } => yy == y,
        _ => true,
    } by {
        if k < a.len() {
            assert((a + b)[k] == a[k]);
        } else {
            assert((a + b)[k] == b[k - a.len()]);
        }
    }
}

proof fn lemma_spans_in_row(y: u16, x: u16, cells: Seq<CellView>, from: int, to: int)
    ensures
        moves_within_row(spans_spec(y, x, cells, from, to), y),
{
    lemma_span_ops_print_only(cells, from, to + 1, y);
    lemma_moves_concat(seq![OpView::MoveTo { x, y }], span_ops(cells, from, to + 1), y);
}

proof fn lemma_blank_fill_in_row(y: u16, x: u16, cur: Seq<CellView>, from: int, to: int)
    ensures
        moves_within_row(blank_fill_spec(y, x, cur, from, to), y),
{
    lemma_spans_in_row(y, x, cur, from, to);
}

/// The operations of a row only move to that row, and there are none
/// when the row didn't change.
proof fn lemma_row_ops_in_row(y: u16, prev: Option<Seq<CellView>>, cur: Seq<CellView>)
    requires
        match prev {
            Some(p) => p.len() == cur.len(),
            None => true,
        },
    ensures
        moves_within_row(row_ops(y, prev, cur), y),
        prev == Some(cur) ==> row_ops(y, prev, cur).len() == 0,
{
    let width = cur.len() as int;
    match prev {
        Some(p) => {
            lemma_first_diff(p, cur, 0);
        },
        None => {},
    }
    let first = match prev {
        Some(p) => first_diff(p, cur, 0),
        None => 0,
    };
    let last = match prev {
        Some(p) => last_diff(p, cur, first, width - 1),
        None => width - 1,
    };
    if first < width {
        let end = last_content(cur, width - 1);
        if end >= first {
            let write_to = if end < last { end } else { last };
            let f = skip_continuations(cur, write_to + 1);
            lemma_spans_in_row(y, first as u16, cur, first, write_to);
            lemma_blank_fill_in_row(y, f as u16, cur, f, last);
            lemma_moves_concat(
                spans_spec(y, first as u16, cur, first, write_to),
                blank_fill_spec(y, f as u16, cur, f, last),
                y,
            );
        } else {
            lemma_blank_fill_in_row(y, first as u16, cur, first, last);
            lemma_moves_concat(
                seq![OpView::MoveTo { x: first as u16, y }],
                blank_fill_spec(y, first as u16, cur, first, last),
                y,
            );
        }
    }
}

/// Every cursor move of the operations of rows `[0, n)` targets a row
/// which changed.
proof fn lemma_rows_ops_touch_changed(prev: Seq<Seq<CellView>>, cur: Seq<Seq<CellView>>, n: int)
    requires
        0 <= n <= cur.len(),
        n <= prev.len(),
        n <= u16::MAX + 1,
        forall|y: int| 0 <= y < n ==> (#[trigger] prev[y]).len() == cur[y].len(),
    ensures
        forall|k: int| 0 <= k < rows_ops(Some(prev), cur, n).len() ==> match #[trigger] rows_ops(Some(prev), cur, n)[k] {
            OpView::MoveTo { y, .. } => y < n && prev[y as int] != cur[y as int],
            _ => true,
        },
    decreases n,
{
    if n > 0 {
        let y = n - 1;
        lemma_rows_ops_touch_changed(prev, cur, y);
        let a = rows_ops(Some(prev), cur, y);
        let b = row_ops(y as u16, prev_row(Some(prev), y), cur[y]);
        assert(prev[y].len() == cur[y].len());
        lemma_row_ops_in_row(y as u16, Some(prev[y]), cur[y]);
        assert forall|k: int| 0 <= k < (a + b).len() implies match #[trigger] (a + b)[k] {
            OpView::MoveTo { y: yy, .. } => yy < n && prev[yy as int] != cur[yy as int],
            _ => true,
        } by {
            if k < a.len() {
                assert((a + b)[k] == a[k]);
            } else {
                assert((a + b)[k] == b[k - a.len()]);
                if prev[y] == cur[y] {
                    assert(b.len() == 0);
                }
            }
        }
    }
}

/// The patch between two compatible frames only moves to rows which
/// changed: an unchanged row is never rewritten.
pub proof fn law_patch_touches_changed_rows_only(prev: FrameView, next: FrameView)
    requires
        frame_wf(prev),
        frame_wf(next),
        compatible(next, prev),
    ensures
        forall|k: int|
            0 <= k < between_spec(Some(prev), next).ops.len() ==> match #[trigger] between_spec(
                Some(prev),
                next,
            ).ops[k] {
                OpView::MoveTo { y, .. } => y < next.height && prev.cells[y as int] != next.cells[y as int],
                _ => true,
            },
{
    assert forall|y: int| 0 <= y < next.height implies (#[trigger] prev.cells[y]).len() == next.cells[y].len() by {
        assert(prev.cells[y].len() == prev.width);
        assert(next.cells[y].len() == next.width);
    }
    lemma_rows_ops_touch_changed(prev.cells, next.cells, next.height as int);
}

/// The cell a cursor move targets, as (row, column), and `None` for the
/// other operations.
pub open spec fn move_target(op: OpView) -> Option<(u16, u16)> {
    match op {
        OpView::MoveTo { x, y } => Some((y, x)),
        _ => None,
    }
}

/// Whether the cell `a` comes before the cell `b`, or is `b`, in reading
/// order (rows top to bottom, each row left to right).
pub open spec fn reads_before(a: (u16, u16), b: (u16, u16)) -> bool {
    a.0 < b.0 || (a.0 == b.0 && a.1 <= b.1)
}

/// Whether the cursor moves of operations go in reading order.
pub open spec fn moves_in_reading_order(ops: Seq<OpView>) -> bool {
    forall|i: int, j: int|
        0 <= i < j < ops.len() && move_target(ops[i]) is Some && move_target(ops[j]) is Some ==> reads_before(
            #[trigger] move_target(ops[i]).unwrap(),
            #[trigger] move_target(ops[j]).unwrap(),
        )
}

/// The only cursor move of the operations, if any, is the first one, to
/// the cell (`y`, `x`).
spec fn moves_first_only(ops: Seq<OpView>, y: u16, x: u16) -> bool {
    forall|k: int|
        0 <= k < ops.len() && (#[trigger] move_target(ops[k])) is Some ==> k == 0 && move_target(ops[k]) == Some(
            (y, x),
        )
}

proof fn lemma_spans_first_only(y: u16, x: u16, cells: Seq<CellView>, from: int, to: int)
    ensures
        moves_first_only(spans_spec(y, x, cells, from, to), y, x),
{
    let sp = span_ops(cells, from, to + 1);
    lemma_span_ops_print_only(cells, from, to + 1, 0);
    lemma_span_ops_print_only(cells, from, to + 1, 1);
    let ops = spans_spec(y, x, cells, from, to);
    assert forall|k: int| 0 <= k < ops.len() && (#[trigger] move_target(ops[k])) is Some implies k == 0
        && move_target(ops[k]) == Some((y, x)) by {
        if k > 0 {
            assert(ops[k] == sp[k - 1]);
            assert(match sp[k - 1] {
                OpView::MoveTo { y: yy, .. } => yy == 0,
                _ => true,
            });
            assert(match sp[k - 1] {
                OpView::MoveTo { y: yy, .. } => yy == 1,
                _ => true,
            });
        }
    }
}

proof fn lemma_blank_fill_first_only(y: u16, x: u16, cur: Seq<CellView>, from: int, to: int)
    ensures
        moves_first_only(blank_fill_spec(y, x, cur, from, to), y, x),
{
    lemma_spans_first_only(y, x, cur, from, to);
}

proof fn lemma_first_only_concat(a: Seq<OpView>, b: Seq<OpView>, y: u16, x1: u16, x2: u16)
    requires
        moves_first_only(a, y, x1),
        moves_first_only(b, y, x2),
        x1 <= x2,
    ensures
        moves_in_reading_order(a + b),
{
    let ops = a + b;
    assert forall|i: int, j: int|
        0 <= i < j < ops.len() && move_target(ops[i]) is Some && move_target(ops[j]) is Some implies reads_before(
            #[trigger] move_target(ops[i]).unwrap(),
            #[trigger] move_target(ops[j]).unwrap(),
        ) by {
        if j < a.len() {
            assert(ops[i] == a[i]);
            assert(ops[j] == a[j]);
        } else if i < a.len() {
            assert(ops[i] == a[i]);
            assert(ops[j] == b[j - a.len()]);
        } else {
            assert(ops[i] == b[i - a.len()]);
            assert(ops[j] == b[j - a.len()]);
        }
    }
}

/// The cursor moves of the operations of a row go left to right.
proof fn lemma_row_reading_order(y: u16, prev: Option<Seq<CellView>>, cur: Seq<CellView>)
    requires
        cur.len() <= u16::MAX,
        match prev {
            Some(p) => p.len() == cur.len(),
            None => true,
        },
    ensures
        moves_in_reading_order(row_ops(y, prev, cur)),
{
    let width = cur.len() as int;
    match prev {
        Some(p) => {
            lemma_first_diff(p, cur, 0);
        },
        None => {},
    }
    let first = match prev {
        Some(p) => first_diff(p, cur, 0),
        None => 0,
    };
    let last = match prev {
        Some(p) => last_diff(p, cur, first, width - 1),
        None => width - 1,
    };
    if first < width {
        match prev {
            Some(p) => {
                lemma_last_diff(p, cur, first, width - 1);
            },
            None => {},
        }
        assert(0 <= first <= last < width);
        let end = last_content(cur, width - 1);
        if end >= first {
            let write_to = if end < last { end } else { last };
            let spans = spans_spec(y, first as u16, cur, first, write_to);
            let f = skip_continuations(cur, write_to + 1);
            lemma_spans_first_only(y, first as u16, cur, first, write_to);
            if last >= f {
                lemma_skip_continuations_bounds(cur, write_to + 1);
                lemma_blank_fill_first_only(y, f as u16, cur, f, last);
                lemma_first_only_concat(spans, blank_fill_spec(y, f as u16, cur, f, last), y, first as u16, f as u16);
            } else {
                assert(spans + Seq::<OpView>::empty() =~= spans);
                lemma_first_only_concat(spans, Seq::<OpView>::empty(), y, first as u16, first as u16);
            }
        } else {
            let head = seq![OpView::MoveTo { x: first as u16, y }];
            assert(moves_first_only(head, y, first as u16));
            lemma_blank_fill_first_only(y, first as u16, cur, first, last);
            lemma_first_only_concat(head, blank_fill_spec(y, first as u16, cur, first, last), y, first as u16, first as u16);
        }
    }
}

proof fn lemma_skip_continuations_bounds(cur: Seq<CellView>, k: int)
    ensures
        skip_continuations(cur, k) >= k,
    decreases cur.len() - k,
{
    if 0 <= k < cur.len() && cur[k].continuation {
        lemma_skip_continuations_bounds(cur, k + 1);
    }
}

proof fn lemma_rows_ops_ordered(prev: Option<Seq<Seq<CellView>>>, cur: Seq<Seq<CellView>>, n: int)
    requires
        0 <= n <= cur.len(),
        n <= u16::MAX + 1,
        forall|y: int| 0 <= y < n ==> (#[trigger] cur[y]).len() <= u16::MAX,
        prev is Some ==> n <= prev.unwrap().len(),
        prev is Some ==> forall|y: int| 0 <= y < n ==> (#[trigger] prev.unwrap()[y]).len() == cur[y].len(),
    ensures
        forall|k: int|
            0 <= k < rows_ops(prev, cur, n).len() && (#[trigger] move_target(rows_ops(prev, cur, n)[k])) is Some
                ==> move_target(rows_ops(prev, cur, n)[k]).unwrap().0 < n,
        moves_in_reading_order(rows_ops(prev, cur, n)),
    decreases n,
{
    if n > 0 {
        let y = n - 1;
        lemma_rows_ops_ordered(prev, cur, y);
        let a = rows_ops(prev, cur, y);
        let pr = prev_row(prev, y);
        let b = row_ops(y as u16, pr, cur[y]);
        match prev {
            Some(p) => {
                assert(p[y].len() == cur[y].len());
            },
            None => {},
        }
        lemma_row_ops_in_row(y as u16, pr, cur[y]);
        lemma_row_reading_order(y as u16, pr, cur[y]);
        let ops = a + b;
        assert(rows_ops(prev, cur, n) == ops);
        assert forall|k: int| 0 <= k < b.len() && (#[trigger] move_target(b[k])) is Some implies move_target(
            b[k],
        ).unwrap().0 == y by {
            assert(match b[k] {
                OpView::MoveTo { y: yy, .. } => yy == y as u16,
                _ => true,
            });
        }
        assert forall|k: int| 0 <= k < ops.len() && (#[trigger] move_target(ops[k])) is Some implies move_target(
            ops[k],
        ).unwrap().0 < n by {
            if k < a.len() {
                assert(ops[k] == a[k]);
            } else {
                assert(ops[k] == b[k - a.len()]);
            }
        }
        assert forall|i: int, j: int|
            0 <= i < j < ops.len() && move_target(ops[i]) is Some && move_target(ops[j]) is Some implies reads_before(
                #[trigger] move_target(ops[i]).unwrap(),
                #[trigger] move_target(ops[j]).unwrap(),
            ) by {
            if j < a.len() {
                assert(ops[i] == a[i]);
                assert(ops[j] == a[j]);
            } else if i < a.len() {
                assert(ops[i] == a[i]);
                assert(ops[j] == b[j - a.len()]);
                assert(move_target(a[i]).unwrap().0 < y);
                assert(move_target(b[j - a.len()]).unwrap().0 == y);
            } else {
                assert(ops[i] == b[i - a.len()]);
                assert(ops[j] == b[j - a.len()]);
            }
        }
    }
}

/// The operations updating a row from `prev` are none exactly when the
/// row didn't change; otherwise every cursor move targets a column of
/// the changed span, from the first to the last cell which differs.
pub proof fn law_row_ops_changed_span(y: u16, prev: Seq<CellView>, cur: Seq<CellView>)
    requires
        prev.len() == cur.len(),
        cur.len() <= u16::MAX,
    ensures
        row_ops(y, Some(prev), cur).len() == 0 <==> prev == cur,
        forall|k: int|
            0 <= k < row_ops(y, Some(prev), cur).len() && (#[trigger] move_target(row_ops(y, Some(prev), cur)[k]))
                is Some ==> {
                let x = move_target(row_ops(y, Some(prev), cur)[k]).unwrap().1 as int;
                let first = first_diff(prev, cur, 0);
                &&& move_target(row_ops(y, Some(prev), cur)[k]).unwrap().0 == y
                &&& first <= x <= last_diff(prev, cur, first, cur.len() - 1)
                &&& prev[first] != cur[first]
                &&& prev[last_diff(prev, cur, first, cur.len() - 1)] != cur[last_diff(prev, cur, first, cur.len() - 1)]
            },
{
    let width = cur.len() as int;
    let ops = row_ops(y, Some(prev), cur);
    lemma_first_diff(prev, cur, 0);
    lemma_row_ops_in_row(y, Some(prev), cur);
    let first = first_diff(prev, cur, 0);
    if first >= width {
        assert(prev =~= cur);
        return;
    }
    assert(prev != cur);
    lemma_last_diff(prev, cur, first, width - 1);
    let last = last_diff(prev, cur, first, width - 1);
    assert(prev[last] != cur[last]);
    let end = last_content(cur, width - 1);
    if end >= first {
        let write_to = if end < last { end } else { last };
        let spans = spans_spec(y, first as u16, cur, first, write_to);
        let f = skip_continuations(cur, write_to + 1);
        lemma_spans_first_only(y, first as u16, cur, first, write_to);
        assert(spans.len() > 0);
        if last >= f {
            lemma_skip_continuations_bounds(cur, write_to + 1);
            let fill = blank_fill_spec(y, f as u16, cur, f, last);
            lemma_blank_fill_first_only(y, f as u16, cur, f, last);
            assert forall|k: int| 0 <= k < ops.len() && (#[trigger] move_target(ops[k])) is Some implies first
                <= move_target(ops[k]).unwrap().1 <= last && move_target(ops[k]).unwrap().0 == y by {
                if k < spans.len() {
                    assert(ops[k] == spans[k]);
                } else {
                    assert(ops[k] == fill[k - spans.len()]);
                }
            }
        } else {
            assert forall|k: int| 0 <= k < ops.len() && (#[trigger] move_target(ops[k])) is Some implies first
                <= move_target(ops[k]).unwrap().1 <= last && move_target(ops[k]).unwrap().0 == y by {
                assert(ops[k] == spans[k]);
            }
        }
    } else {
        let head = seq![OpView::MoveTo { x: first as u16, y }];
        let fill = blank_fill_spec(y, first as u16, cur, first, last);
        lemma_blank_fill_first_only(y, first as u16, cur, first, last);
        assert forall|k: int| 0 <= k < ops.len() && (#[trigger] move_target(ops[k])) is Some implies first
            <= move_target(ops[k]).unwrap().1 <= last && move_target(ops[k]).unwrap().0 == y by {
            if k < 1 {
                assert(ops[k] == head[k]);
            } else {
                assert(ops[k] == fill[k - 1]);
            }
        }
    }
}

/// The cursor moves of a patch go in reading order: rows top to bottom,
/// and in each row, spans left to right. Once the cursor moved to a
/// row, it never moves back to a row above, nor to a column on the left
/// of a span already written in this row.
pub proof fn law_patch_moves_in_reading_order(prev: Option<FrameView>, next: FrameView)
    requires
        frame_wf(next),
        prev matches Some(p) ==> frame_wf(p),
    ensures
        moves_in_reading_order(between_spec(prev, next).ops),
{
    let full = is_full_between(prev, next);
    let prev_rows = if full {
        None
    } else {
        Some(prev.unwrap().cells)
    };
    assert forall|y: int| 0 <= y < next.height implies (#[trigger] next.cells[y]).len() <= u16::MAX by {
        assert(next.cells[y].len() == next.width);
    }
    if !full {
        let p = prev.unwrap();
        assert forall|y: int| 0 <= y < next.height implies (#[trigger] p.cells[y]).len() == next.cells[y].len() by {
            assert(next.cells[y].len() == next.width);
        }
    }
    lemma_rows_ops_ordered(prev_rows, next.cells, next.height as int);
}

/// The patch between two compatible frames of the same cells is empty,
/// whatever the values the cells were rebuilt from.
pub proof fn law_same_cells_empty_patch(prev: FrameView, next: FrameView)
    requires
        frame_wf(prev),
        frame_wf(next),
        compatible(next, prev),
        prev.cells == next.cells,
    ensures
        !between_spec(Some(prev), next).full,
        between_spec(Some(prev), next).ops.len() == 0,
{
    law_patch_touches_changed_rows_only(prev, next);
    let ops = between_spec(Some(prev), next).ops;
    if ops.len() > 0 {
        lemma_rows_nonempty_ops_have_move(prev.cells, next.cells, next.height as int);
        let k = choose|k: int| 0 <= k < ops.len() && ops[k] is MoveTo;
        assert(ops[k] is MoveTo);
    }
}

/// Non-empty operations of rows always hold a cursor move.
proof fn lemma_rows_nonempty_ops_have_move(prev: Seq<Seq<CellView>>, cur: Seq<Seq<CellView>>, n: int)
    requires
        0 <= n <= cur.len(),
        n <= prev.len(),
    ensures
        rows_ops(Some(prev), cur, n).len() > 0 ==> exists|k: int|
            0 <= k < rows_ops(Some(prev), cur, n).len() && (#[trigger] rows_ops(Some(prev), cur, n)[k]) is MoveTo,
    decreases n,
{
    if n > 0 {
        let y = n - 1;
        lemma_rows_nonempty_ops_have_move(prev, cur, y);
        let a = rows_ops(Some(prev), cur, y);
        let b = row_ops(y as u16, prev_row(Some(prev), y), cur[y]);
        if a.len() > 0 {
            let k = choose|k: int| 0 <= k < a.len() && (#[trigger] a[k]) is MoveTo;
            assert((a + b)[k] == a[k]);
        } else if b.len() > 0 {
            lemma_row_ops_start_with_move(y as u16, prev_row(Some(prev), y), cur[y]);
            assert((a + b)[0] == b[0]);
        }
    }
}

/// The operations of a row start with a cursor move.
proof fn lemma_row_ops_start_with_move(y: u16, prev: Option<Seq<CellView>>, cur: Seq<CellView>)
    ensures
        row_ops(y, prev, cur).len() > 0 ==> row_ops(y, prev, cur)[0] is MoveTo,
{
    let width = cur.len() as int;
    let first = match prev {
        Some(p) => first_diff(p, cur, 0),
        None => 0,
    };
    let last = match prev {
        Some(p) => last_diff(p, cur, first, width - 1),
        None => width - 1,
    };
    if first < width {
        let end = last_content(cur, width - 1);
        if end >= first {
            let write_to = if end < last { end } else { last };
            let f = skip_continuations(cur, write_to + 1);
            let spans = spans_spec(y, first as u16, cur, first, write_to);
            assert(spans[0] is MoveTo);
            if last >= f {
                assert((spans + blank_fill_spec(y, f as u16, cur, f, last))[0] == spans[0]);
            }
        }
    }
}

// ---------------------------------------------------------------------
// Builders keep the geometry of their frame

/// Two frames have the same version, geometry and skin fingerprint, and
/// both have their declared size.
pub open spec fn same_frame_shape(a: FrameView, b: FrameView) -> bool {
    &&& a.version == b.version
    &&& a.left == b.left
    &&& a.top == b.top
    &&& a.width == b.width
    &&& a.height == b.height
    &&& a.skin_fingerprint == b.skin_fingerprint
    &&& frame_wf(a)
    &&& frame_wf(b)
}

proof fn lemma_with_cell_shape(b: BuilderView, r: int, k: int, c: CellView)
    requires
        frame_wf(b.frame),
        0 <= r < b.frame.height,
        0 <= k < b.frame.width,
    ensures
        same_frame_shape(b.frame, with_cell(b, r, k, c).frame),
{
    let f = with_cell(b, r, k, c).frame;
    assert forall|y: int| 0 <= y < f.cells.len() implies (#[trigger] f.cells[y]).len() == f.width by {
        assert(b.frame.cells[y].len() == b.frame.width);
    }
}

proof fn lemma_blank_span_shape(b: BuilderView, r: int, from: int, to: int)
    requires
        frame_wf(b.frame),
        0 <= r < b.frame.height,
    ensures
        same_frame_shape(b.frame, with_blank_span(b, r, from, to).frame),
{
    let f = with_blank_span(b, r, from, to).frame;
    assert forall|y: int| 0 <= y < f.cells.len() implies (#[trigger] f.cells[y]).len() == f.width by {
        assert(b.frame.cells[y].len() == b.frame.width);
    }
}

proof fn lemma_blank_rows_shape(b: BuilderView, from: int, to: int)
    requires
        frame_wf(b.frame),
    ensures
        same_frame_shape(b.frame, with_blank_rows(b, from, to).frame),
{
    let f = with_blank_rows(b, from, to).frame;
    assert forall|y: int| 0 <= y < f.cells.len() implies (#[trigger] f.cells[y]).len() == f.width by {
        assert(b.frame.cells[y].len() == b.frame.width);
    }
}

proof fn lemma_shape_trans(a: FrameView, b: FrameView, c: FrameView)
    requires
        same_frame_shape(a, b),
        same_frame_shape(b, c),
    ensures
        same_frame_shape(a, c),
{
}

proof fn lemma_erase_line_shape(b: BuilderView, mode: u16)
    requires
        frame_wf(b.frame),
    ensures
        same_frame_shape(b.frame, erase_line_spec(b, mode).frame),
{
    if b_top(b) <= b.row < b_top(b) + b.frame.height {
        let r = b.row - b_top(b);
        let width = b.frame.width as int;
        lemma_blank_span_shape(b, r, 0, width);
        let start = crate::builder::min(crate::builder::sat_sub(b.col, b_left(b)), width);
        let end = crate::builder::min(
            crate::builder::sat_sub(crate::builder::sat(b.col + 1), b_left(b)),
            width,
        );
        lemma_blank_span_shape(b, r, start, width);
        lemma_blank_span_shape(b, r, 0, end);
    }
}

proof fn lemma_erase_display_shape(b: BuilderView, mode: u16)
    requires
        frame_wf(b.frame),
    ensures
        same_frame_shape(b.frame, erase_display_spec(b, mode).frame),
{
    if mode == 0 {
        let b1 = erase_line_spec(b, 0);
        lemma_erase_line_shape(b, 0);
        lemma_blank_rows_shape(b1, crate::builder::sat(b.row + 1), b_top(b) + b.frame.height);
    } else if mode == 1 {
        let b1 = with_blank_rows(b, b_top(b), crate::builder::min(b.row, b_top(b) + b.frame.height));
        lemma_blank_rows_shape(b, b_top(b), crate::builder::min(b.row, b_top(b) + b.frame.height));
        lemma_erase_line_shape(b1, 1);
    } else {
        lemma_blank_rows_shape(b, b_top(b), b_top(b) + b.frame.height);
    }
}

proof fn lemma_grapheme_shape(b: BuilderView, g: Seq<char>)
    requires
        frame_wf(b.frame),
    ensures
        same_frame_shape(b.frame, put_grapheme_spec(b, g).frame),
{
    let w = display_width(g) as int;
    if !b.blocked {
        if w == 0 {
            let col = if b.col > 0 {
                b.col - 1
            } else {
                b.col
            };
            if in_frame(b, b.row, col) {
                let r = b.row - b_top(b);
                let k = col - b_left(b);
                let c = b.frame.cells[r][k];
                lemma_with_cell_shape(b, r, k, CellView { symbol: c.symbol + g, ..c });
                if k > 0 {
                    let lead = b.frame.cells[r][k - 1];
                    lemma_with_cell_shape(b, r, k - 1, CellView { symbol: lead.symbol + g, ..lead });
                }
            }
        } else if b.col >= b_left(b) && b.col + w > b_left(b) + b.frame.width {
            let cropped = BuilderView { blocked: true, ..b };
            if in_frame(b, b.row, b.col) {
                lemma_with_cell_shape(cropped, b.row - b_top(b), b.col - b_left(b), blank_cell(b.style));
            }
        } else {
            let moved = BuilderView { col: crate::builder::sat(b.col + w), ..b };
            if in_frame(b, b.row, b.col) {
                let r = b.row - b_top(b);
                let k = b.col - b_left(b);
                let lead = CellView { symbol: g, style: b.style, continuation: false };
                lemma_with_cell_shape(moved, r, k, lead);
                let written = with_cell(moved, r, k, lead);
                if w == 2 {
                    lemma_with_cell_shape(written, r, k + 1, continuation_cell(b.style));
                }
            }
        }
    }
}

proof fn lemma_step_shape_frame(b: BuilderView, s: Seq<char>)
    requires
        frame_wf(b.frame),
        s.len() > 0,
        step_spec(b, s) is Some,
    ensures
        same_frame_shape(b.frame, step_spec(b, s).unwrap().0.frame),
{
    let c = s[0];
    if c == '\x1b' {
        if s.len() >= 2 && s[1] == '[' {
            let st = csi_step(b, s);
            let pe = crate::builder::scan_while(s, 2, '0', '?');
            let p = crate::builder::scan_while(s, pe, ' ', '/');
            if p < s.len() && '@' <= s[p] <= '~' {
                let ps = s.subrange(2, pe);
                let params = crate::builder::csi_params(ps);
                let mode = crate::builder::csi_mode(params);
                lemma_erase_display_shape(b, mode);
                lemma_erase_line_shape(b, mode);
            }
        }
    } else if c == '\t' {
        if crate::builder::b_top(b) <= b.row < b_top(b) + b.frame.height {
            let next = crate::builder::sat((b.col / 8 + 1) * 8);
            let end = crate::builder::min(next, b_left(b) + b.frame.width);
            lemma_blank_span_shape(
                BuilderView { col: end, ..b },
                b.row - b_top(b),
                crate::builder::sat_sub(b.col, b_left(b)),
                end - b_left(b),
            );
        }
    } else if c != '\n' && c != '\r' && !(c < ' ' || c == '\x7f') {
        lemma_grapheme_shape(b, grapheme_clusters(s)[0]);
    }
}

/// A frame builder emulates a terminal screen of a fixed size: whatever
/// it interprets, the frame it builds keeps the version, geometry and
/// skin fingerprint it started from, with rows of the frame's width.
pub proof fn law_builder_keeps_frame_shape(b: BuilderView, s: Seq<char>)
    requires
        frame_wf(b.frame),
        run_spec(b, s) is Some,
    ensures
        same_frame_shape(b.frame, run_spec(b, s).unwrap().frame),
    decreases s.len(),
{
    if s.len() == 0 {
    } else {
        let st = step_spec(b, s).unwrap();
        lemma_step_shape_frame(b, s);
        let n = st.1;
        let consumed = if n < 1 {
            1
        } else if n > s.len() {
            s.len() as int
        } else {
            n
        };
        law_builder_keeps_frame_shape(st.0, s.subrange(consumed, s.len() as int));
        lemma_shape_trans(b.frame, st.0.frame, run_spec(b, s).unwrap().frame);
    }
}

// ---------------------------------------------------------------------
// Styles

/// A SGR reset, by an empty sequence or by the parameter 0, gives the
/// default style whatever the style was.
pub proof fn law_sgr_reset_gives_default(style: CellStyle)
    ensures
        apply_sgr_spec(style, Seq::empty()) == default_style(),
        apply_sgr_spec(style, seq![0u16]) == default_style(),
{
    let p = seq![0u16];
    assert(crate::style::sgr_from(default_style(), p, 1) == default_style());
}

/// Setting an attribute bit makes the style have it; clearing it makes
/// the style not have it; the colors are kept.
pub proof fn law_set_attr_then_has(style: CellStyle, bit: u16)
    requires
        bit != 0,
    ensures
        style.with_attr(bit, true).attrs & bit != 0,
        style.with_attr(bit, false).attrs & bit == 0,
        style.with_attr(bit, true).fg == style.fg && style.with_attr(bit, true).bg == style.bg,
        style.with_attr(bit, false).fg == style.fg && style.with_attr(bit, false).bg == style.bg,
{
    let a = style.attrs;
    assert(bit != 0 ==> (a | bit) & bit != 0) by (bit_vector);
    assert((a & !bit) & bit == 0) by (bit_vector);
}

// ---------------------------------------------------------------------
// Styled text

proof fn lemma_scan_plain(s: Seq<char>, i: int, style: TextStyle, out: Seq<(Seq<char>, TextStyle)>)
    requires
        0 <= i <= s.len(),
        forall|k: int| 0 <= k < s.len() ==> s[k] != '\x1b',
    ensures
        scan_styled(s, i, style, s.subrange(0, i), out) == out + styled_graphemes(s, style),
    decreases s.len() - i,
{
    if i < s.len() {
        assert(s.subrange(0, i).push(s[i]) =~= s.subrange(0, i + 1));
        lemma_scan_plain(s, i + 1, style, out);
    } else {
        assert(s.subrange(0, i) =~= s);
    }
}

/// Text holding no escape character is parsed into its grapheme
/// clusters, in order, all with the default style.
pub proof fn law_plain_text_parses_unstyled(s: Seq<char>)
    requires
        forall|k: int| 0 <= k < s.len() ==> s[k] != '\x1b',
    ensures
        parse_styled_spec(s) == styled_graphemes(s, default_text_style()),
{
    lemma_scan_plain(s, 0, default_text_style(), Seq::empty());
    assert(s.subrange(0, 0) =~= Seq::<char>::empty());
    assert(Seq::<(Seq<char>, TextStyle)>::empty() + styled_graphemes(s, default_text_style())
        =~= styled_graphemes(s, default_text_style()));
}

// ---------------------------------------------------------------------
// Row rewrites

/// The texts of spans, concatenated.
pub open spec fn spans_text(spans: Seq<SpanView>) -> Seq<char>
    decreases spans.len(),
{
    if spans.len() == 0 {
        Seq::empty()
    } else {
        spans[0].text + spans_text(spans.drop_first())
    }
}

proof fn lemma_run_text_split(cells: Seq<CellView>, i: int, k: int, j: int)
    requires
        i <= k <= j,
    ensures
        run_text(cells, i, j) == run_text(cells, i, k) + run_text(cells, k, j),
    decreases j - k,
{
    if j == k {
        assert(run_text(cells, k, j) =~= Seq::<char>::empty());
        assert(run_text(cells, i, k) + Seq::<char>::empty() =~= run_text(cells, i, k));
    } else {
        lemma_run_text_split(cells, i, k, j - 1);
        assert(run_text(cells, i, j) =~= run_text(cells, i, k) + run_text(cells, k, j));
    }
}

proof fn lemma_line_spans_text(cells: Seq<CellView>, idx: int, end: int)
    requires
        0 <= idx <= end <= cells.len(),
    ensures
        spans_text(line_spans(cells, idx, end)) == run_text(cells, idx, end),
    decreases end - idx,
{
    if idx >= end {
        assert(spans_text(line_spans(cells, idx, end)) =~= Seq::<char>::empty());
    } else if cells[idx].continuation {
        lemma_line_spans_text(cells, idx + 1, end);
        lemma_run_text_split(cells, idx, idx + 1, end);
        assert(run_text(cells, idx, idx) =~= Seq::<char>::empty());
        assert(run_text(cells, idx, idx + 1) =~= Seq::<char>::empty());
        assert(run_text(cells, idx, end) =~= run_text(cells, idx + 1, end));
    } else {
        let next = span_end(cells, idx + 1, cells[idx].style, end);
        lemma_span_end_bounds(cells, idx + 1, cells[idx].style, end);
        lemma_line_spans_text(cells, next, end);
        lemma_run_text_split(cells, idx, next, end);
        let spans = line_spans(cells, idx, end);
        assert(spans.drop_first() =~= line_spans(cells, next, end));
    }
}

proof fn lemma_line_spans_styles(cells: Seq<CellView>, idx: int, end: int)
    requires
        0 <= idx <= end <= cells.len(),
    ensures
        forall|i: int|
            0 <= i < line_spans(cells, idx, end).len() - 1 ==> (#[trigger] line_spans(cells, idx, end)[i]).style
                != line_spans(cells, idx, end)[i + 1].style,
        line_spans(cells, idx, end).len() > 0 && idx < end && !cells[idx].continuation
            ==> line_spans(cells, idx, end)[0].style == cells[idx].style,
    decreases end - idx,
{
    if idx >= end {
    } else if cells[idx].continuation {
        lemma_line_spans_styles(cells, idx + 1, end);
    } else {
        let style = cells[idx].style;
        let next = span_end(cells, idx + 1, style, end);
        lemma_span_end_bounds(cells, idx + 1, style, end);
        lemma_line_spans_styles(cells, next, end);
        let rest = line_spans(cells, next, end);
        let spans = line_spans(cells, idx, end);
        assert(spans == seq![SpanView { style, text: run_text(cells, idx, next) }] + rest);
        if rest.len() > 0 {
            assert(next < end);
            assert(!cells[next].continuation && cells[next].style != style);
        }
        assert forall|i: int| 0 <= i < spans.len() - 1 implies (#[trigger] spans[i]).style != spans[i + 1].style by {
            if i > 0 {
                assert(spans[i] == rest[i - 1]);
                assert(spans[i + 1] == rest[i]);
            }
        }
    }
}

/// The rewrite of a row keeps, in order, every symbol the row prints up
/// to its trailing blanks of the default style; exactly these blanks
/// are left to the end-of-line erasure, which is requested when there
/// are some. Two consecutive spans have different styles.
pub proof fn law_line_patch_keeps_row(cells: Seq<CellView>, row: int)
    ensures
        spans_text(line_patch_spec(cells, row).spans) == run_text(
            cells,
            0,
            trimmed_end(cells, cells.len() as int),
        ),
        forall|k: int|
            trimmed_end(cells, cells.len() as int) <= k < cells.len() ==> is_default_blank_cell(
                #[trigger] cells[k],
            ),
        line_patch_spec(cells, row).erase_to_eol <==> trimmed_end(cells, cells.len() as int) < cells.len(),
        forall|i: int|
            0 <= i < line_patch_spec(cells, row).spans.len() - 1 ==> (#[trigger] line_patch_spec(
                cells,
                row,
            ).spans[i]).style != line_patch_spec(cells, row).spans[i + 1].style,
{
    let len = cells.len() as int;
    lemma_trimmed_end_tail(cells, len);
    let end = trimmed_end(cells, len);
    lemma_line_spans_text(cells, 0, end);
    lemma_line_spans_styles(cells, 0, end);
}

proof fn lemma_trimmed_end_tail(cells: Seq<CellView>, j: int)
    requires
        0 <= j <= cells.len(),
    ensures
        0 <= trimmed_end(cells, j) <= j,
        forall|k: int| trimmed_end(cells, j) <= k < j ==> is_default_blank_cell(#[trigger] cells[k]),
    decreases j,
{
    if j > 0 && is_default_blank_cell(cells[j - 1]) {
        lemma_trimmed_end_tail(cells, j - 1);
    }
}

// ---------------------------------------------------------------------
// Saved frames

/// A saved frame passes the check against an area and a skin exactly
/// when it is compatible with the frames rendered there (which start
/// blank): only then is a patch, and not a full rewrite, computed
/// against it.
pub proof fn law_check_ok_iff_compatible(f: FrameView, area: Area, skin: Seq<u8>)
    ensures
        check_spec(f, area, fnv1a(skin)) is Ok <==> compatible(Frame::blank_spec(area, skin), f),
        !(check_spec(f, area, fnv1a(skin)) is Ok) ==> between_spec(Some(f), Frame::blank_spec(area, skin)).full,
{
}

// ---------------------------------------------------------------------
// SGR sequences in pieces

/// Whether reading the SGR parameters `params[i..]` never looks past
/// their end: each 38 or 48 met is followed, inside them, by `5, n` or
/// `2, r, g, b` (or by another kind, which takes one parameter).
pub open spec fn sgr_self_contained(params: Seq<u16>, i: int) -> bool
    decreases params.len() + 5 - i,
{
    if i < 0 || i >= params.len() {
        true
    } else if params[i] == 38 || params[i] == 48 {
        let ext = sgr_extended_color(params, i + 1);
        i + 1 < params.len() && ext.1 <= params.len() && sgr_self_contained(params, ext.1)
    } else {
        sgr_self_contained(params, i + 1)
    }
}

proof fn lemma_sgr_shift(style: CellStyle, a: Seq<u16>, b: Seq<u16>, k: int)
    requires
        0 <= k,
    ensures
        sgr_from(style, a + b, a.len() + k) == sgr_from(style, b, k),
    decreases b.len() + 5 - k,
{
    let p = a + b;
    let i = a.len() + k;
    if k < b.len() {
        assert(p[i] == b[k]);
        if b[k] == 38 || b[k] == 48 {
            let ep = sgr_extended_color(p, i + 1);
            let eb = sgr_extended_color(b, k + 1);
            assert(forall|t: int| 0 <= t < b.len() ==> p[a.len() + t] == #[trigger] b[t]);
            assert(param_or_zero(p, i + 2) == param_or_zero(b, k + 2));
            assert(param_or_zero(p, i + 3) == param_or_zero(b, k + 3));
            assert(param_or_zero(p, i + 4) == param_or_zero(b, k + 4));
            if k + 2 < b.len() {
                assert(p[i + 2] == b[k + 2]);
            }
            if k + 1 < b.len() {
                assert(p[i + 1] == b[k + 1]);
            }
            assert(ep.0 == eb.0 && ep.1 == a.len() + eb.1);
            lemma_sgr_shift(
                match ep.0 {
                    Some(c) => if b[k] == 38 {
                        CellStyle { fg: Some(c), ..style }
                    } else {
                        CellStyle { bg: Some(c), ..style }
                    },
                    None => style,
                },
                a,
                b,
                eb.1,
            );
        } else {
            lemma_sgr_shift(sgr_code(style, b[k]), a, b, k + 1);
        }
    }
}

proof fn lemma_sgr_prefix(style: CellStyle, a: Seq<u16>, b: Seq<u16>, i: int)
    requires
        0 <= i <= a.len(),
        sgr_self_contained(a, i),
    ensures
        sgr_from(style, a + b, i) == sgr_from(sgr_from(style, a, i), b, 0),
    decreases a.len() + 5 - i,
{
    let p = a + b;
    if i == a.len() {
        lemma_sgr_shift(style, a, b, 0);
    } else {
        assert(p[i] == a[i]);
        if a[i] == 38 || a[i] == 48 {
            let ea = sgr_extended_color(a, i + 1);
            let ep = sgr_extended_color(p, i + 1);
            assert(p[i + 1] == a[i + 1]);
            if a[i + 1] == 5 {
                assert(p[i + 2] == a[i + 2]);
            } else if a[i + 1] == 2 {
                assert(param_or_zero(p, i + 2) == param_or_zero(a, i + 2));
                assert(param_or_zero(p, i + 3) == param_or_zero(a, i + 3));
                assert(param_or_zero(p, i + 4) == param_or_zero(a, i + 4));
            }
            assert(ep == ea);
            let colored = match ea.0 {
                Some(c) => if a[i] == 38 {
                    CellStyle { fg: Some(c), ..style }
                } else {
                    CellStyle { bg: Some(c), ..style }
                },
                None => style,
            };
            lemma_sgr_prefix(colored, a, b, ea.1);
        } else {
            lemma_sgr_prefix(sgr_code(style, a[i]), a, b, i + 1);
        }
    }
}

/// Applying two SGR parameter sequences one after the other is applying
/// their concatenation, when the first one doesn't need parameters of
/// the second (each 38 or 48 in it has its color parameters in it).
pub proof fn law_sgr_concatenation(style: CellStyle, a: Seq<u16>, b: Seq<u16>)
    requires
        a.len() > 0,
        b.len() > 0,
        sgr_self_contained(a, 0),
    ensures
        apply_sgr_spec(style, a + b) == apply_sgr_spec(apply_sgr_spec(style, a), b),
{
    lemma_sgr_prefix(style, a, b, 0);
}

proof fn lemma_split_on_concat(a: Seq<char>, b: Seq<char>, sep: char)
    ensures
        split_on(a + seq![sep] + b, sep) == split_on(a, sep) + split_on(b, sep),
    decreases b.len(),
{
    let s = a + seq![sep] + b;
    if b.len() == 0 {
        assert(s =~= a.push(sep));
        assert(s.drop_last() =~= a);
        assert(split_on(a, sep).push(Seq::empty()) =~= split_on(a, sep) + split_on(b, sep));
    } else {
        assert(s.drop_last() =~= a + seq![sep] + b.drop_last());
        lemma_split_on_concat(a, b.drop_last(), sep);
        lemma_split_on_nonempty(b.drop_last(), sep);
        let x = split_on(a, sep);
        let y = split_on(b.drop_last(), sep);
        assert(s.last() == b.last());
        if b.last() == sep {
            assert((x + y).push(Seq::empty()) =~= x + y.push(Seq::empty()));
        } else {
            assert((x + y).update((x + y).len() - 1, (x + y).last().push(b.last())) =~= x + y.update(
                y.len() - 1,
                y.last().push(b.last()),
            ));
        }
    }
}

/// Whether reading the SGR tokens `tokens[i..]` never looks past their
/// end: each 38, 48 or 58 met is followed, inside them, by its color
/// kind, and by `n` for the kind `5`, by `r`, `g` and `b` for the kind
/// `2`.
pub open spec fn text_sgr_self_contained(tokens: Seq<Seq<char>>, i: int) -> bool
    decreases tokens.len() + 5 - i,
{
    if i < 0 || i >= tokens.len() {
        true
    } else {
        let code = sgr_code_of(main_param(tokens[i]));
        if is_extended_color_code(code) {
            let ext = extended_color_spec(tokens, i + 1);
            &&& i + 1 < tokens.len()
            &&& tokens[i + 1] == seq!['5'] ==> i + 2 < tokens.len()
            &&& tokens[i + 1] == seq!['2'] ==> i + 4 < tokens.len()
            &&& text_sgr_self_contained(tokens, i + ext.1 + 1)
        } else {
            text_sgr_self_contained(tokens, i + 1)
        }
    }
}

proof fn lemma_text_sgr_shift(style: TextStyle, a: Seq<Seq<char>>, b: Seq<Seq<char>>, k: int)
    requires
        0 <= k,
    ensures
        text_sgr_from(style, a + b, a.len() + k) == text_sgr_from(style, b, k),
    decreases b.len() + 5 - k,
{
    let p = a + b;
    let i = a.len() + k;
    if k < b.len() {
        assert(p[i] == b[k]);
        let main = main_param(b[k]);
        let code = sgr_code_of(main);
        if is_extended_color_code(code) {
            assert(forall|t: int| 0 <= t ==> #[trigger] token_u8(p, a.len() + t) == token_u8(b, t)) by {
                assert(forall|t: int| 0 <= t < b.len() ==> p[a.len() + t] == #[trigger] b[t]);
            }
            assert(token_u8(p, i + 2) == token_u8(b, k + 2));
            assert(token_u8(p, i + 3) == token_u8(b, k + 3));
            assert(token_u8(p, i + 4) == token_u8(b, k + 4));
            if k + 1 < b.len() {
                assert(p[i + 1] == b[k + 1]);
            }
            let ep = extended_color_spec(p, i + 1);
            let eb = extended_color_spec(b, k + 1);
            assert(ep == eb);
            lemma_text_sgr_shift(with_slot_color(style, code.unwrap(), eb.0), a, b, k + eb.1 + 1);
        } else {
            let next = if main.len() == 0 {
                default_text_style()
            } else {
                match code {
                    Some(c) => text_code_effect(style, c),
                    None => style,
                }
            };
            lemma_text_sgr_shift(next, a, b, k + 1);
        }
    }
}

proof fn lemma_text_sgr_prefix(style: TextStyle, a: Seq<Seq<char>>, b: Seq<Seq<char>>, i: int)
    requires
        0 <= i <= a.len(),
        text_sgr_self_contained(a, i),
    ensures
        text_sgr_from(style, a + b, i) == text_sgr_from(text_sgr_from(style, a, i), b, 0),
    decreases a.len() + 5 - i,
{
    let p = a + b;
    if i == a.len() {
        lemma_text_sgr_shift(style, a, b, 0);
    } else {
        assert(p[i] == a[i]);
        let main = main_param(a[i]);
        let code = sgr_code_of(main);
        if is_extended_color_code(code) {
            assert(p[i + 1] == a[i + 1]);
            if a[i + 1] == seq!['5'] {
                assert(p[i + 2] == a[i + 2]);
            } else if a[i + 1] == seq!['2'] {
                assert(p[i + 2] == a[i + 2]);
                assert(p[i + 3] == a[i + 3]);
                assert(p[i + 4] == a[i + 4]);
            }
            let ea = extended_color_spec(a, i + 1);
            assert(extended_color_spec(p, i + 1) == ea);
            lemma_text_sgr_prefix(with_slot_color(style, code.unwrap(), ea.0), a, b, i + ea.1 + 1);
        } else {
            let next = if main.len() == 0 {
                default_text_style()
            } else {
                match code {
                    Some(c) => text_code_effect(style, c),
                    None => style,
                }
            };
            lemma_text_sgr_prefix(next, a, b, i + 1);
        }
    }
}

/// Applying two SGR parameter strings one after the other is applying
/// them joined by `;`, when the first one doesn't need tokens of the
/// second (each 38, 48 or 58 in it has its color tokens in it).
pub proof fn law_text_sgr_concatenation(style: TextStyle, a: Seq<char>, b: Seq<char>)
    requires
        a.len() > 0,
        b.len() > 0,
        text_sgr_self_contained(split_on(a, ';'), 0),
    ensures
        text_apply_sgr(a + seq![';'] + b, style) == text_apply_sgr(b, text_apply_sgr(a, style)),
{
    lemma_split_on_concat(a, b, ';');
    lemma_text_sgr_prefix(style, split_on(a, ';'), split_on(b, ';'), 0);
}

/// Bytes written to a builder in pieces are interpreted as if written at
/// once: `FrameBuilder::write` appends them to the pending bytes, and
/// what `finish` makes of these depends only on their concatenation,
/// even when a piece ends inside an escape sequence or a character.
pub proof fn law_writes_in_pieces(b: BuilderView, pending: Seq<u8>, x: Seq<u8>, y: Seq<u8>)
    ensures
        run_spec(b, utf8_lossy(pending + x + y)) == run_spec(b, utf8_lossy(pending + (x + y))),
        finishable(b, pending + x + y) == finishable(b, pending + (x + y)),
{
    assert(pending + x + y =~= pending + (x + y));
}

// ---------------------------------------------------------------------
// Cursor moves of the builder

/// How far a one-digit CSI parameter moves the cursor: its value, a 0
/// counting as 1.
pub open spec fn move_count(d: char) -> int {
    if d == '0' {
        1
    } else {
        d as int - '0' as int
    }
}

proof fn lemma_one_digit_params(d: char)
    requires
        '0' <= d <= '9',
    ensures
        csi_params(seq![d]) == seq![(d as int - '0' as int) as u16],
{
    let t = seq![d];
    assert(t.drop_last() =~= Seq::<char>::empty());
    assert(split_on(t.drop_last(), ';') == seq![Seq::<char>::empty()]);
    assert(split_on(t, ';') =~= seq![t]);
    assert(sep_index(t, ':', 1) == 1);
    assert(sep_index(t, ':', 0) == 1);
    assert(main_param(t) =~= t);
    assert(t.last() == d);
    assert(decimal_value(t) == Some(digit_value(d)));
    assert(parse_unsigned_spec(t, 65535) == Some(digit_value(d)));
    assert(csi_params(t) =~= seq![(d as int - '0' as int) as u16]);
}

proof fn lemma_csi_one_param(b: BuilderView, d: char, fin: char)
    requires
        '0' <= d <= '9',
        '@' <= fin <= '~',
    ensures
        run_spec(b, seq!['\x1b', '[', d, fin]) == Some(csi_effect(b, seq![(d as int - '0' as int) as u16], fin)),
{
    let s = seq!['\x1b', '[', d, fin];
    lemma_one_digit_params(d);
    assert(scan_while(s, 4, '0', '?') == 4);
    assert(scan_while(s, 3, '0', '?') == 3);
    assert(scan_while(s, 2, '0', '?') == 3);
    assert(scan_while(s, 3, ' ', '/') == 3);
    assert(s.subrange(2, 3) =~= seq![d]);
    let next = csi_effect(b, seq![(d as int - '0' as int) as u16], fin);
    assert(step_spec(b, s) == Some((next, 4int)));
    assert(s.subrange(4, 4) =~= Seq::<char>::empty());
    assert(run_spec(next, s.subrange(4, 4)) == Some(next));
    assert(s.len() == 4);
}

proof fn lemma_csi_no_param(b: BuilderView, fin: char)
    requires
        '@' <= fin <= '~',
    ensures
        run_spec(b, seq!['\x1b', '[', fin]) == Some(csi_effect(b, Seq::empty(), fin)),
{
    let s = seq!['\x1b', '[', fin];
    assert(scan_while(s, 2, '0', '?') == 2);
    assert(scan_while(s, 2, ' ', '/') == 2);
    assert(s.subrange(2, 2) =~= Seq::<char>::empty());
    let next = csi_effect(b, Seq::empty(), fin);
    assert(step_spec(b, s) == Some((next, 3int)));
    assert(s.subrange(3, 3) =~= Seq::<char>::empty());
    assert(run_spec(next, s.subrange(3, 3)) == Some(next));
    assert(s.len() == 3);
}

/// The cursor moves a builder interprets, with a one-digit parameter
/// `n` (0 counting as 1): `ESC [ n A` moves up `n` rows and `F` to the
/// start of the row `n` above (both stopping at row 0), `B` / `e` down
/// `n` rows and `E` to the start of the row `n` below, `C` / `a` right
/// `n` columns, `D` left (stopping at column 0), `G` / `` ` `` to the
/// column `n` and `d` to the row `n` (counted from 1). Without a
/// parameter, the moves are by one. Each keeps the frame, the style and
/// the coordinate it doesn't move, and unblocks the line.
pub proof fn law_csi_cursor_moves(b: BuilderView, d: char)
    requires
        '0' <= d <= '9',
        0 <= b.row <= usize::MAX - 10,
        0 <= b.col <= usize::MAX - 10,
    ensures
        run_spec(b, seq!['\x1b', '[', d, 'A']) == Some(
            BuilderView { row: if b.row >= move_count(d) { b.row - move_count(d) } else { 0 }, blocked: false, ..b },
        ),
        run_spec(b, seq!['\x1b', '[', 'A']) == Some(
            BuilderView { row: if b.row >= 1 { b.row - 1 } else { 0 }, blocked: false, ..b },
        ),
        run_spec(b, seq!['\x1b', '[', d, 'B']) == Some(BuilderView { row: b.row + move_count(d), blocked: false, ..b }),
        run_spec(b, seq!['\x1b', '[', d, 'e']) == Some(BuilderView { row: b.row + move_count(d), blocked: false, ..b }),
        run_spec(b, seq!['\x1b', '[', 'B']) == Some(BuilderView { row: b.row + 1, blocked: false, ..b }),
        run_spec(b, seq!['\x1b', '[', d, 'C']) == Some(BuilderView { col: b.col + move_count(d), blocked: false, ..b }),
        run_spec(b, seq!['\x1b', '[', d, 'a']) == Some(BuilderView { col: b.col + move_count(d), blocked: false, ..b }),
        run_spec(b, seq!['\x1b', '[', 'C']) == Some(BuilderView { col: b.col + 1, blocked: false, ..b }),
        run_spec(b, seq!['\x1b', '[', d, 'D']) == Some(
            BuilderView { col: if b.col >= move_count(d) { b.col - move_count(d) } else { 0 }, blocked: false, ..b },
        ),
        run_spec(b, seq!['\x1b', '[', 'D']) == Some(
            BuilderView { col: if b.col >= 1 { b.col - 1 } else { 0 }, blocked: false, ..b },
        ),
        run_spec(b, seq!['\x1b', '[', d, 'E']) == Some(
            BuilderView { row: b.row + move_count(d), col: 0, blocked: false, ..b },
        ),
        run_spec(b, seq!['\x1b', '[', d, 'F']) == Some(
            BuilderView {
                row: if b.row >= move_count(d) { b.row - move_count(d) } else { 0 },
                col: 0,
                blocked: false,
                ..b
            },
        ),
        run_spec(b, seq!['\x1b', '[', d, 'G']) == Some(BuilderView { col: move_count(d) - 1, blocked: false, ..b }),
        run_spec(b, seq!['\x1b', '[', d, '`']) == Some(BuilderView { col: move_count(d) - 1, blocked: false, ..b }),
        run_spec(b, seq!['\x1b', '[', d, 'd']) == Some(BuilderView { row: move_count(d) - 1, blocked: false, ..b }),
{
    lemma_csi_one_param(b, d, 'A');
    lemma_csi_one_param(b, d, 'B');
    lemma_csi_one_param(b, d, 'e');
    lemma_csi_one_param(b, d, 'C');
    lemma_csi_one_param(b, d, 'a');
    lemma_csi_one_param(b, d, 'D');
    lemma_csi_one_param(b, d, 'E');
    lemma_csi_one_param(b, d, 'F');
    lemma_csi_one_param(b, d, 'G');
    lemma_csi_one_param(b, d, '`');
    lemma_csi_one_param(b, d, 'd');
    lemma_csi_no_param(b, 'A');
    lemma_csi_no_param(b, 'B');
    lemma_csi_no_param(b, 'C');
    lemma_csi_no_param(b, 'D');
}

// ---------------------------------------------------------------------
// What each SGR parameter does to a cell style

/// What a single SGR parameter does to a cell style, for every style:
/// 0 resets; 1, 2, 3, 4, 5 and 6, 7, 8, 9 set the attribute bits bold
/// (1), dim (2), italic (4), underlined (8), blink (64), reverse (16),
/// hidden (128) and crossed out (32); 22 clears bold and dim, 23, 24,
/// 25, 27, 28 and 29 clear italic, underlined, blink, reverse, hidden
/// and crossed out; 30 to 37 and 90 to 97 set the foreground to the
/// palette colors 0 to 7 and 8 to 15, 40 to 47 and 100 to 107 the
/// background; 39 and 49 remove them. Anything else but 38 and 48
/// leaves the style unchanged.
pub proof fn law_sgr_single_parameters(s: CellStyle, p: u16)
    ensures
        apply_sgr_spec(s, seq![0u16]) == (CellStyle { fg: None, bg: None, attrs: 0 }),
        apply_sgr_spec(s, seq![1u16]) == (CellStyle { attrs: s.attrs | 1, ..s }),
        apply_sgr_spec(s, seq![2u16]) == (CellStyle { attrs: s.attrs | 2, ..s }),
        apply_sgr_spec(s, seq![3u16]) == (CellStyle { attrs: s.attrs | 4, ..s }),
        apply_sgr_spec(s, seq![4u16]) == (CellStyle { attrs: s.attrs | 8, ..s }),
        apply_sgr_spec(s, seq![5u16]) == (CellStyle { attrs: s.attrs | 64, ..s }),
        apply_sgr_spec(s, seq![6u16]) == (CellStyle { attrs: s.attrs | 64, ..s }),
        apply_sgr_spec(s, seq![7u16]) == (CellStyle { attrs: s.attrs | 16, ..s }),
        apply_sgr_spec(s, seq![8u16]) == (CellStyle { attrs: s.attrs | 128, ..s }),
        apply_sgr_spec(s, seq![9u16]) == (CellStyle { attrs: s.attrs | 32, ..s }),
        apply_sgr_spec(s, seq![22u16]) == (CellStyle { attrs: s.attrs & !1u16 & !2u16, ..s }),
        apply_sgr_spec(s, seq![23u16]) == (CellStyle { attrs: s.attrs & !4u16, ..s }),
        apply_sgr_spec(s, seq![24u16]) == (CellStyle { attrs: s.attrs & !8u16, ..s }),
        apply_sgr_spec(s, seq![25u16]) == (CellStyle { attrs: s.attrs & !64u16, ..s }),
        apply_sgr_spec(s, seq![27u16]) == (CellStyle { attrs: s.attrs & !16u16, ..s }),
        apply_sgr_spec(s, seq![28u16]) == (CellStyle { attrs: s.attrs & !128u16, ..s }),
        apply_sgr_spec(s, seq![29u16]) == (CellStyle { attrs: s.attrs & !32u16, ..s }),
        30 <= p <= 37 ==> apply_sgr_spec(s, seq![p]) == (CellStyle { fg: Some(FrameColor::AnsiValue((p - 30) as u8)), ..s }),
        90 <= p <= 97 ==> apply_sgr_spec(s, seq![p]) == (CellStyle { fg: Some(FrameColor::AnsiValue((p - 82) as u8)), ..s }),
        40 <= p <= 47 ==> apply_sgr_spec(s, seq![p]) == (CellStyle { bg: Some(FrameColor::AnsiValue((p - 40) as u8)), ..s }),
        100 <= p <= 107 ==> apply_sgr_spec(s, seq![p]) == (CellStyle { bg: Some(FrameColor::AnsiValue((p - 92) as u8)), ..s }),
        apply_sgr_spec(s, seq![39u16]) == (CellStyle { fg: None, ..s }),
        apply_sgr_spec(s, seq![49u16]) == (CellStyle { bg: None, ..s }),
        !(p <= 9 || (22 <= p <= 25) || (27 <= p <= 49) || (90 <= p <= 97) || (100 <= p <= 107))
            ==> apply_sgr_spec(s, seq![p]) == s,
{
    assert forall|q: u16| #[trigger] apply_sgr_spec(s, seq![q]) == sgr_code(s, q) || q == 38 || q == 48 by {
        if q != 38 && q != 48 {
            assert(sgr_from(sgr_code(s, q), seq![q], 1) == sgr_code(s, q));
        }
    }
    assert(apply_sgr_spec(s, seq![0u16]) == sgr_code(s, 0));
    assert(apply_sgr_spec(s, seq![22u16]) == sgr_code(s, 22));
    assert(apply_sgr_spec(s, seq![p]) == sgr_code(s, p) || p == 38 || p == 48);
}

/// The extended colors, for every style: `38;5;n` sets the foreground to
/// the palette color `n`, `48;2;r;g;b` the background to the color
/// `(r, g, b)` (and the other way round), the values being taken modulo
/// 256.
pub proof fn law_sgr_extended_colors(s: CellStyle, n: u16, r: u16, g: u16, b: u16)
    ensures
        apply_sgr_spec(s, seq![38u16, 5, n]) == (CellStyle { fg: Some(FrameColor::AnsiValue(n as u8)), ..s }),
        apply_sgr_spec(s, seq![48u16, 5, n]) == (CellStyle { bg: Some(FrameColor::AnsiValue(n as u8)), ..s }),
        apply_sgr_spec(s, seq![38u16, 2, r, g, b]) == (CellStyle {
            fg: Some(FrameColor::Rgb(r as u8, g as u8, b as u8)),
            ..s
        }),
        apply_sgr_spec(s, seq![48u16, 2, r, g, b]) == (CellStyle {
            bg: Some(FrameColor::Rgb(r as u8, g as u8, b as u8)),
            ..s
        }),
{
    let p1 = seq![38u16, 5, n];
    let p2 = seq![48u16, 5, n];
    let p3 = seq![38u16, 2, r, g, b];
    let p4 = seq![48u16, 2, r, g, b];
    assert(p1[2] == n && p1.len() == 3 && p1[0] == 38 && p1[1] == 5);
    assert(p2[2] == n && p2.len() == 3 && p2[0] == 48 && p2[1] == 5);
    assert(sgr_extended_color(p1, 1) == (Some(FrameColor::AnsiValue(n as u8)), 3int));
    assert(sgr_extended_color(p2, 1) == (Some(FrameColor::AnsiValue(n as u8)), 3int));
    let c1 = CellStyle { fg: Some(FrameColor::AnsiValue(n as u8)), ..s };
    let c2 = CellStyle { bg: Some(FrameColor::AnsiValue(n as u8)), ..s };
    assert(sgr_from(c1, p1, 3) == c1);
    assert(sgr_from(c2, p2, 3) == c2);
    assert(sgr_from(s, p1, 0) == sgr_from(c1, p1, 3));
    assert(sgr_from(s, p2, 0) == sgr_from(c2, p2, 3));
    assert(p3.len() == 5 && p3[0] == 38 && p3[1] == 2 && p3[2] == r && p3[3] == g && p3[4] == b);
    assert(p4.len() == 5 && p4[0] == 48 && p4[1] == 2 && p4[2] == r && p4[3] == g && p4[4] == b);
    assert(param_or_zero(p3, 2) == r && param_or_zero(p3, 3) == g && param_or_zero(p3, 4) == b);
    assert(param_or_zero(p4, 2) == r && param_or_zero(p4, 3) == g && param_or_zero(p4, 4) == b);
    assert(sgr_extended_color(p3, 1) == (Some(FrameColor::Rgb(r as u8, g as u8, b as u8)), 5int));
    assert(sgr_extended_color(p4, 1) == (Some(FrameColor::Rgb(r as u8, g as u8, b as u8)), 5int));
    let c3 = CellStyle { fg: Some(FrameColor::Rgb(r as u8, g as u8, b as u8)), ..s };
    let c4 = CellStyle { bg: Some(FrameColor::Rgb(r as u8, g as u8, b as u8)), ..s };
    assert(sgr_from(c3, p3, 5) == c3);
    assert(sgr_from(c4, p4, 5) == c4);
    assert(sgr_from(s, p3, 0) == sgr_from(c3, p3, 5));
    assert(sgr_from(s, p4, 0) == sgr_from(c4, p4, 5));
}

// ---------------------------------------------------------------------
// What the spans of a row rewrite paint

/// Each character the cells `[i, j)` print, with the style of its cell.
pub open spec fn cell_char_styles(cells: Seq<CellView>, i: int, j: int) -> Seq<(char, CellStyle)>
    decreases j - i,
{
    if j <= i {
        Seq::empty()
    } else {
        cell_char_styles(cells, i, j - 1) + printed_symbol(cells[j - 1]).map_values(
            |c: char| (c, cells[j - 1].style),
        )
    }
}

/// Each character of the spans, in order, with the style of its span.
pub open spec fn span_char_styles(spans: Seq<SpanView>) -> Seq<(char, CellStyle)>
    decreases spans.len(),
{
    if spans.len() == 0 {
        Seq::empty()
    } else {
        spans[0].text.map_values(|c: char| (c, spans[0].style)) + span_char_styles(spans.drop_first())
    }
}

proof fn lemma_cell_char_styles_split(cells: Seq<CellView>, i: int, k: int, j: int)
    requires
        i <= k <= j,
    ensures
        cell_char_styles(cells, i, j) == cell_char_styles(cells, i, k) + cell_char_styles(cells, k, j),
    decreases j - k,
{
    if j == k {
        assert(cell_char_styles(cells, k, j) =~= Seq::<(char, CellStyle)>::empty());
        assert(cell_char_styles(cells, i, k) + Seq::<(char, CellStyle)>::empty() =~= cell_char_styles(cells, i, k));
    } else {
        lemma_cell_char_styles_split(cells, i, k, j - 1);
        assert(cell_char_styles(cells, i, j) =~= cell_char_styles(cells, i, k) + cell_char_styles(cells, k, j));
    }
}

/// The characters of cells all of one style (continuation cells aside)
/// are the characters of their text, with that style.
proof fn lemma_one_style_chars(cells: Seq<CellView>, i: int, j: int, style: CellStyle)
    requires
        i <= j,
        forall|k: int| i <= k < j ==> (#[trigger] cells[k]).continuation || cells[k].style == style,
    ensures
        cell_char_styles(cells, i, j) == run_text(cells, i, j).map_values(|c: char| (c, style)),
    decreases j - i,
{
    if j > i {
        lemma_one_style_chars(cells, i, j - 1, style);
        let ps = printed_symbol(cells[j - 1]);
        if cells[j - 1].continuation {
            assert(ps =~= Seq::<char>::empty());
        }
        assert(ps.map_values(|c: char| (c, cells[j - 1].style)) =~= ps.map_values(|c: char| (c, style)));
        assert(run_text(cells, i, j).map_values(|c: char| (c, style)) =~= run_text(cells, i, j - 1).map_values(
            |c: char| (c, style),
        ) + ps.map_values(|c: char| (c, style)));
    } else {
        assert(run_text(cells, i, j).map_values(|c: char| (c, style)) =~= Seq::<(char, CellStyle)>::empty());
    }
}

proof fn lemma_span_end_styles(cells: Seq<CellView>, k: int, style: CellStyle, end: int)
    requires
        k <= end,
    ensures
        forall|m: int| k <= m < span_end(cells, k, style, end) ==> (#[trigger] cells[m]).continuation || cells[m].style
            == style,
    decreases end - k,
{
    if k < end && !(!cells[k].continuation && cells[k].style != style) {
        lemma_span_end_styles(cells, k + 1, style, end);
    }
}

proof fn lemma_line_spans_chars(cells: Seq<CellView>, idx: int, end: int)
    requires
        0 <= idx <= end <= cells.len(),
    ensures
        span_char_styles(line_spans(cells, idx, end)) == cell_char_styles(cells, idx, end),
    decreases end - idx,
{
    if idx >= end {
        assert(cell_char_styles(cells, idx, end) =~= Seq::<(char, CellStyle)>::empty());
    } else if cells[idx].continuation {
        lemma_line_spans_chars(cells, idx + 1, end);
        lemma_cell_char_styles_split(cells, idx, idx + 1, end);
        assert(cell_char_styles(cells, idx, idx) =~= Seq::<(char, CellStyle)>::empty());
        assert(printed_symbol(cells[idx]) =~= Seq::<char>::empty());
        assert(cell_char_styles(cells, idx, idx + 1) =~= Seq::<(char, CellStyle)>::empty());
        assert(cell_char_styles(cells, idx, end) =~= cell_char_styles(cells, idx + 1, end));
    } else {
        let style = cells[idx].style;
        let next = span_end(cells, idx + 1, style, end);
        lemma_span_end_bounds(cells, idx + 1, style, end);
        lemma_span_end_styles(cells, idx + 1, style, end);
        lemma_line_spans_chars(cells, next, end);
        lemma_cell_char_styles_split(cells, idx, next, end);
        lemma_one_style_chars(cells, idx, next, style);
        let spans = line_spans(cells, idx, end);
        assert(spans.drop_first() =~= line_spans(cells, next, end));
        assert(spans[0] == SpanView { style, text: run_text(cells, idx, next) });
    }
}

/// The spans of a row rewrite paint each character the row prints, up to
/// its trailing default blanks, with the style of the cell it comes
/// from: spans in order, each character of a span with the span's
/// style, give the row's characters with their cells' styles. The end
/// they stop at is the last cell which isn't a default blank.
pub proof fn law_line_patch_keeps_styles(cells: Seq<CellView>, row: int)
    ensures
        span_char_styles(line_patch_spec(cells, row).spans) == cell_char_styles(
            cells,
            0,
            trimmed_end(cells, cells.len() as int),
        ),
        trimmed_end(cells, cells.len() as int) > 0 ==> !is_default_blank_cell(
            cells[trimmed_end(cells, cells.len() as int) - 1],
        ),
{
    let len = cells.len() as int;
    lemma_trimmed_end_tail(cells, len);
    lemma_trimmed_end_last(cells, len);
    lemma_line_spans_chars(cells, 0, trimmed_end(cells, len));
}

proof fn lemma_trimmed_end_last(cells: Seq<CellView>, j: int)
    ensures
        trimmed_end(cells, j) > 0 ==> !is_default_blank_cell(cells[trimmed_end(cells, j) - 1]),
    decreases j,
{
    if j > 0 && is_default_blank_cell(cells[j - 1]) {
        lemma_trimmed_end_last(cells, j - 1);
    }
}

// ---------------------------------------------------------------------
// What each SGR parameter does to a parsed style

/// The position of an attribute's bit.
spec fn attribute_index(a: TextAttribute) -> u16 {
    match a {
        TextAttribute::Bold => 0,
        TextAttribute::Dim => 1,
        TextAttribute::Italic => 2,
        TextAttribute::Underlined => 3,
        TextAttribute::SlowBlink => 4,
        TextAttribute::RapidBlink => 5,
        TextAttribute::Reverse => 6,
        TextAttribute::Hidden => 7,
        TextAttribute::CrossedOut => 8,
        TextAttribute::Fraktur => 9,
        TextAttribute::Framed => 10,
        TextAttribute::Encircled => 11,
        TextAttribute::OverLined => 12,
    }
}

proof fn lemma_attribute_bit(a: TextAttribute)
    ensures
        attribute_bit(a) == 1u16 << attribute_index(a),
        attribute_index(a) < 13,
{
    match a {
        TextAttribute::Bold => { assert(1u16 == 1u16 << 0u16) by (bit_vector); },
        TextAttribute::Dim => { assert(2u16 == 1u16 << 1u16) by (bit_vector); },
        TextAttribute::Italic => { assert(4u16 == 1u16 << 2u16) by (bit_vector); },
        TextAttribute::Underlined => { assert(8u16 == 1u16 << 3u16) by (bit_vector); },
        TextAttribute::SlowBlink => { assert(16u16 == 1u16 << 4u16) by (bit_vector); },
        TextAttribute::RapidBlink => { assert(32u16 == 1u16 << 5u16) by (bit_vector); },
        TextAttribute::Reverse => { assert(64u16 == 1u16 << 6u16) by (bit_vector); },
        TextAttribute::Hidden => { assert(128u16 == 1u16 << 7u16) by (bit_vector); },
        TextAttribute::CrossedOut => { assert(256u16 == 1u16 << 8u16) by (bit_vector); },
        TextAttribute::Fraktur => { assert(512u16 == 1u16 << 9u16) by (bit_vector); },
        TextAttribute::Framed => { assert(1024u16 == 1u16 << 10u16) by (bit_vector); },
        TextAttribute::Encircled => { assert(2048u16 == 1u16 << 11u16) by (bit_vector); },
        TextAttribute::OverLined => { assert(4096u16 == 1u16 << 12u16) by (bit_vector); },
    }
}

proof fn lemma_bits(b: u16, i: u16, j: u16)
    requires
        i < 16,
        j < 16,
    ensures
        ((b | (1u16 << i)) & (1u16 << j) != 0) == (i == j || b & (1u16 << j) != 0),
        ((b & !(1u16 << i)) & (1u16 << j) != 0) == (i != j && b & (1u16 << j) != 0),
{
    assert(((b | (1u16 << i)) & (1u16 << j) != 0) == (i == j || b & (1u16 << j) != 0)) by (bit_vector)
        requires
            i < 16,
            j < 16,
    ;
    assert(((b & !(1u16 << i)) & (1u16 << j) != 0) == (i != j && b & (1u16 << j) != 0)) by (bit_vector)
        requires
            i < 16,
            j < 16,
    ;
}

/// Adding or removing an attribute changes only that attribute.
proof fn lemma_with_without(t: TextAttributes, a: TextAttribute)
    ensures
        forall|x: TextAttribute| #[trigger] t.with(a).contains(x) == (x == a || t.contains(x)),
        forall|x: TextAttribute| #[trigger] t.without(a).contains(x) == (x != a && t.contains(x)),
{
    lemma_attribute_bit(a);
    assert forall|x: TextAttribute| #[trigger] t.with(a).contains(x) == (x == a || t.contains(x)) by {
        lemma_attribute_bit(x);
        lemma_bits(t.bits, attribute_index(a), attribute_index(x));
    }
    assert forall|x: TextAttribute| #[trigger] t.without(a).contains(x) == (x != a && t.contains(x)) by {
        lemma_attribute_bit(x);
        lemma_bits(t.bits, attribute_index(a), attribute_index(x));
    }
}

/// `after` is `before` with the attributes `on` set and `off` cleared,
/// colors unchanged.
pub open spec fn switches(before: TextStyle, after: TextStyle, on: Set<TextAttribute>, off: Set<TextAttribute>) -> bool {
    &&& after.foreground_color == before.foreground_color
    &&& after.background_color == before.background_color
    &&& after.underline_color == before.underline_color
    &&& forall|x: TextAttribute| #[trigger] after.attributes.contains(x) == (on.contains(x) || (!off.contains(x)
        && before.attributes.contains(x)))
}

proof fn lemma_text_code(t: Seq<char>, st: TextStyle)
    requires
        t.len() == 1 || t.len() == 2,
        forall|k: int| 0 <= k < t.len() ==> '0' <= #[trigger] t[k] <= '9',
        t.len() == 2 ==> t[0] != '0',
        !is_extended_color_code(sgr_code_of(t)),
    ensures
        sgr_code_of(t) is Some,
        text_apply_sgr(t, st) == text_code_effect(st, sgr_code_of(t).unwrap()),
{
    assert(split_on(Seq::<char>::empty(), ';') == seq![Seq::<char>::empty()]);
    if t.len() == 1 {
        assert(t.drop_last() =~= Seq::<char>::empty());
        assert(t.last() != ';');
        assert(Seq::<char>::empty().push(t.last()) =~= t);
        assert(split_on(t, ';') =~= seq![t]);
        assert(sep_index(t, ':', 1) == 1);
    } else {
        let t1 = t.drop_last();
        assert(t1.drop_last() =~= Seq::<char>::empty());
        assert(t1.last() != ';');
        assert(Seq::<char>::empty().push(t1.last()) =~= t1);
        assert(split_on(t1, ';') =~= seq![t1]);
        assert(t.last() != ';');
        assert(t1.push(t.last()) =~= t);
        assert(split_on(t, ';') =~= seq![t]);
        assert(sep_index(t, ':', 2) == 2);
        assert(sep_index(t, ':', 1) == 2);
    }
    assert(main_param(t) =~= t);
    let tokens = split_on(t, ';');
    assert(text_sgr_from(text_code_effect(st, sgr_code_of(t).unwrap()), tokens, 1) == text_code_effect(
        st,
        sgr_code_of(t).unwrap(),
    ));
}

/// What a single SGR parameter does to a parsed style, for every style:
/// `0` resets (no color, no attribute); `1` to `9` and `20` add bold,
/// dim, italic, underlined, slow blink, rapid blink, reverse, hidden,
/// crossed out and fraktur; `21`, `22`, `23`, `24`, `25`, `27`, `28` and
/// `29` remove bold, bold and dim, italic, underlined, both blinks,
/// reverse, hidden and crossed out; `51`, `52`, `53` add framed,
/// encircled, overlined, `54` removes framed and encircled, `55`
/// overlined; `39`, `49` and `59` remove the foreground, background and
/// underline colors. Each leaves everything else as it was.
#[verifier::rlimit(60)]
pub proof fn law_text_sgr_parameters(st: TextStyle)
    ensures
        text_apply_sgr(seq!['0'], st).foreground_color is None,
        text_apply_sgr(seq!['0'], st).background_color is None,
        text_apply_sgr(seq!['0'], st).underline_color is None,
        forall|x: TextAttribute| !(#[trigger] text_apply_sgr(seq!['0'], st).attributes.contains(x)),
        switches(st, text_apply_sgr(seq!['1'], st), set![TextAttribute::Bold], set![]),
        switches(st, text_apply_sgr(seq!['2'], st), set![TextAttribute::Dim], set![]),
        switches(st, text_apply_sgr(seq!['3'], st), set![TextAttribute::Italic], set![]),
        switches(st, text_apply_sgr(seq!['4'], st), set![TextAttribute::Underlined], set![]),
        switches(st, text_apply_sgr(seq!['5'], st), set![TextAttribute::SlowBlink], set![]),
        switches(st, text_apply_sgr(seq!['6'], st), set![TextAttribute::RapidBlink], set![]),
        switches(st, text_apply_sgr(seq!['7'], st), set![TextAttribute::Reverse], set![]),
        switches(st, text_apply_sgr(seq!['8'], st), set![TextAttribute::Hidden], set![]),
        switches(st, text_apply_sgr(seq!['9'], st), set![TextAttribute::CrossedOut], set![]),
        switches(st, text_apply_sgr(seq!['2', '0'], st), set![TextAttribute::Fraktur], set![]),
        switches(st, text_apply_sgr(seq!['2', '1'], st), set![], set![TextAttribute::Bold]),
        switches(st, text_apply_sgr(seq!['2', '2'], st), set![], set![TextAttribute::Bold, TextAttribute::Dim]),
        switches(st, text_apply_sgr(seq!['2', '3'], st), set![], set![TextAttribute::Italic]),
        switches(st, text_apply_sgr(seq!['2', '4'], st), set![], set![TextAttribute::Underlined]),
        switches(
            st,
            text_apply_sgr(seq!['2', '5'], st),
            set![],
            set![TextAttribute::SlowBlink, TextAttribute::RapidBlink],
        ),
        switches(st, text_apply_sgr(seq!['2', '7'], st), set![], set![TextAttribute::Reverse]),
        switches(st, text_apply_sgr(seq!['2', '8'], st), set![], set![TextAttribute::Hidden]),
        switches(st, text_apply_sgr(seq!['2', '9'], st), set![], set![TextAttribute::CrossedOut]),
        switches(st, text_apply_sgr(seq!['5', '1'], st), set![TextAttribute::Framed], set![]),
        switches(st, text_apply_sgr(seq!['5', '2'], st), set![TextAttribute::Encircled], set![]),
        switches(st, text_apply_sgr(seq!['5', '3'], st), set![TextAttribute::OverLined], set![]),
        switches(
            st,
            text_apply_sgr(seq!['5', '4'], st),
            set![],
            set![TextAttribute::Framed, TextAttribute::Encircled],
        ),
        switches(st, text_apply_sgr(seq!['5', '5'], st), set![], set![TextAttribute::OverLined]),
        text_apply_sgr(seq!['3', '9'], st) == (TextStyle { foreground_color: None, ..st }),
        text_apply_sgr(seq!['4', '9'], st) == (TextStyle { background_color: None, ..st }),
        text_apply_sgr(seq!['5', '9'], st) == (TextStyle { underline_color: None, ..st }),
{
    let a = st.attributes;
    lemma_text_code(seq!['0'], st);
    let zero = TextAttributes { bits: 0 };
    assert forall|x: TextAttribute| !(#[trigger] zero.contains(x)) by {
        assert(0u16 & attribute_bit(x) == 0) by (bit_vector);
    }
    assert(text_apply_sgr(seq!['0'], st).attributes == zero);
    let ones = seq![
        seq!['1'], seq!['2'], seq!['3'], seq!['4'], seq!['5'], seq!['6'], seq!['7'], seq!['8'], seq!['9']
    ];
    let twos = seq![
        seq!['2', '0'], seq!['2', '1'], seq!['2', '2'], seq!['2', '3'], seq!['2', '4'], seq!['2', '5'],
        seq!['2', '7'], seq!['2', '8'], seq!['2', '9'], seq!['5', '1'], seq!['5', '2'], seq!['5', '3'],
        seq!['5', '4'], seq!['5', '5'], seq!['3', '9'], seq!['4', '9'], seq!['5', '9']
    ];
    assert forall|k: int| 0 <= k < ones.len() implies text_apply_sgr(#[trigger] ones[k], st) == text_code_effect(
        st,
        k + 1,
    ) by {
        lemma_text_code(ones[k], st);
    }
    assert forall|k: int| 0 <= k < twos.len() implies text_apply_sgr(#[trigger] twos[k], st) == text_code_effect(
        st,
        sgr_code_of(twos[k]).unwrap(),
    ) && sgr_code_of(twos[k]) is Some by {
        lemma_text_code(twos[k], st);
    }
    assert(ones[0] == seq!['1']);
    assert(ones[1] == seq!['2']);
    assert(ones[2] == seq!['3']);
    assert(ones[3] == seq!['4']);
    assert(ones[4] == seq!['5']);
    assert(ones[5] == seq!['6']);
    assert(ones[6] == seq!['7']);
    assert(ones[7] == seq!['8']);
    assert(ones[8] == seq!['9']);
    assert(twos[0] == seq!['2', '0']);
    assert(twos[1] == seq!['2', '1']);
    assert(twos[2] == seq!['2', '2']);
    assert(twos[3] == seq!['2', '3']);
    assert(twos[4] == seq!['2', '4']);
    assert(twos[5] == seq!['2', '5']);
    assert(twos[6] == seq!['2', '7']);
    assert(twos[7] == seq!['2', '8']);
    assert(twos[8] == seq!['2', '9']);
    assert(twos[9] == seq!['5', '1']);
    assert(twos[10] == seq!['5', '2']);
    assert(twos[11] == seq!['5', '3']);
    assert(twos[12] == seq!['5', '4']);
    assert(twos[13] == seq!['5', '5']);
    assert(twos[14] == seq!['3', '9']);
    assert(twos[15] == seq!['4', '9']);
    assert(twos[16] == seq!['5', '9']);
    lemma_with_without(a, TextAttribute::Bold);
    lemma_with_without(a, TextAttribute::Dim);
    lemma_with_without(a, TextAttribute::Italic);
    lemma_with_without(a, TextAttribute::Underlined);
    lemma_with_without(a, TextAttribute::SlowBlink);
    lemma_with_without(a, TextAttribute::RapidBlink);
    lemma_with_without(a, TextAttribute::Reverse);
    lemma_with_without(a, TextAttribute::Hidden);
    lemma_with_without(a, TextAttribute::CrossedOut);
    lemma_with_without(a, TextAttribute::Fraktur);
    lemma_with_without(a, TextAttribute::Framed);
    lemma_with_without(a, TextAttribute::Encircled);
    lemma_with_without(a, TextAttribute::OverLined);
    lemma_with_without(a.without(TextAttribute::Bold), TextAttribute::Dim);
    lemma_with_without(a.without(TextAttribute::SlowBlink), TextAttribute::RapidBlink);
    lemma_with_without(a.without(TextAttribute::Framed), TextAttribute::Encircled);
}

proof fn lemma_two_digit_params(d1: char, d2: char)
    requires
        '0' <= d1 <= '9',
        '0' <= d2 <= '9',
    ensures
        csi_params(seq![d1, ';', d2]) == seq![(d1 as int - '0' as int) as u16, (d2 as int - '0' as int) as u16],
{
    let t = seq![d1, ';', d2];
    let a = seq![d1];
    let b = seq![d2];
    assert(a.drop_last() =~= Seq::<char>::empty());
    assert(a.last() != ';');
    assert(Seq::<char>::empty().push(a.last()) =~= a);
    assert(split_on(Seq::<char>::empty(), ';') == seq![Seq::<char>::empty()]);
    assert(split_on(a, ';') =~= seq![a]);
    let a2 = seq![d1, ';'];
    assert(a2.drop_last() =~= a);
    assert(split_on(a2, ';') =~= seq![a, Seq::<char>::empty()]);
    assert(t.drop_last() =~= a2);
    assert(Seq::<char>::empty().push(d2) =~= b);
    assert(split_on(t, ';') =~= seq![a, b]);
    assert(sep_index(a, ':', 1) == 1);
    assert(sep_index(a, ':', 0) == 1);
    assert(sep_index(b, ':', 1) == 1);
    assert(sep_index(b, ':', 0) == 1);
    assert(main_param(a) =~= a);
    assert(main_param(b) =~= b);
    assert(decimal_value(a) == Some(digit_value(d1)));
    assert(decimal_value(b) == Some(digit_value(d2)));
    assert(parse_unsigned_spec(a, 65535) == Some(digit_value(d1)));
    assert(parse_unsigned_spec(b, 65535) == Some(digit_value(d2)));
    assert(csi_params(t) =~= seq![(d1 as int - '0' as int) as u16, (d2 as int - '0' as int) as u16]);
}

/// Cursor positioning: `ESC [ r ; c H` (or `f`) puts the cursor on the
/// row `r` and the column `c`, counted from 1 (a 0 counting as 1), and
/// `ESC [ H` at the top left corner; the frame and the style are kept
/// and the line is unblocked. Stated for one-digit parameters.
pub proof fn law_csi_cursor_position(b: BuilderView, r: char, c: char)
    requires
        '0' <= r <= '9',
        '0' <= c <= '9',
    ensures
        run_spec(b, seq!['\x1b', '[', r, ';', c, 'H']) == Some(
            BuilderView { row: move_count(r) - 1, col: move_count(c) - 1, blocked: false, ..b },
        ),
        run_spec(b, seq!['\x1b', '[', r, ';', c, 'f']) == Some(
            BuilderView { row: move_count(r) - 1, col: move_count(c) - 1, blocked: false, ..b },
        ),
        run_spec(b, seq!['\x1b', '[', 'H']) == Some(BuilderView { row: 0, col: 0, blocked: false, ..b }),
{
    lemma_two_digit_params(r, c);
    lemma_csi_no_param(b, 'H');
    let params = seq![(r as int - '0' as int) as u16, (c as int - '0' as int) as u16];
    lemma_csi_two_params(b, r, c, 'H');
    lemma_csi_two_params(b, r, c, 'f');
}

proof fn lemma_csi_two_params(b: BuilderView, r: char, c: char, fin: char)
    requires
        '0' <= r <= '9',
        '0' <= c <= '9',
        '@' <= fin <= '~',
    ensures
        run_spec(b, seq!['\x1b', '[', r, ';', c, fin]) == Some(
            csi_effect(b, seq![(r as int - '0' as int) as u16, (c as int - '0' as int) as u16], fin),
        ),
{
    lemma_two_digit_params(r, c);
    let params = seq![(r as int - '0' as int) as u16, (c as int - '0' as int) as u16];
    let s = seq!['\x1b', '[', r, ';', c, fin];
    assert(scan_while(s, 6, '0', '?') == 6);
    assert(scan_while(s, 5, '0', '?') == 5);
    assert(scan_while(s, 4, '0', '?') == 5);
    assert(scan_while(s, 3, '0', '?') == 5);
    assert(scan_while(s, 2, '0', '?') == 5);
    assert(scan_while(s, 5, ' ', '/') == 5);
    assert(s.subrange(2, 5) =~= seq![r, ';', c]);
    let next = csi_effect(b, params, fin);
    assert(step_spec(b, s) == Some((next, 6int)));
    assert(s.subrange(6, 6) =~= Seq::<char>::empty());
    assert(run_spec(next, s.subrange(6, 6)) == Some(next));
    assert(s.len() == 6);
}

/// `e` is `b` with the cells of the frame whose screen coordinates
/// satisfy `erase` made blank in `b`'s style, everything else as it was.
pub open spec fn erased_where(b: BuilderView, e: BuilderView, erase: spec_fn(int, int) -> bool) -> bool {
    &&& e.col == b.col
    &&& e.row == b.row
    &&& e.style == b.style
    &&& e.blocked == b.blocked
    &&& e.frame.version == b.frame.version
    &&& e.frame.left == b.frame.left
    &&& e.frame.top == b.frame.top
    &&& e.frame.width == b.frame.width
    &&& e.frame.height == b.frame.height
    &&& e.frame.skin_fingerprint == b.frame.skin_fingerprint
    &&& e.frame.cells.len() == b.frame.cells.len()
    &&& forall|r: int| 0 <= r < b.frame.cells.len() ==> (#[trigger] e.frame.cells[r]).len() == b.frame.cells[r].len()
    &&& forall|r: int, k: int|
        0 <= r < b.frame.cells.len() && 0 <= k < b.frame.cells[r].len() ==> #[trigger] e.frame.cells[r][k] == if erase(
            b.frame.top + r,
            b.frame.left + k,
        ) {
            blank_cell(b.style)
        } else {
            b.frame.cells[r][k]
        }
}

/// Line erasures: `ESC [ K` (or `ESC [ 0 K`) blanks the cursor's row
/// from the cursor's column to its end, `ESC [ 1 K` from its start to
/// the cursor's column included, `ESC [ 2 K` all of it; the blanks take
/// the current style, and nothing else changes (the cursor stays).
pub proof fn law_csi_erase_line(b: BuilderView)
    requires
        frame_wf(b.frame),
        0 <= b.col < usize::MAX,
        0 <= b.row,
    ensures
        run_spec(b, seq!['\x1b', '[', 'K']) is Some,
        erased_where(b, run_spec(b, seq!['\x1b', '[', 'K']).unwrap(), |row: int, col: int| row == b.row && col >= b.col),
        run_spec(b, seq!['\x1b', '[', '0', 'K']) == run_spec(b, seq!['\x1b', '[', 'K']),
        run_spec(b, seq!['\x1b', '[', '1', 'K']) is Some,
        erased_where(
            b,
            run_spec(b, seq!['\x1b', '[', '1', 'K']).unwrap(),
            |row: int, col: int| row == b.row && col <= b.col,
        ),
        run_spec(b, seq!['\x1b', '[', '2', 'K']) is Some,
        erased_where(b, run_spec(b, seq!['\x1b', '[', '2', 'K']).unwrap(), |row: int, col: int| row == b.row),
{
    lemma_csi_no_param(b, 'K');
    lemma_csi_one_param(b, '0', 'K');
    lemma_csi_one_param(b, '1', 'K');
    lemma_csi_one_param(b, '2', 'K');
    assert(seq![('0' as int - '0' as int) as u16] == seq![0u16]);
    assert(seq![('1' as int - '0' as int) as u16] == seq![1u16]);
    assert(seq![('2' as int - '0' as int) as u16] == seq![2u16]);
    assert(csi_effect(b, seq![0u16], 'K') == erase_line_spec(b, 0));
    assert(csi_effect(b, Seq::empty(), 'K') == erase_line_spec(b, 0));
    assert(csi_effect(b, seq![1u16], 'K') == erase_line_spec(b, 1));
    assert(csi_effect(b, seq![2u16], 'K') == erase_line_spec(b, 2));
    let in_rows = b_top(b) <= b.row < b_bottom(b);
    assert forall|r: int| 0 <= r < b.frame.cells.len() implies (#[trigger] b.frame.cells[r]).len() == b.frame.width by {}
    let e0 = erase_line_spec(b, 0);
    let e1 = erase_line_spec(b, 1);
    let e2 = erase_line_spec(b, 2);
    let p0 = |row: int, col: int| row == b.row && col >= b.col;
    let p1 = |row: int, col: int| row == b.row && col <= b.col;
    let p2 = |row: int, col: int| row == b.row;
    if in_rows {
        let rr = b.row - b_top(b);
        assert forall|r: int, k: int| 0 <= r < b.frame.cells.len() && 0 <= k < b.frame.cells[r].len() implies #[trigger] e0.frame.cells[r][k]
            == if p0(b.frame.top + r, b.frame.left + k) {
            blank_cell(b.style)
        } else {
            b.frame.cells[r][k]
        } by {
            if r == rr {
            } else {
                assert(b.frame.top + r != b.row);
            }
        }
        assert forall|r: int, k: int| 0 <= r < b.frame.cells.len() && 0 <= k < b.frame.cells[r].len() implies #[trigger] e1.frame.cells[r][k]
            == if p1(b.frame.top + r, b.frame.left + k) {
            blank_cell(b.style)
        } else {
            b.frame.cells[r][k]
        } by {
            if r == rr {
            } else {
                assert(b.frame.top + r != b.row);
            }
        }
        assert forall|r: int, k: int| 0 <= r < b.frame.cells.len() && 0 <= k < b.frame.cells[r].len() implies #[trigger] e2.frame.cells[r][k]
            == if p2(b.frame.top + r, b.frame.left + k) {
            blank_cell(b.style)
        } else {
            b.frame.cells[r][k]
        } by {
            if r == rr {
            } else {
                assert(b.frame.top + r != b.row);
            }
        }
        assert forall|r: int| 0 <= r < b.frame.cells.len() implies (#[trigger] e0.frame.cells[r]).len() == b.frame.cells[r].len()
            && e1.frame.cells[r].len() == b.frame.cells[r].len() && e2.frame.cells[r].len() == b.frame.cells[r].len() by {}
    } else {
        assert(b.row < b.frame.top || b.row >= b.frame.top + b.frame.cells.len());
    }
    assert(erased_where(b, e0, p0));
    assert(erased_where(b, e1, p1));
    assert(erased_where(b, e2, p2));
}

/// Line controls: a line feed moves to the start of the next row and
/// unblocks the line, a carriage return to the start of the row, and the
/// other control characters change nothing.
pub proof fn law_line_controls(b: BuilderView, c: char)
    requires
        0 <= b.row < usize::MAX,
        (c < ' ' && c != '\n' && c != '\r' && c != '\t' && c != '\x1b') || c == '\x7f',
    ensures
        run_spec(b, seq!['\n']) == Some(BuilderView { row: b.row + 1, col: 0, blocked: false, ..b }),
        run_spec(b, seq!['\r']) == Some(BuilderView { col: 0, ..b }),
        run_spec(b, seq![c]) == Some(b),
{
    let s1 = seq!['\n'];
    let s2 = seq!['\r'];
    let s3 = seq![c];
    assert(s1.subrange(1, 1) =~= Seq::<char>::empty());
    assert(s2.subrange(1, 1) =~= Seq::<char>::empty());
    assert(s3.subrange(1, 1) =~= Seq::<char>::empty());
    assert(run_spec(BuilderView { row: b.row + 1, col: 0, blocked: false, ..b }, Seq::empty()) == Some(
        BuilderView { row: b.row + 1, col: 0, blocked: false, ..b },
    ));
    assert(run_spec(BuilderView { col: 0, ..b }, Seq::empty()) == Some(BuilderView { col: 0, ..b }));
    assert(run_spec(b, Seq::empty()) == Some(b));
}

/// Writing a grapheme of display width `w` at the cursor, in the frame
/// (at the row `r` and the column `k` of the frame): a grapheme of width
/// 1 fills the cursor's cell with the current style and moves the cursor
/// right by one; one of width 2 which fits fills the cursor's cell and
/// makes the next one its continuation, moving the cursor by two; one
/// which doesn't fit in the rest of the line leaves a blank of the
/// current style in the cursor's cell and blocks the line; a zero width
/// grapheme joins the symbol of the cell before the cursor (of its
/// leading cell when it is a continuation). Nothing is written on a
/// blocked line.
pub proof fn law_put_sized_grapheme(b: BuilderView, g: Seq<char>, w: int)
    requires
        frame_wf(b.frame),
        in_frame(b, b.row, b.col),
        0 <= w,
    ensures
        ({
            let r = b.row - b.frame.top;
            let k = b.col - b.frame.left;
            let row = b.frame.cells[r];
            let written = CellView { symbol: g, style: b.style, continuation: false };
            &&& b.blocked ==> put_sized_grapheme_spec(b, g, w) == b
            &&& !b.blocked && w == 1 ==> put_sized_grapheme_spec(b, g, w) == (BuilderView {
                frame: FrameView { cells: b.frame.cells.update(r, row.update(k, written)), ..b.frame },
                col: b.col + 1,
                ..b
            })
            &&& !b.blocked && w == 2 && k + 2 <= b.frame.width ==> put_sized_grapheme_spec(b, g, w) == (BuilderView {
                frame: FrameView {
                    cells: b.frame.cells.update(
                        r,
                        row.update(k, written).update(
                            k + 1,
                            CellView { symbol: Seq::empty(), style: b.style, continuation: true },
                        ),
                    ),
                    ..b.frame
                },
                col: b.col + 2,
                ..b
            })
            &&& !b.blocked && w >= 1 && k + w > b.frame.width ==> put_sized_grapheme_spec(b, g, w) == (BuilderView {
                frame: FrameView {
                    cells: b.frame.cells.update(
                        r,
                        row.update(k, CellView { symbol: seq![' '], style: b.style, continuation: false }),
                    ),
                    ..b.frame
                },
                blocked: true,
                ..b
            })
            &&& !b.blocked && w == 0 && k > 0 && !row[k - 1].continuation ==> put_sized_grapheme_spec(b, g, w)
                == (BuilderView {
                frame: FrameView {
                    cells: b.frame.cells.update(
                        r,
                        row.update(k - 1, CellView { symbol: row[k - 1].symbol + g, ..row[k - 1] }),
                    ),
                    ..b.frame
                },
                ..b
            })
            &&& !b.blocked && w == 0 && k > 1 && row[k - 1].continuation ==> put_sized_grapheme_spec(b, g, w)
                == (BuilderView {
                frame: FrameView {
                    cells: b.frame.cells.update(
                        r,
                        row.update(k - 2, CellView { symbol: row[k - 2].symbol + g, ..row[k - 2] }),
                    ),
                    ..b.frame
                },
                ..b
            })
        }),
{
    let r = b.row - b.frame.top;
    let k = b.col - b.frame.left;
    let row = b.frame.cells[r];
    let written = CellView { symbol: g, style: b.style, continuation: false };
    assert(b.frame.cells[r].len() == b.frame.width);
    let res = put_sized_grapheme_spec(b, g, w);
    if !b.blocked && w == 2 && k + 2 <= b.frame.width {
        let moved = BuilderView { col: sat(b.col + w), ..b };
        let w1 = with_cell(moved, r, k, written);
        assert(w1.frame.cells[r] == row.update(k, written));
        let cont = CellView { symbol: Seq::empty(), style: b.style, continuation: true };
        assert(continuation_cell(b.style) == cont);
        assert(res.frame.cells =~= b.frame.cells.update(r, row.update(k, written).update(k + 1, cont)));
    }
    if !b.blocked && w == 1 {
        assert(res.frame.cells =~= b.frame.cells.update(r, row.update(k, written)));
    }
    if !b.blocked && w >= 1 && k + w > b.frame.width {
        assert(res.frame.cells =~= b.frame.cells.update(
            r,
            row.update(k, CellView { symbol: seq![' '], style: b.style, continuation: false }),
        ));
    }
}

proof fn lemma_scan_plain_from(s: Seq<char>, m: int, i: int, style: TextStyle, out: Seq<(Seq<char>, TextStyle)>)
    requires
        0 <= m <= i <= s.len(),
        forall|k: int| m <= k < s.len() ==> s[k] != '\x1b',
    ensures
        scan_styled(s, i, style, s.subrange(m, i), out) == out + styled_graphemes(s.subrange(m, s.len() as int), style),
    decreases s.len() - i,
{
    if i < s.len() {
        assert(s.subrange(m, i).push(s[i]) =~= s.subrange(m, i + 1));
        lemma_scan_plain_from(s, m, i + 1, style, out);
    }
}

/// A CSI sequence followed by plain text: the text's graphemes take the
/// style the sequence's parameters give the default style when the
/// sequence ends with `m`, and keep the default style for any other
/// final character.
pub proof fn law_parse_sequence_then_text(params: Seq<char>, fin: char, t: Seq<char>)
    requires
        forall|k: int| 0 <= k < params.len() ==> !('@' <= #[trigger] params[k] <= '~') && params[k] != '\x1b',
        '@' <= fin <= '~',
        forall|k: int| 0 <= k < t.len() ==> #[trigger] t[k] != '\x1b',
    ensures
        parse_styled_spec(seq!['\x1b', '['] + params + seq![fin] + t) == styled_graphemes(
            t,
            if fin == 'm' {
                text_apply_sgr(params, default_text_style())
            } else {
                default_text_style()
            },
        ),
{
    let s = seq!['\x1b', '['] + params + seq![fin] + t;
    let n = params.len() as int;
    let f = n + 2;
    assert(s[0] == '\x1b' && s[1] == '[');
    assert(s[f] == fin);
    assert forall|k: int| 2 <= k < f implies !('@' <= #[trigger] s[k] <= '~') by {
        assert(s[k] == params[k - 2]);
    }
    assert(csi_final(s, f) == f);
    lemma_csi_final_skips(s, 2, f);
    assert(s.subrange(2, f) =~= params);
    let style = if fin == 'm' {
        text_apply_sgr(params, default_text_style())
    } else {
        default_text_style()
    };
    assert(styled_graphemes(Seq::<char>::empty(), default_text_style()) =~= Seq::<(Seq<char>, TextStyle)>::empty());
    assert(Seq::<(Seq<char>, TextStyle)>::empty() + styled_graphemes(Seq::<char>::empty(), default_text_style())
        =~= Seq::<(Seq<char>, TextStyle)>::empty());
    assert(parse_styled_spec(s) == scan_styled(s, f + 1, style, Seq::empty(), Seq::empty()));
    assert forall|k: int| f + 1 <= k < s.len() implies s[k] != '\x1b' by {
        assert(s[k] == t[k - f - 1]);
    }
    assert(s.subrange(f + 1, f + 1) =~= Seq::<char>::empty());
    lemma_scan_plain_from(s, f + 1, f + 1, style, Seq::empty());
    assert(s.subrange(f + 1, s.len() as int) =~= t);
    assert(Seq::<(Seq<char>, TextStyle)>::empty() + styled_graphemes(t, style) =~= styled_graphemes(t, style));
}

proof fn lemma_csi_final_skips(s: Seq<char>, k: int, f: int)
    requires
        0 <= k <= f < s.len(),
        '@' <= s[f] <= '~',
        forall|j: int| k <= j < f ==> !('@' <= #[trigger] s[j] <= '~'),
    ensures
        csi_final(s, k) == f,
    decreases f - k,
{
    if k < f {
        lemma_csi_final_skips(s, k + 1, f);
    }
}

} // verus!
