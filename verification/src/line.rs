//! Row rewrites: a row of a frame as runs of same-style graphemes,
//! its trailing default blanks being left to an end-of-line erasure.

use crate::cell::{is_default_blank_cell, Cell, CellView};
use crate::frame::{row_view, Frame};
use crate::patch::run_text;
use crate::style::CellStyle;
use vstd::prelude::*;
use vstd::string::*;

verus! {

/// A run of same-style graphemes of a row.
#[derive(Clone, Debug, PartialEq)]
pub struct PatchSpan {
    pub style: CellStyle,
    pub text: String,
}

/// The rewrite of a whole row of a frame: its spans, left to right
/// from the row's start, then, when `erase_to_eol` is set, an erasure
/// of the rest of the line.
#[derive(Clone, Debug, PartialEq)]
pub struct LinePatch {
    pub row: u16,
    pub spans: Vec<PatchSpan>,
    pub erase_to_eol: bool,
}

/// The mathematical value of a span.
pub struct SpanView {
    pub style: CellStyle,
    pub text: Seq<char>,
}

/// The mathematical value of a row rewrite.
pub struct LineView {
    pub row: u16,
    pub spans: Seq<SpanView>,
    pub erase_to_eol: bool,
}

impl View for PatchSpan {
    type V = SpanView;

    open spec fn view(&self) -> SpanView {
        SpanView { style: self.style, text: self.text@ }
    }
}

/// The values of a sequence of spans.
pub open spec fn spans_view(spans: Seq<PatchSpan>) -> Seq<SpanView> {
    spans.map_values(|s: PatchSpan| s@)
}

impl View for LinePatch {
    type V = LineView;

    open spec fn view(&self) -> LineView {
        LineView { row: self.row, spans: spans_view(self.spans@), erase_to_eol: self.erase_to_eol }
    }
}

/// The end of the first `j` cells of a row once their trailing blanks
/// of the default style are dropped.
pub open spec fn trimmed_end(cells: Seq<CellView>, j: int) -> int
    decreases j,
{
    if j <= 0 {
        0
    } else if is_default_blank_cell(cells[j - 1]) {
        trimmed_end(cells, j - 1)
    } else {
        j
    }
}

/// The end of a span of the given style going on at `k`: the first
/// cell from `k` on (before `end`) which isn't a continuation cell and
/// has another style.
pub open spec fn span_end(cells: Seq<CellView>, k: int, style: CellStyle, end: int) -> int
    decreases end - k,
{
    if k >= end || (!cells[k].continuation && cells[k].style != style) {
        k
    } else {
        span_end(cells, k + 1, style, end)
    }
}

/// A span doesn't end before it goes on.
pub proof fn lemma_span_end_bounds(cells: Seq<CellView>, k: int, style: CellStyle, end: int)
    ensures
        span_end(cells, k, style, end) >= k,
        k <= end ==> span_end(cells, k, style, end) <= end,
        span_end(cells, k, style, end) < end ==> !cells[span_end(cells, k, style, end)].continuation
            && cells[span_end(cells, k, style, end)].style != style,
    decreases end - k,
{
    if k < end && !(!cells[k].continuation && cells[k].style != style) {
        lemma_span_end_bounds(cells, k + 1, style, end);
    }
}

/// The spans of the cells `[idx, end)`: each starts at a cell which
/// isn't a continuation cell and takes the following cells of its
/// style, continuation cells being covered by their wide grapheme.
pub open spec fn line_spans(cells: Seq<CellView>, idx: int, end: int) -> Seq<SpanView>
    decreases end - idx,
{
    if idx < 0 || idx >= end {
        Seq::empty()
    } else if cells[idx].continuation {
        line_spans(cells, idx + 1, end)
    } else {
        let next = span_end(cells, idx + 1, cells[idx].style, end);
        proof {
            lemma_span_end_bounds(cells, idx + 1, cells[idx].style, end);
        }
        seq![SpanView { style: cells[idx].style, text: run_text(cells, idx, next) }] + line_spans(
            cells,
            next,
            end,
        )
    }
}

/// The rewrite of the row `row` whose cells are `cells`.
pub open spec fn line_patch_spec(cells: Seq<CellView>, row: int) -> LineView {
    let end = trimmed_end(cells, cells.len() as int);
    LineView { row: row as u16, spans: line_spans(cells, 0, end), erase_to_eol: end < cells.len() }
}

proof fn lemma_trimmed_end_bounds(cells: Seq<CellView>, j: int)
    ensures
        0 <= trimmed_end(cells, j) <= if j < 0 { 0 } else { j },
    decreases j,
{
    if j > 0 && is_default_blank_cell(cells[j - 1]) {
        lemma_trimmed_end_bounds(cells, j - 1);
    }
}

proof fn lemma_spans_view_push(spans: Seq<PatchSpan>, s: PatchSpan)
    ensures
        spans_view(spans.push(s)) == spans_view(spans).push(s@),
{
    assert(spans_view(spans.push(s)) =~= spans_view(spans).push(s@));
}

impl Frame {
    /// Build the rewrite of the given row: spans of same-style cells,
    /// trailing blank-default cells being replaced by an end-of-line
    /// erasure.
    pub fn line_patch(&self, row: usize) -> (line: LinePatch)
        requires
            row < self@.cells.len(),
        ensures
            line@ == line_patch_spec(self@.cells[row as int], row as int),
    {
        let cells: &[Cell] = self.cells[row].as_slice();
        let ghost cv = row_view(cells@);
        proof {
            assert(cv == self@.cells[row as int]);
        }
        let len = cells.len();
        let mut end = len;
        while end > 0 && cells[end - 1].is_default_blank()
            invariant
                end <= len,
                len == cells@.len(),
                cv == row_view(cells@),
                trimmed_end(cv, len as int) == trimmed_end(cv, end as int),
            decreases end,
        {
            end = end - 1;
        }
        proof {
            if end > 0 {
                assert(!is_default_blank_cell(cv[end - 1]));
            }
            assert(trimmed_end(cv, end as int) == end);
        }
        let erase_to_eol = end < len;
        let mut spans: Vec<PatchSpan> = Vec::new();
        let mut idx: usize = 0;
        while idx < end
            invariant
                idx <= end <= len,
                len == cells@.len(),
                cv == row_view(cells@),
                spans_view(spans@) + line_spans(cv, idx as int, end as int) == line_spans(cv, 0, end as int),
            decreases end - idx,
        {
            proof {
                assert(cv[idx as int] == cells@[idx as int]@);
            }
            if cells[idx].continuation {
                idx = idx + 1;
            } else {
                let style = cells[idx].style;
                let mut text = String::new();
                text.append(cells[idx].symbol.as_str());
                proof {
                    assert(run_text(cv, idx as int, idx as int) =~= Seq::<char>::empty());
                    assert(text@ =~= run_text(cv, idx as int, idx + 1));
                }
                let mut next_idx = idx + 1;
                while next_idx < end && (cells[next_idx].continuation || cells[next_idx].style == style)
                    invariant
                        idx < next_idx <= end,
                        end <= len,
                        len == cells@.len(),
                        cv == row_view(cells@),
                        style == cv[idx as int].style,
                        text@ == run_text(cv, idx as int, next_idx as int),
                        span_end(cv, next_idx as int, style, end as int) == span_end(
                            cv,
                            idx + 1,
                            style,
                            end as int,
                        ),
                    decreases end - next_idx,
                {
                    proof {
                        assert(cv[next_idx as int] == cells@[next_idx as int]@);
                    }
                    if !cells[next_idx].continuation {
                        text.append(cells[next_idx].symbol.as_str());
                    }
                    proof {
                        assert(text@ =~= run_text(cv, idx as int, next_idx + 1));
                    }
                    next_idx = next_idx + 1;
                }
                proof {
                    assert(span_end(cv, next_idx as int, style, end as int) == next_idx);
                }
                let span = PatchSpan { style, text };
                let ghost before = spans@;
                spans.push(span);
                proof {
                    lemma_spans_view_push(before, span);
                    assert(line_spans(cv, idx as int, end as int) == seq![span@] + line_spans(
                        cv,
                        next_idx as int,
                        end as int,
                    ));
                    assert(spans_view(spans@) + line_spans(cv, next_idx as int, end as int) =~= spans_view(
                        before,
                    ) + line_spans(cv, idx as int, end as int));
                }
                idx = next_idx;
            }
        }
        LinePatch { row: row as u16, spans, erase_to_eol }
    }
}

} // verus!
