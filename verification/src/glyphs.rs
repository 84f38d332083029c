//! Checks of the conditions under which a patch reproduces its target
//! frame: every row is a succession of graphemes, and the text of any
//! run of cells splits back into the symbols of its leading cells.

use crate::cell::{continuation_cell, Cell};
use crate::frame::{row_view, Frame};
use crate::laws::{frame_glyphs_wf, frame_segments_stable, lead_fits, lead_symbols, row_glyphs_wf, row_segments_stable};
use crate::patch::{printed_symbol, run_text};
use crate::text::{display_width, grapheme_clusters, graphemes, str_width, string_views};
use vstd::prelude::*;
use vstd::string::*;

verus! {

/// Whether two sequences of strings hold the same strings.
fn same_strings(a: &Vec<String>, b: &Vec<String>) -> (r: bool)
    ensures
        r == (string_views(a@) == string_views(b@)),
{
    if a.len() != b.len() {
        proof {
            assert(string_views(a@).len() != string_views(b@).len());
        }
        return false;
    }
    let mut k: usize = 0;
    while k < a.len()
        invariant
            k <= a@.len(),
            a@.len() == b@.len(),
            forall|i: int| 0 <= i < k ==> #[trigger] a@[i]@ == b@[i]@,
        decreases a@.len() - k,
    {
        if a[k] != b[k] {
            proof {
                assert(string_views(a@)[k as int] != string_views(b@)[k as int]);
            }
            return false;
        }
        k = k + 1;
    }
    proof {
        assert(string_views(a@) =~= string_views(b@));
    }
    true
}

/// Whether the text splits into graphemes giving back the symbols.
fn splits_into(text: &String, symbols: &Vec<String>) -> (r: bool)
    ensures
        r == (grapheme_clusters(text@) == string_views(symbols@)),
{
    let gs = graphemes(text.as_str());
    same_strings(&gs, symbols)
}

/// Whether every run of cells of the row starting at `i` splits back
/// into the symbols of its leading cells.
fn runs_from_stable(cur: &[Cell], i: usize) -> (r: bool)
    requires
        i <= cur@.len(),
    ensures
        r == (forall|j: int|
            i <= j <= cur@.len() ==> grapheme_clusters(#[trigger] run_text(row_view(cur@), i as int, j))
                == lead_symbols(row_view(cur@), i as int, j)),
{
    let ghost cv = row_view(cur@);
    let n = cur.len();
    let mut text = String::new();
    let mut symbols: Vec<String> = Vec::new();
    let mut j = i;
    proof {
        assert(text@ =~= run_text(cv, i as int, i as int));
        assert(string_views(symbols@) =~= lead_symbols(cv, i as int, i as int));
    }
    while j < n
        invariant
            i <= j <= n,
            n == cur@.len(),
            cv == row_view(cur@),
            text@ == run_text(cv, i as int, j as int),
            string_views(symbols@) == lead_symbols(cv, i as int, j as int),
            forall|c: int| i <= c < j ==> grapheme_clusters(#[trigger] run_text(cv, i as int, c)) == lead_symbols(
                cv,
                i as int,
                c,
            ),
        decreases n - j,
    {
        if !splits_into(&text, &symbols) {
            return false;
        }
        proof {
            assert(cv[j as int] == cur@[j as int]@);
        }
        if !cur[j].continuation {
            text.append(cur[j].symbol.as_str());
            let ghost before = symbols@;
            symbols.push(cur[j].symbol.clone());
            proof {
                assert(string_views(symbols@) =~= string_views(before).push(cv[j as int].symbol));
            }
        }
        proof {
            assert(text@ =~= run_text(cv, i as int, j as int) + printed_symbol(cv[j as int]));
        }
        j = j + 1;
    }
    splits_into(&text, &symbols)
}

/// Whether every run of cells of the row splits back into the symbols
/// of its leading cells.
fn row_stable(cur: &[Cell]) -> (r: bool)
    ensures
        r == row_segments_stable(row_view(cur@)),
{
    let ghost cv = row_view(cur@);
    let n = cur.len();
    let mut i: usize = 0;
    while i < n
        invariant
            i <= n,
            n == cur@.len(),
            cv == row_view(cur@),
            forall|a: int, c: int|
                0 <= a < i && a <= c <= n ==> grapheme_clusters(#[trigger] run_text(cv, a, c)) == lead_symbols(
                    cv,
                    a,
                    c,
                ),
        decreases n - i,
    {
        if !runs_from_stable(cur, i) {
            return false;
        }
        i = i + 1;
    }
    runs_from_stable(cur, n)
}

/// Whether the leading cell `j` fits in the row (see [`lead_fits`]).
fn lead_cell_fits(cur: &[Cell], j: usize) -> (r: bool)
    requires
        j < cur@.len(),
    ensures
        r == lead_fits(row_view(cur@), j as int),
{
    let ghost cv = row_view(cur@);
    let n = cur.len();
    let lead = &cur[j];
    proof {
        assert(cv[j as int] == lead@);
    }
    if lead.symbol.as_str().unicode_len() == 0 {
        return false;
    }
    let w = str_width(lead.symbol.as_str());
    if w == 0 || w > n - j {
        return false;
    }
    let mut k = j + 1;
    while k < j + w
        invariant
            j < k <= j + w <= n,
            n == cur@.len(),
            cv == row_view(cur@),
            lead@ == cv[j as int],
            w == display_width(lead.symbol@),
            forall|m: int| j < m < k ==> #[trigger] cv[m] == continuation_cell(lead.style),
        decreases j + w - k,
    {
        let c = &cur[k];
        proof {
            assert(cv[k as int] == c@);
        }
        if !(c.continuation && c.symbol.as_str().unicode_len() == 0 && c.style == lead.style) {
            proof {
                if c.continuation && c.style == lead.style {
                    assert(c@.symbol.len() != 0);
                    assert(c@.symbol != continuation_cell(lead.style).symbol);
                }
                assert(cv[k as int] != continuation_cell(lead.style));
                assert(display_width(cv[j as int].symbol) == w);
                assert(cv[j as int].style == lead.style);
                assert(j < k < j + w);
                assert(!lead_fits(cv, j as int));
            }
            return false;
        }
        proof {
            assert(c@.symbol =~= Seq::<char>::empty());
        }
        k = k + 1;
    }
    if j + w < n && cur[j + w].continuation {
        proof {
            assert(cv[j + w] == cur@[j + w]@);
        }
        return false;
    }
    proof {
        if j + w < n {
            assert(cv[j + w] == cur@[j + w]@);
        }
    }
    true
}

/// Whether the row is a succession of graphemes (see [`row_glyphs_wf`]).
fn row_glyphs(cur: &[Cell]) -> (r: bool)
    ensures
        r == row_glyphs_wf(row_view(cur@)),
{
    let ghost cv = row_view(cur@);
    let n = cur.len();
    if n > 0 && cur[0].continuation {
        proof {
            assert(cv[0] == cur@[0]@);
        }
        return false;
    }
    proof {
        if n > 0 {
            assert(cv[0] == cur@[0]@);
        }
    }
    let mut j: usize = 0;
    while j < n
        invariant
            j <= n,
            n == cur@.len(),
            cv == row_view(cur@),
            forall|m: int| 0 <= m < j && !cv[m].continuation ==> #[trigger] lead_fits(cv, m),
        decreases n - j,
    {
        proof {
            assert(cv[j as int] == cur@[j as int]@);
        }
        if !cur[j].continuation && !lead_cell_fits(cur, j) {
            return false;
        }
        j = j + 1;
    }
    true
}

impl Frame {
    /// Whether every row of the frame is a succession of graphemes,
    /// each leading cell followed by the continuation cells of its
    /// width.
    pub fn glyphs_well_formed(&self) -> (b: bool)
        ensures
            b == frame_glyphs_wf(self@),
    {
        let mut y: usize = 0;
        while y < self.cells.len()
            invariant
                y <= self.cells@.len(),
                forall|k: int| 0 <= k < y ==> row_glyphs_wf(#[trigger] self@.cells[k]),
            decreases self.cells@.len() - y,
        {
            proof {
                assert(self@.cells[y as int] == row_view(self.cells@[y as int]@));
            }
            if !row_glyphs(self.cells[y].as_slice()) {
                return false;
            }
            y = y + 1;
        }
        true
    }

    /// Whether the text of any run of cells of any row splits into
    /// graphemes giving back the symbols of its leading cells (so that
    /// what a patch prints is displayed in the cells it was taken from).
    pub fn segments_stable(&self) -> (b: bool)
        ensures
            b == frame_segments_stable(self@),
    {
        let mut y: usize = 0;
        while y < self.cells.len()
            invariant
                y <= self.cells@.len(),
                forall|k: int| 0 <= k < y ==> row_segments_stable(#[trigger] self@.cells[k]),
            decreases self.cells@.len() - y,
        {
            proof {
                assert(self@.cells[y as int] == row_view(self.cells@[y as int]@));
            }
            if !row_stable(self.cells[y].as_slice()) {
                return false;
            }
            y = y + 1;
        }
        true
    }
}

} // verus!
