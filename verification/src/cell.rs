//! Frame cells: a grapheme cluster and its style.

use crate::style::{default_style, CellStyle};
use crate::text::space_string;
use vstd::prelude::*;
use vstd::string::*;

verus! {

/// A cell of a frame, holding a grapheme cluster and its style.
///
/// Wide graphemes (eg CJK ideograms or most emojis) occupy
/// two cells: a leading cell holding the cluster, and a
/// *continuation* cell which is empty and only marks the
/// second half as covered.
#[derive(Debug, Clone, PartialEq, Eq)]
pub struct Cell {
    /// the grapheme cluster displayed in this cell.
    ///
    /// A single space for a blank cell, an empty string
    /// for the continuation cell of a wide grapheme.
    pub symbol: String,
    pub style: CellStyle,
    /// whether this cell is the second half of a wide grapheme
    pub continuation: bool,
}

/// The mathematical value of a cell.
pub struct CellView {
    pub symbol: Seq<char>,
    pub style: CellStyle,
    pub continuation: bool,
}

impl View for Cell {
    type V = CellView;

    open spec fn view(&self) -> CellView {
        CellView { symbol: self.symbol@, style: self.style, continuation: self.continuation }
    }
}

/// A blank cell (a space) of the given style.
pub open spec fn blank_cell(style: CellStyle) -> CellView {
    CellView { symbol: seq![' '], style, continuation: false }
}

/// The continuation cell of a wide grapheme of the given style.
pub open spec fn continuation_cell(style: CellStyle) -> CellView {
    CellView { symbol: Seq::empty(), style, continuation: true }
}

/// Whether a cell displays a space (whatever its style).
pub open spec fn is_blank_cell(c: CellView) -> bool {
    !c.continuation && c.symbol == seq![' ']
}

/// Whether a cell displays a space with the default style.
pub open spec fn is_default_blank_cell(c: CellView) -> bool {
    is_blank_cell(c) && c.style == default_style()
}

impl Default for Cell {
    fn default() -> (c: Self)
        ensures
            c@ == blank_cell(default_style()),
    {
        Cell { symbol: space_string(), style: CellStyle::default(), continuation: false }
    }
}

impl Cell {
    /// A blank cell (a space) of the given style.
    pub fn blank(style: CellStyle) -> (c: Self)
        ensures
            c@ == blank_cell(style),
    {
        Cell { symbol: space_string(), style, continuation: false }
    }

    /// The continuation cell of a wide grapheme of the given style.
    pub fn continuation(style: CellStyle) -> (c: Self)
        ensures
            c@ == continuation_cell(style),
    {
        Cell { symbol: String::new(), style, continuation: true }
    }

    /// whether this cell displays a blank (a space)
    pub fn is_blank(&self) -> (b: bool)
        ensures
            b == is_blank_cell(self@),
    {
        let s = self.symbol.as_str();
        let r = !self.continuation && s.unicode_len() == 1 && s.get_char(0) == ' ';
        proof {
            if !self.continuation && self.symbol@.len() == 1 && self.symbol@[0] == ' ' {
                assert(self.symbol@ =~= seq![' ']);
            }
        }
        r
    }

    /// whether this cell displays a blank (a space) with
    /// the default style
    pub fn is_default_blank(&self) -> (b: bool)
        ensures
            b == is_default_blank_cell(self@),
    {
        self.is_blank() && self.style.is_default()
    }

    /// A copy of this cell.
    pub fn duplicate(&self) -> (c: Self)
        ensures
            c@ == self@,
    {
        Cell { symbol: self.symbol.clone(), style: self.style, continuation: self.continuation }
    }

    /// Whether two cells are equal: same symbol, style and continuation flag.
    pub fn same_as(&self, other: &Cell) -> (b: bool)
        ensures
            b == (self@ == other@),
    {
        self.continuation == other.continuation && self.style == other.style
            && self.symbol == other.symbol
    }
}

} // verus!
