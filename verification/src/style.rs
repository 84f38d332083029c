//! Cell styles: colors and attribute bits, and their update by SGR
//! parameter sequences.

use vstd::prelude::*;

verus! {

/// attribute bit: bold
pub const ATTR_BOLD: u16 = 1;
/// attribute bit: dim
pub const ATTR_DIM: u16 = 2;
/// attribute bit: italic
pub const ATTR_ITALIC: u16 = 4;
/// attribute bit: underlined
pub const ATTR_UNDERLINED: u16 = 8;
/// attribute bit: reverse video
pub const ATTR_REVERSE: u16 = 16;
/// attribute bit: crossed out
pub const ATTR_CROSSED_OUT: u16 = 32;
/// attribute bit: blinking
pub const ATTR_BLINK: u16 = 64;
/// attribute bit: hidden
pub const ATTR_HIDDEN: u16 = 128;

/// A terminal color: the named colors of a terminal, a 24-bit
/// color, or an index in the 256-color palette.
#[derive(Debug, Clone, Copy, PartialEq, Eq, Hash, Structural)]
pub enum FrameColor {
    Black,
    DarkGrey,
    Red,
    DarkRed,
    Green,
    DarkGreen,
    Yellow,
    DarkYellow,
    Blue,
    DarkBlue,
    Magenta,
    DarkMagenta,
    Cyan,
    DarkCyan,
    White,
    Grey,
    Rgb(u8, u8, u8),
    AnsiValue(u8),
}

/// A text attribute of a terminal, as named by crossterm.
#[derive(Debug, Clone, Copy, PartialEq, Eq, Hash, Structural)]
pub enum TextAttribute {
    Bold,
    Dim,
    Italic,
    Underlined,
    SlowBlink,
    RapidBlink,
    Reverse,
    Hidden,
    CrossedOut,
    Fraktur,
    Framed,
    Encircled,
    OverLined,
}

/// The style of a frame cell: foreground, background and
/// attribute bits.
///
/// The default style (no color, no attribute) is the state of a
/// terminal just after a SGR reset.
#[derive(Debug, Clone, Copy, PartialEq, Eq, Hash, Structural)]
pub struct CellStyle {
    pub fg: Option<FrameColor>,
    pub bg: Option<FrameColor>,
    pub attrs: u16,
}

/// The default style: no color, no attribute.
pub open spec fn default_style() -> CellStyle {
    CellStyle { fg: None, bg: None, attrs: 0 }
}

impl Default for CellStyle {
    fn default() -> (s: Self)
        ensures
            s == default_style(),
    {
        CellStyle { fg: None, bg: None, attrs: 0 }
    }
}

impl CellStyle {
    /// The style with the given attribute bit set (`on`) or cleared.
    pub open spec fn with_attr(self, bit: u16, on: bool) -> CellStyle {
        CellStyle { attrs: if on { self.attrs | bit } else { self.attrs & !bit }, ..self }
    }

    /// Whether the style has no color and no attribute.
    pub fn is_default(&self) -> (b: bool)
        ensures
            b == (*self == default_style()),
    {
        self.fg.is_none() && self.bg.is_none() && self.attrs == 0
    }

    /// Whether the attribute bit `bit` is set.
    pub fn has(&self, bit: u16) -> (b: bool)
        ensures
            b == (self.attrs & bit != 0),
    {
        self.attrs & bit != 0
    }

    /// Set (`on`) or clear the attribute bit `bit`.
    pub fn set_attr(&mut self, bit: u16, on: bool)
        ensures
            *final(self) == old(self).with_attr(bit, on),
    {
        if on {
            self.attrs = self.attrs | bit;
        } else {
            self.attrs = self.attrs & !bit;
        }
    }

    /// Reset to the default style (SGR 0)
    pub fn reset(&mut self)
        ensures
            *final(self) == default_style(),
    {
        *self = CellStyle { fg: None, bg: None, attrs: 0 };
    }
}

/// The effect of one SGR parameter other than the extended colors
/// (38 and 48) on a style.
pub open spec fn sgr_code(style: CellStyle, p: u16) -> CellStyle {
    if p == 0 {
        default_style()
    } else if p == 1 {
        style.with_attr(ATTR_BOLD, true)
    } else if p == 2 {
        style.with_attr(ATTR_DIM, true)
    } else if p == 3 {
        style.with_attr(ATTR_ITALIC, true)
    } else if p == 4 {
        style.with_attr(ATTR_UNDERLINED, true)
    } else if p == 5 || p == 6 {
        style.with_attr(ATTR_BLINK, true)
    } else if p == 7 {
        style.with_attr(ATTR_REVERSE, true)
    } else if p == 8 {
        style.with_attr(ATTR_HIDDEN, true)
    } else if p == 9 {
        style.with_attr(ATTR_CROSSED_OUT, true)
    } else if p == 22 {
        style.with_attr(ATTR_BOLD, false).with_attr(ATTR_DIM, false)
    } else if p == 23 {
        style.with_attr(ATTR_ITALIC, false)
    } else if p == 24 {
        style.with_attr(ATTR_UNDERLINED, false)
    } else if p == 25 {
        style.with_attr(ATTR_BLINK, false)
    } else if p == 27 {
        style.with_attr(ATTR_REVERSE, false)
    } else if p == 28 {
        style.with_attr(ATTR_HIDDEN, false)
    } else if p == 29 {
        style.with_attr(ATTR_CROSSED_OUT, false)
    } else if 30 <= p <= 37 {
        CellStyle { fg: Some(FrameColor::AnsiValue((p - 30) as u8)), ..style }
    } else if p == 39 {
        CellStyle { fg: None, ..style }
    } else if 40 <= p <= 47 {
        CellStyle { bg: Some(FrameColor::AnsiValue((p - 40) as u8)), ..style }
    } else if p == 49 {
        CellStyle { bg: None, ..style }
    } else if 90 <= p <= 97 {
        CellStyle { fg: Some(FrameColor::AnsiValue((p - 90 + 8) as u8)), ..style }
    } else if 100 <= p <= 107 {
        CellStyle { bg: Some(FrameColor::AnsiValue((p - 100 + 8) as u8)), ..style }
    } else {
        style
    }
}

/// The parameter at `j`, or 0 when there's none.
pub open spec fn param_or_zero(params: Seq<u16>, j: int) -> u16 {
    if 0 <= j < params.len() { params[j] } else { 0 }
}

/// The color given by the parameters following a 38 or 48 parameter
/// (starting at `j`: "5;n" or "2;r;g;b"), and the index of the first
/// parameter after them.
pub open spec fn sgr_extended_color(params: Seq<u16>, j: int) -> (Option<FrameColor>, int) {
    if j >= params.len() {
        (None, j)
    } else if params[j] == 5 {
        if j + 1 < params.len() {
            (Some(FrameColor::AnsiValue(params[j + 1] as u8)), j + 2)
        } else {
            (None, j + 2)
        }
    } else if params[j] == 2 {
        (
            Some(
                FrameColor::Rgb(
                    param_or_zero(params, j + 1) as u8,
                    param_or_zero(params, j + 2) as u8,
                    param_or_zero(params, j + 3) as u8,
                ),
            ),
            j + 4,
        )
    } else {
        (None, j + 1)
    }
}

/// The style obtained by applying the SGR parameters `params[i..]`,
/// one after the other, to `style`.
pub open spec fn sgr_from(style: CellStyle, params: Seq<u16>, i: int) -> CellStyle
    decreases params.len() + 5 - i,
{
    if i < 0 || i >= params.len() {
        style
    } else if params[i] == 38 || params[i] == 48 {
        let ext = sgr_extended_color(params, i + 1);
        let colored = match ext.0 {
            Some(c) => if params[i] == 38 {
                CellStyle { fg: Some(c), ..style }
            } else {
                CellStyle { bg: Some(c), ..style }
            },
            None => style,
        };
        sgr_from(colored, params, ext.1)
    } else {
        sgr_from(sgr_code(style, params[i]), params, i + 1)
    }
}

/// The style obtained by applying a SGR sequence (the parameters of a
/// `CSI ... m`): an empty sequence is a reset.
pub open spec fn apply_sgr_spec(style: CellStyle, params: Seq<u16>) -> CellStyle {
    if params.len() == 0 {
        default_style()
    } else {
        sgr_from(style, params, 0)
    }
}

impl CellStyle {
    /// Apply a SGR parameter sequence (the params of a `CSI ... m`)
    pub fn apply_sgr(&mut self, params: &[u16])
        ensures
            *final(self) == apply_sgr_spec(*old(self), params@),
    {
        if params.len() == 0 {
            self.reset();
            return;
        }
        let len = params.len();
        let mut i: usize = 0;
        while i < len
            invariant
                len == params@.len(),
                i <= len,
                sgr_from(*self, params@, i as int) == apply_sgr_spec(*old(self), params@),
            decreases len - i,
        {
            let param = params[i];
            if param == 38 || param == 48 {
                let ghost before = *self;
                let is_fg = param == 38;
                let mut color: Option<FrameColor> = None;
                let mut next: usize = len;
                if i + 1 < len {
                    let kind = params[i + 1];
                    if kind == 5 {
                        if i + 2 < len {
                            color = Some(FrameColor::AnsiValue(#[verifier::truncate] (params[i + 2] as u8)));
                            next = i + 3;
                        }
                    } else if kind == 2 {
                        let r: u8 = if i + 2 < len { #[verifier::truncate] (params[i + 2] as u8) } else { 0 };
                        let g: u8 = if len - i > 3 { #[verifier::truncate] (params[i + 3] as u8) } else { 0 };
                        let b: u8 = if len - i > 4 { #[verifier::truncate] (params[i + 4] as u8) } else { 0 };
                        color = Some(FrameColor::Rgb(r, g, b));
                        if len - i > 4 {
                            next = i + 5;
                        }
                    } else {
                        next = i + 2;
                    }
                }
                proof {
                    let (c, n) = sgr_extended_color(params@, i + 1);
                    assert(c == color);
                    assert(n == next || (n >= len && next == len));
                }
                if let Some(c) = color {
                    if is_fg {
                        self.fg = Some(c);
                    } else {
                        self.bg = Some(c);
                    }
                }
                proof {
                    let n = sgr_extended_color(params@, i + 1).1;
                    assert(sgr_from(before, params@, i as int) == sgr_from(*self, params@, n));
                    if n >= len {
                        assert(sgr_from(*self, params@, n) == *self);
                        assert(sgr_from(*self, params@, len as int) == *self);
                    }
                }
                i = next;
            } else {
                self.apply_sgr_code(param);
                i = i + 1;
            }
        }
    }

    fn apply_sgr_code(&mut self, param: u16)
        ensures
            *final(self) == sgr_code(*old(self), param),
    {
        if param == 0 {
            self.reset();
        } else if param == 1 {
            self.set_attr(ATTR_BOLD, true);
        } else if param == 2 {
            self.set_attr(ATTR_DIM, true);
        } else if param == 3 {
            self.set_attr(ATTR_ITALIC, true);
        } else if param == 4 {
            self.set_attr(ATTR_UNDERLINED, true);
        } else if param == 5 || param == 6 {
            self.set_attr(ATTR_BLINK, true);
        } else if param == 7 {
            self.set_attr(ATTR_REVERSE, true);
        } else if param == 8 {
            self.set_attr(ATTR_HIDDEN, true);
        } else if param == 9 {
            self.set_attr(ATTR_CROSSED_OUT, true);
        } else if param == 22 {
            self.set_attr(ATTR_BOLD, false);
            self.set_attr(ATTR_DIM, false);
        } else if param == 23 {
            self.set_attr(ATTR_ITALIC, false);
        } else if param == 24 {
            self.set_attr(ATTR_UNDERLINED, false);
        } else if param == 25 {
            self.set_attr(ATTR_BLINK, false);
        } else if param == 27 {
            self.set_attr(ATTR_REVERSE, false);
        } else if param == 28 {
            self.set_attr(ATTR_HIDDEN, false);
        } else if param == 29 {
            self.set_attr(ATTR_CROSSED_OUT, false);
        } else if 30 <= param && param <= 37 {
            self.fg = Some(FrameColor::AnsiValue((param - 30) as u8));
        } else if param == 39 {
            self.fg = None;
        } else if 40 <= param && param <= 47 {
            self.bg = Some(FrameColor::AnsiValue((param - 40) as u8));
        } else if param == 49 {
            self.bg = None;
        } else if 90 <= param && param <= 97 {
            self.fg = Some(FrameColor::AnsiValue((param - 90 + 8) as u8));
        } else if 100 <= param && param <= 107 {
            self.bg = Some(FrameColor::AnsiValue((param - 100 + 8) as u8));
        }
    }
}

/// `seq![a]` when the style has the attribute bit `bit`, and the
/// empty sequence otherwise.
pub open spec fn attribute_if(style: CellStyle, bit: u16, a: TextAttribute) -> Seq<TextAttribute> {
    if style.attrs & bit != 0 {
        seq![a]
    } else {
        seq![]
    }
}

/// The text attributes matching the attribute bits of a style, in the
/// order bold, dim, italic, underlined, reverse, crossed out, slow
/// blink, rapid blink, hidden (the blink bit gives both blinks).
pub open spec fn attributes_of(style: CellStyle) -> Seq<TextAttribute> {
    attribute_if(style, ATTR_BOLD, TextAttribute::Bold)
        + attribute_if(style, ATTR_DIM, TextAttribute::Dim)
        + attribute_if(style, ATTR_ITALIC, TextAttribute::Italic)
        + attribute_if(style, ATTR_UNDERLINED, TextAttribute::Underlined)
        + attribute_if(style, ATTR_REVERSE, TextAttribute::Reverse)
        + attribute_if(style, ATTR_CROSSED_OUT, TextAttribute::CrossedOut)
        + attribute_if(style, ATTR_BLINK, TextAttribute::SlowBlink)
        + attribute_if(style, ATTR_BLINK, TextAttribute::RapidBlink)
        + attribute_if(style, ATTR_HIDDEN, TextAttribute::Hidden)
}

impl CellStyle {
    fn push_attribute_if(&self, bit: u16, a: TextAttribute, out: &mut Vec<TextAttribute>)
        ensures
            final(out)@ == old(out)@ + attribute_if(*self, bit, a),
    {
        if self.has(bit) {
            out.push(a);
        }
    }

    /// The text attributes matching the set bits
    pub fn attributes(&self) -> (v: Vec<TextAttribute>)
        ensures
            v@ == attributes_of(*self),
    {
        let mut v: Vec<TextAttribute> = Vec::new();
        self.push_attribute_if(ATTR_BOLD, TextAttribute::Bold, &mut v);
        self.push_attribute_if(ATTR_DIM, TextAttribute::Dim, &mut v);
        self.push_attribute_if(ATTR_ITALIC, TextAttribute::Italic, &mut v);
        self.push_attribute_if(ATTR_UNDERLINED, TextAttribute::Underlined, &mut v);
        self.push_attribute_if(ATTR_REVERSE, TextAttribute::Reverse, &mut v);
        self.push_attribute_if(ATTR_CROSSED_OUT, TextAttribute::CrossedOut, &mut v);
        self.push_attribute_if(ATTR_BLINK, TextAttribute::SlowBlink, &mut v);
        self.push_attribute_if(ATTR_BLINK, TextAttribute::RapidBlink, &mut v);
        self.push_attribute_if(ATTR_HIDDEN, TextAttribute::Hidden, &mut v);
        proof {
            assert(v@ =~= attributes_of(*self));
        }
        v
    }
}

} // verus!
