//! Parsing of the ANSI (SGR) sequences produced when a styled content
//! is displayed, back into a sequence of styled graphemes.

use crate::style::{FrameColor, TextAttribute};
use crate::text::{chars_of, grapheme_clusters, graphemes, string_from_chars, string_views};
use vstd::prelude::*;
use vstd::slice::slice_subrange;

verus! {

/// The bit of an attribute in a set of attributes.
pub open spec fn attribute_bit(a: TextAttribute) -> u16 {
    match a {
        TextAttribute::Bold => 1,
        TextAttribute::Dim => 2,
        TextAttribute::Italic => 4,
        TextAttribute::Underlined => 8,
        TextAttribute::SlowBlink => 16,
        TextAttribute::RapidBlink => 32,
        TextAttribute::Reverse => 64,
        TextAttribute::Hidden => 128,
        TextAttribute::CrossedOut => 256,
        TextAttribute::Fraktur => 512,
        TextAttribute::Framed => 1024,
        TextAttribute::Encircled => 2048,
        TextAttribute::OverLined => 4096,
    }
}

fn bit_of(a: TextAttribute) -> (b: u16)
    ensures
        b == attribute_bit(a),
{
    match a {
        TextAttribute::Bold => 1,
        TextAttribute::Dim => 2,
        TextAttribute::Italic => 4,
        TextAttribute::Underlined => 8,
        TextAttribute::SlowBlink => 16,
        TextAttribute::RapidBlink => 32,
        TextAttribute::Reverse => 64,
        TextAttribute::Hidden => 128,
        TextAttribute::CrossedOut => 256,
        TextAttribute::Fraktur => 512,
        TextAttribute::Framed => 1024,
        TextAttribute::Encircled => 2048,
        TextAttribute::OverLined => 4096,
    }
}

/// A set of text attributes, one bit per attribute.
#[derive(Debug, Clone, Copy, PartialEq, Eq, Hash, Structural)]
pub struct TextAttributes {
    pub bits: u16,
}

impl TextAttributes {
    /// Whether the set holds the attribute.
    pub open spec fn contains(self, a: TextAttribute) -> bool {
        self.bits & attribute_bit(a) != 0
    }

    /// The set with the attribute added.
    pub open spec fn with(self, a: TextAttribute) -> TextAttributes {
        TextAttributes { bits: self.bits | attribute_bit(a) }
    }

    /// The set with the attribute removed.
    pub open spec fn without(self, a: TextAttribute) -> TextAttributes {
        TextAttributes { bits: self.bits & !attribute_bit(a) }
    }

    /// Whether the set holds the attribute.
    pub fn has(&self, a: TextAttribute) -> (b: bool)
        ensures
            b == self.contains(a),
    {
        self.bits & bit_of(a) != 0
    }

    fn set(&mut self, a: TextAttribute)
        ensures
            *final(self) == old(self).with(a),
    {
        self.bits = self.bits | bit_of(a);
    }

    fn unset(&mut self, a: TextAttribute)
        ensures
            *final(self) == old(self).without(a),
    {
        self.bits = self.bits & !bit_of(a);
    }
}

/// The style of a displayed content: colors of the foreground, the
/// background and the underline, and attributes.
#[derive(Debug, Clone, Copy, PartialEq, Eq, Hash, Structural)]
pub struct TextStyle {
    pub foreground_color: Option<FrameColor>,
    pub background_color: Option<FrameColor>,
    pub underline_color: Option<FrameColor>,
    pub attributes: TextAttributes,
}

/// The default style: no color, no attribute.
pub open spec fn default_text_style() -> TextStyle {
    TextStyle {
        foreground_color: None,
        background_color: None,
        underline_color: None,
        attributes: TextAttributes { bits: 0 },
    }
}

impl Default for TextStyle {
    fn default() -> (s: Self)
        ensures
            s == default_text_style(),
    {
        TextStyle {
            foreground_color: None,
            background_color: None,
            underline_color: None,
            attributes: TextAttributes { bits: 0 },
        }
    }
}

// ---------------------------------------------------------------------
// Numbers and tokens of SGR parameters

/// Whether a character is an ASCII decimal digit.
pub open spec fn is_digit(c: char) -> bool {
    '0' <= c <= '9'
}

/// The value of a decimal digit.
pub open spec fn digit_value(c: char) -> int {
    (c as int) - ('0' as int)
}

/// The value of a non-empty string of decimal digits.
pub open spec fn decimal_value(t: Seq<char>) -> Option<int>
    decreases t.len(),
{
    if t.len() == 0 || !is_digit(t.last()) {
        None
    } else if t.len() == 1 {
        Some(digit_value(t.last()))
    } else {
        match decimal_value(t.drop_last()) {
            Some(v) => Some(10 * v + digit_value(t.last())),
            None => None,
        }
    }
}

/// The unsigned number at most `max` a string parses to (`str::parse`
/// for an unsigned type of maximum `max`): an optional `+` then
/// decimal digits.
pub open spec fn parse_unsigned_spec(t: Seq<char>, max: int) -> Option<int> {
    let digits = if t.len() > 0 && t[0] == '+' {
        t.drop_first()
    } else {
        t
    };
    match decimal_value(digits) {
        Some(v) => if v <= max {
            Some(v)
        } else {
            None
        },
        None => None,
    }
}

/// The `u8` a string parses to (`str::parse::<u8>`).
pub open spec fn parse_u8_spec(t: Seq<char>) -> Option<u8> {
    match parse_unsigned_spec(t, 255) {
        Some(v) => Some(v as u8),
        None => None,
    }
}

proof fn lemma_decimal_value_nonneg(t: Seq<char>)
    ensures
        decimal_value(t) matches Some(v) ==> v >= 0,
    decreases t.len(),
{
    if t.len() > 1 {
        lemma_decimal_value_nonneg(t.drop_last());
    }
}

/// Parse an unsigned number at most `max` like `str::parse` does.
pub(crate) fn parse_unsigned(t: &[char], max: u32) -> (r: Option<u32>)
    requires
        max <= 65535,
    ensures
        match r {
            Some(v) => parse_unsigned_spec(t@, max as int) == Some(v as int),
            None => parse_unsigned_spec(t@, max as int) is None,
        },
{
    let n = t.len();
    let start: usize = if n > 0 && t[0] == '+' {
        1
    } else {
        0
    };
    let ghost digits = if t@.len() > 0 && t@[0] == '+' {
        t@.drop_first()
    } else {
        t@
    };
    proof {
        assert(digits =~= t@.subrange(start as int, n as int));
    }
    if start == n {
        return None;
    }
    let cap = max + 1;
    // the value read so far, capped at max + 1
    let mut acc: u32 = 0;
    let mut k: usize = start;
    while k < n
        invariant
            start <= k <= n,
            n == t@.len(),
            start < n,
            max <= 65535,
            cap == max + 1,
            digits == t@.subrange(start as int, n as int),
            digits == (if t@.len() > 0 && t@[0] == '+' {
                t@.drop_first()
            } else {
                t@
            }),
            k > start ==> (decimal_value(t@.subrange(start as int, k as int)) matches Some(v) && acc as int
                == if v > cap {
                cap as int
            } else {
                v
            }),
            acc <= cap,
        decreases n - k,
    {
        let c = t[k];
        let ghost pre = t@.subrange(start as int, k + 1);
        proof {
            assert(pre.last() == c);
            assert(pre.drop_last() =~= t@.subrange(start as int, k as int));
        }
        if !('0' <= c && c <= '9') {
            proof {
                assert(decimal_value(pre) is None);
                assert(digits.subrange(0, k - start + 1) =~= pre);
                lemma_decimal_none_extends(digits, (k - start) as int);
            }
            return None;
        }
        let d = c as u32 - '0' as u32;
        proof {
            if k > start {
                lemma_decimal_value_nonneg(t@.subrange(start as int, k as int));
            }
        }
        if k == start {
            acc = if d > cap {
                cap
            } else {
                d
            };
        } else if acc >= cap {
            acc = cap;
        } else {
            let v = acc * 10 + d;
            acc = if v > cap {
                cap
            } else {
                v
            };
        }
        k = k + 1;
    }
    proof {
        assert(t@.subrange(start as int, n as int) =~= digits);
        lemma_decimal_value_nonneg(digits);
    }
    if acc <= max {
        Some(acc)
    } else {
        None
    }
}

/// Parse a `u8` like `str::parse::<u8>` does.
fn parse_u8(t: &[char]) -> (r: Option<u8>)
    ensures
        r == parse_u8_spec(t@),
{
    match parse_unsigned(t, 255) {
        Some(v) => Some(v as u8),
        None => None,
    }
}

/// A string holding a non-digit has no decimal value, nor do its
/// extensions.
proof fn lemma_decimal_none_extends(t: Seq<char>, k: int)
    requires
        0 <= k < t.len(),
        decimal_value(t.subrange(0, k + 1)) is None,
    ensures
        decimal_value(t) is None,
    decreases t.len() - k,
{
    if k + 1 < t.len() {
        let next = t.subrange(0, k + 2);
        assert(next.drop_last() =~= t.subrange(0, k + 1));
        lemma_decimal_none_extends(t, k + 1);
    } else {
        assert(t.subrange(0, k + 1) =~= t);
    }
}

/// The pieces of a string separated by `sep` (`str::split`).
pub open spec fn split_on(s: Seq<char>, sep: char) -> Seq<Seq<char>>
    decreases s.len(),
{
    if s.len() == 0 {
        seq![Seq::empty()]
    } else {
        let parts = split_on(s.drop_last(), sep);
        if s.last() == sep {
            parts.push(Seq::empty())
        } else {
            parts.update(parts.len() - 1, parts.last().push(s.last()))
        }
    }
}

/// Splitting gives at least one part.
pub proof fn lemma_split_on_nonempty(s: Seq<char>, sep: char)
    ensures
        split_on(s, sep).len() >= 1,
    decreases s.len(),
{
    if s.len() > 0 {
        lemma_split_on_nonempty(s.drop_last(), sep);
    }
}

/// Split a string on a separator.
pub(crate) fn split_chars(s: &[char], sep: char) -> (parts: Vec<Vec<char>>)
    ensures
        parts@.map_values(|p: Vec<char>| p@) == split_on(s@, sep),
{
    let mut parts: Vec<Vec<char>> = Vec::new();
    parts.push(Vec::new());
    let mut k: usize = 0;
    proof {
        assert(s@.subrange(0, 0) =~= Seq::<char>::empty());
        assert(parts@.map_values(|p: Vec<char>| p@) =~= split_on(s@.subrange(0, 0), sep));
    }
    while k < s.len()
        invariant
            k <= s@.len(),
            parts@.len() >= 1,
            parts@.map_values(|p: Vec<char>| p@) == split_on(s@.subrange(0, k as int), sep),
        decreases s@.len() - k,
    {
        let c = s[k];
        let ghost before = parts@.map_values(|p: Vec<char>| p@);
        let ghost pre = s@.subrange(0, k + 1);
        proof {
            assert(pre.drop_last() =~= s@.subrange(0, k as int));
            assert(pre.last() == c);
        }
        if c == sep {
            parts.push(Vec::new());
            proof {
                assert(parts@.map_values(|p: Vec<char>| p@) =~= before.push(Seq::empty()));
            }
        } else {
            let last = parts.len() - 1;
            let mut piece: Vec<char> = Vec::new();
            parts.set_and_swap(last, &mut piece);
            piece.push(c);
            parts.set_and_swap(last, &mut piece);
            proof {
                assert(parts@.map_values(|p: Vec<char>| p@) =~= before.update(
                    before.len() - 1,
                    before.last().push(c),
                ));
            }
        }
        k = k + 1;
    }
    proof {
        assert(s@.subrange(0, s@.len() as int) =~= s@);
    }
    parts
}

/// The index of the first `sep` from `k` on, or the length.
pub open spec fn sep_index(t: Seq<char>, sep: char, k: int) -> int
    decreases t.len() - k,
{
    if k < 0 || k >= t.len() || t[k] == sep {
        k
    } else {
        sep_index(t, sep, k + 1)
    }
}

/// The main parameter of a SGR parameter: what precedes its first
/// `:` (sub-parameters are dropped).
pub open spec fn main_param(t: Seq<char>) -> Seq<char> {
    t.subrange(0, sep_index(t, ':', 0))
}

proof fn lemma_sep_index(t: Seq<char>, sep: char, k: int)
    requires
        0 <= k <= t.len(),
    ensures
        k <= sep_index(t, sep, k) <= t.len(),
    decreases t.len() - k,
{
    if k < t.len() && t[k] != sep {
        lemma_sep_index(t, sep, k + 1);
    }
}

/// The code of a SGR main parameter written as crossterm writes them:
/// one digit, or two digits not starting with 0.
pub open spec fn sgr_code_of(p: Seq<char>) -> Option<int> {
    if p.len() == 1 && is_digit(p[0]) {
        Some(digit_value(p[0]))
    } else if p.len() == 2 && is_digit(p[0]) && p[0] != '0' && is_digit(p[1]) {
        Some(10 * digit_value(p[0]) + digit_value(p[1]))
    } else {
        None
    }
}

fn code_of(p: &[char]) -> (r: Option<u8>)
    ensures
        match r {
            Some(c) => sgr_code_of(p@) == Some(c as int),
            None => sgr_code_of(p@) is None,
        },
{
    if p.len() == 1 && '0' <= p[0] && p[0] <= '9' {
        Some((p[0] as u32 - '0' as u32) as u8)
    } else if p.len() == 2 && '1' <= p[0] && p[0] <= '9' && '0' <= p[1] && p[1] <= '9' {
        Some(((p[0] as u32 - '0' as u32) * 10 + (p[1] as u32 - '0' as u32)) as u8)
    } else {
        None
    }
}

// ---------------------------------------------------------------------
// SGR sequences

/// The color a 256-palette index is displayed as, the 16 first indexes
/// being the named colors (so that a parse/emit round-trip is stable).
pub open spec fn ansi_value_color(value: u8) -> FrameColor {
    if value == 0 {
        FrameColor::Black
    } else if value == 1 {
        FrameColor::DarkRed
    } else if value == 2 {
        FrameColor::DarkGreen
    } else if value == 3 {
        FrameColor::DarkYellow
    } else if value == 4 {
        FrameColor::DarkBlue
    } else if value == 5 {
        FrameColor::DarkMagenta
    } else if value == 6 {
        FrameColor::DarkCyan
    } else if value == 7 {
        FrameColor::Grey
    } else if value == 8 {
        FrameColor::DarkGrey
    } else if value == 9 {
        FrameColor::Red
    } else if value == 10 {
        FrameColor::Green
    } else if value == 11 {
        FrameColor::Yellow
    } else if value == 12 {
        FrameColor::Blue
    } else if value == 13 {
        FrameColor::Magenta
    } else if value == 14 {
        FrameColor::Cyan
    } else if value == 15 {
        FrameColor::White
    } else {
        FrameColor::AnsiValue(value)
    }
}

/// Map a 256-palette index to the color it's displayed as.
fn ansi_value_to_color(value: u8) -> (c: FrameColor)
    ensures
        c == ansi_value_color(value),
{
    match value {
        0 => FrameColor::Black,
        1 => FrameColor::DarkRed,
        2 => FrameColor::DarkGreen,
        3 => FrameColor::DarkYellow,
        4 => FrameColor::DarkBlue,
        5 => FrameColor::DarkMagenta,
        6 => FrameColor::DarkCyan,
        7 => FrameColor::Grey,
        8 => FrameColor::DarkGrey,
        9 => FrameColor::Red,
        10 => FrameColor::Green,
        11 => FrameColor::Yellow,
        12 => FrameColor::Blue,
        13 => FrameColor::Magenta,
        14 => FrameColor::Cyan,
        15 => FrameColor::White,
        _ => FrameColor::AnsiValue(value),
    }
}

/// The token at `j`, parsed as a `u8`, when there's such a token.
pub open spec fn token_u8(tokens: Seq<Seq<char>>, j: int) -> Option<u8> {
    if 0 <= j < tokens.len() {
        parse_u8_spec(tokens[j])
    } else {
        None
    }
}

/// The color given by the tokens following a 38, 48 or 58 parameter
/// ("5;n" or "2;r;g;b", from `j`), and the number of tokens it takes.
pub open spec fn extended_color_spec(tokens: Seq<Seq<char>>, j: int) -> (Option<FrameColor>, int) {
    if j < 0 || j >= tokens.len() {
        (None, 0)
    } else if tokens[j] == seq!['5'] {
        (
            match token_u8(tokens, j + 1) {
                Some(v) => Some(ansi_value_color(v)),
                None => None,
            },
            2,
        )
    } else if tokens[j] == seq!['2'] {
        match (token_u8(tokens, j + 1), token_u8(tokens, j + 2), token_u8(tokens, j + 3)) {
            (Some(r), Some(g), Some(b)) => (Some(FrameColor::Rgb(r, g, b)), 4),
            _ => (None, 1),
        }
    } else {
        (None, 0)
    }
}

/// The effect of a SGR parameter, given by its code, other than the
/// extended colors.
pub open spec fn text_code_effect(style: TextStyle, code: int) -> TextStyle {
    let a = style.attributes;
    if code == 0 {
        default_text_style()
    } else if code == 1 {
        TextStyle { attributes: a.with(TextAttribute::Bold), ..style }
    } else if code == 2 {
        TextStyle { attributes: a.with(TextAttribute::Dim), ..style }
    } else if code == 3 {
        TextStyle { attributes: a.with(TextAttribute::Italic), ..style }
    } else if code == 4 {
        TextStyle { attributes: a.with(TextAttribute::Underlined), ..style }
    } else if code == 5 {
        TextStyle { attributes: a.with(TextAttribute::SlowBlink), ..style }
    } else if code == 6 {
        TextStyle { attributes: a.with(TextAttribute::RapidBlink), ..style }
    } else if code == 7 {
        TextStyle { attributes: a.with(TextAttribute::Reverse), ..style }
    } else if code == 8 {
        TextStyle { attributes: a.with(TextAttribute::Hidden), ..style }
    } else if code == 9 {
        TextStyle { attributes: a.with(TextAttribute::CrossedOut), ..style }
    } else if code == 20 {
        TextStyle { attributes: a.with(TextAttribute::Fraktur), ..style }
    } else if code == 21 {
        TextStyle { attributes: a.without(TextAttribute::Bold), ..style }
    } else if code == 22 {
        TextStyle { attributes: a.without(TextAttribute::Bold).without(TextAttribute::Dim), ..style }
    } else if code == 23 {
        TextStyle { attributes: a.without(TextAttribute::Italic), ..style }
    } else if code == 24 {
        TextStyle { attributes: a.without(TextAttribute::Underlined), ..style }
    } else if code == 25 {
        TextStyle {
            attributes: a.without(TextAttribute::SlowBlink).without(TextAttribute::RapidBlink),
            ..style
        }
    } else if code == 27 {
        TextStyle { attributes: a.without(TextAttribute::Reverse), ..style }
    } else if code == 28 {
        TextStyle { attributes: a.without(TextAttribute::Hidden), ..style }
    } else if code == 29 {
        TextStyle { attributes: a.without(TextAttribute::CrossedOut), ..style }
    } else if code == 51 {
        TextStyle { attributes: a.with(TextAttribute::Framed), ..style }
    } else if code == 52 {
        TextStyle { attributes: a.with(TextAttribute::Encircled), ..style }
    } else if code == 53 {
        TextStyle { attributes: a.with(TextAttribute::OverLined), ..style }
    } else if code == 54 {
        TextStyle {
            attributes: a.without(TextAttribute::Framed).without(TextAttribute::Encircled),
            ..style
        }
    } else if code == 55 {
        TextStyle { attributes: a.without(TextAttribute::OverLined), ..style }
    } else if code == 39 {
        TextStyle { foreground_color: None, ..style }
    } else if code == 49 {
        TextStyle { background_color: None, ..style }
    } else if code == 59 {
        TextStyle { underline_color: None, ..style }
    } else {
        style
    }
}

/// Whether a code is one of the extended colors (38, 48 and 58).
pub open spec fn is_extended_color_code(code: Option<int>) -> bool {
    code == Some(38int) || code == Some(48int) || code == Some(58int)
}

/// The style with the color of the slot of an extended color code set.
pub open spec fn with_slot_color(style: TextStyle, code: int, color: Option<FrameColor>) -> TextStyle {
    if code == 38 {
        TextStyle { foreground_color: color, ..style }
    } else if code == 48 {
        TextStyle { background_color: color, ..style }
    } else {
        TextStyle { underline_color: color, ..style }
    }
}

/// The style after the SGR tokens `tokens[i..]`.
pub open spec fn text_sgr_from(style: TextStyle, tokens: Seq<Seq<char>>, i: int) -> TextStyle
    decreases tokens.len() + 5 - i,
{
    if i < 0 || i >= tokens.len() {
        style
    } else {
        let main = main_param(tokens[i]);
        let code = sgr_code_of(main);
        if is_extended_color_code(code) {
            let ext = extended_color_spec(tokens, i + 1);
            text_sgr_from(with_slot_color(style, code.unwrap(), ext.0), tokens, i + ext.1 + 1)
        } else {
            let next = if main.len() == 0 {
                default_text_style()
            } else {
                match code {
                    Some(c) => text_code_effect(style, c),
                    None => style,
                }
            };
            text_sgr_from(next, tokens, i + 1)
        }
    }
}

/// The style after a SGR sequence (the part between `CSI` and the
/// final `m`): an empty sequence is a reset.
pub open spec fn text_apply_sgr(params: Seq<char>, style: TextStyle) -> TextStyle {
    if params.len() == 0 {
        default_text_style()
    } else {
        text_sgr_from(style, split_on(params, ';'), 0)
    }
}

/// The values of a sequence of tokens.
pub open spec fn tokens_view(tokens: Seq<Vec<char>>) -> Seq<Seq<char>> {
    tokens.map_values(|p: Vec<char>| p@)
}

/// The token at `j` parsed as a `u8`, if there's such a token.
fn channel(tokens: &Vec<Vec<char>>, j: usize) -> (r: Option<u8>)
    ensures
        r == token_u8(tokens_view(tokens@), j as int),
{
    if j < tokens.len() {
        proof {
            assert(tokens_view(tokens@)[j as int] == tokens@[j as int]@);
        }
        parse_u8(tokens[j].as_slice())
    } else {
        None
    }
}

/// Parse the "5;n" or "2;r;g;b" following a 38/48/58 parameter,
/// the tokens starting at `j`. Return the color and the number of
/// consumed tokens.
fn parse_extended_color(tokens: &Vec<Vec<char>>, j: usize) -> (r: (Option<FrameColor>, usize))
    requires
        j <= tokens@.len(),
    ensures
        r.0 == extended_color_spec(tokens_view(tokens@), j as int).0,
        r.1 as int == extended_color_spec(tokens_view(tokens@), j as int).1,
{
    let ghost tv = tokens_view(tokens@);
    let n = tokens.len();
    if j >= n {
        return (None, 0);
    }
    let first = tokens[j].as_slice();
    let ghost t = tv[j as int];
    assert(first@ == t);
    if first.len() == 1 && first[0] == '5' {
        proof {
            assert(t =~= seq!['5']);
        }
        let color = if j + 1 < n {
            proof {
                assert(tv[j + 1] == tokens@[j + 1]@);
            }
            match parse_u8(tokens[j + 1].as_slice()) {
                Some(v) => Some(ansi_value_to_color(v)),
                None => None,
            }
        } else {
            None
        };
        (color, 2)
    } else if first.len() == 1 && first[0] == '2' {
        proof {
            assert(t =~= seq!['2']);
            assert(t != seq!['5']);
        }
        let r = match channel(tokens, j + 1) {
            Some(v) => v,
            None => {
                return (None, 1);
            },
        };
        let g = match channel(tokens, j + 2) {
            Some(v) => v,
            None => {
                return (None, 1);
            },
        };
        let b = match channel(tokens, j + 3) {
            Some(v) => v,
            None => {
                return (None, 1);
            },
        };
        (Some(FrameColor::Rgb(r, g, b)), 4)
    } else {
        proof {
            if t =~= seq!['5'] {
                assert(first@.len() == 1 && first@[0] == '5');
            }
            if t =~= seq!['2'] {
                assert(first@.len() == 1 && first@[0] == '2');
            }
        }
        (None, 0)
    }
}

/// Apply the effect of a SGR code other than the extended colors.
fn apply_code(style: &mut TextStyle, code: u8)
    ensures
        *final(style) == text_code_effect(*old(style), code as int),
{
    match code {
        0 => *style = TextStyle::default(),
        1 => set_attr(style, TextAttribute::Bold),
        2 => set_attr(style, TextAttribute::Dim),
        3 => set_attr(style, TextAttribute::Italic),
        4 => set_attr(style, TextAttribute::Underlined),
        5 => set_attr(style, TextAttribute::SlowBlink),
        6 => set_attr(style, TextAttribute::RapidBlink),
        7 => set_attr(style, TextAttribute::Reverse),
        8 => set_attr(style, TextAttribute::Hidden),
        9 => set_attr(style, TextAttribute::CrossedOut),
        20 => set_attr(style, TextAttribute::Fraktur),
        21 => unset_attr(style, TextAttribute::Bold),
        22 => {
            unset_attr(style, TextAttribute::Bold);
            unset_attr(style, TextAttribute::Dim);
        },
        23 => unset_attr(style, TextAttribute::Italic),
        24 => unset_attr(style, TextAttribute::Underlined),
        25 => {
            unset_attr(style, TextAttribute::SlowBlink);
            unset_attr(style, TextAttribute::RapidBlink);
        },
        27 => unset_attr(style, TextAttribute::Reverse),
        28 => unset_attr(style, TextAttribute::Hidden),
        29 => unset_attr(style, TextAttribute::CrossedOut),
        51 => set_attr(style, TextAttribute::Framed),
        52 => set_attr(style, TextAttribute::Encircled),
        53 => set_attr(style, TextAttribute::OverLined),
        54 => {
            unset_attr(style, TextAttribute::Framed);
            unset_attr(style, TextAttribute::Encircled);
        },
        55 => unset_attr(style, TextAttribute::OverLined),
        39 => style.foreground_color = None,
        49 => style.background_color = None,
        59 => style.underline_color = None,
        _ => {},
    }
}

fn set_attr(style: &mut TextStyle, attr: TextAttribute)
    ensures
        *final(style) == (TextStyle { attributes: old(style).attributes.with(attr), ..*old(style) }),
{
    style.attributes.set(attr);
}

fn unset_attr(style: &mut TextStyle, attr: TextAttribute)
    ensures
        *final(style) == (TextStyle { attributes: old(style).attributes.without(attr), ..*old(style) }),
{
    style.attributes.unset(attr);
}

/// Apply a SGR sequence (the part between `CSI` and the final `m`)
/// to the given style.
pub fn apply_sgr(params: &[char], style: &mut TextStyle)
    ensures
        *final(style) == text_apply_sgr(params@, *old(style)),
{
    if params.len() == 0 {
        *style = TextStyle::default();
        return;
    }
    let tokens = split_chars(params, ';');
    let ghost tv = tokens_view(tokens@);
    let n = tokens.len();
    let mut i: usize = 0;
    while i < n
        invariant
            i <= n,
            n == tokens@.len(),
            tv == tokens_view(tokens@),
            tv == split_on(params@, ';'),
            params@.len() > 0,
            text_sgr_from(*style, tv, i as int) == text_apply_sgr(params@, *old(style)),
        decreases n - i,
    {
        let token = tokens[i].as_slice();
        proof {
            assert(token@ == tv[i as int]);
        }
        let mut cut: usize = 0;
        while cut < token.len() && token[cut] != ':'
            invariant
                cut <= token@.len(),
                sep_index(token@, ':', cut as int) == sep_index(token@, ':', 0),
            decreases token@.len() - cut,
        {
            cut = cut + 1;
        }
        let main = slice_subrange(token, 0, cut);
        let code = code_of(main);
        let ghost before = *style;
        let ghost spec_code = sgr_code_of(main@);
        let is_ext = match code {
            Some(c) => c == 38 || c == 48 || c == 58,
            None => false,
        };
        assert(is_ext == is_extended_color_code(spec_code));
        if is_ext {
            let c = code.unwrap();
            let (color, consumed) = parse_extended_color(&tokens, i + 1);
            if c == 38 {
                style.foreground_color = color;
            } else if c == 48 {
                style.background_color = color;
            } else {
                style.underline_color = color;
            }
            proof {
                let ext = extended_color_spec(tv, i + 1);
                assert(*style == with_slot_color(before, c as int, ext.0));
                if i + consumed + 1 > n {
                    assert(text_sgr_from(*style, tv, i + consumed + 1) == *style);
                    assert(text_sgr_from(*style, tv, n as int) == *style);
                }
            }
            i = if consumed + 1 > n - i {
                n
            } else {
                i + consumed + 1
            };
        } else {
            if main.len() == 0 {
                *style = TextStyle::default();
            } else {
                match code {
                    Some(c) => apply_code(style, c),
                    None => {},
                }
            }
            i = i + 1;
        }
    }
}

// ---------------------------------------------------------------------
// Styled graphemes

/// The grapheme clusters of a text, each with the given style.
pub open spec fn styled_graphemes(text: Seq<char>, style: TextStyle) -> Seq<(Seq<char>, TextStyle)> {
    if text.len() == 0 {
        Seq::empty()
    } else {
        grapheme_clusters(text).map_values(|g: Seq<char>| (g, style))
    }
}

/// The index of the final character of a CSI sequence (a character in
/// `'@'..='~'`) from `k` on, or the length when it's unterminated.
pub open spec fn csi_final(s: Seq<char>, k: int) -> int
    decreases s.len() - k,
{
    if k < 0 || k >= s.len() || ('@' <= s[k] <= '~') {
        k
    } else {
        csi_final(s, k + 1)
    }
}

/// The styled graphemes of `s[i..]`, the style being `style`, `text`
/// waiting to be split into graphemes, and `out` already produced.
pub open spec fn scan_styled(
    s: Seq<char>,
    i: int,
    style: TextStyle,
    text: Seq<char>,
    out: Seq<(Seq<char>, TextStyle)>,
) -> Seq<(Seq<char>, TextStyle)>
    decreases s.len() + 1 - i,
{
    if i < 0 || i >= s.len() {
        out + styled_graphemes(text, style)
    } else if s[i] == '\x1b' && i + 1 < s.len() && s[i + 1] == '[' {
        let f = csi_final(s, i + 2);
        proof {
            lemma_csi_final(s, i + 2);
        }
        let params = s.subrange(i + 2, if f < s.len() { f } else { s.len() as int });
        let next_style = if f < s.len() && s[f] == 'm' {
            text_apply_sgr(params, style)
        } else {
            style
        };
        scan_styled(s, f + 1, next_style, Seq::empty(), out + styled_graphemes(text, style))
    } else {
        scan_styled(s, i + 1, style, text.push(s[i]), out)
    }
}

/// The styled graphemes of a string holding SGR sequences.
pub open spec fn parse_styled_spec(s: Seq<char>) -> Seq<(Seq<char>, TextStyle)> {
    scan_styled(s, 0, default_text_style(), Seq::empty(), Seq::empty())
}

/// The values of styled graphemes.
pub open spec fn styled_view(v: Seq<(String, TextStyle)>) -> Seq<(Seq<char>, TextStyle)> {
    v.map_values(|p: (String, TextStyle)| (p.0@, p.1))
}

/// The characters of `s[i..]` outside its CSI sequences (an `ESC [`
/// through its final character in `'@'..='~'`, or to the end).
pub open spec fn strip_csi(s: Seq<char>, i: int) -> Seq<char>
    decreases s.len() + 1 - i,
{
    if i < 0 || i >= s.len() {
        Seq::empty()
    } else if s[i] == '\x1b' && i + 1 < s.len() && s[i + 1] == '[' {
        proof {
            lemma_csi_final(s, i + 2);
        }
        strip_csi(s, csi_final(s, i + 2) + 1)
    } else {
        seq![s[i]] + strip_csi(s, i + 1)
    }
}

/// The texts of styled graphemes, concatenated.
pub open spec fn styled_text(v: Seq<(Seq<char>, TextStyle)>) -> Seq<char> {
    v.map_values(|p: (Seq<char>, TextStyle)| p.0).flatten()
}

/// Whether every styled grapheme has a non-empty text.
pub open spec fn all_non_empty(v: Seq<(Seq<char>, TextStyle)>) -> bool {
    forall|k: int| 0 <= k < v.len() ==> (#[trigger] v[k]).0.len() > 0
}

proof fn lemma_styled_text_push(v: Seq<(Seq<char>, TextStyle)>, p: (Seq<char>, TextStyle))
    ensures
        styled_text(v.push(p)) == styled_text(v) + p.0,
{
    let m = v.map_values(|q: (Seq<char>, TextStyle)| q.0);
    assert(v.push(p).map_values(|q: (Seq<char>, TextStyle)| q.0) =~= m.push(p.0));
    m.lemma_flatten_push(p.0);
}

/// The final character of a CSI sequence lies between its start and
/// the end of the string.
pub proof fn lemma_csi_final(s: Seq<char>, k: int)
    requires
        0 <= k <= s.len(),
    ensures
        k <= csi_final(s, k) <= s.len(),
    decreases s.len() - k,
{
    if k < s.len() && !('@' <= s[k] <= '~') {
        lemma_csi_final(s, k + 1);
    }
}

fn flush_text(text: &mut Vec<char>, style: TextStyle, out: &mut Vec<(String, TextStyle)>)
    ensures
        final(text)@ == Seq::<char>::empty(),
        styled_view(final(out)@) == styled_view(old(out)@) + styled_graphemes(old(text)@, style),
        styled_text(styled_view(final(out)@)) == styled_text(styled_view(old(out)@)) + old(text)@,
        all_non_empty(styled_view(old(out)@)) ==> all_non_empty(styled_view(final(out)@)),
{
    if text.len() == 0 {
        proof {
            assert(styled_view(out@) =~= styled_view(out@) + Seq::<(Seq<char>, TextStyle)>::empty());
            assert(styled_text(styled_view(out@)) =~= styled_text(styled_view(out@)) + text@);
        }
        return;
    }
    let string = string_from_chars(text.as_slice());
    let gs = graphemes(string.as_str());
    let ghost gsv = grapheme_clusters(text@);
    let ghost out0 = styled_view(out@);
    let ghost t0 = styled_text(out0);
    let ghost ne0 = all_non_empty(out0);
    proof {
        assert(gsv.subrange(0, 0).flatten() =~= Seq::<char>::empty());
        assert(t0 + gsv.subrange(0, 0).flatten() =~= t0);
    }
    let mut k: usize = 0;
    while k < gs.len()
        invariant
            k <= gs@.len(),
            string_views(gs@) == gsv,
            string_views(gs@).flatten() == text@,
            forall|i: int| 0 <= i < gs@.len() ==> #[trigger] gs@[i]@.len() > 0,
            gsv.len() == gs@.len(),
            styled_view(out@) == out0 + gsv.subrange(0, k as int).map_values(|g: Seq<char>| (g, style)),
            styled_text(styled_view(out@)) == t0 + gsv.subrange(0, k as int).flatten(),
            ne0 == all_non_empty(out0),
            ne0 ==> all_non_empty(styled_view(out@)),
        decreases gs@.len() - k,
    {
        let g = gs[k].clone();
        proof {
            assert(gsv[k as int] == g@);
            assert(gs@[k as int]@.len() > 0);
        }
        let ghost prev_out = out@;
        out.push((g, style));
        k = k + 1;
        proof {
            assert(styled_view(out@) =~= styled_view(prev_out).push((gsv[k - 1], style)));
            assert(styled_view(out@) =~= out0 + gsv.subrange(0, k as int).map_values(|g: Seq<char>| (g, style)));
            lemma_styled_text_push(styled_view(prev_out), (gsv[k - 1], style));
            assert(gsv.subrange(0, k as int) =~= gsv.subrange(0, k - 1).push(gsv[k - 1]));
            gsv.subrange(0, k - 1).lemma_flatten_push(gsv[k - 1]);
            assert(styled_text(styled_view(out@)) =~= t0 + gsv.subrange(0, k as int).flatten());
            if ne0 {
                assert forall|i: int| 0 <= i < styled_view(out@).len() implies (#[trigger] styled_view(out@)[i]).0.len() > 0 by {
                    if i < styled_view(prev_out).len() {
                        assert(styled_view(out@)[i] == styled_view(prev_out)[i]);
                    }
                }
            }
        }
    }
    proof {
        assert(gsv.subrange(0, k as int) =~= gsv);
    }
    text.clear();
}

/// Parse a string containing ANSI SGR sequences into a succession
/// of grapheme clusters, each with the style which was active when
/// it appeared.
///
/// Non SGR escape sequences are ignored (they're not produced by
/// the rendering of lines).
pub fn parse_styled_graphemes(s: &str) -> (out: Vec<(String, TextStyle)>)
    ensures
        styled_view(out@) == parse_styled_spec(s@),
        forall|k: int| 0 <= k < out@.len() ==> (#[trigger] out@[k]).0@.len() > 0,
        styled_text(styled_view(out@)) == strip_csi(s@, 0),
{
    let chars = chars_of(s);
    let n = chars.len();
    let mut out: Vec<(String, TextStyle)> = Vec::new();
    let mut style = TextStyle::default();
    let mut text: Vec<char> = Vec::new();
    let mut i: usize = 0;
    proof {
        assert(styled_view(out@) =~= Seq::<(Seq<char>, TextStyle)>::empty());
        assert(text@ =~= Seq::<char>::empty());
        assert(styled_text(styled_view(out@)) =~= Seq::<char>::empty());
        assert(styled_text(styled_view(out@)) + text@ + strip_csi(chars@, 0) =~= strip_csi(chars@, 0));
    }
    while i < n
        invariant
            i <= n,
            n == chars@.len(),
            chars@ == s@,
            scan_styled(chars@, i as int, style, text@, styled_view(out@)) == parse_styled_spec(s@),
            styled_text(styled_view(out@)) + text@ + strip_csi(chars@, i as int) == strip_csi(chars@, 0),
            all_non_empty(styled_view(out@)),
        decreases n - i,
    {
        let c = chars[i];
        if c == '\x1b' && i + 1 < n && chars[i + 1] == '[' {
            let mut f = i + 2;
            proof {
                lemma_csi_final(chars@, i + 2);
            }
            while f < n && !('@' <= chars[f] && chars[f] <= '~')
                invariant
                    i + 2 <= f <= n,
                    n == chars@.len(),
                    csi_final(chars@, f as int) == csi_final(chars@, i + 2),
                decreases n - f,
            {
                f = f + 1;
            }
            let params = slice_subrange(chars.as_slice(), i + 2, f);
            let ghost old_style = style;
            let ghost old_text = text@;
            let ghost old_out = styled_view(out@);
            flush_text(&mut text, style, &mut out);
            if f < n && chars[f] == 'm' {
                apply_sgr(params, &mut style);
            }
            proof {
                assert(text@ =~= Seq::<char>::empty());
                assert(f == csi_final(chars@, i + 2));
                assert(strip_csi(chars@, i as int) == strip_csi(chars@, f + 1));
                assert(styled_text(styled_view(out@)) + text@ =~= styled_text(old_out) + old_text);
                if f >= n {
                    assert(strip_csi(chars@, f + 1) =~= Seq::<char>::empty());
                    assert(strip_csi(chars@, n as int) =~= Seq::<char>::empty());
                }
            }
            if f < n {
                i = f + 1;
            } else {
                proof {
                    assert(scan_styled(chars@, f + 1, style, text@, styled_view(out@))
                        == scan_styled(chars@, n as int, style, text@, styled_view(out@)));
                }
                i = n;
            }
        } else {
            let ghost t = text@;
            text.push(c);
            proof {
                assert(strip_csi(chars@, i as int) == seq![c] + strip_csi(chars@, i + 1));
                assert(styled_text(styled_view(out@)) + text@ + strip_csi(chars@, i + 1) =~= styled_text(
                    styled_view(out@),
                ) + t + strip_csi(chars@, i as int));
            }
            i = i + 1;
        }
    }
    let ghost before = styled_view(out@);
    let ghost last_text = text@;
    flush_text(&mut text, style, &mut out);
    proof {
        assert(strip_csi(chars@, n as int) =~= Seq::<char>::empty());
        assert(styled_text(before) + last_text + strip_csi(chars@, n as int) =~= styled_text(before) + last_text);
        assert forall|k: int| 0 <= k < out@.len() implies (#[trigger] out@[k]).0@.len() > 0 by {
            assert(styled_view(out@)[k].0 == out@[k].0@);
        }
    }
    out
}

} // verus!
