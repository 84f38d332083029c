//! Text primitives: grapheme segmentation and display width (from the
//! unicode crates), and conversions between strings, characters and
//! bytes.

use unicode_segmentation::UnicodeSegmentation;
use unicode_width::UnicodeWidthStr;
use vstd::prelude::*;
use vstd::string::*;

verus! {

/// The extended grapheme clusters of a string, in order.
pub uninterp spec fn grapheme_clusters(s: Seq<char>) -> Seq<Seq<char>>;

/// The number of terminal columns a string occupies.
pub uninterp spec fn display_width(s: Seq<char>) -> usize;

/// The characters `String::from_utf8_lossy` decodes from bytes.
pub uninterp spec fn utf8_lossy(bytes: Seq<u8>) -> Seq<char>;

/// The views of a sequence of strings.
pub open spec fn string_views(v: Seq<String>) -> Seq<Seq<char>> {
    v.map_values(|s: String| s@)
}

/// Whether every character is printable ASCII (`' '..='~'`).
pub open spec fn all_printable_ascii(s: Seq<char>) -> bool {
    forall|i: int| 0 <= i < s.len() ==> ' ' <= #[trigger] s[i] <= '~'
}

/// Each character as a sequence of its own.
pub open spec fn singletons(s: Seq<char>) -> Seq<Seq<char>> {
    s.map_values(|c: char| seq![c])
}

/// Calls `UnicodeSegmentation::graphemes(s, true)` and collects the
/// clusters. The clusters are named by `grapheme_clusters`; the
/// source of the crate shows that the iterator yields, in order,
/// non-empty consecutive slices covering the whole string, which is
/// stated too. Its source also gives every printable ASCII character
/// the category `Any`, between two of which there is always a
/// boundary: a string of printable ASCII characters splits into its
/// characters.
#[verifier::external_body]
pub(crate) fn graphemes(s: &str) -> (v: Vec<String>)
    ensures
        string_views(v@) == grapheme_clusters(s@),
        string_views(v@).flatten() == s@,
        forall|i: int| 0 <= i < v@.len() ==> #[trigger] v@[i]@.len() > 0,
        all_printable_ascii(s@) ==> string_views(v@) == singletons(s@),
{
    s.graphemes(true).map(|g| g.to_string()).collect()
}

/// Calls `UnicodeWidthStr::width`. The width is named by
/// `display_width`; of its value only the documented width of a single
/// printable ASCII character (1 column, the crate's last rule) is
/// stated.
#[verifier::external_body]
pub(crate) fn str_width(s: &str) -> (w: usize)
    ensures
        w == display_width(s@),
        s@.len() == 1 && ' ' <= s@[0] <= '~' ==> w == 1,
{
    UnicodeWidthStr::width(s)
}

/// Whether all the bytes are ASCII.
pub open spec fn all_ascii(bytes: Seq<u8>) -> bool {
    forall|i: int| 0 <= i < bytes.len() ==> #[trigger] bytes[i] < 0x80
}

/// The characters of ASCII bytes.
pub open spec fn ascii_chars(bytes: Seq<u8>) -> Seq<char> {
    bytes.map_values(|b: u8| b as char)
}

/// Calls `String::from_utf8_lossy` and collects the characters of its
/// result, named by `utf8_lossy`. As documented, valid UTF-8 comes back
/// unchanged; of that, what is stated is the case of ASCII bytes (each
/// gives its character, so no bytes give no character). The decoding of
/// other bytes is left to the name.
#[verifier::external_body]
pub(crate) fn utf8_lossy_chars(bytes: &[u8]) -> (v: Vec<char>)
    ensures
        v@ == utf8_lossy(bytes@),
        all_ascii(bytes@) ==> v@ == ascii_chars(bytes@),
{
    String::from_utf8_lossy(bytes).chars().collect()
}

/// Collects characters into a `String` (`FromIterator<char>`).
#[verifier::external_body]
pub(crate) fn string_from_chars(chars: &[char]) -> (s: String)
    ensures
        s@ == chars@,
{
    chars.iter().collect()
}

/// The characters of a string.
pub fn chars_of(s: &str) -> (v: Vec<char>)
    ensures
        v@ == s@,
{
    let n = s.unicode_len();
    let mut v: Vec<char> = Vec::new();
    let mut i: usize = 0;
    while i < n
        invariant
            n == s@.len(),
            i <= n,
            v@ == s@.subrange(0, i as int),
        decreases n - i,
    {
        v.push(s.get_char(i));
        i = i + 1;
    }
    proof {
        assert(s@.subrange(0, n as int) =~= s@);
    }
    v
}

/// A string holding a single space.
pub fn space_string() -> (s: String)
    ensures
        s@ == seq![' '],
{
    let s = String::from_str(" ");
    proof {
        reveal_strlit(" ");
    }
    s
}

} // verus!
