//! Transliteration to ASCII, lower case, and the split of a text into
//! words.

use vstd::prelude::*;
use vstd::utf8::is_ascii_chars;

verus! {

/// The ASCII text that `deunicode::deunicode` gives for a text.
pub uninterp spec fn transliteration(t: Seq<char>) -> Seq<char>;

/// The words that `unicode_words` of the crate unicode-segmentation finds
/// in a text, in their order.
pub uninterp spec fn word_segments(t: Seq<char>) -> Seq<Seq<char>>;

/// The lower-case form of an ASCII character.
pub open spec fn lower_char(c: char) -> char {
    if 'A' <= c && c <= 'Z' {
        ((c as u32) + 32) as char
    } else {
        c
    }
}

/// The text with each character in its lower-case ASCII form.
pub open spec fn ascii_lowercase(t: Seq<char>) -> Seq<char> {
    t.map_values(|c: char| lower_char(c))
}

/// The texts that a sequence of strings holds.
pub open spec fn texts(v: Seq<String>) -> Seq<Seq<char>> {
    v.map_values(|w: String| w@)
}

/// Whether every character of a text is an ASCII character below the
/// last one, which is the control character `DEL`.
pub open spec fn is_plain(t: Seq<char>) -> bool {
    forall|i: int| 0 <= i < t.len() ==> '\0' <= #[trigger] t[i] && t[i] < '\u{7f}'
}

/// Calls `deunicode::deunicode`. Its source gives a text back as it is
/// where every byte is below 0x7F. Any other text it builds from the bytes
/// of the text that are below 0x7F and from the entries of its table,
/// none of which holds a byte from 0x7F on.
#[verifier::external_body]
pub(crate) fn transliterate(s: &str) -> (r: String)
    ensures
        r@ == transliteration(s@),
        is_plain(r@),
        is_plain(s@) ==> r@ == s@,
{
    deunicode::deunicode(s)
}

/// Calls `str::to_lowercase` on an ASCII text, where it maps the letters
/// `A` to `Z` to `a` to `z` and leaves every other character as it is.
#[verifier::external_body]
pub(crate) fn lowercase(s: &str) -> (r: String)
    requires
        is_ascii_chars(s@),
    ensures
        r@ == ascii_lowercase(s@),
{
    s.to_lowercase()
}

/// Calls `unicode_words` of the crate unicode-segmentation and copies each
/// word that it yields.
#[verifier::external_body]
pub(crate) fn unicode_words(s: &str) -> (r: Vec<String>)
    ensures
        texts(r@) == word_segments(s@),
{
    unicode_segmentation::UnicodeSegmentation::unicode_words(s).map(|w| w.to_string()).collect()
}

} // verus!
