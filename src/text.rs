//! The calls into Unicode segmentation, transliteration and case folding that
//! the library's logic is built on, each with what it is relied on for.
use unicode_segmentation::UnicodeSegmentation;
use vstd::prelude::*;

verus! {

/// The characters of each string in `v`.
pub open spec fn gview(v: Seq<String>) -> Seq<Seq<char>> {
    v.map_values(|s: String| s@)
}

/// The extended grapheme clusters of a text, in order.
pub uninterp spec fn graphemes_of(s: Seq<char>) -> Seq<Seq<char>>;

/// The UAX#29 words of a text (the segments that hold a letter or a digit).
pub uninterp spec fn words_of(s: Seq<char>) -> Seq<Seq<char>>;

/// The ASCII transliteration of a text.
pub uninterp spec fn transliteration_of(s: Seq<char>) -> Seq<char>;

/// The Unicode lowercase of a text.
pub uninterp spec fn lowercase_of(s: Seq<char>) -> Seq<char>;

/// Relies on `UnicodeSegmentation::graphemes` (extended clusters): the clusters
/// depend on the text alone, and each is a non-empty slice of it, so there are
/// no more clusters than chars.
#[verifier::external_body]
pub(crate) fn graphemes(s: &str) -> (r: Vec<String>)
    ensures
        gview(r@) == graphemes_of(s@),
        r@.len() <= s@.len(),
{
    s.graphemes(true).map(String::from).collect()
}

/// Relies on `UnicodeSegmentation::unicode_words`: the words depend on the
/// text alone, and an empty text has none.
#[verifier::external_body]
pub(crate) fn words(s: &str) -> (r: Vec<String>)
    ensures
        gview(r@) == words_of(s@),
        s@.len() == 0 ==> r@.len() == 0,
{
    s.unicode_words().map(String::from).collect()
}

/// Relies on `unidecode::unidecode`: the transliteration depends on the text
/// alone.
#[verifier::external_body]
pub(crate) fn transliterate(s: &str) -> (r: String)
    ensures
        r@ == transliteration_of(s@),
{
    unidecode::unidecode(s)
}

/// Relies on `str::to_lowercase`: the result depends on the text alone.
#[verifier::external_body]
pub(crate) fn lowercase(s: &str) -> (r: String)
    ensures
        r@ == lowercase_of(s@),
{
    s.to_lowercase()
}

/// Relies on `str::chars`: the chars of the text, in order.
#[verifier::external_body]
pub(crate) fn char_vec(s: &str) -> (r: Vec<char>)
    ensures
        r@ == s@,
{
    s.chars().collect()
}

/// Relies on `String: FromIterator<char>`: the string of the given chars.
#[verifier::external_body]
pub(crate) fn string_from_chars(v: &Vec<char>) -> (r: String)
    ensures
        r@ == v@,
{
    v.iter().collect()
}

} // verus!
