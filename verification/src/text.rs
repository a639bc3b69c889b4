//! Trusted text primitives.
//!
//! Lemma normalization (Unicode trimming and case folding) and the diglot
//! word substitution are done by `std` and the `regex` crate. Their results
//! are functions of their arguments alone, far too wide to state in a few
//! lines, so each is given a name here and the callers' contracts speak of
//! those names.

use vstd::prelude::*;

verus! {

/// `s` with leading and trailing whitespace removed, as `str::trim` does it.
pub uninterp spec fn trim_of(s: Seq<char>) -> Seq<char>;

/// The lowercase equivalent of `s`, as `str::to_lowercase` does it.
pub uninterp spec fn lower_of(s: Seq<char>) -> Seq<char>;

/// `text` with the first whole-word occurrence of `word` replaced by
/// `replacement` under the regex crate's word-boundary semantics, or `text`
/// unchanged when no such occurrence exists.
pub uninterp spec fn replaced_first(text: Seq<char>, word: Seq<char>, replacement: Seq<char>) -> Seq<char>;

/// A lemma string's normal form: trimmed, then lowercased.
pub open spec fn normalize(s: Seq<char>) -> Seq<char> {
    lower_of(trim_of(s))
}

/// Relies on `str::trim`: removes leading and trailing whitespace, which
/// can only shorten the string, and leaves an empty string empty.
#[verifier::external_body]
pub(crate) fn trim_str(s: &str) -> (r: &str)
    ensures
        r@ == trim_of(s@),
        r@.len() <= s@.len(),
{
    s.trim()
}

/// Relies on `str::to_lowercase`: the result depends on the characters
/// alone, and an empty string stays empty.
#[verifier::external_body]
pub(crate) fn lowercase_str(s: &str) -> (r: String)
    ensures
        r@ == lower_of(s@),
        s@.len() == 0 ==> r@.len() == 0,
{
    s.to_lowercase()
}

/// Relies on `regex::Regex::replacen` with a word-boundary pattern built
/// from `regex::escape(word)`: replaces at most the first whole-word
/// occurrence of `word` in `text`, and returns `text` unchanged when there
/// is none. The escaped pattern is always a valid regex, so compilation
/// cannot fail.
#[verifier::external_body]
pub(crate) fn replace_first_word(text: &str, word: &str, replacement: &str) -> (r: String)
    ensures
        r@ == replaced_first(text@, word@, replacement@),
{
    let pattern = format!(r"\b{}\b", regex::escape(word));
    match regex::Regex::new(&pattern) {
        Ok(re) => re.replacen(text, 1, replacement).into_owned(),
        Err(_) => text.to_owned(),
    }
}

} // verus!
