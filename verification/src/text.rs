//! Text on its way into the store: words between whitespace, lower case.

use vstd::prelude::*;

verus! {

/// The lower-case form of `text`: what `str::to_lowercase` returns.
pub uninterp spec fn lowercase_of(text: Seq<char>) -> Seq<char>;

/// The words of `text`: what `str::split_whitespace` yields, in order.
pub uninterp spec fn whitespace_words(text: Seq<char>) -> Seq<Seq<char>>;

/// The texts of a sequence of strings.
pub open spec fn texts(strings: Seq<String>) -> Seq<Seq<char>> {
    strings.map_values(|s: String| s@)
}

/// The text of an optional string.
pub open spec fn text_of(token: Option<String>) -> Option<Seq<char>> {
    match token {
        Some(t) => Some(t@),
        None => None,
    }
}

/// Calls `str::to_lowercase`.
#[verifier::external_body]
pub(crate) fn to_lowercase(text: &str) -> (out: String)
    ensures
        out@ == lowercase_of(text@),
{
    text.to_lowercase()
}

/// Calls `str::split_whitespace` and hands each word out as a string of its own.
#[verifier::external_body]
pub(crate) fn split_whitespace(text: &str) -> (out: Vec<String>)
    ensures
        texts(out@) == whitespace_words(text@),
{
    text.split_whitespace().map(|word| word.to_owned()).collect()
}

} // verus!
