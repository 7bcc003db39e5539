//! From a line of text to the tokens that are recorded: the words between
//! whitespace that the acceptance pattern matches, in lower case.

use regex::Regex;
use vstd::prelude::*;
use crate::store::{FrequencyStore, record_tokens_model};
use crate::text::{lowercase_of, split_whitespace, texts, to_lowercase, whitespace_words};

verus! {

/// A compiled regular expression of the `regex` crate, carried as an opaque value.
#[verifier::external_type_specification]
#[verifier::external_body]
pub struct ExRegex(regex::Regex);

/// The error with which the `regex` crate refuses a pattern.
#[verifier::external_type_specification]
#[verifier::external_body]
pub struct ExRegexError(regex::Error);

/// The pattern text that a compiled expression was made from: what
/// `regex::Regex::as_str` returns for it.
pub uninterp spec fn pattern_source(re: Regex) -> Seq<char>;

/// Whether `regex::Regex::new` accepts `source` as a pattern.
pub uninterp spec fn pattern_is_valid(source: Seq<char>) -> bool;

/// Whether the compiled expression finds a match anywhere in `text`: what
/// `regex::Regex::is_match` returns.
pub uninterp spec fn pattern_matches(re: Regex, text: Seq<char>) -> bool;

/// Calls `regex::Regex::new`. It succeeds on the patterns that the crate
/// accepts, and the expression it gives remembers the pattern it came from.
#[verifier::external_body]
fn compile(source: &str) -> (out: Result<Regex, regex::Error>)
    ensures
        out.is_ok() == pattern_is_valid(source@),
        out matches Ok(re) ==> pattern_source(re) == source@,
{
    Regex::new(source)
}

/// Calls `regex::Regex::is_match`: whether the expression matches somewhere
/// in `text`, which depends on the expression and on `text` alone.
#[verifier::external_body]
fn is_match(re: &Regex, text: &str) -> (found: bool)
    ensures
        found == pattern_matches(*re, text@),
{
    re.is_match(text)
}

/// Renders a `regex::Error` as text, through its `Display`. Nothing is
/// claimed of the text.
#[verifier::external_body]
fn error_text(error: &regex::Error) -> (out: String) {
    format!("{}", error)
}

/// Why a pattern was refused.
pub struct PatternError {
    /// What the expression compiler said of the pattern.
    pub message: String,
}

/// The acceptance pattern: a word is recorded only if the pattern matches it.
pub struct WordPattern {
    regex: Regex,
}

/// The tokens recorded for the given words under `pattern`: the words that
/// it matches, each in lower case.
pub open spec fn accepted_tokens(pattern: WordPattern, words: Seq<Seq<char>>) -> Seq<Seq<char>> {
    words.filter(|w: Seq<char>| pattern.matches(w)).map_values(|w: Seq<char>| lowercase_of(w))
}

impl WordPattern {
    /// The pattern text that this pattern was made from.
    pub closed spec fn source(&self) -> Seq<char> {
        pattern_source(self.regex)
    }

    /// Whether the pattern finds a match anywhere in `text`.
    pub closed spec fn matches(&self, text: Seq<char>) -> bool {
        pattern_matches(self.regex, text)
    }

    /// Compiles `source`. A pattern that cannot be compiled is refused.
    pub fn new(source: &str) -> (out: Result<Self, PatternError>)
        ensures
            out.is_ok() == pattern_is_valid(source@),
            out matches Ok(p) ==> p.source() == source@,
    {
        match compile(source) {
            Ok(regex) => Ok(WordPattern { regex }),
            Err(error) => Err(PatternError { message: error_text(&error) }),
        }
    }

    /// Whether the pattern matches `word`.
    pub fn accepts(&self, word: &str) -> (found: bool)
        ensures
            found == self.matches(word@),
    {
        is_match(&self.regex, word)
    }

    /// The tokens of a line of text: its words between whitespace that the
    /// pattern matches, in their order, each in lower case.
    pub fn tokens(&self, content: &str) -> (out: Vec<String>)
        ensures
            texts(out@) == accepted_tokens(*self, whitespace_words(content@)),
    {
        let words = split_whitespace(content);
        let ghost all = whitespace_words(content@);
        let ghost matched = |w: Seq<char>| self.matches(w);
        let ghost lower = |w: Seq<char>| lowercase_of(w);
        let mut out: Vec<String> = Vec::new();
        let mut i: usize = 0;
        proof {
            reveal(Seq::filter);
            assert(all.take(0) =~= Seq::<Seq<char>>::empty());
            assert(texts(out@) =~= all.take(0).filter(matched).map_values(lower));
        }
        while i < words.len()
            invariant
                i <= words.len(),
                texts(words@) == all,
                matched == |w: Seq<char>| self.matches(w),
                lower == |w: Seq<char>| lowercase_of(w),
                texts(out@) == all.take(i as int).filter(matched).map_values(lower),
            decreases words.len() - i,
        {
            proof {
                reveal(Seq::filter);
                assert(all.take(i + 1).drop_last() =~= all.take(i as int));
                assert(all.take(i + 1).last() == all[i as int]);
                assert(all[i as int] == words@[i as int]@);
            }
            let ghost before = out@;
            if self.accepts(words[i].as_str()) {
                let token = to_lowercase(words[i].as_str());
                out.push(token);
                proof {
                    assert(texts(out@) =~= texts(before).push(lowercase_of(all[i as int])));
                    assert(all.take(i + 1).filter(matched) == all.take(i as int).filter(matched).push(
                        all[i as int],
                    ));
                    assert(texts(out@) =~= all.take(i + 1).filter(matched).map_values(lower));
                }
            }
            i += 1;
        }
        proof {
            assert(all.take(i as int) =~= all);
        }
        out
    }
}

impl FrequencyStore {
    /// Takes in a line of text that arrived at `time`: every token of the
    /// line is recorded at that instant, from left to right.
    pub fn observe(&mut self, pattern: &WordPattern, content: &str, time: i64)
        requires
            old(self).wf(),
        ensures
            final(self).wf(),
            final(self)@ == record_tokens_model(
                old(self)@,
                accepted_tokens(*pattern, whitespace_words(content@)),
                time,
            ),
    {
        let tokens = pattern.tokens(content);
        self.record_tokens(tokens, time);
    }
}

} // verus!
