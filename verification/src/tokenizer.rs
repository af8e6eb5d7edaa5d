//! Splitting raw text into an ordered sequence of tokens.
//!
//! A token rule is a regular expression; tokens are its leftmost,
//! non-overlapping matches in the text, in order. When case folding is
//! on, the whole text is folded to lowercase before matching and the
//! pattern itself matches case-insensitively, so token identity is
//! established on the folded form.

use vstd::prelude::*;

verus! {

/// Whether the pattern is a valid regular expression when compiled with
/// the given case-insensitivity flag.
pub uninterp spec fn valid_pattern(pattern: Seq<char>, ignore_case: bool) -> bool;

/// The sequence of leftmost, non-overlapping matches of the pattern in
/// the text, in order of position.
pub uninterp spec fn found_tokens(pattern: Seq<char>, ignore_case: bool, text: Seq<char>) -> Seq<
    Seq<char>,
>;

/// The lowercase form of a character sequence.
pub uninterp spec fn lowercase_of(text: Seq<char>) -> Seq<char>;

/// Relies on `regex::RegexBuilder::build` (regex 1.13): building succeeds
/// exactly when the pattern is a valid regular expression, and that
/// depends on the pattern and the flag alone.
#[verifier::external_body]
fn compile_ok(pattern: &str, ignore_case: bool) -> (r: bool)
    ensures
        r == valid_pattern(pattern@, ignore_case),
{
    regex::RegexBuilder::new(pattern).case_insensitive(ignore_case).build().is_ok()
}

/// Relies on `regex::RegexBuilder::build` and `regex::Regex::find_iter`
/// (regex 1.13): the iterator yields the leftmost, non-overlapping
/// matches of the pattern in the text, in order, and they depend on the
/// pattern, the flag and the text alone.
#[verifier::external_body]
fn find_matches(pattern: &str, ignore_case: bool, text: &str) -> (r: Vec<String>)
    requires
        valid_pattern(pattern@, ignore_case),
    ensures
        r.deep_view() == found_tokens(pattern@, ignore_case, text@),
{
    let re = regex::RegexBuilder::new(pattern).case_insensitive(ignore_case).build().unwrap();
    re.find_iter(text).map(|m| m.as_str().to_owned()).collect()
}

/// Relies on `str::to_lowercase`: the lowercase form of a string depends
/// on its characters alone.
#[verifier::external_body]
fn fold_case(text: &str) -> (r: String)
    ensures
        r@ == lowercase_of(text@),
{
    text.to_lowercase()
}

/// A token-matching rule: a pattern over characters plus a case-folding
/// flag.
pub struct Tokenizer {
    pub pattern: String,
    pub ignore_case: bool,
}

/// The tokens a rule extracts from a text: with case folding on, the
/// text is folded to lowercase first and the pattern matches
/// case-insensitively.
pub open spec fn rule_tokens(pattern: Seq<char>, ignore_case: bool, text: Seq<char>) -> Seq<
    Seq<char>,
> {
    if ignore_case {
        found_tokens(pattern, true, lowercase_of(text))
    } else {
        found_tokens(pattern, false, text)
    }
}

impl Tokenizer {
    /// The rule is usable: its pattern compiles.
    pub open spec fn wf(self) -> bool {
        valid_pattern(self.pattern@, self.ignore_case)
    }

    /// The tokens this rule extracts from the given text.
    pub open spec fn spec_tokens(self, text: Seq<char>) -> Seq<Seq<char>> {
        rule_tokens(self.pattern@, self.ignore_case, text)
    }

    /// Builds a rule from a pattern string, rejecting invalid patterns.
    pub fn new(pattern: &str, ignore_case: bool) -> (r: Result<Tokenizer, ()>)
        ensures
            r is Ok <==> valid_pattern(pattern@, ignore_case),
            r is Ok ==> {
                let t = r.unwrap();
                t.wf() && t.pattern@ == pattern@ && t.ignore_case == ignore_case
            },
    {
        if compile_ok(pattern, ignore_case) {
            Ok(Tokenizer { pattern: pattern.to_owned(), ignore_case })
        } else {
            Err(())
        }
    }

    /// Splits the text into its tokens, folding case first when the rule
    /// asks for it.
    pub fn tokenize(&self, text: &str) -> (r: Vec<String>)
        requires
            self.wf(),
        ensures
            r.deep_view() == self.spec_tokens(text@),
    {
        if self.ignore_case {
            let folded = fold_case(text);
            find_matches(self.pattern.as_str(), true, folded.as_str())
        } else {
            find_matches(self.pattern.as_str(), false, text)
        }
    }
}

} // verus!
