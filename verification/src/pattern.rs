//! Regular-expression matching, through the `regex` crate, and the patterns
//! that the programs test texts against.

use vstd::prelude::*;

verus! {

/// Whether `Regex::new` of the `regex` crate accepts a pattern (a valid
/// pattern within the default size limit).
pub uninterp spec fn regex_compiles(pattern: Seq<char>) -> bool;

/// Whether `Regex::is_match` of the `regex` crate finds a match of the
/// pattern anywhere in the text.
pub uninterp spec fn regex_matches(pattern: Seq<char>, text: Seq<char>) -> bool;

/// `Regex::new` of the `regex` crate followed by `Regex::is_match`: `None`
/// where the pattern is refused, otherwise whether it matches somewhere in
/// the text. Both results are named: they depend on the pattern and the text
/// alone.
#[verifier::external_body]
fn regex_is_match(pattern: &str, text: &str) -> (r: Option<bool>)
    ensures
        r is Some <==> regex_compiles(pattern@),
        r matches Some(b) ==> b == regex_matches(pattern@, text@),
{
    match regex::Regex::new(pattern) {
        Ok(re) => Some(re.is_match(text)),
        Err(_) => None,
    }
}

/// Whether a text matches a pattern that compiles.
pub open spec fn text_matches(pattern: Seq<char>, text: Seq<char>) -> bool {
    regex_compiles(pattern) && regex_matches(pattern, text)
}

/// Tests a text against a pattern; a pattern that does not compile matches
/// nothing.
pub fn matches_pattern(pattern: &str, text: &str) -> (r: bool)
    ensures
        r == text_matches(pattern@, text@),
{
    match regex_is_match(pattern, text) {
        Some(found) => found,
        None => false,
    }
}

/// The pattern of a date written `YYYY-MM-DD`.
pub open spec fn date_pattern() -> Seq<char> {
    "^\\d{4}-\\d{2}-\\d{2}$"@
}

/// Whether a text is a date written `YYYY-MM-DD` (four, two and two decimal
/// digits joined by hyphens, as `\d` of the pattern reads them); `None` where
/// the pattern does not compile.
pub fn is_date_text(text: &str) -> (r: Option<bool>)
    ensures
        r is Some <==> regex_compiles(date_pattern()),
        r matches Some(b) ==> b == regex_matches(date_pattern(), text@),
{
    regex_is_match("^\\d{4}-\\d{2}-\\d{2}$", text)
}

} // verus!
