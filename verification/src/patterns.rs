//! What the library looks for with regular expressions: chapter numbers in review issues, the
//! markers around rewritten chapters, and secrets in messages.
use vstd::prelude::*;

verus! {

/// Where a review issue in words says which chapter it is about.
pub open spec fn issue_index_pattern() -> Seq<char> {
    r"(?:分片索引|chapter_index)\s*[:：=]?\s*(\d+)"@
}

/// The line before and the line behind a rewritten chapter.
pub open spec fn marker_pattern() -> Seq<char> {
    r"<<<YURI_REWRITE_CHAPTER_(START|END)\s+index=(\d+)\s+id=([^>\s]+)>>>"@
}

/// A secret in the query of an address.
pub open spec fn query_secret_pattern() -> Seq<char> {
    r"(?i)([?&](?:key|api_key|access_token|token)=)[^&\s]+"@
}

/// A secret in a header.
pub open spec fn bearer_pattern() -> Seq<char> {
    r"(?i)(authorization:\s*bearer\s+)[^\s,;]+"@
}

/// The patterns of the library.
pub open spec fn known_pattern(p: Seq<char>) -> bool {
    p == issue_index_pattern() || p == marker_pattern() || p == query_secret_pattern() || p
        == bearer_pattern()
}

/// The groups of each match, the whole match first; a group that took no part has no text.
pub type Captured = Seq<Option<Seq<char>>>;

pub open spec fn captured(groups: Seq<Option<String>>) -> Captured {
    Seq::new(groups.len(), |i: int| crate::domain::opt_text(groups[i]))
}

pub open spec fn all_captured(matches: Seq<Vec<Option<String>>>) -> Seq<Captured> {
    Seq::new(matches.len(), |i: int| captured(matches[i]@))
}

/// The matches that `Regex::captures_iter` finds, from left to right.
pub uninterp spec fn regex_captures(pattern: Seq<char>, text: Seq<char>) -> Seq<Captured>;

/// `Regex::captures_iter` of a pattern that `Regex::new` accepts: the texts of all groups of the
/// matches that do not overlap, which depend on the pattern and the text alone. The patterns of
/// the library are accepted.
#[verifier::external_body]
pub(crate) fn find_captures(pattern: &str, text: &str) -> (r: Vec<Vec<Option<String>>>)
    requires
        known_pattern(pattern@),
    ensures
        all_captured(r@) == regex_captures(pattern@, text@),
{
    let pattern = regex::Regex::new(pattern).expect("valid pattern");
    pattern
        .captures_iter(text)
        .map(|found| {
            found.iter().map(|group| group.map(|part| part.as_str().to_string())).collect()
        })
        .collect()
}

/// What `Regex::replace_all` makes of a text.
pub uninterp spec fn regex_replaced(
    pattern: Seq<char>,
    text: Seq<char>,
    replacement: Seq<char>,
) -> Seq<char>;

/// `Regex::replace_all` of a pattern that `Regex::new` accepts: the text with each match replaced,
/// which depends on the pattern, the text and the replacement alone. The patterns of the library
/// are accepted.
#[verifier::external_body]
fn replace_matches(pattern: &str, text: &str, replacement: &str) -> (r: String)
    requires
        known_pattern(pattern@),
    ensures
        r@ == regex_replaced(pattern@, text@, replacement@),
{
    let pattern = regex::Regex::new(pattern).expect("valid pattern");
    pattern.replace_all(text, replacement).to_string()
}

/// A message without the secrets that addresses and headers carry.
pub open spec fn redacted(text: Seq<char>) -> Seq<char> {
    regex_replaced(
        bearer_pattern(),
        regex_replaced(query_secret_pattern(), text, "${1}[REDACTED]"@),
        "${1}[REDACTED]"@,
    )
}

pub fn redact_sensitive_text(text: &str) -> (r: String)
    ensures
        r@ == redacted(text@),
{
    let without_query = replace_matches(
        r"(?i)([?&](?:key|api_key|access_token|token)=)[^&\s]+",
        text,
        "${1}[REDACTED]",
    );
    replace_matches(
        r"(?i)(authorization:\s*bearer\s+)[^\s,;]+",
        without_query.as_str(),
        "${1}[REDACTED]",
    )
}

/// The message of an error, fit to be shown and logged.
pub fn to_string(error: &str) -> (r: String)
    ensures
        r@ == redacted(error@),
{
    redact_sensitive_text(error)
}

} // verus!
