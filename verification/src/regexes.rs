//! Regular expressions, compiled and applied by the `regex` crate.
use vstd::prelude::*;

verus! {

/// What `Regex::new(pattern)` then `is_match(text)` answers (false when the
/// pattern does not compile).
pub uninterp spec fn re_is_match(pattern: Seq<char>, text: Seq<char>) -> bool;

/// What `Regex::new(pattern)` then `captures(text)` gives: the groups of
/// the first match (group 0 the whole match; a group that did not take part
/// is `None`), or `None` when nothing matches or the pattern does not compile.
pub uninterp spec fn re_captures(pattern: Seq<char>, text: Seq<char>) -> Option<Seq<Option<Seq<char>>>>;

/// What `Regex::new(pattern)` then `replace_all(text, rep)` gives (the text
/// unchanged when the pattern does not compile).
pub uninterp spec fn re_replace_all(pattern: Seq<char>, text: Seq<char>, rep: Seq<char>) -> Seq<char>;

/// `regex::Regex::new` and `Regex::is_match`.
#[verifier::external_body]
pub(crate) fn regex_is_match(pattern: &str, text: &str) -> (b: bool)
    ensures
        b == re_is_match(pattern@, text@),
{
    match regex::Regex::new(pattern) {
        Ok(re) => re.is_match(text),
        Err(_) => false,
    }
}

/// The views of optional capture groups.
pub open spec fn group_views(v: Seq<Option<String>>) -> Seq<Option<Seq<char>>> {
    v.map_values(|g: Option<String>| match g {
        Some(s) => Some(s@),
        None => None,
    })
}

/// `regex::Regex::new` and `Regex::captures`, each group as an owned string.
#[verifier::external_body]
pub(crate) fn regex_captures(pattern: &str, text: &str) -> (r: Option<Vec<Option<String>>>)
    ensures
        match r {
            Some(g) => re_captures(pattern@, text@) == Some(group_views(g@)),
            None => re_captures(pattern@, text@) is None,
        },
{
    match regex::Regex::new(pattern) {
        Ok(re) => re.captures(text).map(|c| c.iter().map(|m| m.map(|m| m.as_str().to_string())).collect()),
        Err(_) => None,
    }
}

/// `regex::Regex::new` and `Regex::replace_all` (the replacements used here
/// hold no `$`).
#[verifier::external_body]
pub(crate) fn regex_replace_all(pattern: &str, text: &str, rep: &str) -> (r: String)
    ensures
        r@ == re_replace_all(pattern@, text@, rep@),
{
    match regex::Regex::new(pattern) {
        Ok(re) => re.replace_all(text, rep).into_owned(),
        Err(_) => text.to_string(),
    }
}

/// What `Regex::new(pattern)` then `find(text)` gives: the text of the
/// first match (none when nothing matches or the pattern does not compile).
pub uninterp spec fn re_find(pattern: Seq<char>, text: Seq<char>) -> Option<Seq<char>>;

/// What `Regex::new(pattern)` then `find_iter(text)` yields: the texts of
/// the successive non-overlapping matches (none when the pattern does not
/// compile).
pub uninterp spec fn re_find_all(pattern: Seq<char>, text: Seq<char>) -> Seq<Seq<char>>;

/// What `Regex::new(pattern)` then `captures_iter(text)` yields: the groups
/// of each successive match (none when the pattern does not compile).
pub uninterp spec fn re_captures_all(pattern: Seq<char>, text: Seq<char>) -> Seq<Seq<Option<Seq<char>>>>;

/// `regex::Regex::new` and `Regex::find`.
#[verifier::external_body]
pub(crate) fn regex_find(pattern: &str, text: &str) -> (r: Option<String>)
    ensures
        match r {
            Some(m) => re_find(pattern@, text@) == Some(m@),
            None => re_find(pattern@, text@) is None,
        },
{
    match regex::Regex::new(pattern) {
        Ok(re) => re.find(text).map(|m| m.as_str().to_string()),
        Err(_) => None,
    }
}

/// `regex::Regex::new` and `Regex::find_iter`, each match as an owned string.
#[verifier::external_body]
pub(crate) fn regex_find_all(pattern: &str, text: &str) -> (r: Vec<String>)
    ensures
        crate::text::views(r@) == re_find_all(pattern@, text@),
{
    match regex::Regex::new(pattern) {
        Ok(re) => re.find_iter(text).map(|m| m.as_str().to_string()).collect(),
        Err(_) => Vec::new(),
    }
}

/// The views of the groups of several matches.
pub open spec fn all_group_views(v: Seq<Vec<Option<String>>>) -> Seq<Seq<Option<Seq<char>>>> {
    v.map_values(|g: Vec<Option<String>>| group_views(g@))
}

/// `regex::Regex::new` and `Regex::captures_iter`, each group as an owned
/// string.
#[verifier::external_body]
pub(crate) fn regex_captures_all(pattern: &str, text: &str) -> (r: Vec<Vec<Option<String>>>)
    ensures
        all_group_views(r@) == re_captures_all(pattern@, text@),
{
    match regex::Regex::new(pattern) {
        Ok(re) => re.captures_iter(text).map(|c| c.iter().map(|m| m.map(|m| m.as_str().to_string())).collect()).collect(),
        Err(_) => Vec::new(),
    }
}

} // verus!
