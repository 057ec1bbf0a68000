//! Regular expressions, as far as the library needs them.

use vstd::prelude::*;

verus! {

/// Whether the regular expression `pattern` matches somewhere in
/// `haystack`; `None` where `pattern` is no valid regular expression.
pub uninterp spec fn regex_match(pattern: Seq<char>, haystack: Seq<char>) -> Option<bool>;

/// `haystack` with the first match of the regular expression `pattern`
/// replaced by `replacement`, in which `$name` stands for what a group of
/// the pattern matched; `None` where `pattern` is no valid regular
/// expression.
pub uninterp spec fn regex_replaced(
    pattern: Seq<char>,
    haystack: Seq<char>,
    replacement: Seq<char>,
) -> Option<Seq<char>>;

/// As [`regex_replaced`], with every match replaced.
pub uninterp spec fn regex_replaced_all(
    pattern: Seq<char>,
    haystack: Seq<char>,
    replacement: Seq<char>,
) -> Option<Seq<char>>;

/// Compiles `pattern` with `regex::Regex::new` and searches `haystack`
/// with `Regex::is_match`. The outcome depends on the two strings alone;
/// nothing else is claimed of it.
#[verifier::external_body]
pub(crate) fn is_match(pattern: &str, haystack: &str) -> (r: Option<bool>)
    ensures
        r == regex_match(pattern@, haystack@),
{
    match regex::Regex::new(pattern) {
        Ok(re) => Some(re.is_match(haystack)),
        Err(_) => None,
    }
}

/// What a replacement returns, by its view.
pub open spec fn text_view(r: Option<String>) -> Option<Seq<char>> {
    match r {
        Some(s) => Some(s@),
        None => None,
    }
}

/// Compiles `pattern` with `regex::Regex::new` and replaces its first
/// match in `haystack` with `Regex::replace`. The outcome depends on the
/// three strings alone; nothing else is claimed of it.
#[verifier::external_body]
pub(crate) fn replace(pattern: &str, haystack: &str, replacement: &str) -> (r: Option<String>)
    ensures
        text_view(r) == regex_replaced(pattern@, haystack@, replacement@),
{
    match regex::Regex::new(pattern) {
        Ok(re) => Some(re.replace(haystack, replacement).into_owned()),
        Err(_) => None,
    }
}

/// Compiles `pattern` with `regex::Regex::new` and replaces all its
/// matches in `haystack` with `Regex::replace_all`. The outcome depends
/// on the three strings alone; nothing else is claimed of it.
#[verifier::external_body]
pub(crate) fn replace_all(pattern: &str, haystack: &str, replacement: &str) -> (r: Option<String>)
    ensures
        text_view(r) == regex_replaced_all(pattern@, haystack@, replacement@),
{
    match regex::Regex::new(pattern) {
        Ok(re) => Some(re.replace_all(haystack, replacement).into_owned()),
        Err(_) => None,
    }
}

} // verus!
