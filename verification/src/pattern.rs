//! Searching text with a regular expression. The matching is the regex
//! engine's and is taken on trust; what is made of its answer is verified
//! where it is used.

use vstd::prelude::*;

verus! {

/// `regex::Error`, the reason for which `regex::Regex::new` refuses a
/// pattern. Nothing is known of what it holds.
#[verifier::external_type_specification]
#[verifier::external_body]
pub struct ExRegexError(regex::Error);

/// Whether `regex::Regex::new` accepts `pattern`: whether it is a valid
/// pattern that compiles within the engine's default size limit.
pub uninterp spec fn regex_compiles(pattern: Seq<char>) -> bool;

/// What `regex::Regex::captures` finds for a regex compiled from `pattern`
/// in `haystack`: nothing, or the text of each capture group of the
/// leftmost match, the whole match first, with `None` for a group that took
/// no part in it.
pub uninterp spec fn regex_captures(pattern: Seq<char>, haystack: Seq<char>) -> Option<
    Seq<Option<Seq<char>>>,
>;

/// The text of each group.
pub open spec fn groups_view(groups: Option<Vec<Option<String>>>) -> Option<
    Seq<Option<Seq<char>>>,
> {
    match groups {
        None => None,
        Some(list) => Some(
            Seq::new(
                list.len() as nat,
                |i: int|
                    match list[i] {
                        None => None,
                        Some(text) => Some(text@),
                    },
            ),
        ),
    }
}

/// Compiles `pattern` with `regex::Regex::new` and searches `haystack`
/// with `regex::Regex::captures`. Trusted: whether the pattern compiles
/// depends on the pattern alone, and if it does, the groups handed back
/// are those that the engine finds for this pattern and this text, which
/// depend on nothing else. Nothing is claimed of which patterns compile.
#[verifier::external_body]
pub(crate) fn captures(pattern: &str, haystack: &Vec<char>) -> (found: Result<
    Option<Vec<Option<String>>>,
    regex::Error,
>)
    ensures
        found is Ok <==> regex_compiles(pattern@),
        found matches Ok(groups) ==> groups_view(groups) == regex_captures(pattern@, haystack@),
{
    let compiled = regex::Regex::new(pattern)?;
    let text: String = haystack.iter().collect();
    Ok(
        compiled.captures(&text).map(
            |found| found.iter().map(|group| group.map(|m| m.as_str().to_string())).collect(),
        ),
    )
}

} // verus!
