//! Stage headers: a line that names the two domains of a stage.

use crate::day_five::error::AlmanacError;
use crate::pattern::{captures, groups_view, regex_captures, regex_compiles};
use vstd::prelude::*;

verus! {

/// The pattern of a stage header: the names of two domains, each a run of
/// word characters, joined by `-to-` and followed by ` map:`.
pub const HEADER_PATTERN: &'static str = "(\\w+)-to-(\\w+) map:";

/// The two names in the groups of a header match: the first and second
/// capture group, if there was a match and both took part in it.
pub open spec fn names_in(groups: Option<Seq<Option<Seq<char>>>>) -> Option<
    (Seq<char>, Seq<char>),
> {
    match groups {
        None => None,
        Some(list) => if list.len() > 2 && list[1] is Some && list[2] is Some {
            Some((list[1].unwrap(), list[2].unwrap()))
        } else {
            None
        },
    }
}

/// The origin and destination names that the header `line` gives. There
/// are none where the regex engine refuses the header pattern, whatever
/// the line, and none where the line holds no header.
pub open spec fn header_of(line: Seq<char>) -> Result<(Seq<char>, Seq<char>), AlmanacError> {
    if !regex_compiles(HEADER_PATTERN@) {
        Err(AlmanacError::Pattern)
    } else {
        match names_in(regex_captures(HEADER_PATTERN@, line)) {
            None => Err(AlmanacError::Header),
            Some(names) => Ok(names),
        }
    }
}

/// The names that a header match captured, origin first.
pub fn header_names(groups: &Option<Vec<Option<String>>>) -> (names: Option<(String, String)>)
    ensures
        match names {
            Some(pair) => names_in(groups_view(*groups)) == Some((pair.0@, pair.1@)),
            None => names_in(groups_view(*groups)) is None,
        },
{
    match groups {
        None => None,
        Some(list) => {
            if list.len() > 2 {
                match (&list[1], &list[2]) {
                    (Some(origin), Some(destination)) => Some(
                        (origin.clone(), destination.clone()),
                    ),
                    _ => None,
                }
            } else {
                None
            }
        },
    }
}

/// Reads `line` as a stage header. Fails with `Header` where the line
/// holds no header, and with `Pattern` where the regex engine refuses the
/// header pattern.
pub fn parse_header(line: &Vec<char>) -> (names: Result<(String, String), AlmanacError>)
    ensures
        match names {
            Ok(pair) => header_of(line@) == Ok::<(Seq<char>, Seq<char>), AlmanacError>(
                (pair.0@, pair.1@),
            ),
            Err(e) => header_of(line@) == Err::<(Seq<char>, Seq<char>), AlmanacError>(e),
        },
{
    match captures(HEADER_PATTERN, line) {
        Err(_) => Err(AlmanacError::Pattern),
        Ok(groups) => match header_names(&groups) {
            None => Err(AlmanacError::Header),
            Some(pair) => Ok(pair),
        },
    }
}

} // verus!
