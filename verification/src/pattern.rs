use regex::Regex;
use vstd::prelude::*;

verus! {

/// What `regex::Regex::find_iter` yields for the expression `pattern` on
/// `text`: the matched pieces of `text`, leftmost first and none overlapping
/// another. None where `regex::Regex::new` does not accept `pattern`.
pub uninterp spec fn regex_matches(pattern: Seq<char>, text: Seq<char>) -> Option<Seq<Seq<char>>>;

/// What `regex::Regex::captures` yields for the expression `pattern` on
/// `text`: the groups of the leftmost match, the whole match first, each
/// with the piece of `text` it took or none where it took no part. None where
/// nothing in `text` matches or `regex::Regex::new` does not accept `pattern`.
pub uninterp spec fn regex_captures(pattern: Seq<char>, text: Seq<char>) -> Option<
    Seq<Option<Seq<char>>>,
>;

/// The views of a vector of optional character vectors, in order.
pub open spec fn groups_view(groups: Seq<Option<Vec<char>>>) -> Seq<Option<Seq<char>>> {
    groups.map_values(
        |g: Option<Vec<char>>|
            match g {
                Some(piece) => Some(piece@),
                None => None,
            },
    )
}

/// Calls `regex::Regex::new` on `pattern` and `regex::Regex::find_iter` on
/// `text`. The contract only names what those return; it claims that the same
/// expression and text always give the same matches.
#[verifier::external_body]
pub(crate) fn find_all(pattern: &str, text: &str) -> (found: Option<Vec<String>>)
    ensures
        match found {
            Some(pieces) => regex_matches(pattern@, text@) == Some(crate::text::texts(pieces@)),
            None => regex_matches(pattern@, text@) is None,
        },
{
    match Regex::new(pattern) {
        Ok(re) => Some(re.find_iter(text).map(|m| m.as_str().to_string()).collect()),
        Err(_) => None,
    }
}

/// Calls `regex::Regex::new` on `pattern` and `regex::Regex::captures` on
/// `text`. The contract only names what those return; it claims that the same
/// expression and text always give the same groups.
#[verifier::external_body]
pub(crate) fn capture_groups(pattern: &str, text: &str) -> (groups: Option<
    Vec<Option<Vec<char>>>,
>)
    ensures
        match groups {
            Some(g) => regex_captures(pattern@, text@) == Some(groups_view(g@)),
            None => regex_captures(pattern@, text@) is None,
        },
{
    match Regex::new(pattern) {
        Ok(re) => re.captures(text).map(
            |c| c.iter().map(|g| g.map(|m| m.as_str().chars().collect())).collect(),
        ),
        Err(_) => None,
    }
}

} // verus!
