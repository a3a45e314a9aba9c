//! Regular-expression matching, done by the `regex` crate.

use vstd::prelude::*;

verus! {

/// What matching `pattern` against `text` gives: `None` where the pattern
/// does not compile or does not match, else, for each name in `groups`, the
/// text of that named group where it took part in the match.
pub uninterp spec fn regex_named_captures(
    pattern: Seq<char>,
    text: Seq<char>,
    groups: Seq<Seq<char>>,
) -> Option<Seq<Option<Seq<char>>>>;

/// The names `groups`, as character sequences.
pub open spec fn group_names(groups: Seq<&str>) -> Seq<Seq<char>> {
    groups.map_values(|g: &str| g@)
}

/// The captured texts `r`, as character sequences.
pub open spec fn captures_view(r: Option<Vec<Option<String>>>) -> Option<Seq<Option<Seq<char>>>> {
    match r {
        Some(v) => Some(
            v@.map_values(
                |o: Option<String>|
                    match o {
                        Some(s) => Some(s@),
                        None => None,
                    },
            ),
        ),
        None => None,
    }
}

/// Compiles `pattern` with `regex::Regex::new`, matches it against `text`
/// with `Regex::captures`, and reads each of the named groups `groups` with
/// `Captures::name`. The contract only names the result
/// (`regex_named_captures`): what the regular expression matches is not
/// stated, beyond that the same arguments give the same result and that
/// there is one entry per requested group.
#[verifier::external_body]
pub fn regex_captures(pattern: &str, text: &str, groups: &[&str]) -> (r: Option<Vec<Option<String>>>)
    ensures
        captures_view(r) == regex_named_captures(pattern@, text@, group_names(groups@)),
        r matches Some(v) ==> v@.len() == groups@.len(),
{
    let re = regex::Regex::new(pattern).ok()?;
    let caps = re.captures(text)?;
    Some(groups.iter().map(|g| caps.name(g).map(|m| m.as_str().to_string())).collect())
}

} // verus!
