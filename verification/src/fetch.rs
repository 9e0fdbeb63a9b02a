//! Finding the current Perseus user list on the page that links to it.

use vstd::prelude::*;

use regex::Error;
use regex::Regex;

use crate::text::string_from_chars;
use crate::text::chars_of;

verus! {

#[verifier::external_type_specification]
#[verifier::external_body]
pub struct ExRegex(Regex);

#[verifier::external_type_specification]
#[verifier::external_body]
pub struct ExRegexError(Error);

/// Whether `pattern` compiles as a regular expression of the `regex` crate, within its
/// default size limit.
pub uninterp spec fn regex_compiles(pattern: Seq<char>) -> bool;

/// The leftmost-first match of the regular expression `pattern` in `haystack`, if any.
pub uninterp spec fn leftmost_match(pattern: Seq<char>, haystack: Seq<char>) -> Option<Seq<char>>;

/// A compiled regular expression, with the pattern it was compiled from.
pub struct Pattern {
    source: String,
    compiled: Regex,
}

impl View for Pattern {
    type V = Seq<char>;

    closed spec fn view(&self) -> Seq<char> {
        self.source@
    }
}

/// `Regex::new`: compiles `pattern`; it fails exactly where the pattern is not a valid
/// expression or its compiled form would pass the default size limit (the contract names
/// that as `regex_compiles`).
#[verifier::external_body]
fn regex_new(pattern: &str) -> (r: Result<Regex, Error>)
    ensures
        r is Ok <==> regex_compiles(pattern@),
{
    Regex::new(pattern)
}

/// `Regex::find` followed by `Match::as_str`: the text of the leftmost-first match of
/// `p`'s expression in `haystack` (named `leftmost_match`), which is a piece of
/// `haystack`. The claim rests on `p.compiled` having been compiled from `p.source`,
/// which `Pattern::new`, the only way to make a `Pattern`, sees to.
#[verifier::external_body]
fn regex_find(p: &Pattern, haystack: &str) -> (r: Option<String>)
    ensures
        match r {
            None => leftmost_match(p@, haystack@) is None,
            Some(m) => leftmost_match(p@, haystack@) == Some(m@) && exists|i: int, j: int|
                0 <= i <= j <= haystack@.len() && m@ == haystack@.subrange(i, j),
        },
{
    match p.compiled.find(haystack) {
        Some(m) => Some(m.as_str().to_string()),
        None => None,
    }
}

impl Pattern {
    /// The expression `pattern`, compiled; the `regex` crate's error where it does not
    /// compile.
    pub fn new(pattern: &str) -> (r: Result<Pattern, Error>)
        ensures
            r is Ok <==> regex_compiles(pattern@),
            r matches Ok(p) ==> p@ == pattern@,
    {
        match regex_new(pattern) {
            Ok(compiled) => Ok(Pattern { source: string_from_chars(chars_of(pattern)), compiled }),
            Err(e) => Err(e),
        }
    }

    /// The leftmost-first match of the expression in `haystack`, if any.
    pub fn find(&self, haystack: &str) -> (r: Option<String>)
        ensures
            match r {
                None => leftmost_match(self@, haystack@) is None,
                Some(m) => leftmost_match(self@, haystack@) == Some(m@),
            },
    {
        regex_find(self, haystack)
    }
}

/// Why the link to the user list was not found.
#[derive(Debug)]
pub enum LinkError {
    /// The page holds no link to a user list.
    FindWebData,
    /// The expression for the link did not compile.
    FailedRegex(Error),
}

/// The expression for the address of a user list.
pub open spec fn userlist_pattern() -> Seq<char> {
    "https:\\/\\/www1\\.m2\\.mediacat\\.ne\\.jp\\/binews\\/[a-z][a-z]\\/[a-z][a-z]\\/userlist1\\.txt"@
}

/// The link that the search for the user list found, or the error where it found none.
pub fn userlist_link_from(found: Option<String>) -> (r: Result<String, LinkError>)
    ensures
        match found {
            None => r matches Err(LinkError::FindWebData),
            Some(m) => r matches Ok(s) && s@ == m@,
        },
{
    match found {
        None => Err(LinkError::FindWebData),
        Some(m) => Ok(m),
    }
}

/// The address of the user list that `front_page` links to: the first text in it that
/// the expression for such an address matches.
pub fn userlist_link(front_page: &str) -> (r: Result<String, LinkError>)
    ensures
        !regex_compiles(userlist_pattern()) ==> r matches Err(LinkError::FailedRegex(_)),
        regex_compiles(userlist_pattern()) ==> match leftmost_match(
            userlist_pattern(),
            front_page@,
        ) {
            None => r matches Err(LinkError::FindWebData),
            Some(m) => r matches Ok(s) && s@ == m,
        },
{
    let source = "https:\\/\\/www1\\.m2\\.mediacat\\.ne\\.jp\\/binews\\/[a-z][a-z]\\/[a-z][a-z]\\/userlist1\\.txt";
    assert(source@ == userlist_pattern());
    match Pattern::new(source) {
        Err(e) => Err(LinkError::FailedRegex(e)),
        Ok(p) => userlist_link_from(p.find(front_page)),
    }
}

} // verus!
