//! The options of a search, handed to every call that matches.

use vstd::prelude::*;
use crate::text::{string_from_wstr, wide_text};

verus! {

/// How a query is matched, and the query itself.
#[derive(Clone, Debug, PartialEq, Eq)]
pub struct MatchOptions {
    /// Compare in lower case.
    pub case_insensitive: bool,
    /// Compare against the whole path rather than its final segment.
    pub match_full_path: bool,
    /// A query that ends in `$` asks for an exact suffix.
    pub enable_suffix_mode: bool,
    /// A query that ends in `?` asks for a substring.
    pub enable_contains_mode: bool,
    /// White space in the query may be passed over.
    pub ignore_whitespace_in_query: bool,
    /// What was typed.
    pub query: String,
}

/// The options with the query as a sequence of characters.
pub struct Options {
    pub case_insensitive: bool,
    pub match_full_path: bool,
    pub enable_suffix_mode: bool,
    pub enable_contains_mode: bool,
    pub ignore_whitespace_in_query: bool,
    pub query: Seq<char>,
}

impl View for MatchOptions {
    type V = Options;

    open spec fn view(&self) -> Options {
        Options {
            case_insensitive: self.case_insensitive,
            match_full_path: self.match_full_path,
            enable_suffix_mode: self.enable_suffix_mode,
            enable_contains_mode: self.enable_contains_mode,
            ignore_whitespace_in_query: self.ignore_whitespace_in_query,
            query: self.query@,
        }
    }
}

impl MatchOptions {
    /// The options a search starts with: case is ignored, the suffix and
    /// substring forms are on, the final segment is compared, white space in
    /// the query counts, and the query is empty.
    pub fn new() -> (options: MatchOptions)
        ensures
            options@ == (Options {
                case_insensitive: true,
                match_full_path: false,
                enable_suffix_mode: true,
                enable_contains_mode: true,
                ignore_whitespace_in_query: false,
                query: Seq::empty(),
            }),
    {
        MatchOptions {
            case_insensitive: true,
            match_full_path: false,
            enable_suffix_mode: true,
            enable_contains_mode: true,
            ignore_whitespace_in_query: false,
            query: String::new(),
        }
    }
}

/// Case is ignored from now on if `value` is at least 1, and not otherwise.
pub fn set_ignore_case(options: &mut MatchOptions, value: isize)
    ensures
        final(options)@ == (Options { case_insensitive: value >= 1, ..old(options)@ }),
{
    options.case_insensitive = value >= 1;
}

/// The suffix form is on if `value` is at least 1, and off otherwise.
pub fn set_suffix_filter(options: &mut MatchOptions, value: isize)
    ensures
        final(options)@ == (Options { enable_suffix_mode: value >= 1, ..old(options)@ }),
{
    options.enable_suffix_mode = value >= 1;
}

/// The substring form is on if `value` is at least 1, and off otherwise.
pub fn set_contains_filter(options: &mut MatchOptions, value: isize)
    ensures
        final(options)@ == (Options { enable_contains_mode: value >= 1, ..old(options)@ }),
{
    options.enable_contains_mode = value >= 1;
}

/// The whole path is compared if `value` is at least 1, its final segment
/// otherwise.
pub fn set_match_path(options: &mut MatchOptions, value: isize)
    ensures
        final(options)@ == (Options { match_full_path: value >= 1, ..old(options)@ }),
{
    options.match_full_path = value >= 1;
}

/// White space in the query may be passed over if `value` is at least 1, and
/// counts otherwise.
pub fn set_ignore_whitespace(options: &mut MatchOptions, value: isize)
    ensures
        final(options)@ == (Options { ignore_whitespace_in_query: value >= 1, ..old(options)@ }),
{
    options.ignore_whitespace_in_query = value >= 1;
}

/// The query becomes the text of the wide string `s`.
pub fn set_user_input(options: &mut MatchOptions, s: &[u16])
    ensures
        final(options)@ == (Options { query: wide_text(s@), ..old(options)@ }),
{
    options.query = string_from_wstr(s);
}

} // verus!
