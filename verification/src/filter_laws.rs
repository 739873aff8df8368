//! What the forms of a query mean for every entry: the suffix form, the
//! substring form, and the directive.

use vstd::prelude::*;
use crate::entry::{Entry, FileMode};
use crate::filter::{
    admits, compared_text, directive, entry_score, held_score, mode_score, pattern_of, plan_of,
    without_directive, MatchMode, LITERAL_SCORE,
};
use crate::options::Options;
use crate::score::fzf_score;
use crate::text::{blank, folded, last_segment, occurs_in};

verus! {

/// The query of `options` without its directive, as it was typed.
pub open spec fn query_text(options: Options) -> Seq<char> {
    without_directive(options.query)
}

/// The text typed before a final mark, as it is compared.
pub open spec fn marked_text(options: Options) -> Seq<char> {
    folded(options.case_insensitive, query_text(options).drop_last())
}

/// With the suffix form on, a query that ends in `$` keeps exactly the
/// entries of the kind asked for whose compared text ends with what stands
/// before the `$`. How well the text would score plays no part, and every
/// kept entry gets the same score.
pub proof fn lemma_suffix_form(entry: Entry, options: Options)
    requires
        options.enable_suffix_mode,
        query_text(options).len() > 0,
        query_text(options).last() == '$',
    ensures
        plan_of(options).mode == MatchMode::Suffix,
        entry_score(entry, options) is Some <==> admits(directive(options.query), entry.mode)
            && marked_text(options).is_suffix_of(compared_text(entry.path, options)),
        entry_score(entry, options) is Some ==> entry_score(entry, options) == Some(
            LITERAL_SCORE as nat,
        ),
{
}

/// With the substring form on, a query that ends in `?` keeps exactly the
/// entries of the kind asked for whose compared text holds, as one piece,
/// what stands before the `?`. Every kept entry gets the same score.
pub proof fn lemma_contains_form(entry: Entry, options: Options)
    requires
        options.enable_contains_mode,
        query_text(options).len() > 0,
        query_text(options).last() == '?',
    ensures
        plan_of(options).mode == MatchMode::Contains,
        entry_score(entry, options) is Some <==> admits(directive(options.query), entry.mode)
            && occurs_in(marked_text(options), compared_text(entry.path, options)),
        entry_score(entry, options) is Some ==> entry_score(entry, options) == Some(
            LITERAL_SCORE as nat,
        ),
{
}

/// A query that starts with a directive keeps entries of that kind only,
/// whatever their text, and tests the text of the others against the query
/// without its first two characters.
pub proof fn lemma_directive_restricts(entry: Entry, options: Options)
    requires
        directive(options.query) != FileMode::Any,
    ensures
        entry.mode != directive(options.query) ==> entry_score(entry, options) is None,
        query_text(options) == options.query.skip(2),
        entry.mode == directive(options.query) ==> entry_score(entry, options) == mode_score(
            plan_of(options).mode,
            blank(plan_of(options).text),
            pattern_of(options),
            compared_text(entry.path, options),
            options.ignore_whitespace_in_query,
        ),
{
}

/// A query without a directive admits entries of every kind.
pub proof fn lemma_no_directive_admits_all(entry: Entry, options: Options)
    requires
        directive(options.query) == FileMode::Any,
    ensures
        query_text(options) == options.query,
        entry_score(entry, options) == mode_score(
            plan_of(options).mode,
            blank(plan_of(options).text),
            pattern_of(options),
            compared_text(entry.path, options),
            options.ignore_whitespace_in_query,
        ),
{
}

/// Where the characters of the query are matched in order, an entry of the
/// kind asked for is scored as its compared text is scored by itself
/// against what is left of the query, unless that text is shorter than the
/// pattern.
pub proof fn lemma_fuzzy_form(entry: Entry, options: Options)
    requires
        plan_of(options).mode == MatchMode::Fuzzy,
        admits(directive(options.query), entry.mode),
    ensures
        entry_score(entry, options) == if pattern_of(options).len() > compared_text(
            entry.path,
            options,
        ).len() {
            None
        } else {
            match fzf_score(
                if options.match_full_path {
                    entry.path
                } else {
                    last_segment(entry.path)
                },
                Options { query: query_text(options), ..options },
            ) {
                Some(score) => Some(held_score(score)),
                None => None,
            }
        },
{
}

} // verus!
