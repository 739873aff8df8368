//! What passing over white space means: a query is scanned as if the ASCII
//! white space behind its first character were not in it.

use vstd::prelude::*;
use crate::score::{match_score, past_spaces, scan, scanned};
use crate::score_laws::{is_subsequence, lemma_match_iff_subsequence};
use crate::text::{blank, is_ascii_space};

verus! {

/// The character at `at` is one that a scan must find: the first of the
/// query, or one that is no ASCII white space.
pub open spec fn counts(query: Seq<char>, at: int) -> bool {
    at == 0 || !is_ascii_space(query[at])
}

/// The characters among the first `upto` of `query` that a scan must find.
pub open spec fn condensed_upto(query: Seq<char>, upto: nat) -> Seq<char>
    decreases upto,
{
    if upto == 0 {
        Seq::empty()
    } else if counts(query, upto - 1) {
        condensed_upto(query, (upto - 1) as nat).push(query[upto - 1])
    } else {
        condensed_upto(query, (upto - 1) as nat)
    }
}

/// `query` without the ASCII white space behind its first character.
pub open spec fn condensed(query: Seq<char>) -> Seq<char> {
    condensed_upto(query, query.len())
}

/// The characters that a scan of `query` must find, in order: all of them,
/// or, where white space is passed over, those of the condensed query.
pub open spec fn sought(query: Seq<char>, skip_spaces: bool) -> Seq<char> {
    if skip_spaces {
        condensed(query)
    } else {
        query
    }
}

/// A place where a scan can stand: the start, the end, or a character that
/// is no ASCII white space.
pub open spec fn settled(query: Seq<char>, at: nat) -> bool {
    at == 0 || at >= query.len() || !is_ascii_space(query[at as int])
}

/// A character that counts stands in the condensed query where the
/// condensed part before it ends.
pub proof fn lemma_condensed_index(query: Seq<char>, at: nat, upto: nat)
    requires
        at < upto <= query.len(),
        counts(query, at as int),
    ensures
        condensed_upto(query, at).len() < condensed_upto(query, upto).len(),
        condensed_upto(query, upto)[condensed_upto(query, at).len() as int] == query[at as int],
    decreases upto,
{
    if upto - 1 > at {
        lemma_condensed_index(query, at, (upto - 1) as nat);
    }
}

/// The condensed part of a query grows with the part.
pub proof fn lemma_condensed_grows(query: Seq<char>, fewer: nat, more: nat)
    requires
        fewer <= more <= query.len(),
    ensures
        condensed_upto(query, fewer).len() <= condensed_upto(query, more).len(),
    decreases more,
{
    if fewer < more {
        lemma_condensed_grows(query, fewer, (more - 1) as nat);
    }
}

/// Passing over white space adds nothing to the condensed part.
pub proof fn lemma_condensed_past_spaces(query: Seq<char>, from: nat)
    requires
        1 <= from <= query.len(),
    ensures
        condensed_upto(query, past_spaces(query, from)) == condensed_upto(query, from),
        settled(query, past_spaces(query, from)),
        from <= past_spaces(query, from) <= query.len(),
    decreases query.len() - from,
{
    if from < query.len() && is_ascii_space(query[from as int]) {
        lemma_condensed_past_spaces(query, from + 1);
    }
}

/// A scan that passes over white space goes as the scan of the condensed
/// query that passes over none: with the same runs and the same score, and
/// having consumed what the other has, condensed.
pub proof fn lemma_scan_condensed(candidate: Seq<char>, query: Seq<char>)
    ensures
        ({
            let with = scan(candidate, query, true);
            let without = scan(candidate, condensed(query), false);
            &&& with.cursor <= query.len()
            &&& settled(query, with.cursor)
            &&& without.cursor == condensed_upto(query, with.cursor).len()
            &&& without.run == with.run
            &&& without.score == with.score
        }),
    decreases candidate.len(),
{
    if candidate.len() > 0 {
        let front = candidate.drop_last();
        let c = candidate.last();
        lemma_scan_condensed(front, query);
        let with = scan(front, query, true);
        let without = scan(front, condensed(query), false);
        if with.cursor < query.len() {
            lemma_condensed_index(query, with.cursor, query.len());
            lemma_condensed_past_spaces(query, with.cursor + 1);
        }
    }
}

/// Passing over white space scores a candidate as the condensed query
/// scores it without; so a query matches, white space passed over, exactly
/// the candidates that hold the characters of the condensed query in order.
pub proof fn lemma_spaces_passed_over(candidate: Seq<char>, query: Seq<char>)
    ensures
        scanned(candidate, query, true) == scanned(candidate, condensed(query), false),
        match_score(candidate, query, true) == if blank(query) {
            None
        } else {
            scanned(candidate, condensed(query), false)
        },
        match_score(candidate, query, true) is Some <==> !blank(query) && is_subsequence(
            condensed(query),
            candidate,
        ),
{
    lemma_scan_condensed(candidate, query);
    let with = scan(candidate, query, true);
    if with.cursor < query.len() {
        lemma_condensed_index(query, with.cursor, query.len());
    }
    lemma_match_iff_subsequence(candidate, condensed(query));
}

/// A scan consumes the whole query exactly when the candidate holds, in
/// order, the characters that the scan must find.
pub proof fn lemma_scanned_iff_sought(candidate: Seq<char>, query: Seq<char>, skip_spaces: bool)
    ensures
        scanned(candidate, query, skip_spaces) is Some <==> is_subsequence(
            sought(query, skip_spaces),
            candidate,
        ),
{
    if skip_spaces {
        lemma_spaces_passed_over(candidate, query);
        lemma_match_iff_subsequence(candidate, condensed(query));
    } else {
        lemma_match_iff_subsequence(candidate, query);
    }
}

} // verus!
