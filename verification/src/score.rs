//! The match engine: a query matches a candidate when its characters occur
//! in the candidate in order, and a match scores higher the longer its
//! unbroken runs are.

use vstd::prelude::*;
use crate::options::{MatchOptions, Options};
use crate::score_laws::is_subsequence;
use crate::space_laws::{lemma_scanned_iff_sought, sought};
use crate::text::{ascii_space, blank, chars_of, fold, folded, is_ascii_space, is_blank};

verus! {

/// The state of a scan: how much of the query is consumed, how many of the
/// last candidate characters matched in a row, and the score so far.
pub struct Scan {
    pub cursor: nat,
    pub run: nat,
    pub score: nat,
}

/// The state before any character is read.
pub open spec fn scan_start() -> Scan {
    Scan { cursor: 0, run: 0, score: 1 }
}

/// The first position at or behind `from` where the query holds no ASCII
/// white space (its length, where only white space follows).
pub open spec fn past_spaces(query: Seq<char>, from: nat) -> nat
    decreases query.len() - from,
{
    if from < query.len() && is_ascii_space(query[from as int]) {
        past_spaces(query, from + 1)
    } else {
        from
    }
}

/// What a match that is the `run`-th in a row multiplies the score by.
pub open spec fn run_factor(run: nat) -> nat {
    if run < 2 {
        2
    } else {
        run
    }
}

/// The state after one more candidate character `c`. Once the query is
/// consumed nothing changes. A character equal to the query's next one
/// consumes it (and, where `skip_spaces` holds, the white space behind it),
/// lengthens the run and multiplies the score; any other ends the run.
pub open spec fn scan_char(state: Scan, c: char, query: Seq<char>, skip_spaces: bool) -> Scan {
    if state.cursor >= query.len() {
        state
    } else if c == query[state.cursor as int] {
        Scan {
            cursor: if skip_spaces {
                past_spaces(query, state.cursor + 1)
            } else {
                state.cursor + 1
            },
            run: state.run + 1,
            score: state.score * run_factor(state.run + 1),
        }
    } else {
        Scan { cursor: state.cursor, run: 0, score: state.score }
    }
}

/// The state after the whole candidate.
pub open spec fn scan(candidate: Seq<char>, query: Seq<char>, skip_spaces: bool) -> Scan
    decreases candidate.len(),
{
    if candidate.len() == 0 {
        scan_start()
    } else {
        scan_char(
            scan(candidate.drop_last(), query, skip_spaces),
            candidate.last(),
            query,
            skip_spaces,
        )
    }
}

/// The score of the scan, where it consumed the whole query.
pub open spec fn scanned(candidate: Seq<char>, query: Seq<char>, skip_spaces: bool) -> Option<nat> {
    let end = scan(candidate, query, skip_spaces);
    if end.cursor == query.len() {
        Some(end.score)
    } else {
        None
    }
}

/// The score of `candidate` against `query`: none for a blank query, else
/// that of the scan.
pub open spec fn match_score(candidate: Seq<char>, query: Seq<char>, skip_spaces: bool) -> Option<
    nat,
> {
    if blank(query) {
        None
    } else {
        scanned(candidate, query, skip_spaces)
    }
}

/// The score of the path `path` under `options`: none for a blank query;
/// else both are folded as the options say and scanned.
pub open spec fn fzf_score(path: Seq<char>, options: Options) -> Option<nat> {
    if blank(options.query) {
        None
    } else {
        scanned(
            folded(options.case_insensitive, path),
            folded(options.case_insensitive, options.query),
            options.ignore_whitespace_in_query,
        )
    }
}

/// A score as the machine holds it: itself up to `isize::MAX`, and
/// `isize::MAX` beyond.
pub open spec fn capped(score: Option<nat>) -> Option<isize> {
    match score {
        Some(s) => Some(
            if s <= isize::MAX {
                s as isize
            } else {
                isize::MAX
            },
        ),
        None => None,
    }
}

/// Each step of a scan extends the one before.
pub proof fn lemma_scan_step(candidate: Seq<char>, query: Seq<char>, skip_spaces: bool, at: int)
    requires
        0 <= at < candidate.len(),
    ensures
        scan(candidate.take(at + 1), query, skip_spaces) == scan_char(
            scan(candidate.take(at), query, skip_spaces),
            candidate[at],
            query,
            skip_spaces,
        ),
{
    assert(candidate.take(at + 1).drop_last() =~= candidate.take(at));
}

/// Skipping white space stays inside the query and never goes back.
pub proof fn lemma_past_spaces(query: Seq<char>, from: nat)
    requires
        from <= query.len(),
    ensures
        from <= past_spaces(query, from) <= query.len(),
    decreases query.len() - from,
{
    if from < query.len() && is_ascii_space(query[from as int]) {
        lemma_past_spaces(query, from + 1);
    }
}

/// A scan never runs past the query, counts no run longer than the
/// candidate, and keeps a score of at least 1.
pub proof fn lemma_scan_bounds(candidate: Seq<char>, query: Seq<char>, skip_spaces: bool)
    ensures
        scan(candidate, query, skip_spaces).cursor <= query.len(),
        scan(candidate, query, skip_spaces).run <= candidate.len(),
        scan(candidate, query, skip_spaces).score >= 1,
    decreases candidate.len(),
{
    if candidate.len() > 0 {
        let before = scan(candidate.drop_last(), query, skip_spaces);
        lemma_scan_bounds(candidate.drop_last(), query, skip_spaces);
        if before.cursor < query.len() {
            lemma_past_spaces(query, before.cursor + 1);
            assert(before.score * run_factor(before.run + 1) >= 1) by (nonlinear_arith)
                requires
                    before.score >= 1,
                    run_factor(before.run + 1) >= 2,
            ;
        }
    }
}

/// Once the query is consumed, the rest of the candidate changes nothing.
pub proof fn lemma_scan_settled(candidate: Seq<char>, query: Seq<char>, skip_spaces: bool, at: int)
    requires
        0 <= at <= candidate.len(),
        scan(candidate.take(at), query, skip_spaces).cursor >= query.len(),
    ensures
        scan(candidate, query, skip_spaces) == scan(candidate.take(at), query, skip_spaces),
    decreases candidate.len() - at,
{
    if at == candidate.len() {
        assert(candidate.take(at) =~= candidate);
    } else {
        lemma_scan_step(candidate, query, skip_spaces, at);
        lemma_scan_settled(candidate, query, skip_spaces, at + 1);
    }
}

/// Scans `candidate` for `query` and returns the capped score where the
/// whole query was consumed.
pub fn scan_score(candidate: &[char], query: &[char], skip_spaces: bool) -> (score: Option<isize>)
    ensures
        score == capped(scanned(candidate@, query@, skip_spaces)),
        score is Some <==> is_subsequence(sought(query@, skip_spaces), candidate@),
        score matches Some(s) ==> s >= 1,
{
    proof {
        lemma_scanned_iff_sought(candidate@, query@, skip_spaces);
        lemma_scan_bounds(candidate@, query@, skip_spaces);
    }
    let top: usize = isize::MAX as usize;
    let mut cursor: usize = 0;
    let mut run: usize = 0;
    let mut score: usize = 1;
    let ghost mut state = scan_start();
    let mut i: usize = 0;
    assert(candidate@.take(0) =~= Seq::<char>::empty());
    while i < candidate.len() && cursor < query.len()
        invariant
            i <= candidate.len(),
            cursor <= query.len(),
            top == isize::MAX,
            state == scan(candidate@.take(i as int), query@, skip_spaces),
            state.cursor == cursor,
            state.run == run,
            run <= i,
            state.score >= 1,
            score == if state.score <= top {
                state.score
            } else {
                top as nat
            },
        decreases candidate.len() - i,
    {
        let c = candidate[i];
        proof {
            lemma_scan_step(candidate@, query@, skip_spaces, i as int);
        }
        if c == query[cursor] {
            let ghost consumed = cursor;
            cursor += 1;
            if skip_spaces {
                while cursor < query.len() && ascii_space(query[cursor])
                    invariant
                        consumed < cursor <= query.len(),
                        past_spaces(query@, cursor as nat) == past_spaces(
                            query@,
                            (consumed + 1) as nat,
                        ),
                    decreases query.len() - cursor,
                {
                    cursor += 1;
                }
            }
            run += 1;
            let factor: usize = if run < 2 {
                2
            } else {
                run
            };
            let ghost exact = state.score * factor;
            proof {
                assert(exact >= state.score && exact >= 1) by (nonlinear_arith)
                    requires
                        exact == state.score * factor,
                        state.score >= 1,
                        factor >= 2,
                ;
                assert(top * factor > top) by (nonlinear_arith)
                    requires
                        factor >= 2,
                        top > 0,
                ;
            }
            score = match score.checked_mul(factor) {
                Some(product) => if product <= top {
                    product
                } else {
                    top
                },
                None => top,
            };
            proof {
                state = scan_char(state, c, query@, skip_spaces);
            }
        } else {
            run = 0;
            proof {
                state = scan_char(state, c, query@, skip_spaces);
            }
        }
        i += 1;
    }
    proof {
        if i < candidate.len() {
            lemma_scan_settled(candidate@, query@, skip_spaces, i as int);
        } else {
            assert(candidate@.take(i as int) =~= candidate@);
        }
    }
    if cursor == query.len() {
        Some(score as isize)
    } else {
        None
    }
}

/// Scores `text` against `pattern`, both as they are to be compared: a
/// blank pattern matches nothing.
pub fn score_text(text: &[char], pattern: &[char], skip_spaces: bool) -> (score: Option<isize>)
    ensures
        score == capped(match_score(text@, pattern@, skip_spaces)),
        blank(pattern@) ==> score is None,
{
    if is_blank(pattern) {
        None
    } else {
        scan_score(text, pattern, skip_spaces)
    }
}

/// Scores the path `path` against the query of `options`. There is no score
/// where the query is blank, or where its characters do not occur in the
/// path in order. A score beyond `isize::MAX` is returned as `isize::MAX`.
pub fn fzf(path: &str, options: &MatchOptions) -> (score: Option<isize>)
    ensures
        score == capped(fzf_score(path@, options@)),
        blank(options@.query) ==> score is None,
        score is Some <==> !blank(options@.query) && is_subsequence(
            sought(
                folded(options@.case_insensitive, options@.query),
                options@.ignore_whitespace_in_query,
            ),
            folded(options@.case_insensitive, path@),
        ),
        score matches Some(s) ==> s >= 1,
{
    let typed = chars_of(options.query.as_str());
    if is_blank(typed.as_slice()) {
        return None;
    }
    let text = fold(options.case_insensitive, path);
    let pattern = fold(options.case_insensitive, options.query.as_str());
    scan_score(text.as_slice(), pattern.as_slice(), options.ignore_whitespace_in_query)
}

} // verus!
