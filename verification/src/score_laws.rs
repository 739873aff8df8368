//! What holds of every score: its ceiling, the score of a text against
//! itself, and that an unbroken run outscores a broken one.

use vstd::prelude::*;
use crate::options::Options;
use crate::score::{
    fzf_score, lemma_past_spaces, lemma_scan_bounds, lemma_scan_settled, lemma_scan_step,
    match_score, past_spaces, run_factor, scan, scan_start, scanned, Scan,
};
use crate::text::{blank, folded, is_ascii_space, occurs_at, occurs_in};

verus! {

/// The score of `matched` matches in one unbroken run: the product of the
/// factors of the runs 1 to `matched`.
pub open spec fn full_run_score(matched: nat) -> nat
    decreases matched,
{
    if matched == 0 {
        1
    } else {
        full_run_score((matched - 1) as nat) * run_factor(matched)
    }
}

/// Every match consumes one character of the query and no more: either
/// white space is not passed over, or the query holds none behind its first
/// character.
pub open spec fn steps_singly(query: Seq<char>, skip_spaces: bool) -> bool {
    skip_spaces ==> forall|j: int| 1 <= j < query.len() ==> !is_ascii_space(#[trigger] query[j])
}

/// The score of an unbroken run is at least 1 and grows with its length.
pub proof fn lemma_full_run_grows(shorter: nat, longer: nat)
    requires
        shorter <= longer,
    ensures
        1 <= full_run_score(shorter) <= full_run_score(longer),
    decreases longer,
{
    if longer == 0 {
    } else if shorter == longer {
        lemma_full_run_grows((longer - 1) as nat, (longer - 1) as nat);
        assert(full_run_score((longer - 1) as nat) * run_factor(longer) >= 1) by (nonlinear_arith)
            requires
                full_run_score((longer - 1) as nat) >= 1,
                run_factor(longer) >= 2,
        ;
    } else {
        lemma_full_run_grows(shorter, (longer - 1) as nat);
        assert(full_run_score((longer - 1) as nat) * run_factor(longer) >= full_run_score(
            (longer - 1) as nat,
        )) by (nonlinear_arith)
            requires
                full_run_score((longer - 1) as nat) >= 1,
                run_factor(longer) >= 2,
        ;
    }
}

/// In every state of a scan the run is no longer than the consumed part of
/// the query, and the score no higher than that of one unbroken run over it.
pub proof fn lemma_scan_within_full_run(candidate: Seq<char>, query: Seq<char>, skip_spaces: bool)
    ensures
        scan(candidate, query, skip_spaces).run <= scan(candidate, query, skip_spaces).cursor,
        scan(candidate, query, skip_spaces).score <= full_run_score(
            scan(candidate, query, skip_spaces).cursor,
        ),
    decreases candidate.len(),
{
    if candidate.len() > 0 {
        let before = scan(candidate.drop_last(), query, skip_spaces);
        let after = scan(candidate, query, skip_spaces);
        lemma_scan_within_full_run(candidate.drop_last(), query, skip_spaces);
        if before.cursor < query.len() && candidate.last() == query[before.cursor as int] {
            lemma_past_spaces(query, before.cursor + 1);
            lemma_full_run_grows(before.cursor + 1, after.cursor);
            lemma_full_run_grows(before.cursor, before.cursor);
            assert(before.score * run_factor(before.run + 1) <= full_run_score(before.cursor)
                * run_factor(before.cursor + 1)) by (nonlinear_arith)
                requires
                    before.score <= full_run_score(before.cursor),
                    run_factor(before.run + 1) <= run_factor(before.cursor + 1),
            ;
        }
    }
}

/// No candidate scores higher against a query than one unbroken run over
/// the whole query does.
pub proof fn lemma_score_at_most_full_run(
    candidate: Seq<char>,
    query: Seq<char>,
    skip_spaces: bool,
)
    ensures
        match_score(candidate, query, skip_spaces) matches Some(score) ==> 1 <= score
            <= full_run_score(query.len()),
        scanned(candidate, query, skip_spaces) matches Some(score) ==> 1 <= score
            <= full_run_score(query.len()),
{
    lemma_scan_within_full_run(candidate, query, skip_spaces);
    lemma_scan_bounds(candidate, query, skip_spaces);
}

/// A blank query matches no candidate, the empty one included.
pub proof fn lemma_blank_query_never_matches(path: Seq<char>, options: Options)
    requires
        blank(options.query),
    ensures
        fzf_score(path, options) is None,
        match_score(path, options.query, options.ignore_whitespace_in_query) is None,
{
}

/// Where case is not ignored, a path is scored as its text is.
pub proof fn lemma_plain_path_score(path: Seq<char>, options: Options)
    requires
        !options.case_insensitive,
    ensures
        fzf_score(path, options) == match_score(
            path,
            options.query,
            options.ignore_whitespace_in_query,
        ),
{
}

/// Where matches step singly, nothing is passed over behind a consumed
/// character.
pub proof fn lemma_single_step(query: Seq<char>, skip_spaces: bool, from: nat)
    requires
        steps_singly(query, skip_spaces),
        1 <= from <= query.len(),
    ensures
        skip_spaces ==> past_spaces(query, from) == from,
{
}

/// Where matches step singly: a scan whose run covers all it has consumed
/// has the score of one unbroken run; one that has consumed three characters
/// or more and whose current run is shorter has less. A scan that has
/// consumed a query of at least one character ends inside a run.
pub proof fn lemma_run_decides_score(candidate: Seq<char>, query: Seq<char>, skip_spaces: bool)
    requires
        steps_singly(query, skip_spaces),
    ensures
        ({
            let end = scan(candidate, query, skip_spaces);
            &&& end.run == end.cursor ==> end.score == full_run_score(end.cursor)
            &&& end.cursor >= 3 && 1 <= end.run < end.cursor ==> end.score < full_run_score(
                end.cursor,
            )
            &&& end.cursor == query.len() && query.len() >= 1 ==> end.run >= 1
        }),
    decreases candidate.len(),
{
    if candidate.len() > 0 {
        let before = scan(candidate.drop_last(), query, skip_spaces);
        let after = scan(candidate, query, skip_spaces);
        lemma_run_decides_score(candidate.drop_last(), query, skip_spaces);
        lemma_scan_within_full_run(candidate.drop_last(), query, skip_spaces);
        if before.cursor < query.len() && candidate.last() == query[before.cursor as int] {
            lemma_single_step(query, skip_spaces, before.cursor + 1);
            assert(after.cursor == before.cursor + 1);
            lemma_full_run_grows(before.cursor, before.cursor);
            if before.run < before.cursor && after.cursor >= 3 {
                assert(before.score * run_factor(before.run + 1) < full_run_score(before.cursor)
                    * run_factor(before.cursor + 1)) by (nonlinear_arith)
                    requires
                        before.score <= full_run_score(before.cursor),
                        1 <= full_run_score(before.cursor),
                        run_factor(before.run + 1) < run_factor(before.cursor + 1),
                ;
            }
        }
    }
}

/// Of two scans that consume the same query of three characters or more,
/// one in a single unbroken run and one not, the first scores higher.
pub proof fn lemma_unbroken_outscores_broken(
    unbroken: Seq<char>,
    broken: Seq<char>,
    query: Seq<char>,
    skip_spaces: bool,
)
    requires
        query.len() >= 3,
        steps_singly(query, skip_spaces),
        scan(unbroken, query, skip_spaces).cursor == query.len(),
        scan(unbroken, query, skip_spaces).run == query.len(),
        scan(broken, query, skip_spaces).cursor == query.len(),
        scan(broken, query, skip_spaces).run < query.len(),
    ensures
        scanned(unbroken, query, skip_spaces) == Some(full_run_score(query.len())),
        scanned(broken, query, skip_spaces) matches Some(score) && score < full_run_score(
            query.len(),
        ),
{
    lemma_run_decides_score(unbroken, query, skip_spaces);
    lemma_run_decides_score(broken, query, skip_spaces);
}

/// While a scan reads nothing but characters other than the query's first,
/// it stays at its start.
pub proof fn lemma_scan_idle(lead: Seq<char>, query: Seq<char>, skip_spaces: bool)
    requires
        query.len() >= 1,
        !lead.contains(query[0]),
    ensures
        scan(lead, query, skip_spaces) == scan_start(),
    decreases lead.len(),
{
    if lead.len() > 0 {
        assert forall|i: int| 0 <= i < lead.drop_last().len() implies lead.drop_last()[i]
            != query[0] by {
            assert(lead.drop_last()[i] == lead[i]);
        }
        assert(!lead.drop_last().contains(query[0]));
        lemma_scan_idle(lead.drop_last(), query, skip_spaces);
        assert(lead.last() == lead[lead.len() - 1]);
    }
}

/// Behind a lead that holds no first character of the query, the query
/// itself is consumed in one unbroken run.
pub proof fn lemma_scan_own_text(lead: Seq<char>, query: Seq<char>, skip_spaces: bool, upto: nat)
    requires
        steps_singly(query, skip_spaces),
        upto <= query.len(),
        query.len() >= 1 ==> !lead.contains(query[0]),
    ensures
        scan(lead + query.take(upto as int), query, skip_spaces) == (Scan {
            cursor: upto,
            run: upto,
            score: full_run_score(upto),
        }),
    decreases upto,
{
    if upto == 0 {
        assert(lead + query.take(0) =~= lead);
        if query.len() >= 1 {
            lemma_scan_idle(lead, query, skip_spaces);
        } else {
            lemma_scan_settled(lead, query, skip_spaces, 0);
            assert(lead.take(0) =~= Seq::<char>::empty());
        }
    } else {
        let text = lead + query.take(upto as int);
        lemma_scan_own_text(lead, query, skip_spaces, (upto - 1) as nat);
        assert(text.drop_last() =~= lead + query.take(upto - 1));
        assert(text.last() == query[upto - 1]);
        lemma_single_step(query, skip_spaces, upto);
    }
}

/// A text that is not blank, matched against itself with matches stepping
/// singly, scores as one unbroken run over its whole length: the highest
/// score any candidate reaches against it.
pub proof fn lemma_equal_text_scores_full_run(text: Seq<char>, skip_spaces: bool)
    requires
        !blank(text),
        steps_singly(text, skip_spaces),
    ensures
        match_score(text, text, skip_spaces) == Some(full_run_score(text.len())),
        forall|other: Seq<char>|
            match_score(other, text, skip_spaces) is Some ==> match_score(
                other,
                text,
                skip_spaces,
            )->0 <= full_run_score(text.len()),
{
    lemma_scan_own_text(Seq::empty(), text, skip_spaces, text.len());
    assert(Seq::<char>::empty() + text.take(text.len() as int) =~= text);
    assert forall|other: Seq<char>| match_score(other, text, skip_spaces) is Some implies match_score(
        other,
        text,
        skip_spaces,
    )->0 <= full_run_score(text.len()) by {
        lemma_score_at_most_full_run(other, text, skip_spaces);
    }
}

/// A path equal to the query, under any options whose query is not blank
/// and, folded, steps singly, scores as one unbroken run over the folded
/// query; and no path scores higher under these options.
pub proof fn lemma_equal_path_scores_full_run(path: Seq<char>, options: Options)
    requires
        path == options.query,
        !blank(options.query),
        steps_singly(
            folded(options.case_insensitive, options.query),
            options.ignore_whitespace_in_query,
        ),
    ensures
        fzf_score(path, options) == Some(
            full_run_score(folded(options.case_insensitive, options.query).len()),
        ),
        forall|other: Seq<char>|
            fzf_score(other, options) is Some ==> fzf_score(other, options)->0 <= full_run_score(
                folded(options.case_insensitive, options.query).len(),
            ),
{
    let text = folded(options.case_insensitive, options.query);
    lemma_scan_own_text(Seq::empty(), text, options.ignore_whitespace_in_query, text.len());
    assert(Seq::<char>::empty() + text.take(text.len() as int) =~= text);
    assert forall|other: Seq<char>| fzf_score(other, options) is Some implies fzf_score(
        other,
        options,
    )->0 <= full_run_score(text.len()) by {
        lemma_score_at_most_full_run(
            folded(options.case_insensitive, other),
            text,
            options.ignore_whitespace_in_query,
        );
    }
}

/// While the query is not consumed and matches step singly, the characters
/// of the current run are the ones last read, and they are the ones last
/// consumed.
pub proof fn lemma_run_is_tail(candidate: Seq<char>, query: Seq<char>, skip_spaces: bool)
    requires
        steps_singly(query, skip_spaces),
        scan(candidate, query, skip_spaces).cursor < query.len(),
    ensures
        ({
            let end = scan(candidate, query, skip_spaces);
            &&& end.run <= end.cursor
            &&& end.run <= candidate.len()
            &&& candidate.subrange(candidate.len() - end.run, candidate.len() as int)
                == query.subrange(end.cursor - end.run, end.cursor as int)
        }),
    decreases candidate.len(),
{
    let end = scan(candidate, query, skip_spaces);
    if candidate.len() == 0 {
        assert(candidate.subrange(0, 0) =~= query.subrange(0, 0));
    } else {
        let front = candidate.drop_last();
        let before = scan(front, query, skip_spaces);
        if before.cursor < query.len() && candidate.last() == query[before.cursor as int] {
            lemma_single_step(query, skip_spaces, before.cursor + 1);
            lemma_run_is_tail(front, query, skip_spaces);
            let tail = candidate.subrange(candidate.len() - end.run, candidate.len() as int);
            let part = query.subrange(end.cursor - end.run, end.cursor as int);
            let tail_before = front.subrange(front.len() - before.run, front.len() as int);
            let part_before = query.subrange(before.cursor - before.run, before.cursor as int);
            assert forall|i: int| 0 <= i < tail.len() implies tail[i] == part[i] by {
                if i < before.run {
                    assert(tail[i] == tail_before[i]);
                    assert(part[i] == part_before[i]);
                }
            }
            assert(tail =~= part);
        } else {
            lemma_past_spaces(query, before.cursor + 1);
            assert(candidate.subrange(candidate.len() as int, candidate.len() as int)
                =~= query.subrange(end.cursor as int, end.cursor as int));
        }
    }
}

/// Where matches step singly and a scan consumes the query in one unbroken
/// run, the query stands in the candidate as one piece.
pub proof fn lemma_unbroken_run_occurs(candidate: Seq<char>, query: Seq<char>, skip_spaces: bool)
    requires
        steps_singly(query, skip_spaces),
        scan(candidate, query, skip_spaces).cursor == query.len(),
        scan(candidate, query, skip_spaces).run == query.len(),
    ensures
        occurs_in(query, candidate),
    decreases candidate.len(),
{
    if candidate.len() == 0 {
        assert(candidate.subrange(0, 0) =~= query);
        assert(occurs_at(query, candidate, 0));
    } else {
        let front = candidate.drop_last();
        let before = scan(front, query, skip_spaces);
        if before.cursor >= query.len() {
            lemma_scan_bounds(front, query, skip_spaces);
            lemma_unbroken_run_occurs(front, query, skip_spaces);
            let at = choose|at: int| occurs_at(query, front, at);
            assert(candidate.subrange(at, at + query.len()) =~= front.subrange(
                at,
                at + query.len(),
            ));
            assert(occurs_at(query, candidate, at));
        } else {
            lemma_single_step(query, skip_spaces, before.cursor + 1);
            lemma_run_is_tail(front, query, skip_spaces);
            let at = candidate.len() - query.len();
            let tail_before = front.subrange(front.len() - before.run, front.len() as int);
            let part_before = query.subrange(before.cursor - before.run, before.cursor as int);
            let piece = candidate.subrange(at, at + query.len());
            assert forall|i: int| 0 <= i < query.len() implies piece[i] == query[i] by {
                if i < before.run {
                    assert(piece[i] == tail_before[i]);
                    assert(query[i] == part_before[i]);
                }
            }
            assert(piece =~= query);
            assert(occurs_at(query, candidate, at));
        }
    }
}

/// A candidate that holds the query as one unbroken piece, behind a lead
/// without the query's first character, outscores every candidate that
/// matches the query without holding it as one piece. This is stated for
/// queries of three characters or more whose matches step singly.
pub proof fn lemma_contiguous_outscores_scattered(
    lead: Seq<char>,
    rest: Seq<char>,
    scattered: Seq<char>,
    query: Seq<char>,
    skip_spaces: bool,
)
    requires
        query.len() >= 3,
        !blank(query),
        steps_singly(query, skip_spaces),
        !lead.contains(query[0]),
        match_score(scattered, query, skip_spaces) is Some,
        !occurs_in(query, scattered),
    ensures
        match_score(lead + query + rest, query, skip_spaces) == Some(
            full_run_score(query.len()),
        ),
        match_score(scattered, query, skip_spaces)->0 < full_run_score(query.len()),
{
    let whole = lead + query + rest;
    let head = lead + query;
    lemma_scan_own_text(lead, query, skip_spaces, query.len());
    assert(query.take(query.len() as int) =~= query);
    assert(whole.take(head.len() as int) =~= head);
    lemma_scan_settled(whole, query, skip_spaces, head.len() as int);
    lemma_run_decides_score(scattered, query, skip_spaces);
    lemma_scan_within_full_run(scattered, query, skip_spaces);
    if scan(scattered, query, skip_spaces).run == query.len() {
        lemma_unbroken_run_occurs(scattered, query, skip_spaces);
    }
}

/// The characters of `query` stand in `candidate` at the places `places`,
/// in order.
pub open spec fn embeds(query: Seq<char>, candidate: Seq<char>, places: Seq<int>) -> bool {
    &&& places.len() == query.len()
    &&& forall|i: int|
        0 <= i < places.len() ==> 0 <= #[trigger] places[i] < candidate.len()
            && candidate[places[i]] == query[i]
    &&& forall|i: int, j: int| 0 <= i < j < places.len() ==> places[i] < places[j]
}

/// `query` is an ordered subsequence of `candidate`.
pub open spec fn is_subsequence(query: Seq<char>, candidate: Seq<char>) -> bool {
    exists|places: Seq<int>| embeds(query, candidate, places)
}

/// A scan never gives back what it has consumed.
pub proof fn lemma_cursor_grows(
    candidate: Seq<char>,
    query: Seq<char>,
    skip_spaces: bool,
    shorter: int,
    longer: int,
)
    requires
        0 <= shorter <= longer <= candidate.len(),
    ensures
        scan(candidate.take(shorter), query, skip_spaces).cursor <= scan(
            candidate.take(longer),
            query,
            skip_spaces,
        ).cursor,
    decreases longer - shorter,
{
    if shorter < longer {
        lemma_cursor_grows(candidate, query, skip_spaces, shorter, longer - 1);
        lemma_scan_step(candidate, query, skip_spaces, longer - 1);
        let before = scan(candidate.take(longer - 1), query, skip_spaces);
        if before.cursor < query.len() {
            lemma_past_spaces(query, before.cursor + 1);
        }
    }
}

/// What a scan that passes over no white space has consumed is an ordered
/// subsequence of what it has read.
pub proof fn lemma_consumed_is_subsequence(candidate: Seq<char>, query: Seq<char>)
    ensures
        scan(candidate, query, false).cursor <= query.len(),
        is_subsequence(query.take(scan(candidate, query, false).cursor as int), candidate),
    decreases candidate.len(),
{
    let end = scan(candidate, query, false);
    if candidate.len() == 0 {
        assert(embeds(query.take(0), candidate, Seq::<int>::empty()));
    } else {
        let front = candidate.drop_last();
        let before = scan(front, query, false);
        lemma_consumed_is_subsequence(front, query);
        let places = choose|places: Seq<int>|
            embeds(query.take(before.cursor as int), front, places);
        if before.cursor < query.len() && candidate.last() == query[before.cursor as int] {
            let more = places.push(candidate.len() - 1);
            assert forall|i: int| 0 <= i < more.len() implies 0 <= #[trigger] more[i]
                < candidate.len() && candidate[more[i]] == query.take(end.cursor as int)[i] by {
                if i < places.len() {
                    assert(more[i] == places[i]);
                    assert(candidate[places[i]] == front[places[i]]);
                }
            }
            assert forall|i: int, j: int| 0 <= i < j < more.len() implies more[i] < more[j] by {
                assert(more[i] == places[i]);
                if j < places.len() {
                    assert(more[j] == places[j]);
                }
            }
            assert(embeds(query.take(end.cursor as int), candidate, more));
        } else {
            assert forall|i: int| 0 <= i < places.len() implies 0 <= #[trigger] places[i]
                < candidate.len() && candidate[places[i]] == query.take(end.cursor as int)[i] by {
                assert(candidate[places[i]] == front[places[i]]);
            }
            assert(embeds(query.take(end.cursor as int), candidate, places));
        }
    }
}

/// A scan that passes over no white space has consumed, behind the place of
/// each character of an embedding, that character and all before it.
pub proof fn lemma_embedding_is_consumed(
    candidate: Seq<char>,
    query: Seq<char>,
    places: Seq<int>,
    upto: int,
)
    requires
        embeds(query, candidate, places),
        0 <= upto < query.len(),
    ensures
        scan(candidate.take(places[upto] + 1), query, false).cursor > upto,
    decreases upto,
{
    let place = places[upto];
    let before = scan(candidate.take(place), query, false);
    if upto > 0 {
        lemma_embedding_is_consumed(candidate, query, places, upto - 1);
        lemma_cursor_grows(candidate, query, false, places[upto - 1] + 1, place);
    }
    lemma_scan_step(candidate, query, false, place);
}

/// Where no white space is passed over, a scan consumes the whole query
/// exactly when the query is an ordered subsequence of the candidate; so a
/// query that is not blank matches exactly the candidates that hold its
/// characters in order.
pub proof fn lemma_match_iff_subsequence(candidate: Seq<char>, query: Seq<char>)
    ensures
        scanned(candidate, query, false) is Some <==> is_subsequence(query, candidate),
        match_score(candidate, query, false) is Some <==> !blank(query) && is_subsequence(
            query,
            candidate,
        ),
{
    lemma_consumed_is_subsequence(candidate, query);
    if scanned(candidate, query, false) is Some {
        assert(query.take(query.len() as int) =~= query);
    }
    if is_subsequence(query, candidate) {
        let places = choose|places: Seq<int>| embeds(query, candidate, places);
        if query.len() > 0 {
            let last = query.len() - 1;
            lemma_embedding_is_consumed(candidate, query, places, last);
            lemma_cursor_grows(candidate, query, false, places[last] + 1, candidate.len() as int);
            assert(candidate.take(candidate.len() as int) =~= candidate);
        }
    }
}

} // verus!
