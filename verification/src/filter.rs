//! The filter pipeline: which entries a query keeps, with what score, and
//! in what order.

use vstd::prelude::*;
use crate::entry::{entries_of, Entry, FileHit, FileMode};
use crate::options::{MatchOptions, Options};
use crate::order::{lemma_map_keeps_multiset, sort_ranked, Ranked};
use crate::score::{scan_score, scanned};
use crate::score_laws::lemma_score_at_most_full_run;
use crate::text::{
    blank, chars_of, contains, ends_with, final_segment, fold, fold_chars, folded, is_blank,
    last_segment, occurs_in, piece,
};

verus! {

/// An entry that the query kept, with its score.
#[derive(Clone, Debug, PartialEq, Eq)]
pub struct ScoredHit {
    pub hit: FileHit,
    pub score: usize,
}

/// A kept entry with its path as a sequence of characters.
pub struct Scored {
    pub entry: Entry,
    pub score: nat,
}

impl View for ScoredHit {
    type V = Scored;

    open spec fn view(&self) -> Scored {
        Scored { entry: self.hit@, score: self.score as nat }
    }
}

/// What `hits` holds, in order.
pub open spec fn scored_of(hits: Seq<ScoredHit>) -> Seq<Scored> {
    hits.map_values(|hit: ScoredHit| hit@)
}

/// Kept entries are ranked by score, the highest first.
impl Ranked for ScoredHit {
    open spec fn ranks_before(&self, other: &Self) -> bool {
        self.score >= other.score
    }

    proof fn lemma_rank_total(a: &Self, b: &Self) {
    }

    proof fn lemma_rank_transitive(a: &Self, b: &Self, c: &Self) {
    }

    fn before(&self, other: &Self) -> (first: bool) {
        self.score >= other.score
    }
}

/// The score of an entry kept by a literal test (suffix or substring), which
/// computes none: that of a scan before any match.
pub const LITERAL_SCORE: usize = 1;

/// The kind a query asks for by its first two characters: `:f` files, `:d`
/// directories, `:l` links; any kind where it starts otherwise.
pub open spec fn directive(query: Seq<char>) -> FileMode {
    if query.len() >= 2 && query[0] == ':' && query[1] == 'f' {
        FileMode::File
    } else if query.len() >= 2 && query[0] == ':' && query[1] == 'd' {
        FileMode::Dir
    } else if query.len() >= 2 && query[0] == ':' && query[1] == 'l' {
        FileMode::Link
    } else {
        FileMode::Any
    }
}

/// The query without its directive.
pub open spec fn without_directive(query: Seq<char>) -> Seq<char> {
    if directive(query) != FileMode::Any {
        query.skip(2)
    } else {
        query
    }
}

/// How the text of a query is held against an entry.
#[derive(Clone, Copy, Debug, PartialEq, Eq, Structural)]
pub enum MatchMode {
    /// The compared text ends with the query's text.
    Suffix,
    /// The compared text holds the query's text as one piece.
    Contains,
    /// The compared text holds the query's characters in order.
    Fuzzy,
}

/// A query taken apart: the kind it asks for, the test it asks for, and the
/// text to test with, as it was typed.
pub struct Plan {
    pub kind: FileMode,
    pub mode: MatchMode,
    pub text: Seq<char>,
}

/// The plan of the query of `options`. A directive sets the kind and is
/// taken off. Where the suffix form is on and the rest ends in `$`, the test
/// is for a suffix, the `$` taken off; else where the substring form is on
/// and the rest ends in `?`, the test is for a substring, the `?` taken
/// off; else the rest is matched in order.
pub open spec fn plan_of(options: Options) -> Plan {
    let rest = without_directive(options.query);
    if options.enable_suffix_mode && rest.len() > 0 && rest.last() == '$' {
        Plan { kind: directive(options.query), mode: MatchMode::Suffix, text: rest.drop_last() }
    } else if options.enable_contains_mode && rest.len() > 0 && rest.last() == '?' {
        Plan { kind: directive(options.query), mode: MatchMode::Contains, text: rest.drop_last() }
    } else {
        Plan { kind: directive(options.query), mode: MatchMode::Fuzzy, text: rest }
    }
}

/// The text of the plan as it is compared: folded as the options say.
pub open spec fn pattern_of(options: Options) -> Seq<char> {
    folded(options.case_insensitive, plan_of(options).text)
}

/// The text of an entry that is compared: its path, or the final segment of
/// its path unless the whole path is asked for, folded as the options say.
pub open spec fn compared_text(path: Seq<char>, options: Options) -> Seq<char> {
    if options.match_full_path {
        folded(options.case_insensitive, path)
    } else {
        folded(options.case_insensitive, last_segment(path))
    }
}

/// A score as a kept entry holds it: at most `isize::MAX`.
pub open spec fn held_score(score: nat) -> nat {
    if score <= isize::MAX {
        score
    } else {
        isize::MAX as nat
    }
}

/// The score of the compared text `text` against `pattern` under the test
/// `mode`, where the test keeps it. A literal test computes no score and
/// gives `LITERAL_SCORE`. A match in order keeps nothing where the text
/// typed was blank, rejects a text shorter than the pattern, and scores the
/// others.
pub open spec fn mode_score(
    mode: MatchMode,
    typed_blank: bool,
    pattern: Seq<char>,
    text: Seq<char>,
    skip_spaces: bool,
) -> Option<nat> {
    match mode {
        MatchMode::Suffix => if pattern.is_suffix_of(text) {
            Some(LITERAL_SCORE as nat)
        } else {
            None
        },
        MatchMode::Contains => if occurs_in(pattern, text) {
            Some(LITERAL_SCORE as nat)
        } else {
            None
        },
        MatchMode::Fuzzy => if typed_blank || pattern.len() > text.len() {
            None
        } else {
            match scanned(text, pattern, skip_spaces) {
                Some(score) => Some(held_score(score)),
                None => None,
            }
        },
    }
}

/// A query for `kind` admits an entry of kind `mode`.
pub open spec fn admits(kind: FileMode, mode: FileMode) -> bool {
    kind == FileMode::Any || mode == kind
}

/// The score of `entry` under `options`, where the query keeps it: the kind
/// is tested first, then the text.
pub open spec fn entry_score(entry: Entry, options: Options) -> Option<nat> {
    let plan = plan_of(options);
    if admits(plan.kind, entry.mode) {
        mode_score(
            plan.mode,
            blank(plan.text),
            pattern_of(options),
            compared_text(entry.path, options),
            options.ignore_whitespace_in_query,
        )
    } else {
        None
    }
}

/// The entries of `entries` that the query keeps, each with its score, in
/// the order of `entries`.
pub open spec fn matches_of(entries: Seq<Entry>, options: Options) -> Seq<Scored>
    decreases entries.len(),
{
    if entries.len() == 0 {
        Seq::empty()
    } else {
        let front = matches_of(entries.drop_last(), options);
        match entry_score(entries.last(), options) {
            Some(score) => front.push(Scored { entry: entries.last(), score }),
            None => front,
        }
    }
}

/// A query taken apart, as the filter holds it: the kind and the test it
/// asks for, the text to test with as it is compared, and whether the text
/// typed was blank.
#[derive(Clone, Debug, PartialEq, Eq)]
pub struct QueryPlan {
    pub kind: FileMode,
    pub mode: MatchMode,
    pub pattern: Vec<char>,
    pub blank: bool,
}

/// `plan` is the plan of the query of `options`.
pub open spec fn is_plan_of(plan: QueryPlan, options: Options) -> bool {
    &&& plan.kind == plan_of(options).kind
    &&& plan.mode == plan_of(options).mode
    &&& plan.pattern@ == pattern_of(options)
    &&& plan.blank == blank(plan_of(options).text)
}

/// The kind that `query` asks for.
pub fn directive_of(query: &[char]) -> (kind: FileMode)
    ensures
        kind == directive(query@),
{
    if query.len() >= 2 && query[0] == ':' {
        let letter = query[1];
        if letter == 'f' {
            FileMode::File
        } else if letter == 'd' {
            FileMode::Dir
        } else if letter == 'l' {
            FileMode::Link
        } else {
            FileMode::Any
        }
    } else {
        FileMode::Any
    }
}

/// Takes the query of `options` apart.
pub fn plan(options: &MatchOptions) -> (plan: QueryPlan)
    ensures
        is_plan_of(plan, options@),
{
    let query = chars_of(options.query.as_str());
    let kind = directive_of(query.as_slice());
    let start: usize = if kind != FileMode::Any {
        2
    } else {
        0
    };
    let end: usize = query.len();
    let ghost rest = without_directive(query@);
    proof {
        assert(rest =~= query@.subrange(start as int, end as int));
        if start < end {
            assert(rest.last() == query@[end - 1]);
            assert(rest.drop_last() =~= query@.subrange(start as int, end - 1));
        }
    }
    let (mode, typed) = if options.enable_suffix_mode && start < end && query[end - 1] == '$' {
        (MatchMode::Suffix, piece(query.as_slice(), start, end - 1))
    } else if options.enable_contains_mode && start < end && query[end - 1] == '?' {
        (MatchMode::Contains, piece(query.as_slice(), start, end - 1))
    } else {
        (MatchMode::Fuzzy, piece(query.as_slice(), start, end))
    };
    let blank = is_blank(typed.as_slice());
    QueryPlan { kind, mode, pattern: fold_chars(options.case_insensitive, typed), blank }
}

/// The score of the compared text `text` under `plan`, where the plan keeps
/// it.
pub fn score_under(plan: &QueryPlan, text: &[char], skip_spaces: bool) -> (score: Option<usize>)
    ensures
        score matches Some(s) ==> mode_score(
            plan.mode,
            plan.blank,
            plan.pattern@,
            text@,
            skip_spaces,
        ) == Some(s as nat),
        score is None ==> mode_score(plan.mode, plan.blank, plan.pattern@, text@, skip_spaces)
            is None,
{
    match plan.mode {
        MatchMode::Suffix => {
            if ends_with(text, plan.pattern.as_slice()) {
                Some(LITERAL_SCORE)
            } else {
                None
            }
        },
        MatchMode::Contains => {
            if contains(text, plan.pattern.as_slice()) {
                Some(LITERAL_SCORE)
            } else {
                None
            }
        },
        MatchMode::Fuzzy => {
            if plan.blank || plan.pattern.len() > text.len() {
                None
            } else {
                match scan_score(text, plan.pattern.as_slice(), skip_spaces) {
                    Some(score) => Some(score as usize),
                    None => None,
                }
            }
        },
    }
}

/// The text of the path `path` that is compared under `options`.
pub fn text_to_compare(path: &str, options: &MatchOptions) -> (text: Vec<char>)
    ensures
        text@ == compared_text(path@, options@),
{
    if options.match_full_path {
        fold(options.case_insensitive, path)
    } else {
        let whole = chars_of(path);
        fold_chars(options.case_insensitive, final_segment(whole.as_slice()))
    }
}

/// What is kept of one entry is an entry of the input with its own score,
/// and each input entry with a score is kept.
pub proof fn lemma_matches_are_entries(entries: Seq<Entry>, options: Options)
    ensures
        forall|i: int|
            0 <= i < matches_of(entries, options).len() ==> exists|k: int|
                0 <= k < entries.len() && entries[k] == (#[trigger] matches_of(
                    entries,
                    options,
                )[i]).entry && entry_score(entries[k], options) == Some(
                    matches_of(entries, options)[i].score,
                ),
        forall|k: int|
            0 <= k < entries.len() && entry_score(#[trigger] entries[k], options) is Some
                ==> matches_of(entries, options).contains(
                Scored { entry: entries[k], score: entry_score(entries[k], options)->0 },
            ),
        matches_of(entries, options).len() <= entries.len(),
    decreases entries.len(),
{
    if entries.len() > 0 {
        let front = entries.drop_last();
        let kept = matches_of(entries, options);
        let kept_before = matches_of(front, options);
        lemma_matches_are_entries(front, options);
        assert forall|i: int| 0 <= i < kept.len() implies exists|k: int|
            0 <= k < entries.len() && entries[k] == (#[trigger] kept[i]).entry && entry_score(
                entries[k],
                options,
            ) == Some(kept[i].score) by {
            if i < kept_before.len() {
                assert(kept[i] == kept_before[i]);
                let k = choose|k: int|
                    0 <= k < front.len() && front[k] == kept_before[i].entry && entry_score(
                        front[k],
                        options,
                    ) == Some(kept_before[i].score);
                assert(entries[k] == front[k]);
            } else {
                assert(entries[entries.len() - 1] == kept[i].entry);
            }
        }
        assert forall|k: int|
            0 <= k < entries.len() && entry_score(
                #[trigger] entries[k],
                options,
            ) is Some implies kept.contains(
            Scored { entry: entries[k], score: entry_score(entries[k], options)->0 },
        ) by {
            let wanted = Scored { entry: entries[k], score: entry_score(entries[k], options)->0 };
            if k < front.len() {
                assert(entries[k] == front[k]);
                assert(kept_before.contains(wanted));
                let i = choose|i: int| 0 <= i < kept_before.len() && kept_before[i] == wanted;
                assert(kept[i] == wanted);
            } else {
                assert(kept[kept.len() - 1] == wanted);
            }
        }
    }
}

/// Keeps the entries that the query of `options` matches and ranks them by
/// score, the highest first. The result holds exactly the kept entries, each
/// as often as the input holds it and with its own score; entries of equal
/// score stand in no promised order.
pub fn filter(entries: &Vec<FileHit>, options: &MatchOptions) -> (kept: Vec<ScoredHit>)
    ensures
        forall|i: int, j: int| 0 <= i < j < kept@.len() ==> kept@[i].score >= kept@[j].score,
        scored_of(kept@).to_multiset() == matches_of(entries_of(entries@), options@).to_multiset(),
        kept@.len() == matches_of(entries_of(entries@), options@).len(),
        forall|i: int|
            0 <= i < kept@.len() ==> kept@[i].score >= 1 && exists|k: int|
                0 <= k < entries@.len() && entries@[k]@ == (#[trigger] kept@[i]).hit@
                    && entry_score(entries@[k]@, options@) == Some(kept@[i].score as nat),
        forall|k: int|
            0 <= k < entries@.len() && entry_score((#[trigger] entries@[k])@, options@) is Some
                ==> exists|i: int|
                0 <= i < kept@.len() && kept@[i]@ == (Scored {
                    entry: entries@[k]@,
                    score: entry_score(entries@[k]@, options@)->0,
                }),
{
    let plan = plan(options);
    let ghost all = entries_of(entries@);
    let mut found: Vec<ScoredHit> = Vec::new();
    let mut at: usize = 0;
    while at < entries.len()
        invariant
            at <= entries.len(),
            all == entries_of(entries@),
            is_plan_of(plan, options@),
            scored_of(found@) == matches_of(all.take(at as int), options@),
        decreases entries.len() - at,
    {
        let hit = &entries[at];
        let ghost before = scored_of(found@);
        proof {
            assert(all.take(at + 1).drop_last() =~= all.take(at as int));
            assert(all.take(at + 1).last() == hit@);
        }
        if plan.kind == FileMode::Any || hit.mode == plan.kind {
            let text = text_to_compare(hit.path.as_str(), options);
            match score_under(&plan, text.as_slice(), options.ignore_whitespace_in_query) {
                Some(score) => {
                    let kept = ScoredHit {
                        hit: FileHit { path: hit.path.clone(), mode: hit.mode },
                        score,
                    };
                    found.push(kept);
                    assert(scored_of(found@) =~= before.push(
                        Scored { entry: hit@, score: score as nat },
                    ));
                },
                None => {},
            }
        }
        at += 1;
    }
    let ghost unsorted = found@;
    let kept = sort_ranked(found);
    proof {
        assert forall|i: int, j: int| 0 <= i < j < kept@.len() implies kept@[i].score
            >= kept@[j].score by {
            assert(kept@[i].ranks_before(&kept@[j]));
        }
        assert(all.take(entries.len() as int) =~= all);
        let wanted = matches_of(all, options@);
        lemma_map_keeps_multiset(kept@, unsorted, |hit: ScoredHit| hit@);
        lemma_matches_are_entries(all, options@);
        scored_of(kept@).to_multiset_ensures();
        wanted.to_multiset_ensures();
        assert forall|i: int| 0 <= i < kept@.len() implies kept@[i].score >= 1 && exists|k: int|
            0 <= k < entries@.len() && entries@[k]@ == (#[trigger] kept@[i]).hit@ && entry_score(
                entries@[k]@,
                options@,
            ) == Some(kept@[i].score as nat) by {
            let one = scored_of(kept@)[i];
            assert(scored_of(kept@).contains(one));
            assert(scored_of(kept@).to_multiset().count(one) > 0);
            assert(wanted.to_multiset().count(one) > 0);
            assert(wanted.contains(one));
            let w = choose|w: int| 0 <= w < wanted.len() && wanted[w] == one;
            let k = choose|k: int|
                0 <= k < all.len() && all[k] == wanted[w].entry && entry_score(all[k], options@)
                    == Some(wanted[w].score);
            assert(all[k] == entries@[k]@);
            lemma_kept_score_positive(all[k], options@);
        }
        assert forall|k: int|
            0 <= k < entries@.len() && entry_score(
                (#[trigger] entries@[k])@,
                options@,
            ) is Some implies exists|i: int|
            0 <= i < kept@.len() && kept@[i]@ == (Scored {
                entry: entries@[k]@,
                score: entry_score(entries@[k]@, options@)->0,
            }) by {
            let one = Scored { entry: entries@[k]@, score: entry_score(entries@[k]@, options@)->0 };
            assert(all[k] == entries@[k]@);
            assert(wanted.contains(one));
            assert(wanted.to_multiset().count(one) > 0);
            assert(scored_of(kept@).to_multiset().count(one) > 0);
            assert(scored_of(kept@).contains(one));
            let i = choose|i: int| 0 <= i < scored_of(kept@).len() && scored_of(kept@)[i] == one;
            assert(kept@[i]@ == one);
        }
    }
    kept
}

/// Every kept entry has a score of at least 1.
pub proof fn lemma_kept_score_positive(entry: Entry, options: Options)
    ensures
        entry_score(entry, options) matches Some(score) ==> 1 <= score <= isize::MAX,
{
    lemma_score_at_most_full_run(
        compared_text(entry.path, options),
        pattern_of(options),
        options.ignore_whitespace_in_query,
    );
}

} // verus!
