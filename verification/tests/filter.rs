use spear_rs::filter::{
    directive_of, plan, score_under, text_to_compare, MatchMode, QueryPlan, LITERAL_SCORE,
};
use spear_rs::{filter, FileHit, FileMode, MatchOptions, ScoredHit};

fn hit(path: &str, mode: FileMode) -> FileHit {
    FileHit { path: path.to_string(), mode }
}

fn file(path: &str) -> FileHit {
    hit(path, FileMode::File)
}

fn dir(path: &str) -> FileHit {
    hit(path, FileMode::Dir)
}

fn options(query: &str) -> MatchOptions {
    let mut options = MatchOptions::new();
    options.query = query.to_string();
    options
}

fn chars(text: &str) -> Vec<char> {
    text.chars().collect()
}

/// The kept entries as (score, path, kind), those of equal score by path.
fn kept(entries: &Vec<FileHit>, options: &MatchOptions) -> Vec<(usize, String, FileMode)> {
    let ranked: Vec<ScoredHit> = filter(entries, options);
    for pair in ranked.windows(2) {
        assert!(pair[0].score >= pair[1].score);
    }
    for one in ranked.iter() {
        assert!(one.score >= 1);
        assert!(entries.contains(&one.hit));
    }
    let mut rows: Vec<(usize, String, FileMode)> =
        ranked.into_iter().map(|one| (one.score, one.hit.path, one.hit.mode)).collect();
    rows.sort_by(|a, b| b.0.cmp(&a.0).then(a.1.cmp(&b.1)).then(a.2.as_usize().cmp(&b.2.as_usize())));
    rows
}

fn row(score: usize, path: &str, mode: FileMode) -> (usize, String, FileMode) {
    (score, path.to_string(), mode)
}

fn project() -> Vec<FileHit> {
    vec![dir("src"), file("README.md"), file("src/lib.rs"), file("src/main.rs")]
}

#[test]
fn end_to_end_main_rs() {
    let entries = vec![file("src/main.rs"), file("src/lib.rs"), file("README.md")];
    let found = filter(&entries, &options("main.rs"));
    assert_eq!(found.len(), 1);
    assert_eq!(found[0].hit, file("src/main.rs"));
    assert_eq!(found[0].score, 10080);
    assert_eq!(kept(&project(), &options("main.rs")), vec![row(10080, "src/main.rs", FileMode::File)]);
}

#[test]
fn suffix_form_keeps_what_ends_with_the_text() {
    assert_eq!(
        kept(&project(), &options("rs$")),
        vec![row(1, "src/lib.rs", FileMode::File), row(1, "src/main.rs", FileMode::File)]
    );
    let entries = vec![file("a/bars"), dir("rs"), file("rs/x"), file("x.rsx"), file("r_s"), file("s")];
    assert_eq!(
        kept(&entries, &options("rs$")),
        vec![row(1, "a/bars", FileMode::File), row(1, "rs", FileMode::Dir)]
    );
}

#[test]
fn suffix_form_keeps_what_scoring_would_reject() {
    let entries = vec![file("xrs"), file("r.s")];
    let mut fuzzy = options("rs$");
    fuzzy.enable_suffix_mode = false;
    assert_eq!(kept(&entries, &fuzzy), vec![]);
    assert_eq!(kept(&entries, &options("rs$")), vec![row(1, "xrs", FileMode::File)]);
    let with_dollar = vec![file("r.s$"), file("rs")];
    assert_eq!(kept(&with_dollar, &fuzzy), vec![row(8, "r.s$", FileMode::File)]);
    assert_eq!(kept(&with_dollar, &options("rs$")), vec![row(1, "rs", FileMode::File)]);
}

#[test]
fn suffix_form_folds_case() {
    let entries = vec![file("Main.RS"), file("lib.rs"), file("x.Rs"), dir("rs")];
    assert_eq!(
        kept(&entries, &options("RS$")),
        vec![
            row(1, "Main.RS", FileMode::File),
            row(1, "lib.rs", FileMode::File),
            row(1, "rs", FileMode::Dir),
            row(1, "x.Rs", FileMode::File),
        ]
    );
    let mut exact = options("RS$");
    exact.case_insensitive = false;
    assert_eq!(kept(&entries, &exact), vec![row(1, "Main.RS", FileMode::File)]);
}

#[test]
fn contains_form_keeps_what_holds_the_text() {
    let entries = vec![
        dir("tests"),
        file("tests/a.rs"),
        file("src/my_test_file.rs"),
        file("src/tset.rs"),
        file("latest"),
        dir("x/Test"),
        file("test/x"),
    ];
    assert_eq!(
        kept(&entries, &options("test?")),
        vec![
            row(1, "latest", FileMode::File),
            row(1, "src/my_test_file.rs", FileMode::File),
            row(1, "tests", FileMode::Dir),
            row(1, "x/Test", FileMode::Dir),
        ]
    );
    let mut whole = options("test?");
    whole.match_full_path = true;
    assert_eq!(kept(&entries, &whole).len(), 6);
    let mut exact = options("test?");
    exact.case_insensitive = false;
    assert_eq!(
        kept(&entries, &exact),
        vec![
            row(1, "latest", FileMode::File),
            row(1, "src/my_test_file.rs", FileMode::File),
            row(1, "tests", FileMode::Dir),
        ]
    );
    let mut off = options("test?");
    off.enable_contains_mode = false;
    assert_eq!(kept(&entries, &off), vec![]);
    assert_eq!(
        kept(&entries, &options(":dtest?")),
        vec![row(1, "tests", FileMode::Dir), row(1, "x/Test", FileMode::Dir)]
    );
}

#[test]
fn suffix_form_comes_before_contains_form() {
    let entries = vec![file("a?"), file("a?b"), file("a")];
    assert_eq!(kept(&entries, &options("a?$")), vec![row(1, "a?", FileMode::File)]);
    let question = vec![file("a$"), file("a$b"), file("a")];
    assert_eq!(
        kept(&question, &options("a$?")),
        vec![row(1, "a$", FileMode::File), row(1, "a$b", FileMode::File)]
    );
}

fn mains() -> Vec<FileHit> {
    vec![
        dir("my main"),
        file("my main"),
        dir("main"),
        file("main"),
        hit("main", FileMode::Link),
        hit("x/main", FileMode::Any),
        dir("domain"),
    ]
}

#[test]
fn directive_keeps_one_kind() {
    assert_eq!(kept(&mains(), &options(":d main")), vec![row(240, "my main", FileMode::Dir)]);
    assert_eq!(
        kept(&mains(), &options(":dmain")),
        vec![
            row(48, "domain", FileMode::Dir),
            row(48, "main", FileMode::Dir),
            row(24, "my main", FileMode::Dir),
        ]
    );
    assert_eq!(
        kept(&mains(), &options(":fmain")),
        vec![row(48, "main", FileMode::File), row(24, "my main", FileMode::File)]
    );
    assert_eq!(kept(&mains(), &options(":lmain")), vec![row(48, "main", FileMode::Link)]);
    for one in filter(&mains(), &options(":d main")).iter() {
        assert_eq!(one.hit.mode, FileMode::Dir);
    }
}

#[test]
fn no_directive_keeps_every_kind() {
    let all = kept(&mains(), &options("main"));
    assert_eq!(all.len(), 7);
    assert_eq!(all[0].0, 48);
    assert_eq!(all[6].0, 24);
    assert_eq!(kept(&mains(), &options(":xmain")), vec![]);
    let colon = vec![file(":xmain"), file("main")];
    assert_eq!(kept(&colon, &options(":xmain")).len(), 1);
}

#[test]
fn directive_letters_are_lower_case() {
    assert_eq!(kept(&mains(), &options(":Dmain")), vec![]);
    let marked = vec![dir(":dmain"), file(":Dmain"), dir("main")];
    assert_eq!(
        kept(&marked, &options(":Dmain")),
        vec![row(1440, ":Dmain", FileMode::File), row(1440, ":dmain", FileMode::Dir)]
    );
    let mut exact = options(":Dmain");
    exact.case_insensitive = false;
    assert_eq!(kept(&marked, &exact), vec![row(1440, ":Dmain", FileMode::File)]);
    assert_eq!(directive_of(&chars(":d")), FileMode::Dir);
    assert_eq!(directive_of(&chars(":f x")), FileMode::File);
    assert_eq!(directive_of(&chars(":l")), FileMode::Link);
    assert_eq!(directive_of(&chars(":D")), FileMode::Any);
    assert_eq!(directive_of(&chars(":")), FileMode::Any);
    assert_eq!(directive_of(&chars("")), FileMode::Any);
    assert_eq!(directive_of(&chars("d:")), FileMode::Any);
    assert_eq!(directive_of(&chars(" :d")), FileMode::Any);
}

#[test]
fn bare_directive_keeps_nothing_and_bare_mark_keeps_the_kind() {
    assert_eq!(kept(&mains(), &options(":d")), vec![]);
    assert_eq!(kept(&mains(), &options(":")), vec![]);
    assert_eq!(kept(&mains(), &options("")), vec![]);
    assert_eq!(kept(&mains(), &options("   ")), vec![]);
    assert_eq!(kept(&mains(), &options(":d$")).len(), 3);
    assert_eq!(kept(&mains(), &options(":d?")).len(), 3);
    assert_eq!(kept(&mains(), &options("$")).len(), 7);
}

#[test]
fn query_is_taken_apart() {
    let suffix = plan(&options(":frs$"));
    assert_eq!(suffix, QueryPlan { kind: FileMode::File, mode: MatchMode::Suffix, pattern: chars("rs"), blank: false });
    let part = plan(&options("Te St?"));
    assert_eq!(part, QueryPlan { kind: FileMode::Any, mode: MatchMode::Contains, pattern: chars("te st"), blank: false });
    let mut plain = options("Te St?");
    plain.enable_contains_mode = false;
    plain.case_insensitive = false;
    assert_eq!(plan(&plain), QueryPlan { kind: FileMode::Any, mode: MatchMode::Fuzzy, pattern: chars("Te St?"), blank: false });
    let bare = plan(&options(":l"));
    assert_eq!(bare, QueryPlan { kind: FileMode::Link, mode: MatchMode::Fuzzy, pattern: chars(""), blank: true });
    let space = plan(&options(":d \t?"));
    assert_eq!(space, QueryPlan { kind: FileMode::Dir, mode: MatchMode::Contains, pattern: chars(" \t"), blank: true });
    let upper = plan(&options(":F$"));
    assert_eq!(upper, QueryPlan { kind: FileMode::Any, mode: MatchMode::Suffix, pattern: chars(":f"), blank: false });
}

#[test]
fn literal_match_has_the_literal_score() {
    assert_eq!(LITERAL_SCORE, 1);
    let suffix = plan(&options("rs$"));
    assert_eq!(score_under(&suffix, &chars("main.rs"), false), Some(1));
    assert_eq!(score_under(&suffix, &chars("main.rb"), false), None);
    assert_eq!(score_under(&suffix, &chars("s"), false), None);
    let fuzzy = plan(&options("rs"));
    assert_eq!(score_under(&fuzzy, &chars("main.rs"), false), Some(4));
}

#[test]
fn final_segment_or_whole_path_is_compared() {
    assert_eq!(kept(&project(), &options("src")), vec![row(12, "src", FileMode::Dir)]);
    let mut whole = options("src");
    whole.match_full_path = true;
    assert_eq!(
        kept(&project(), &whole),
        vec![
            row(12, "src", FileMode::Dir),
            row(12, "src/lib.rs", FileMode::File),
            row(12, "src/main.rs", FileMode::File),
        ]
    );
    assert_eq!(text_to_compare("Src/Main.RS", &options("")), chars("main.rs"));
    assert_eq!(text_to_compare("Src/Main.RS", &whole), chars("src/main.rs"));
    assert_eq!(text_to_compare("src/dir/", &options("")), chars(""));
    assert_eq!(text_to_compare("plain", &options("")), chars("plain"));
    let mut exact = options("");
    exact.case_insensitive = false;
    assert_eq!(text_to_compare("Src/Main.RS", &exact), chars("Main.RS"));
}

#[test]
fn kept_entries_are_ranked_by_score() {
    let entries = vec![
        file("c/m.a.i.n.r.s"),
        file("e/nothing"),
        file("d/ma_in.rs"),
        file("b/main.rs"),
        file("a/zz_main.rs"),
    ];
    let ranked = filter(&entries, &options("main.rs"));
    let scores: Vec<usize> = ranked.iter().map(|one| one.score).collect();
    assert_eq!(scores, vec![10080, 10080, 960, 192]);
    assert_eq!(ranked[2].hit, file("d/ma_in.rs"));
    assert_eq!(ranked[3].hit, file("c/m.a.i.n.r.s"));
    assert_eq!(
        kept(&entries, &options("main.rs")),
        vec![
            row(10080, "a/zz_main.rs", FileMode::File),
            row(10080, "b/main.rs", FileMode::File),
            row(960, "d/ma_in.rs", FileMode::File),
            row(192, "c/m.a.i.n.r.s", FileMode::File),
        ]
    );
}

#[test]
fn text_shorter_than_the_query_is_rejected() {
    let entries = vec![file("ab"), file("a b"), file("a  b"), file("xaxb")];
    let mut spaced = options("a b");
    spaced.ignore_whitespace_in_query = true;
    assert_eq!(
        kept(&entries, &spaced),
        vec![
            row(4, "a  b", FileMode::File),
            row(4, "a b", FileMode::File),
            row(4, "xaxb", FileMode::File),
        ]
    );
    assert_eq!(spear_rs::fzf("ab", &spaced), Some(4));
}

#[test]
fn equal_entries_are_kept_as_often_as_given() {
    let entries = vec![file("main.rs"), file("main.rs"), dir("main.rs"), file("lib.rs")];
    assert_eq!(
        kept(&entries, &options("main")),
        vec![
            row(48, "main.rs", FileMode::Dir),
            row(48, "main.rs", FileMode::File),
            row(48, "main.rs", FileMode::File),
        ]
    );
    assert_eq!(filter(&Vec::new(), &options("main")), vec![]);
}
