use spear_rs::entry::{code_below, str_le};
use spear_rs::text::{
    ascii_space, chars_of, contains, ends_with, final_segment, fold, fold_chars, found_at,
    is_blank, piece, string_of,
};
use spear_rs::{
    set_contains_filter, set_ignore_case, set_ignore_whitespace, set_match_path,
    set_suffix_filter, set_user_input, string_from_wstr, FileMode, MatchOptions,
};

fn chars(text: &str) -> Vec<char> {
    text.chars().collect()
}

fn wide(text: &str) -> Vec<u16> {
    text.chars().map(|c| c as u32 as u16).collect()
}

#[test]
fn options_start_with_their_defaults() {
    let options = MatchOptions::new();
    assert!(options.case_insensitive);
    assert!(!options.match_full_path);
    assert!(options.enable_suffix_mode);
    assert!(options.enable_contains_mode);
    assert!(!options.ignore_whitespace_in_query);
    assert_eq!(options.query, "");
}

#[test]
fn each_switch_sets_one_option() {
    let start = MatchOptions::new();
    let mut options = start.clone();
    set_ignore_case(&mut options, 0);
    assert_eq!(options, MatchOptions { case_insensitive: false, ..start.clone() });
    set_ignore_case(&mut options, 1);
    assert_eq!(options, start);
    set_suffix_filter(&mut options, 0);
    assert_eq!(options, MatchOptions { enable_suffix_mode: false, ..start.clone() });
    set_suffix_filter(&mut options, 7);
    assert_eq!(options, start);
    set_contains_filter(&mut options, -1);
    assert_eq!(options, MatchOptions { enable_contains_mode: false, ..start.clone() });
    set_contains_filter(&mut options, isize::MAX);
    assert_eq!(options, start);
    set_match_path(&mut options, 1);
    assert_eq!(options, MatchOptions { match_full_path: true, ..start.clone() });
    set_match_path(&mut options, isize::MIN);
    assert_eq!(options, start);
    set_ignore_whitespace(&mut options, 2);
    assert_eq!(options, MatchOptions { ignore_whitespace_in_query: true, ..start.clone() });
    set_ignore_whitespace(&mut options, 0);
    assert_eq!(options, start);
}

#[test]
fn query_is_set_from_a_wide_string() {
    let mut options = MatchOptions::new();
    let mut units = wide("main.rs");
    units.push(0);
    units.extend(wide("ignored"));
    set_user_input(&mut options, &units);
    assert_eq!(options, MatchOptions { query: "main.rs".to_string(), ..MatchOptions::new() });
    set_user_input(&mut options, &[0]);
    assert_eq!(options.query, "");
}

#[test]
fn wide_string_ends_at_the_first_zero() {
    assert_eq!(string_from_wstr(&[]), "");
    assert_eq!(string_from_wstr(&[0]), "");
    assert_eq!(string_from_wstr(&[0, 65]), "");
    assert_eq!(string_from_wstr(&[65, 66, 0, 67]), "AB");
    assert_eq!(string_from_wstr(&[65, 66, 67]), "ABC");
    assert_eq!(string_from_wstr(&wide("C:\\dev\\é€")), "C:\\dev\\é€");
    assert_eq!(string_from_wstr(&[0xD7FF, 0xE000, 0xFFFF, 0]), "\u{d7ff}\u{e000}\u{ffff}");
}

#[test]
fn wide_string_leaves_out_surrogates() {
    assert_eq!(string_from_wstr(&[65, 0xD800, 66, 0xDFFF, 67, 0, 68]), "ABC");
    assert_eq!(string_from_wstr(&[0xD83D, 0xDE00]), "");
    assert_eq!(string_from_wstr(&[0xDBFF, 0xDC00, 0x61]), "a");
}

#[test]
fn kinds_and_their_tags() {
    assert_eq!(FileMode::Dir.as_usize(), 0);
    assert_eq!(FileMode::File.as_usize(), 1);
    assert_eq!(FileMode::Link.as_usize(), 2);
    assert_eq!(FileMode::Any.as_usize(), 4);
    assert_eq!(FileMode::from_usize(0), FileMode::Dir);
    assert_eq!(FileMode::from_usize(1), FileMode::File);
    assert_eq!(FileMode::from_usize(2), FileMode::Link);
    assert_eq!(FileMode::from_usize(4), FileMode::Any);
    for mode in [FileMode::File, FileMode::Dir, FileMode::Link, FileMode::Any] {
        assert!(FileMode::is_tag(mode.as_usize()));
        assert_eq!(FileMode::from_usize(mode.as_usize()), mode);
    }
    for value in [3usize, 5, 6, 255, usize::MAX] {
        assert!(!FileMode::is_tag(value));
    }
}

#[test]
fn kinds_have_names() {
    assert_eq!(FileMode::Dir.to_string(), "Dir");
    assert_eq!(FileMode::File.to_string(), "File");
    assert_eq!(FileMode::Link.to_string(), "Link");
    assert_eq!(FileMode::Any.to_string(), "Any");
}

#[test]
fn text_goes_to_characters_and_back() {
    assert_eq!(chars_of("a/é€😀"), vec!['a', '/', 'é', '€', '😀']);
    assert_eq!(chars_of(""), Vec::<char>::new());
    assert_eq!(string_of(&['a', '/', 'é', '€', '😀']), "a/é€😀");
    assert_eq!(string_of(&[]), "");
    assert_eq!(string_of(&chars_of("src/main.rs")), "src/main.rs");
}

#[test]
fn folding_lowers_case_only_when_asked() {
    assert_eq!(fold(true, "Src/MAIN.rs"), chars("src/main.rs"));
    assert_eq!(fold(false, "Src/MAIN.rs"), chars("Src/MAIN.rs"));
    assert_eq!(fold(true, "ÀÉ"), chars("àé"));
    assert_eq!(fold(true, ""), chars(""));
}

#[test]
fn pieces_of_text() {
    assert_eq!(piece(&chars("abcdef"), 1, 4), chars("bcd"));
    assert_eq!(piece(&chars("abcdef"), 0, 6), chars("abcdef"));
    assert_eq!(piece(&chars("abcdef"), 3, 3), chars(""));
    assert_eq!(piece(&chars(""), 0, 0), chars(""));
    assert_eq!(fold_chars(true, chars("Main.RS")), chars("main.rs"));
    assert_eq!(fold_chars(false, chars("Main.RS")), chars("Main.RS"));
}

#[test]
fn white_space_is_told_apart() {
    for c in [' ', '\t', '\n', '\x0c', '\r'] {
        assert!(ascii_space(c));
    }
    for c in ['a', '\x0b', '\u{a0}', '\u{2003}', '_', '\0'] {
        assert!(!ascii_space(c));
    }
    assert!(is_blank(&chars("")));
    assert!(is_blank(&chars(" \t\r\n\x0b\x0c\u{a0}\u{2003}\u{3000}")));
    assert!(!is_blank(&chars(" a ")));
    assert!(!is_blank(&chars("_")));
    assert!(!is_blank(&chars("\u{200b}")));
}

#[test]
fn literal_tests_on_text() {
    assert!(ends_with(&chars("main.rs"), &chars("rs")));
    assert!(ends_with(&chars("main.rs"), &chars("main.rs")));
    assert!(ends_with(&chars("main.rs"), &chars("")));
    assert!(ends_with(&chars(""), &chars("")));
    assert!(!ends_with(&chars("main.rs"), &chars("xmain.rs")));
    assert!(!ends_with(&chars("main.rs"), &chars("r")));
    assert!(!ends_with(&chars(""), &chars("a")));
    assert!(contains(&chars("my_test_file"), &chars("test")));
    assert!(contains(&chars("test"), &chars("test")));
    assert!(contains(&chars("latest"), &chars("test")));
    assert!(contains(&chars("abc"), &chars("")));
    assert!(contains(&chars(""), &chars("")));
    assert!(!contains(&chars("tset"), &chars("test")));
    assert!(!contains(&chars("tes"), &chars("test")));
    assert!(!contains(&chars("te_st"), &chars("test")));
    assert!(contains(&chars("aab"), &chars("ab")));
    assert!(found_at(&chars("xab"), &chars("xabx"), 0));
    assert!(!found_at(&chars("ab"), &chars("xabx"), 0));
    assert!(found_at(&chars("ab"), &chars("xabx"), 1));
    assert!(found_at(&chars(""), &chars("ab"), 2));
}

#[test]
fn final_segment_follows_the_last_slash() {
    assert_eq!(final_segment(&chars("src/main.rs")), chars("main.rs"));
    assert_eq!(final_segment(&chars("a/b/c")), chars("c"));
    assert_eq!(final_segment(&chars("plain")), chars("plain"));
    assert_eq!(final_segment(&chars("dir/")), chars(""));
    assert_eq!(final_segment(&chars("/")), chars(""));
    assert_eq!(final_segment(&chars("")), chars(""));
    assert_eq!(final_segment(&chars("a\\b")), chars("a\\b"));
    assert_eq!(final_segment(&chars("/abs")), chars("abs"));
}

#[test]
fn texts_are_ordered_by_code() {
    assert!(str_le("", ""));
    assert!(str_le("", "a"));
    assert!(!str_le("a", ""));
    assert!(str_le("a", "a"));
    assert!(str_le("a", "ab"));
    assert!(!str_le("ab", "a"));
    assert!(str_le("ab", "b"));
    assert!(str_le("B", "a"));
    assert!(!str_le("a", "B"));
    assert!(str_le("./README.md", "./src"));
    assert!(str_le("./src", "./src/lib.rs"));
    assert!(str_le("./src/lib.rs", "./src/main.rs"));
    assert!(str_le("z", "é"));
    assert!(str_le("\u{ffff}", "\u{10000}"));
    assert!(!str_le("\u{10000}", "\u{ffff}"));
    assert!(code_below('a', 'b'));
    assert!(!code_below('b', 'a'));
    assert!(!code_below('a', 'a'));
    for (a, b) in [("src/a", "src/b"), ("x", "x/y"), ("", "0"), ("Zed", "apple")] {
        assert_eq!(str_le(a, b), a <= b);
        assert_eq!(str_le(b, a), b <= a);
    }
}
