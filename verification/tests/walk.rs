use spear_rs::order::sort_ranked;
use spear_rs::walk::normalize;
use spear_rs::{walk, DirItem, FileHit, FileMode, Walker};

fn file(path: &str) -> FileHit {
    FileHit { path: path.to_string(), mode: FileMode::File }
}

fn dir(path: &str) -> FileHit {
    FileHit { path: path.to_string(), mode: FileMode::Dir }
}

fn item_dir(name: &str) -> DirItem {
    DirItem { name: name.to_string(), is_dir: true, is_file: false }
}

fn item_file(name: &str) -> DirItem {
    DirItem { name: name.to_string(), is_dir: false, is_file: true }
}

fn item_other(name: &str) -> DirItem {
    DirItem { name: name.to_string(), is_dir: false, is_file: false }
}

/// A small tree: what each directory holds, by the path it is asked for.
fn tree(path: &str) -> Option<Vec<DirItem>> {
    match path {
        "." => Some(vec![item_file("README.md"), item_dir("src"), item_other("link"), item_dir("empty"), item_dir("locked"), item_file("z.txt")]),
        "./src" => Some(vec![item_file("main.rs"), item_dir("bin"), item_file("lib.rs")]),
        "./src/bin" => Some(vec![item_file("tool.rs")]),
        "./empty" => Some(vec![]),
        _ => None,
    }
}

/// The same tree with the items of each directory in another order.
fn tree_turned(path: &str) -> Option<Vec<DirItem>> {
    match tree(path) {
        Some(mut items) => {
            items.reverse();
            Some(items)
        },
        None => None,
    }
}

/// A tree that is the same wherever it is asked for: a file and a directory
/// at the top, a file in the directory.
fn tree_anywhere(path: &str) -> Option<Vec<DirItem>> {
    if path.ends_with("/d") {
        Some(vec![item_file("a")])
    } else if path.ends_with("/a") {
        None
    } else {
        Some(vec![item_file("a"), item_dir("d")])
    }
}

/// Walks `root`, and returns the directories asked for, in order, with the
/// state at the end.
fn run(root: &str, list: fn(&str) -> Option<Vec<DirItem>>) -> (Vec<String>, Walker) {
    let mut state = Walker::new(root);
    let mut asked = Vec::new();
    while !state.is_done() {
        let path = state.pending.clone().unwrap();
        let listing = list(&path);
        asked.push(path);
        walk(&mut state, listing);
        assert!(asked.len() < 100);
    }
    (asked, state)
}

#[test]
fn walk_descends_before_it_goes_on() {
    let (asked, state) = run(".", tree);
    assert_eq!(asked, vec![".", "./src", "./src/bin", "./empty", "./locked"]);
    assert_eq!(state.stack.len(), 0);
    assert_eq!(
        state.found,
        vec![
            file("./README.md"),
            dir("./src"),
            file("./src/main.rs"),
            dir("./src/bin"),
            file("./src/bin/tool.rs"),
            file("./src/lib.rs"),
            dir("./empty"),
            dir("./locked"),
            file("./z.txt"),
        ]
    );
}

#[test]
fn walk_returns_entries_sorted_by_path() {
    let (_, state) = run(".", tree);
    assert_eq!(
        state.finish(),
        vec![
            file("./README.md"),
            dir("./empty"),
            dir("./locked"),
            dir("./src"),
            dir("./src/bin"),
            file("./src/bin/tool.rs"),
            file("./src/lib.rs"),
            file("./src/main.rs"),
            file("./z.txt"),
        ]
    );
}

#[test]
fn walk_twice_gives_the_same_entries() {
    let (_, first) = run(".", tree);
    let (_, second) = run(".", tree);
    assert_eq!(first.found, second.found);
    assert_eq!(first.finish(), second.finish());
}

#[test]
fn walk_result_does_not_depend_on_listing_order() {
    let (asked, turned) = run(".", tree_turned);
    assert_eq!(asked, vec![".", "./locked", "./empty", "./src", "./src/bin"]);
    let (_, straight) = run(".", tree);
    assert_ne!(turned.found, straight.found);
    assert_eq!(turned.finish(), straight.finish());
}

#[test]
fn unreadable_root_gives_nothing() {
    let (asked, state) = run("missing", tree);
    assert_eq!(asked, vec!["missing"]);
    assert_eq!(state.finish(), vec![]);
    let mut state = Walker::new(".");
    walk(&mut state, Some(Vec::new()));
    assert!(state.is_done());
    assert_eq!(state.finish(), vec![]);
}

#[test]
fn unreadable_directory_is_recorded_and_passed_over() {
    let mut state = Walker::new("r");
    walk(&mut state, Some(vec![item_dir("a"), item_file("b")]));
    assert_eq!(state.pending, Some("r/a".to_string()));
    assert_eq!(state.found, vec![dir("r/a")]);
    walk(&mut state, None);
    assert_eq!(state.pending, None);
    assert_eq!(state.found, vec![dir("r/a"), file("r/b")]);
}

#[test]
fn items_that_are_neither_file_nor_directory_are_left_out() {
    let mut state = Walker::new("r");
    walk(&mut state, Some(vec![item_other("socket"), item_file("f"), item_other("link")]));
    assert!(state.is_done());
    assert_eq!(state.finish(), vec![file("r/f")]);
}

#[test]
fn an_item_flagged_both_ways_is_a_directory() {
    let mut state = Walker::new("r");
    walk(&mut state, Some(vec![DirItem { name: "both".to_string(), is_dir: true, is_file: true }]));
    assert_eq!(state.pending, Some("r/both".to_string()));
    assert_eq!(state.found, vec![dir("r/both")]);
}

#[test]
fn finished_walk_stays_finished() {
    let mut state = Walker::new("r");
    walk(&mut state, Some(vec![item_file("f")]));
    assert!(state.is_done());
    walk(&mut state, Some(vec![item_file("g"), item_dir("d")]));
    assert!(state.is_done());
    walk(&mut state, None);
    assert_eq!(state.found, vec![file("r/f")]);
    assert_eq!(state.stack.len(), 0);
}

#[test]
fn new_walk_waits_for_its_root() {
    let state = Walker::new("C:\\dev");
    assert!(!state.is_done());
    assert_eq!(state.pending, Some("C:\\dev".to_string()));
    assert_eq!(state.found, vec![]);
    assert_eq!(state.stack.len(), 0);
}

#[test]
fn recorded_paths_are_normalized_and_asked_paths_are_not() {
    let mut state = Walker::new("C:\\dev\\");
    walk(&mut state, Some(vec![item_dir("sub"), item_file("a.txt")]));
    assert_eq!(state.pending, Some("C:\\dev\\/sub".to_string()));
    assert_eq!(state.found, vec![dir("C:/dev/sub")]);
    walk(&mut state, Some(vec![item_file("b\\c")]));
    assert!(state.is_done());
    assert_eq!(state.found, vec![dir("C:/dev/sub"), file("C:/dev/sub/b/c"), file("C:/dev/a.txt")]);
    assert_eq!(state.finish(), vec![file("C:/dev/a.txt"), dir("C:/dev/sub"), file("C:/dev/sub/b/c")]);
}

#[test]
fn names_with_a_separator_can_give_one_path_twice() {
    let mut state = Walker::new("r");
    walk(&mut state, Some(vec![item_dir("a"), item_file("a\\b")]));
    assert_eq!(state.pending, Some("r/a".to_string()));
    walk(&mut state, Some(vec![item_file("b")]));
    assert!(state.is_done());
    assert_eq!(state.found, vec![dir("r/a"), file("r/a/b"), file("r/a/b")]);
    assert_eq!(state.finish(), vec![dir("r/a"), file("r/a/b"), file("r/a/b")]);
}

#[test]
fn plain_names_give_distinct_paths() {
    let (_, state) = run(".", tree);
    let files = state.finish();
    for (at, one) in files.iter().enumerate() {
        for other in files[at + 1..].iter() {
            assert_ne!(one.path, other.path);
        }
    }
    let (_, rooted) = run("C:\\dev\\", tree_anywhere);
    let files = rooted.finish();
    assert_eq!(files, vec![file("C:/dev/a"), dir("C:/dev/d"), file("C:/dev/d/a")]);
}

#[test]
fn separators_are_normalized() {
    assert_eq!(normalize(""), "");
    assert_eq!(normalize("src/main.rs"), "src/main.rs");
    assert_eq!(normalize(".\\src\\main.rs"), "./src/main.rs");
    assert_eq!(normalize("a//b"), "a/b");
    assert_eq!(normalize("a\\\\b"), "a/b");
    assert_eq!(normalize("a\\/b"), "a/b");
    assert_eq!(normalize("//"), "/");
    assert_eq!(normalize("/"), "/");
    assert_eq!(normalize("\\"), "/");
    assert_eq!(normalize("a/é\\€"), "a/é/€");
}

#[test]
fn slashes_are_halved_pair_by_pair() {
    assert_eq!(normalize("a///b"), "a//b");
    assert_eq!(normalize("a////b"), "a//b");
    assert_eq!(normalize("a/////b"), "a///b");
    assert_eq!(normalize("///"), "//");
    assert_eq!(normalize("//a//b//"), "/a/b/");
    for path in ["a///b", "x\\\\\\y//z", "//\\//", "plain", "a/b//c///d////e"] {
        assert_eq!(normalize(path), path.replace("\\", "/").replace("//", "/"));
    }
}

#[test]
fn sorting_keeps_every_entry() {
    let entries = vec![file("b"), dir("a"), file("b"), file(""), dir("B"), file("a/b"), file("a")];
    let sorted = sort_ranked(entries.clone());
    let paths: Vec<&str> = sorted.iter().map(|entry| entry.path.as_str()).collect();
    assert_eq!(paths, vec!["", "B", "a", "a", "a/b", "b", "b"]);
    for entry in entries.iter() {
        let given = entries.iter().filter(|other| *other == entry).count();
        let kept = sorted.iter().filter(|other| *other == entry).count();
        assert_eq!(given, kept);
    }
    assert_eq!(sort_ranked(Vec::<FileHit>::new()), vec![]);
    assert_eq!(sort_ranked(vec![file("x")]), vec![file("x")]);
}

#[test]
fn sorting_many_entries() {
    let mut entries = Vec::new();
    let mut seed: usize = 7;
    for _ in 0..500 {
        seed = seed.wrapping_mul(1103515245).wrapping_add(12345) % 2147483648;
        entries.push(file(&format!("dir{}/file{}", seed % 13, seed % 101)));
    }
    let sorted = sort_ranked(entries.clone());
    assert_eq!(sorted.len(), 500);
    for pair in sorted.windows(2) {
        assert!(pair[0].path <= pair[1].path);
    }
    let mut expected = entries;
    expected.sort_by(|a, b| a.path.cmp(&b.path));
    assert_eq!(sorted, expected);
}
