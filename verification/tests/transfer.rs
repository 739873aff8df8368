use spear_rs::transfer::{can_read, read_all, records_valid, write_all};
use spear_rs::{filter, filter_ffi, walk_ffi, Data, FileHit, FileMode, MatchOptions, ScoredHit};

const BLANK: Data = Data { path: None, len: 99, score: 77, file_type: 9 };

fn file(path: &str) -> FileHit {
    FileHit { path: path.to_string(), mode: FileMode::File }
}

fn dir(path: &str) -> FileHit {
    FileHit { path: path.to_string(), mode: FileMode::Dir }
}

fn record(at: usize, len: usize, score: usize, file_type: usize) -> Data {
    Data { path: Some(at), len, score, file_type }
}

fn chars(text: &str) -> Vec<char> {
    text.chars().collect()
}

fn options(query: &str) -> MatchOptions {
    let mut options = MatchOptions::new();
    options.query = query.to_string();
    options
}

fn project() -> Vec<FileHit> {
    vec![file("README.md"), dir("src"), file("src/lib.rs"), file("src/main.rs")]
}

#[test]
fn entries_are_written_back_to_back() {
    let mut dat = vec![BLANK; 6];
    let mut strs = vec!['#'; 40];
    let count = walk_ffi(&mut dat, 6, &mut strs, 40, &project());
    assert_eq!(count, 4);
    assert_eq!(
        dat,
        vec![record(0, 9, 0, 1), record(9, 3, 0, 0), record(12, 10, 0, 1), record(22, 11, 0, 1), BLANK, BLANK]
    );
    assert_eq!(strs, chars("README.mdsrcsrc/lib.rssrc/main.rs#######"));
}

#[test]
fn written_entries_are_read_back() {
    let mut dat = vec![BLANK; 8];
    let mut strs = vec!['#'; 64];
    let entries = vec![file("a/é€😀"), dir(""), FileHit { path: "l".to_string(), mode: FileMode::Link }, file("z")];
    let count = walk_ffi(&mut dat, 8, &mut strs, 64, &entries);
    assert_eq!(count, 4);
    assert_eq!(dat[0], record(0, 5, 0, 1));
    assert_eq!(dat[1], record(5, 0, 0, 0));
    assert!(records_valid(&dat, &strs, count));
    assert_eq!(read_all(&dat, &strs, count), entries);
    assert_eq!(read_all(&dat, &strs, 2), entries[..2].to_vec());
    assert_eq!(read_all(&dat, &strs, 0), vec![]);
}

#[test]
fn records_beyond_the_capacity_are_dropped() {
    let mut dat = vec![BLANK; 6];
    let mut strs = vec!['#'; 40];
    let count = walk_ffi(&mut dat, 2, &mut strs, 40, &project());
    assert_eq!(count, 2);
    assert_eq!(dat, vec![record(0, 9, 0, 1), record(9, 3, 0, 0), BLANK, BLANK, BLANK, BLANK]);
    assert_eq!(strs, chars("README.mdsrc############################"));
}

#[test]
fn text_beyond_the_capacity_is_dropped_whole() {
    let mut dat = vec![BLANK; 6];
    let mut strs = vec!['#'; 40];
    let count = walk_ffi(&mut dat, 6, &mut strs, 21, &project());
    assert_eq!(count, 2);
    assert_eq!(dat[2], BLANK);
    assert_eq!(strs, chars("README.mdsrc############################"));
    let count = walk_ffi(&mut dat, 6, &mut strs, 22, &project());
    assert_eq!(count, 3);
    assert_eq!(strs, chars("README.mdsrcsrc/lib.rs##################"));
}

#[test]
fn nothing_behind_a_dropped_entry_is_written() {
    let entries = vec![file("ab"), file("much too long"), file("c")];
    let mut dat = vec![BLANK; 3];
    let mut strs = vec!['#'; 5];
    let count = walk_ffi(&mut dat, 3, &mut strs, 5, &entries);
    assert_eq!(count, 1);
    assert_eq!(dat, vec![record(0, 2, 0, 1), BLANK, BLANK]);
    assert_eq!(strs, chars("ab###"));
}

#[test]
fn capacity_is_no_more_than_the_buffer_holds() {
    let mut dat = vec![BLANK; 3];
    let mut strs = vec!['#'; 12];
    let count = walk_ffi(&mut dat, 100, &mut strs, 1000, &project());
    assert_eq!(count, 2);
    assert_eq!(dat, vec![record(0, 9, 0, 1), record(9, 3, 0, 0), BLANK]);
    assert_eq!(strs, chars("README.mdsrc"));
    let mut none: Vec<Data> = Vec::new();
    let mut empty: Vec<char> = Vec::new();
    assert_eq!(walk_ffi(&mut none, 4, &mut empty, 4, &project()), 0);
    assert_eq!(walk_ffi(&mut dat, 0, &mut strs, 12, &project()), 0);
    assert_eq!(walk_ffi(&mut dat, 3, &mut strs, 0, &project()), 0);
    assert_eq!(walk_ffi(&mut dat, 3, &mut strs, 0, &vec![dir(""), dir(""), dir(""), dir("")]), 3);
    assert_eq!(walk_ffi(&mut dat, 3, &mut strs, 12, &Vec::new()), 0);
}

#[test]
fn no_write_goes_beyond_a_declared_capacity() {
    let mut entries = Vec::new();
    let mut seed: usize = 12345;
    for at in 0..40 {
        seed = seed.wrapping_mul(1103515245).wrapping_add(12345) % 2147483648;
        let len = seed % 17;
        let name: String = (0..len).map(|k| (b'a' + ((at + k) % 26) as u8) as char).collect();
        entries.push(if at % 3 == 0 { dir(&name) } else { file(&name) });
    }
    let lens: Vec<usize> = entries.iter().map(|entry| entry.path.chars().count()).collect();
    for dat_len in [0usize, 1, 2, 5, 17, 39, 40, 41, 64, 1000] {
        for strs_len in [0usize, 1, 7, 16, 17, 100, 250, 317, 400, 5000] {
            let mut dat = vec![BLANK; 64];
            let mut strs = vec!['#'; 400];
            let count = walk_ffi(&mut dat, dat_len, &mut strs, strs_len, &entries);
            let records = dat_len.min(64);
            let units = strs_len.min(400);
            let mut expected = 0;
            let mut used = 0;
            while expected < entries.len() && expected < records && used + lens[expected] <= units {
                used += lens[expected];
                expected += 1;
            }
            assert_eq!(count, expected);
            assert!(count <= dat_len);
            assert!(used <= strs_len);
            assert_eq!(dat.len(), 64);
            assert_eq!(strs.len(), 400);
            for (at, one) in dat.iter().enumerate() {
                if at >= count {
                    assert_eq!(*one, BLANK);
                }
            }
            for (at, c) in strs.iter().enumerate() {
                if at >= used {
                    assert_eq!(*c, '#');
                }
            }
            assert_eq!(read_all(&dat, &strs, count), entries[..count].to_vec());
        }
    }
}

#[test]
fn kept_entries_are_written_with_their_scores() {
    let entries = vec![file("a/zz_main.rs"), file("c/m.a.i.n.r.s"), file("e/nothing")];
    let kept: Vec<ScoredHit> = filter(&entries, &options("main.rs"));
    let mut dat = vec![BLANK; 4];
    let mut strs = vec!['#'; 30];
    let count = write_all(&mut dat, 4, &mut strs, 30, &kept);
    assert_eq!(count, 2);
    assert_eq!(dat, vec![record(0, 12, 10080, 1), record(12, 13, 192, 1), BLANK, BLANK]);
    assert_eq!(strs, chars("a/zz_main.rsc/m.a.i.n.r.s#####"));
}

#[test]
fn record_without_text_is_passed_over() {
    let strs = chars("README.mdsrc");
    let dat = vec![
        record(0, 9, 0, 1),
        Data { path: None, len: 3, score: 0, file_type: 1 },
        record(9, 3, 0, 0),
        Data { path: None, len: 0, score: 0, file_type: 12 },
    ];
    assert!(records_valid(&dat, &strs, 4));
    assert_eq!(read_all(&dat, &strs, 4), vec![file("README.md"), dir("src")]);
    assert!(!can_read(&dat[1], 12));
    assert!(can_read(&dat[0], 12));
}

#[test]
fn record_with_text_outside_the_arena_is_passed_over() {
    let strs = chars("README.mdsrc");
    let dat = vec![
        record(10, 3, 0, 1),
        record(13, 0, 0, 1),
        record(usize::MAX, 2, 0, 1),
        record(2, usize::MAX, 0, 1),
        record(12, 0, 0, 1),
        record(0, 12, 0, 0),
        record(0, 13, 0, 77),
    ];
    assert!(records_valid(&dat, &strs, 7));
    assert_eq!(read_all(&dat, &strs, 7), vec![file(""), dir("README.mdsrc")]);
    assert!(!can_read(&dat[0], 12));
    assert!(can_read(&dat[4], 12));
    assert!(can_read(&dat[5], 12));
    assert!(!can_read(&dat[5], 11));
}

#[test]
fn only_the_records_given_are_read() {
    let strs = chars("abc");
    let dat = vec![record(0, 1, 0, 1), record(1, 1, 0, 1), record(2, 1, 0, 3)];
    assert!(records_valid(&dat, &strs, 2));
    assert!(!records_valid(&dat, &strs, 3));
    assert!(!records_valid(&dat, &strs, 100));
    assert_eq!(read_all(&dat, &strs, 2), vec![file("a"), file("b")]);
    assert_eq!(read_all(&dat, &strs, 1), vec![file("a")]);
    let fine = vec![record(0, 1, 0, 1), record(1, 1, 0, 4)];
    assert!(records_valid(&fine, &strs, 100));
    assert_eq!(
        read_all(&fine, &strs, 100),
        vec![file("a"), FileHit { path: "b".to_string(), mode: FileMode::Any }]
    );
}

#[test]
fn tag_of_no_kind_is_found_out() {
    let strs = chars("abc");
    for tag in [3usize, 5, 8, usize::MAX] {
        assert!(!records_valid(&[record(0, 3, 0, tag)], &strs, 1));
        assert!(records_valid(&[record(0, 4, 0, tag)], &strs, 1));
        assert!(records_valid(&[record(0, 3, 0, tag)], &strs, 0));
    }
    for tag in [0usize, 1, 2, 4] {
        assert!(records_valid(&[record(0, 3, 0, tag)], &strs, 1));
    }
}

#[test]
fn records_are_filtered_across_the_boundary() {
    let mut dat = vec![BLANK; 8];
    let mut strs = vec!['#'; 64];
    let written = walk_ffi(&mut dat, 8, &mut strs, 64, &project());
    assert_eq!(written, 4);
    let mut dat_filtered = vec![BLANK; 4];
    let mut str_filtered = vec!['#'; 16];
    let count = filter_ffi(&dat, &strs, written, &options("main.rs"), &mut dat_filtered, 4, &mut str_filtered, 16);
    assert_eq!(count, 1);
    assert_eq!(dat_filtered, vec![record(0, 11, 10080, 1), BLANK, BLANK, BLANK]);
    assert_eq!(str_filtered, chars("src/main.rs#####"));
    assert_eq!(read_all(&dat_filtered, &str_filtered, count), vec![file("src/main.rs")]);
}

#[test]
fn filtered_records_are_ranked_and_cut_to_fit() {
    let entries = vec![file("c/m.a.i.n.r.s"), file("e/nothing"), file("d/ma_in.rs"), file("b/main.rs")];
    let mut dat = vec![BLANK; 8];
    let mut strs = vec!['#'; 64];
    let written = walk_ffi(&mut dat, 8, &mut strs, 64, &entries);
    assert_eq!(written, 4);
    let mut dat_filtered = vec![BLANK; 4];
    let mut str_filtered = vec!['#'; 32];
    let count = filter_ffi(&dat, &strs, written, &options("main.rs"), &mut dat_filtered, 4, &mut str_filtered, 32);
    assert_eq!(count, 3);
    assert_eq!(
        dat_filtered,
        vec![record(0, 9, 10080, 1), record(9, 10, 960, 1), record(19, 13, 192, 1), BLANK]
    );
    assert_eq!(str_filtered, chars("b/main.rsd/ma_in.rsc/m.a.i.n.r.s"));
    let mut short = vec!['#'; 32];
    let count = filter_ffi(&dat, &strs, written, &options("main.rs"), &mut dat_filtered, 4, &mut short, 18);
    assert_eq!(count, 1);
    assert_eq!(short, chars("b/main.rs#######################"));
    let count = filter_ffi(&dat, &strs, written, &options("main.rs"), &mut dat_filtered, 2, &mut str_filtered, 32);
    assert_eq!(count, 2);
    let count = filter_ffi(&dat, &strs, 2, &options("main.rs"), &mut dat_filtered, 4, &mut str_filtered, 32);
    assert_eq!(count, 1);
    assert_eq!(dat_filtered[0], record(0, 13, 192, 1));
    let count = filter_ffi(&dat, &strs, written, &options(":dmain.rs"), &mut dat_filtered, 4, &mut str_filtered, 32);
    assert_eq!(count, 0);
}
