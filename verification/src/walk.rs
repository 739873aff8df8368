//! The directory walker, as a machine that is told what each directory
//! holds. It asks for one directory at a time, takes what is listed there in
//! order, records files and directories with their normalized paths, and
//! descends into each directory before it goes on with the next item. What
//! it has recorded is sorted by path at the end.

use vstd::prelude::*;
use vstd::string::StringExecFns;
use crate::entry::{entries_of, lemma_text_le_antisymmetric, text_le, Entry, FileHit, FileMode};
use crate::order::{lemma_map_keeps_multiset, sort_ranked, Ranked};
use crate::text::{chars_of, string_of};
use crate::walk_laws::{files_and_dirs, lemma_walk_adds};

verus! {

/// `path` with every backslash turned into a slash.
pub open spec fn with_slashes(path: Seq<char>) -> Seq<char> {
    path.map_values(
        |c: char|
            if c == '\\' {
                '/'
            } else {
                c
            },
    )
}

/// `path` with each pair of slashes, taken from the left, made one slash.
pub open spec fn halve_slashes(path: Seq<char>) -> Seq<char>
    decreases path.len(),
{
    if path.len() == 0 {
        path
    } else if path.len() >= 2 && path[0] == '/' && path[1] == '/' {
        seq!['/'] + halve_slashes(path.skip(2))
    } else {
        seq![path[0]] + halve_slashes(path.drop_first())
    }
}

/// The normalized form of `path`: backslashes become slashes, then doubled
/// slashes become single ones.
pub open spec fn normalized(path: Seq<char>) -> Seq<char> {
    halve_slashes(with_slashes(path))
}

/// The path of the item `name` in the directory `dir`.
pub open spec fn joined(dir: Seq<char>, name: Seq<char>) -> Seq<char> {
    dir.push('/') + name
}

/// Normalizes the separators of `path`.
pub fn normalize(path: &str) -> (normal: String)
    ensures
        normal@ == normalized(path@),
{
    let raw = chars_of(path);
    let mut swapped: Vec<char> = Vec::new();
    let mut i: usize = 0;
    while i < raw.len()
        invariant
            i <= raw.len(),
            swapped@ == with_slashes(raw@.take(i as int)),
        decreases raw.len() - i,
    {
        let c = raw[i];
        swapped.push(
            if c == '\\' {
                '/'
            } else {
                c
            },
        );
        assert(swapped@ =~= with_slashes(raw@.take(i + 1)));
        i += 1;
    }
    assert(raw@.take(raw.len() as int) =~= raw@);
    let mut halved: Vec<char> = Vec::new();
    let mut j: usize = 0;
    assert(swapped@.skip(0) =~= swapped@);
    assert(halved@ + halve_slashes(swapped@) =~= halve_slashes(swapped@));
    while j < swapped.len()
        invariant
            j <= swapped.len(),
            halve_slashes(swapped@) == halved@ + halve_slashes(swapped@.skip(j as int)),
        decreases swapped.len() - j,
    {
        let ghost rest = swapped@.skip(j as int);
        let ghost done = halved@;
        assert(rest[0] == swapped@[j as int]);
        if swapped[j] == '/' && j + 1 < swapped.len() && swapped[j + 1] == '/' {
            assert(rest[1] == swapped@[j + 1]);
            assert(rest.skip(2) =~= swapped@.skip(j + 2));
            halved.push('/');
            assert(halved@ + halve_slashes(rest.skip(2)) =~= done + (seq!['/'] + halve_slashes(
                rest.skip(2),
            )));
            j += 2;
        } else {
            assert(j + 1 < swapped.len() ==> rest[1] == swapped@[j + 1]);
            assert(rest.drop_first() =~= swapped@.skip(j + 1));
            halved.push(swapped[j]);
            assert(halved@ + halve_slashes(rest.drop_first()) =~= done + (seq![rest[0]]
                + halve_slashes(rest.drop_first())));
            j += 1;
        }
    }
    assert(halved@ + Seq::<char>::empty() =~= halved@);
    string_of(halved.as_slice())
}

/// One item of a directory, as the system lists it: its name, and whether it
/// is a directory or a plain file. An item that is neither, or whose kind
/// could not be read, has both flags off.
#[derive(Clone, Debug, PartialEq, Eq)]
pub struct DirItem {
    pub name: String,
    pub is_dir: bool,
    pub is_file: bool,
}

/// An item of a directory with its name as a sequence of characters.
pub struct Child {
    pub name: Seq<char>,
    pub is_dir: bool,
    pub is_file: bool,
}

impl View for DirItem {
    type V = Child;

    open spec fn view(&self) -> Child {
        Child { name: self.name@, is_dir: self.is_dir, is_file: self.is_file }
    }
}

/// The items of a listing, in order.
pub open spec fn children_of(items: Seq<DirItem>) -> Seq<Child> {
    items.map_values(|item: DirItem| item@)
}

/// What a listing holds: `None` for a directory that could not be read.
pub open spec fn listing_of(listing: Option<Vec<DirItem>>) -> Option<Seq<Child>> {
    match listing {
        Some(items) => Some(children_of(items@)),
        None => None,
    }
}

/// A directory that the walk is inside of: its path as it was asked for,
/// what it holds, and how many of its items are done.
pub struct Frame {
    pub dir: String,
    pub items: Vec<DirItem>,
    pub next: usize,
}

/// A directory that the walk is inside of.
pub struct Level {
    pub dir: Seq<char>,
    pub items: Seq<Child>,
    pub next: nat,
}

impl View for Frame {
    type V = Level;

    open spec fn view(&self) -> Level {
        Level { dir: self.dir@, items: children_of(self.items@), next: self.next as nat }
    }
}

/// The directories that the walk is inside of, the outermost first.
pub open spec fn levels_of(stack: Seq<Frame>) -> Seq<Level> {
    stack.map_values(|frame: Frame| frame@)
}

/// The state of a walk: the directories it is inside of, the directory whose
/// listing it waits for (none once the walk is over), and the entries
/// recorded so far.
pub struct Walker {
    pub stack: Vec<Frame>,
    pub pending: Option<String>,
    pub found: Vec<FileHit>,
}

/// The state of a walk.
pub struct Walk {
    pub stack: Seq<Level>,
    pub pending: Option<Seq<char>>,
    pub found: Seq<Entry>,
}

/// The text of an optional string.
pub open spec fn text_of(s: Option<String>) -> Option<Seq<char>> {
    match s {
        Some(s) => Some(s@),
        None => None,
    }
}

impl View for Walker {
    type V = Walk;

    open spec fn view(&self) -> Walk {
        Walk {
            stack: levels_of(self.stack@),
            pending: text_of(self.pending),
            found: entries_of(self.found@),
        }
    }
}

/// How many items of the innermost directory are not done.
pub open spec fn items_left(stack: Seq<Level>) -> nat {
    if stack.len() > 0 && stack.last().next < stack.last().items.len() {
        (stack.last().items.len() - stack.last().next) as nat
    } else {
        0
    }
}

/// The walk goes on from inside the directories `stack`, with `found`
/// recorded. A directory whose items are done is left. The next item of the
/// innermost directory is taken: a directory is recorded and asked for; a
/// plain file is recorded and the walk goes on; anything else is passed
/// over. With no directory left the walk is over.
pub open spec fn advance(stack: Seq<Level>, found: Seq<Entry>) -> Walk
    decreases stack.len(), items_left(stack),
{
    if stack.len() == 0 {
        Walk { stack, pending: None, found }
    } else {
        let top = stack.last();
        if top.next >= top.items.len() {
            advance(stack.drop_last(), found)
        } else {
            let item = top.items[top.next as int];
            let path = joined(top.dir, item.name);
            let rest = stack.drop_last().push(
                Level { dir: top.dir, items: top.items, next: top.next + 1 },
            );
            if item.is_dir {
                Walk {
                    stack: rest,
                    pending: Some(path),
                    found: found.push(Entry { path: normalized(path), mode: FileMode::Dir }),
                }
            } else if item.is_file {
                advance(rest, found.push(Entry { path: normalized(path), mode: FileMode::File }))
            } else {
                advance(rest, found)
            }
        }
    }
}

/// The state after the walk is told what the directory it waits for holds.
/// A directory that could be read is entered; one that could not is passed
/// over; then the walk goes on. A walk that is over stays as it is.
pub open spec fn walk_step(state: Walk, listing: Option<Seq<Child>>) -> Walk {
    match state.pending {
        None => state,
        Some(dir) => match listing {
            Some(items) => advance(state.stack.push(Level { dir, items, next: 0 }), state.found),
            None => advance(state.stack, state.found),
        },
    }
}

impl Walker {
    /// A walk of the directory `root`: it waits for the listing of `root`
    /// and has recorded nothing.
    pub fn new(root: &str) -> (state: Walker)
        ensures
            state@ == (Walk {
                stack: Seq::empty(),
                pending: Some(root@),
                found: Seq::empty(),
            }),
    {
        let state = Walker {
            stack: Vec::new(),
            pending: Some(root.to_string()),
            found: Vec::new(),
        };
        assert(state@.stack =~= Seq::<Level>::empty());
        assert(state@.found =~= Seq::<Entry>::empty());
        state
    }

    /// Whether the walk is over.
    pub fn is_done(&self) -> (done: bool)
        ensures
            done == (self@.pending is None),
    {
        self.pending.is_none()
    }

    /// The entries recorded, sorted by path: each stands at or before all
    /// that follow it in the order of texts, and the result holds what was
    /// recorded, each entry as often as it was recorded.
    pub fn finish(self) -> (files: Vec<FileHit>)
        ensures
            sorted_by_path(entries_of(files@)),
            entries_of(files@).to_multiset() == self@.found.to_multiset(),
            files@.len() == self@.found.len(),
            distinct_paths(self@.found) ==> distinct_paths(entries_of(files@)),
    {
        let ghost recorded = self.found@;
        let files = sort_ranked(self.found);
        proof {
            lemma_map_keeps_multiset(files@, recorded, |hit: FileHit| hit@);
            if distinct_paths(entries_of(recorded)) {
                lemma_distinct_paths_kept(entries_of(recorded), entries_of(files@));
            }
            assert forall|i: int, j: int| 0 <= i < j < files@.len() implies text_le(
                #[trigger] entries_of(files@)[i].path,
                #[trigger] entries_of(files@)[j].path,
            ) by {
                assert(files@[i].ranks_before(&files@[j]));
            }
        }
        files
    }
}

/// Each entry stands at or before all that follow it, by path.
pub open spec fn sorted_by_path(entries: Seq<Entry>) -> bool {
    forall|i: int, j: int|
        0 <= i < j < entries.len() ==> text_le(
            #[trigger] entries[i].path,
            #[trigger] entries[j].path,
        )
}

/// No two entries have the same path.
pub open spec fn distinct_paths(entries: Seq<Entry>) -> bool {
    forall|i: int, j: int|
        0 <= i < j < entries.len() ==> (#[trigger] entries[i]).path != (#[trigger] entries[j]).path
}

/// The paths of `entries`, in order.
pub open spec fn paths_of(entries: Seq<Entry>) -> Seq<Seq<char>> {
    entries.map_values(|entry: Entry| entry.path)
}

/// Of two sequences that hold the same entries, each as often as the other,
/// either both have distinct paths or neither.
pub proof fn lemma_distinct_paths_kept(first: Seq<Entry>, second: Seq<Entry>)
    requires
        first.to_multiset() == second.to_multiset(),
        distinct_paths(first),
    ensures
        distinct_paths(second),
{
    let paths = paths_of(first);
    let others = paths_of(second);
    assert forall|i: int, j: int| 0 <= i < paths.len() && 0 <= j < paths.len() && i != j implies
        paths[i] != paths[j] by {
        if i < j {
            assert(first[i].path != first[j].path);
        } else {
            assert(first[j].path != first[i].path);
        }
    }
    paths.lemma_multiset_has_no_duplicates();
    lemma_map_keeps_multiset(first, second, |entry: Entry| entry.path);
    others.lemma_multiset_has_no_duplicates_conv();
    assert forall|i: int, j: int| 0 <= i < j < second.len() implies (#[trigger] second[i]).path != (
    #[trigger] second[j]).path by {
        assert(others[i] != others[j]);
    }
}

/// Tells the walk what the directory it waits for holds (`None`: it could
/// not be read). Afterwards `state.pending` is the next directory to list,
/// or `None` when the walk is over. What was recorded stays, and what is
/// added to it is plain files and directories.
pub fn walk(state: &mut Walker, listing: Option<Vec<DirItem>>)
    ensures
        final(state)@ == walk_step(old(state)@, listing_of(listing)),
        old(state)@.found.is_prefix_of(final(state)@.found),
        files_and_dirs(old(state)@.found) ==> files_and_dirs(final(state)@.found),
{
    let ghost start = state@;
    let ghost given = listing_of(listing);
    proof {
        lemma_walk_adds(start, given);
    }
    let dir = match state.pending.take() {
        None => {
            assert(state@.stack == start.stack);
            return ;
        },
        Some(dir) => dir,
    };
    match listing {
        Some(items) => {
            let ghost before = levels_of(state.stack@);
            state.stack.push(Frame { dir, items, next: 0 });
            assert(levels_of(state.stack@) =~= before.push(
                Level { dir: dir@, items: children_of(items@), next: 0 },
            ));
        },
        None => {},
    }
    let ghost goal = walk_step(start, given);
    let mut pending: Option<String> = None;
    while pending.is_none() && state.stack.len() > 0
        invariant
            state.pending is None,
            pending is Some ==> goal == (Walk {
                stack: levels_of(state.stack@),
                pending: text_of(pending),
                found: entries_of(state.found@),
            }),
            pending is None ==> goal == advance(levels_of(state.stack@), entries_of(state.found@)),
        decreases
                (if pending is None {
                    1int
                } else {
                    0int
                }),
                state.stack@.len(),
                items_left(levels_of(state.stack@)),
    {
        let ghost levels = levels_of(state.stack@);
        let ghost recorded = entries_of(state.found@);
        let mut top = state.stack.pop().unwrap();
        assert(levels_of(state.stack@) =~= levels.drop_last());
        assert(levels.last() == top@);
        if top.next < top.items.len() {
            let item = &top.items[top.next];
            let mut path = top.dir.clone();
            path.push('/');
            path.append(item.name.as_str());
            assert(path@ == joined(top.dir@, item.name@));
            assert(top@.items[top.next as int] == item@);
            let is_dir = item.is_dir;
            let is_file = item.is_file;
            top.next = top.next + 1;
            let ghost lower = levels_of(state.stack@);
            state.stack.push(top);
            assert(levels_of(state.stack@) =~= lower.push(top@));
            if is_dir {
                state.found.push(FileHit { path: normalize(path.as_str()), mode: FileMode::Dir });
                assert(entries_of(state.found@) =~= recorded.push(
                    Entry { path: normalized(path@), mode: FileMode::Dir },
                ));
                pending = Some(path);
            } else if is_file {
                state.found.push(FileHit { path: normalize(path.as_str()), mode: FileMode::File });
                assert(entries_of(state.found@) =~= recorded.push(
                    Entry { path: normalized(path@), mode: FileMode::File },
                ));
            } else {
                assert(entries_of(state.found@) =~= recorded);
            }
        } else {
            assert(entries_of(state.found@) =~= recorded);
        }
    }
    state.pending = pending;
}

/// Two sorted sequences of entries with distinct paths that hold the same
/// entries are the same sequence: what a walk returns depends on the
/// entries it recorded, not on the order in which it met them.
pub proof fn lemma_sorted_entries_unique(first: Seq<Entry>, second: Seq<Entry>)
    requires
        first.to_multiset() == second.to_multiset(),
        sorted_by_path(first),
        sorted_by_path(second),
        distinct_paths(first),
    ensures
        first == second,
    decreases first.len(),
{
    first.to_multiset_ensures();
    second.to_multiset_ensures();
    if first.len() == 0 {
        assert(first =~= second);
    } else {
        let head = first[0];
        assert(first.contains(head));
        assert(first.to_multiset().count(head) > 0);
        assert(second.to_multiset().count(head) > 0);
        assert(second.contains(head));
        let k = choose|k: int| 0 <= k < second.len() && second[k] == head;
        let other = second[0];
        assert(second.contains(other));
        assert(second.to_multiset().count(other) > 0);
        assert(first.to_multiset().count(other) > 0);
        assert(first.contains(other));
        let m = choose|m: int| 0 <= m < first.len() && first[m] == other;
        if k > 0 && m > 0 {
            assert(text_le(second[0].path, second[k].path));
            assert(text_le(first[0].path, first[m].path));
            lemma_text_le_antisymmetric(head.path, other.path);
            assert(false);
        }
        assert(other == head);
        let rest_first = first.drop_first();
        let rest_second = second.drop_first();
        assert(rest_first =~= first.remove(0));
        assert(rest_second =~= second.remove(0));
        assert(rest_first.to_multiset() =~= rest_second.to_multiset());
        assert forall|i: int, j: int| 0 <= i < j < rest_first.len() implies text_le(
            #[trigger] rest_first[i].path,
            #[trigger] rest_first[j].path,
        ) && rest_first[i].path != rest_first[j].path by {
            assert(rest_first[i] == first[i + 1] && rest_first[j] == first[j + 1]);
        }
        assert forall|i: int, j: int| 0 <= i < j < rest_second.len() implies text_le(
            #[trigger] rest_second[i].path,
            #[trigger] rest_second[j].path,
        ) by {
            assert(rest_second[i] == second[i + 1] && rest_second[j] == second[j + 1]);
        }
        lemma_sorted_entries_unique(rest_first, rest_second);
        assert(first =~= seq![head] + rest_first);
        assert(second =~= seq![head] + rest_second);
    }
}

} // verus!
