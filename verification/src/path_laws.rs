//! When the paths that a walk records are distinct: in a tree whose names
//! hold no separator and are not repeated within a directory, no two
//! entries of the depth-first listing have the same path.

use vstd::prelude::*;
use crate::walk::{distinct_paths, halve_slashes, joined, normalized, with_slashes};
use crate::walk_laws::{held, lemma_tour_start, listed, outcome, tour_start, Node};

verus! {

/// A text without a backslash.
pub open spec fn no_backslash(text: Seq<char>) -> bool {
    forall|i: int| 0 <= i < text.len() ==> #[trigger] text[i] != '\\'
}

/// A text without two slashes in a row.
pub open spec fn no_double_slash(text: Seq<char>) -> bool {
    forall|i: int| 0 <= i < text.len() - 1 ==> !(#[trigger] text[i] == '/' && text[i + 1] == '/')
}

/// Whether halving the slashes of `text` from the left leaves its last
/// character, a slash, without a partner.
pub open spec fn ends_open(text: Seq<char>) -> bool
    decreases text.len(),
{
    if text.len() == 0 {
        false
    } else if text.len() >= 2 && text[0] == '/' && text[1] == '/' {
        ends_open(text.skip(2))
    } else if text.len() == 1 && text[0] == '/' {
        true
    } else {
        ends_open(text.drop_first())
    }
}

/// What is left of `tail` to halve behind `head`: all of it, unless its
/// first slash is the partner of the last one of `head`.
pub open spec fn behind(head: Seq<char>, tail: Seq<char>) -> Seq<char> {
    if ends_open(head) && tail.len() > 0 && tail[0] == '/' {
        tail.drop_first()
    } else {
        tail
    }
}

/// Halving the slashes of two texts in a row halves the first, and then
/// what is left of the second.
pub proof fn lemma_halve_concat(head: Seq<char>, tail: Seq<char>)
    ensures
        halve_slashes(head + tail) == halve_slashes(head) + halve_slashes(behind(head, tail)),
    decreases head.len(),
{
    let whole = head + tail;
    if head.len() == 0 {
        assert(whole =~= tail);
        assert(halve_slashes(head) + halve_slashes(tail) =~= halve_slashes(tail));
    } else if head.len() >= 2 && head[0] == '/' && head[1] == '/' {
        assert(whole[0] == '/' && whole[1] == '/');
        assert(whole.skip(2) =~= head.skip(2) + tail);
        lemma_halve_concat(head.skip(2), tail);
        assert(halve_slashes(whole) =~= halve_slashes(head) + halve_slashes(behind(head, tail)));
    } else if head.len() == 1 && head[0] == '/' {
        assert(head.drop_first() =~= Seq::<char>::empty());
        assert(halve_slashes(head.drop_first()) =~= Seq::<char>::empty());
        assert(halve_slashes(head) =~= seq!['/']);
        if tail.len() > 0 && tail[0] == '/' {
            assert(whole[0] == '/' && whole[1] == '/');
            assert(whole.skip(2) =~= tail.drop_first());
        } else {
            assert(whole.len() >= 2 ==> whole[1] == tail[0]);
            assert(whole.drop_first() =~= tail);
        }
    } else {
        assert(whole[0] == head[0]);
        assert(head.len() >= 2 ==> whole[1] == head[1]);
        assert(whole.drop_first() =~= head.drop_first() + tail);
        lemma_halve_concat(head.drop_first(), tail);
        assert(halve_slashes(whole) =~= halve_slashes(head) + halve_slashes(behind(head, tail)));
    }
}

/// Halving changes nothing in a text without two slashes in a row.
pub proof fn lemma_halve_nothing(text: Seq<char>)
    requires
        no_double_slash(text),
    ensures
        halve_slashes(text) == text,
    decreases text.len(),
{
    if text.len() > 0 {
        let rest = text.drop_first();
        assert forall|i: int| 0 <= i < rest.len() - 1 implies !(#[trigger] rest[i] == '/' && rest[i
            + 1] == '/') by {
            assert(rest[i] == text[i + 1] && rest[i + 1] == text[i + 2]);
            assert(!(text[i + 1] == '/' && text[i + 1 + 1] == '/'));
        }
        lemma_halve_nothing(rest);
        if text.len() >= 2 {
            assert(!(text[0int] == '/' && text[0int + 1] == '/'));
        }
        assert(seq![text[0]] + rest =~= text);
    }
}

/// Turning backslashes into slashes changes nothing in a text without
/// backslashes, and goes through two texts in a row one by one.
pub proof fn lemma_with_slashes_concat(head: Seq<char>, tail: Seq<char>)
    requires
        no_backslash(tail),
    ensures
        with_slashes(head + tail) == with_slashes(head) + tail,
{
    assert(with_slashes(head + tail) =~= with_slashes(head) + tail);
}

/// Behind one and the same root, two different texts that start with a
/// slash and hold neither a backslash nor two slashes in a row are normalized
/// to different paths.
pub proof fn lemma_normalized_apart(root: Seq<char>, first: Seq<char>, second: Seq<char>)
    requires
        first.len() > 0 && first[0] == '/',
        second.len() > 0 && second[0] == '/',
        no_backslash(first),
        no_backslash(second),
        no_double_slash(first),
        no_double_slash(second),
        first != second,
    ensures
        normalized(root + first) != normalized(root + second),
{
    let head = with_slashes(root);
    lemma_with_slashes_concat(root, first);
    lemma_with_slashes_concat(root, second);
    lemma_halve_concat(head, first);
    lemma_halve_concat(head, second);
    let left = behind(head, first);
    let right = behind(head, second);
    assert forall|i: int| 0 <= i < left.len() - 1 implies !(#[trigger] left[i] == '/' && left[i
        + 1] == '/') by {
        if ends_open(head) {
            assert(left[i] == first[i + 1] && left[i + 1] == first[i + 2]);
            assert(!(first[i + 1] == '/' && first[i + 1 + 1] == '/'));
        }
    }
    assert forall|i: int| 0 <= i < right.len() - 1 implies !(#[trigger] right[i] == '/' && right[i
        + 1] == '/') by {
        if ends_open(head) {
            assert(right[i] == second[i + 1] && right[i + 1] == second[i + 2]);
            assert(!(second[i + 1] == '/' && second[i + 1 + 1] == '/'));
        }
    }
    lemma_halve_nothing(left);
    lemma_halve_nothing(right);
    if normalized(root + first) == normalized(root + second) {
        let common = halve_slashes(head);
        assert(common + left == common + right);
        assert(left.len() == right.len());
        assert forall|i: int| 0 <= i < left.len() implies left[i] == right[i] by {
            assert((common + left)[common.len() + i] == left[i]);
            assert((common + right)[common.len() + i] == right[i]);
        }
        assert(left =~= right);
        if ends_open(head) {
            assert(first =~= seq!['/'] + left);
            assert(second =~= seq!['/'] + right);
        }
        assert(false);
    }
}

/// A name as a directory lists it: not empty, and without a separator.
pub open spec fn plain_name(name: Seq<char>) -> bool {
    &&& name.len() > 0
    &&& forall|i: int| 0 <= i < name.len() ==> #[trigger] name[i] != '/' && name[i] != '\\'
}

/// A tree in which every name is plain and no directory holds a name twice.
pub open spec fn tidy(nodes: Seq<Node>) -> bool
    decreases nodes,
{
    &&& forall|i: int| 0 <= i < nodes.len() ==> plain_name(#[trigger] nodes[i].child.name)
    &&& forall|i: int, j: int|
        0 <= i < j < nodes.len() ==> (#[trigger] nodes[i]).child.name != (
        #[trigger] nodes[j]).child.name
    &&& forall|i: int|
        0 <= i < nodes.len() && (#[trigger] nodes[i]).holds is Some ==> tidy(nodes[i].holds->0)
}

/// The paths of the depth-first listing as they are asked for, without the
/// root: those of the items `nodes` of the directory `below`, from the item
/// `from` on.
pub open spec fn raw_paths(below: Seq<char>, nodes: Seq<Node>, from: nat) -> Seq<Seq<char>>
    decreases nodes, nodes.len() - from,
{
    if from >= nodes.len() {
        Seq::empty()
    } else {
        let node = nodes[from as int];
        let path = joined(below, node.child.name);
        let rest = raw_paths(below, nodes, from + 1);
        if node.child.is_dir {
            seq![path] + (match node.holds {
                Some(inner) => raw_paths(path, inner, 0),
                None => Seq::empty(),
            }) + rest
        } else if node.child.is_file {
            seq![path] + rest
        } else {
            rest
        }
    }
}

/// A path below the root as the walk builds it: without a backslash or two
/// slashes in a row, and, unless it is empty, with a slash at its start and
/// none at its end.
pub open spec fn clean(path: Seq<char>) -> bool {
    &&& no_backslash(path)
    &&& no_double_slash(path)
    &&& path.len() > 0 ==> path[0] == '/' && path.last() != '/'
}

/// `path` is `dir` or lies below it.
pub open spec fn under(path: Seq<char>, dir: Seq<char>) -> bool {
    &&& path.len() >= dir.len()
    &&& path.subrange(0, dir.len() as int) == dir
    &&& path.len() == dir.len() || path[dir.len() as int] == '/'
}

/// Each entry of the listing has the path that is asked for, normalized.
pub proof fn lemma_listed_paths(root: Seq<char>, below: Seq<char>, nodes: Seq<Node>, from: nat)
    ensures
        listed(root + below, nodes, from).len() == raw_paths(below, nodes, from).len(),
        forall|k: int|
            0 <= k < raw_paths(below, nodes, from).len() ==> (#[trigger] listed(
                root + below,
                nodes,
                from,
            )[k]).path == normalized(root + raw_paths(below, nodes, from)[k]),
    decreases nodes, nodes.len() - from,
{
    if from < nodes.len() {
        let node = nodes[from as int];
        let path = joined(below, node.child.name);
        assert(joined(root + below, node.child.name) =~= root + path);
        lemma_listed_paths(root, below, nodes, from + 1);
        if node.child.is_dir {
            match node.holds {
                Some(inner) => {
                    lemma_listed_paths(root, path, inner, 0);
                },
                None => {},
            }
        }
    }
}

/// A plain name below a clean path gives a clean path.
pub proof fn lemma_joined_clean(below: Seq<char>, name: Seq<char>)
    requires
        clean(below),
        plain_name(name),
    ensures
        clean(joined(below, name)),
        joined(below, name).len() == below.len() + 1 + name.len(),
        under(joined(below, name), joined(below, name)),
{
    let path = joined(below, name);
    assert forall|i: int| 0 <= i < path.len() implies #[trigger] path[i] != '\\' by {
        if i < below.len() {
            assert(path[i] == below[i]);
        } else if i > below.len() {
            assert(path[i] == name[i - below.len() - 1]);
        }
    }
    assert forall|i: int| 0 <= i < path.len() - 1 implies !(#[trigger] path[i] == '/' && path[i
        + 1] == '/') by {
        if i + 1 < below.len() {
            assert(path[i] == below[i] && path[i + 1] == below[i + 1]);
        } else if i + 1 == below.len() {
            assert(path[i] == below.last());
        } else {
            assert(path[i + 1] == name[i - below.len()]);
        }
    }
    assert(path.last() == name.last());
    assert(path.subrange(0, path.len() as int) =~= path);
}

/// What lies below an item of a directory lies below the directory.
pub proof fn lemma_under_deeper(path: Seq<char>, dir: Seq<char>, name: Seq<char>)
    requires
        under(path, joined(dir, name)),
    ensures
        under(path, dir),
        path.len() > dir.len(),
{
    let item = joined(dir, name);
    assert(path.subrange(0, item.len() as int)[dir.len() as int] == item[dir.len() as int]);
    assert(path.subrange(0, dir.len() as int) =~= dir) by {
        assert forall|i: int| 0 <= i < dir.len() implies path[i] == dir[i] by {
            assert(path.subrange(0, item.len() as int)[i] == item[i]);
        }
    }
}

/// What lies at or below two items of one directory with different plain
/// names are different paths.
pub proof fn lemma_items_apart(
    below: Seq<char>,
    one: Seq<char>,
    other: Seq<char>,
    first: Seq<char>,
    second: Seq<char>,
)
    requires
        plain_name(one),
        plain_name(other),
        one != other,
        under(first, joined(below, one)),
        under(second, joined(below, other)),
    ensures
        first != second,
{
    if first == second {
        let start: int = (below.len() + 1) as int;
        let here = joined(below, one);
        let there = joined(below, other);
        assert forall|t: int| 0 <= t < one.len() implies first[start + t] == one[t] by {
            assert(first.subrange(0, here.len() as int)[start + t] == here[start + t]);
        }
        assert forall|t: int| 0 <= t < other.len() implies first[start + t] == other[t] by {
            assert(second.subrange(0, there.len() as int)[start + t] == there[start + t]);
        }
        if one.len() == other.len() {
            assert(one =~= other);
        } else if one.len() < other.len() {
            assert(first[start + one.len()] == other[one.len() as int]);
        } else {
            assert(first[start + other.len()] == one[other.len() as int]);
        }
        assert(false);
    }
}

/// In a tidy tree every path asked for is clean, not empty, and lies at or
/// below one of the items listed.
pub proof fn lemma_raw_shape(below: Seq<char>, nodes: Seq<Node>, from: nat)
    requires
        clean(below),
        tidy(nodes),
    ensures
        forall|k: int|
            0 <= k < raw_paths(below, nodes, from).len() ==> {
                let path = #[trigger] raw_paths(below, nodes, from)[k];
                &&& path.len() > 0
                &&& clean(path)
                &&& exists|i: int|
                    from <= i < nodes.len() && under(
                        path,
                        #[trigger] joined(below, nodes[i].child.name),
                    )
            },
    decreases nodes, nodes.len() - from,
{
    if from < nodes.len() {
        let node = nodes[from as int];
        let path = joined(below, node.child.name);
        let all = raw_paths(below, nodes, from);
        let rest = raw_paths(below, nodes, from + 1);
        lemma_joined_clean(below, node.child.name);
        lemma_raw_shape(below, nodes, from + 1);
        let inner_paths = if node.child.is_dir && node.holds is Some {
            raw_paths(path, node.holds->0, 0)
        } else {
            Seq::empty()
        };
        if node.child.is_dir && node.holds is Some {
            lemma_raw_shape(path, node.holds->0, 0);
        }
        let head = if node.child.is_dir || node.child.is_file {
            seq![path]
        } else {
            Seq::empty()
        };
        assert(all =~= head + inner_paths + rest);
        assert forall|k: int| 0 <= k < all.len() implies {
            let found = #[trigger] all[k];
            &&& found.len() > 0
            &&& clean(found)
            &&& exists|i: int|
                from <= i < nodes.len() && under(
                    found,
                    #[trigger] joined(below, nodes[i].child.name),
                )
        } by {
            let found = all[k];
            if k < head.len() {
                assert(found == path);
                assert(under(found, joined(below, nodes[from as int].child.name)));
            } else if k < head.len() + inner_paths.len() {
                let inner = node.holds->0;
                assert(found == inner_paths[k - head.len()]);
                let j = choose|j: int|
                    0 <= j < inner.len() && under(
                        found,
                        #[trigger] joined(path, inner[j].child.name),
                    );
                lemma_under_deeper(found, path, inner[j].child.name);
                assert(under(found, joined(below, nodes[from as int].child.name)));
            } else {
                assert(found == rest[k - head.len() - inner_paths.len()]);
                let i = choose|i: int|
                    from + 1 <= i < nodes.len() && under(
                        found,
                        #[trigger] joined(below, nodes[i].child.name),
                    );
                assert(under(found, joined(below, nodes[i].child.name)));
            }
        }
    }
}

/// In a tidy tree no path is asked for twice.
pub proof fn lemma_raw_distinct(below: Seq<char>, nodes: Seq<Node>, from: nat)
    requires
        clean(below),
        tidy(nodes),
    ensures
        forall|k: int, l: int|
            0 <= k < l < raw_paths(below, nodes, from).len() ==> #[trigger] raw_paths(
                below,
                nodes,
                from,
            )[k] != #[trigger] raw_paths(below, nodes, from)[l],
    decreases nodes, nodes.len() - from,
{
    if from < nodes.len() {
        let node = nodes[from as int];
        let name = node.child.name;
        let path = joined(below, name);
        let all = raw_paths(below, nodes, from);
        let rest = raw_paths(below, nodes, from + 1);
        lemma_joined_clean(below, name);
        lemma_raw_distinct(below, nodes, from + 1);
        lemma_raw_shape(below, nodes, from + 1);
        let inner_paths = if node.child.is_dir && node.holds is Some {
            raw_paths(path, node.holds->0, 0)
        } else {
            Seq::empty()
        };
        if node.child.is_dir && node.holds is Some {
            lemma_raw_distinct(path, node.holds->0, 0);
            lemma_raw_shape(path, node.holds->0, 0);
        }
        let head = if node.child.is_dir || node.child.is_file {
            seq![path]
        } else {
            Seq::empty()
        };
        assert(all =~= head + inner_paths + rest);
        let mid = head.len() + inner_paths.len();
        assert forall|k: int| head.len() <= k < mid implies under(#[trigger] all[k], path)
            && all[k].len() > path.len() by {
            let inner = node.holds->0;
            let found = inner_paths[k - head.len()];
            assert(all[k] == found);
            let j = choose|j: int|
                0 <= j < inner.len() && under(found, #[trigger] joined(path, inner[j].child.name));
            lemma_under_deeper(found, path, inner[j].child.name);
        }
        assert forall|k: int, l: int| 0 <= k < l < all.len() implies #[trigger] all[k]
            != #[trigger] all[l] by {
            if l < head.len() {
            } else if l < mid {
                if k >= head.len() {
                    assert(all[k] == inner_paths[k - head.len()]);
                    assert(all[l] == inner_paths[l - head.len()]);
                } else {
                    assert(all[k] == path);
                }
            } else {
                let later = rest[l - mid];
                assert(all[l] == later);
                if k >= mid {
                    assert(all[k] == rest[k - mid]);
                } else {
                    let i = choose|i: int|
                        from + 1 <= i < nodes.len() && under(
                            later,
                            #[trigger] joined(below, nodes[i].child.name),
                        );
                    assert(nodes[from as int].child.name != nodes[i].child.name);
                    if k < head.len() {
                        assert(all[k] == path);
                    }
                    lemma_items_apart(below, name, nodes[i].child.name, all[k], later);
                }
            }
        }
    }
}

/// In a tidy tree no two entries of the depth-first listing have the same
/// path.
pub proof fn lemma_listed_paths_distinct(root: Seq<char>, nodes: Seq<Node>)
    requires
        tidy(nodes),
    ensures
        distinct_paths(listed(root, nodes, 0)),
        distinct_paths(held(root, Some(nodes))),
{
    let below = Seq::<char>::empty();
    assert(root + below =~= root);
    let entries = listed(root, nodes, 0);
    let paths = raw_paths(below, nodes, 0);
    lemma_listed_paths(root, below, nodes, 0);
    lemma_raw_shape(below, nodes, 0);
    lemma_raw_distinct(below, nodes, 0);
    assert forall|i: int, j: int| 0 <= i < j < entries.len() implies (#[trigger] entries[i]).path
        != (#[trigger] entries[j]).path by {
        assert(clean(paths[i]) && clean(paths[j]));
        assert(paths[i] != paths[j]);
        lemma_normalized_apart(root, paths[i], paths[j]);
    }
}

/// A walk of a tidy tree, answered from the tree, ends with entries whose
/// paths are distinct: its outcome is the depth-first listing of what the
/// root holds.
pub proof fn lemma_tidy_walk_is_distinct(root: Seq<char>, holds: Option<Seq<Node>>)
    requires
        holds is Some ==> tidy(holds->0),
    ensures
        distinct_paths(outcome(tour_start(root, holds))),
{
    lemma_tour_start(root, holds);
    match holds {
        Some(nodes) => {
            lemma_listed_paths_distinct(root, nodes);
        },
        None => {},
    }
}

} // verus!
