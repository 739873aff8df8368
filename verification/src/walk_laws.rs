//! The walk against a tree: as long as each directory that the walk asks
//! for is answered with what a tree holds there, the entries that the walk
//! records are those of the depth-first listing of the tree.

use vstd::prelude::*;
use crate::entry::{Entry, FileMode};
use crate::walk::{
    advance, items_left, joined, normalized, walk_step, Child, Level, Walk,
};

verus! {

/// Every entry is a plain file or a directory.
pub open spec fn files_and_dirs(entries: Seq<Entry>) -> bool {
    forall|i: int|
        0 <= i < entries.len() ==> (#[trigger] entries[i]).mode == FileMode::File || entries[i].mode
            == FileMode::Dir
}

/// Going on keeps what was recorded and adds to its end, and adds nothing
/// but plain files and directories.
pub proof fn lemma_advance_adds(stack: Seq<Level>, found: Seq<Entry>)
    ensures
        found.is_prefix_of(advance(stack, found).found),
        files_and_dirs(found) ==> files_and_dirs(advance(stack, found).found),
    decreases stack.len(), items_left(stack),
{
    if stack.len() > 0 {
        let top = stack.last();
        if top.next >= top.items.len() {
            lemma_advance_adds(stack.drop_last(), found);
        } else {
            let item = top.items[top.next as int];
            let path = joined(top.dir, item.name);
            let rest = stack.drop_last().push(
                Level { dir: top.dir, items: top.items, next: top.next + 1 },
            );
            if item.is_dir {
            } else if item.is_file {
                lemma_advance_adds(
                    rest,
                    found.push(Entry { path: normalized(path), mode: FileMode::File }),
                );
            } else {
                lemma_advance_adds(rest, found);
            }
        }
    }
}

/// A step of the walk keeps what was recorded and adds to its end; and a
/// walk that has recorded nothing but plain files and directories goes on
/// doing so: it records no link and no entry of any other kind.
pub proof fn lemma_walk_adds(state: Walk, listing: Option<Seq<Child>>)
    ensures
        state.found.is_prefix_of(walk_step(state, listing).found),
        files_and_dirs(state.found) ==> files_and_dirs(walk_step(state, listing).found),
{
    match state.pending {
        None => {},
        Some(dir) => match listing {
            Some(items) => {
                lemma_advance_adds(state.stack.push(Level { dir, items, next: 0 }), state.found);
            },
            None => {
                lemma_advance_adds(state.stack, state.found);
            },
        },
    }
}

/// A node of a tree of directories: an item as it is listed, and, for a
/// directory that can be read, what it holds.
pub struct Node {
    pub child: Child,
    pub holds: Option<Seq<Node>>,
}

/// The items of `nodes` as a listing shows them.
pub open spec fn children_at(nodes: Seq<Node>) -> Seq<Child> {
    nodes.map_values(|node: Node| node.child)
}

/// The depth-first listing of the items `nodes` of the directory `dir`,
/// from the item `from` on: each directory, then what it holds, before the
/// item that follows it; each plain file; nothing for any other item.
pub open spec fn listed(dir: Seq<char>, nodes: Seq<Node>, from: nat) -> Seq<Entry>
    decreases nodes, nodes.len() - from,
{
    if from >= nodes.len() {
        Seq::empty()
    } else {
        let node = nodes[from as int];
        let path = joined(dir, node.child.name);
        let rest = listed(dir, nodes, from + 1);
        if node.child.is_dir {
            seq![Entry { path: normalized(path), mode: FileMode::Dir }] + (match node.holds {
                Some(inner) => listed(path, inner, 0),
                None => Seq::empty(),
            }) + rest
        } else if node.child.is_file {
            seq![Entry { path: normalized(path), mode: FileMode::File }] + rest
        } else {
            rest
        }
    }
}

/// The depth-first listing of what the directory `dir` holds; nothing for a
/// directory that cannot be read.
pub open spec fn held(dir: Seq<char>, holds: Option<Seq<Node>>) -> Seq<Entry> {
    match holds {
        Some(nodes) => listed(dir, nodes, 0),
        None => Seq::empty(),
    }
}

/// A directory of the tree that the walk is inside of.
pub struct Visit {
    pub dir: Seq<char>,
    pub nodes: Seq<Node>,
    pub next: nat,
}

/// A walk with the tree it walks: the directories it is inside of, the path
/// it has asked for with what the tree holds there, and the entries
/// recorded.
pub struct Tour {
    pub visits: Seq<Visit>,
    pub asked: Option<(Seq<char>, Option<Seq<Node>>)>,
    pub found: Seq<Entry>,
}

/// The directory of the walk that stands for `visit`.
pub open spec fn level_of(visit: Visit) -> Level {
    Level { dir: visit.dir, items: children_at(visit.nodes), next: visit.next }
}

/// The directories of the walk that stand for `visits`.
pub open spec fn levels_at(visits: Seq<Visit>) -> Seq<Level> {
    visits.map_values(|visit: Visit| level_of(visit))
}

/// The state of the walk in `tour`.
pub open spec fn walk_of(tour: Tour) -> Walk {
    Walk {
        stack: levels_at(tour.visits),
        pending: match tour.asked {
            Some(asked) => Some(asked.0),
            None => None,
        },
        found: tour.found,
    }
}

/// What the walk is told when its question is answered from the tree.
pub open spec fn answer(tour: Tour) -> Option<Seq<Child>> {
    match tour.asked {
        Some(asked) => match asked.1 {
            Some(nodes) => Some(children_at(nodes)),
            None => None,
        },
        None => None,
    }
}

/// The depth-first listing of what is left of the directories `visits`, the
/// innermost first.
pub open spec fn remaining(visits: Seq<Visit>) -> Seq<Entry>
    decreases visits.len(),
{
    if visits.len() == 0 {
        Seq::empty()
    } else {
        listed(visits.last().dir, visits.last().nodes, visits.last().next) + remaining(
            visits.drop_last(),
        )
    }
}

/// What the walk will have recorded at its end: what it has recorded, then
/// the listing of the directory asked for, then that of what is left of the
/// directories it is inside of.
pub open spec fn outcome(tour: Tour) -> Seq<Entry> {
    tour.found + (match tour.asked {
        Some(asked) => held(asked.0, asked.1),
        None => Seq::empty(),
    }) + remaining(tour.visits)
}

/// How many nodes of the innermost directory are not done.
pub open spec fn nodes_left(visits: Seq<Visit>) -> nat {
    if visits.len() > 0 && visits.last().next < visits.last().nodes.len() {
        (visits.last().nodes.len() - visits.last().next) as nat
    } else {
        0
    }
}

/// The walk goes on through the tree, as `advance` does through listings.
pub open spec fn tour_advance(visits: Seq<Visit>, found: Seq<Entry>) -> Tour
    decreases visits.len(), nodes_left(visits),
{
    if visits.len() == 0 {
        Tour { visits, asked: None, found }
    } else {
        let top = visits.last();
        if top.next >= top.nodes.len() {
            tour_advance(visits.drop_last(), found)
        } else {
            let node = top.nodes[top.next as int];
            let path = joined(top.dir, node.child.name);
            let rest = visits.drop_last().push(
                Visit { dir: top.dir, nodes: top.nodes, next: top.next + 1 },
            );
            if node.child.is_dir {
                Tour {
                    visits: rest,
                    asked: Some((path, node.holds)),
                    found: found.push(Entry { path: normalized(path), mode: FileMode::Dir }),
                }
            } else if node.child.is_file {
                tour_advance(
                    rest,
                    found.push(Entry { path: normalized(path), mode: FileMode::File }),
                )
            } else {
                tour_advance(rest, found)
            }
        }
    }
}

/// The tour after its question is answered from the tree.
pub open spec fn tour_step(tour: Tour) -> Tour {
    match tour.asked {
        None => tour,
        Some(asked) => match asked.1 {
            Some(nodes) => tour_advance(
                tour.visits.push(Visit { dir: asked.0, nodes, next: 0 }),
                tour.found,
            ),
            None => tour_advance(tour.visits, tour.found),
        },
    }
}

/// The tour of the tree that `root` holds, before the first answer.
pub open spec fn tour_start(root: Seq<char>, holds: Option<Seq<Node>>) -> Tour {
    Tour { visits: Seq::empty(), asked: Some((root, holds)), found: Seq::empty() }
}

/// Going on through the tree is going on through its listings; it leaves
/// the outcome as it was; and it ends outside of every directory.
pub proof fn lemma_tour_advance(visits: Seq<Visit>, found: Seq<Entry>)
    ensures
        walk_of(tour_advance(visits, found)) == advance(levels_at(visits), found),
        outcome(tour_advance(visits, found)) == found + remaining(visits),
        tour_advance(visits, found).asked is None ==> tour_advance(visits, found).visits.len()
            == 0,
    decreases visits.len(), nodes_left(visits),
{
    let levels = levels_at(visits);
    let after = tour_advance(visits, found);
    if visits.len() == 0 {
        assert(after.found + Seq::<Entry>::empty() + remaining(after.visits) =~= found
            + remaining(visits));
    } else {
        let top = visits.last();
        let below = visits.drop_last();
        assert(levels.last() == level_of(top));
        assert(levels_at(below) =~= levels.drop_last());
        assert(items_left(levels) == nodes_left(visits));
        if top.next >= top.nodes.len() {
            lemma_tour_advance(below, found);
            assert(found + remaining(below) =~= found + remaining(visits));
        } else {
            let node = top.nodes[top.next as int];
            let path = joined(top.dir, node.child.name);
            let moved = Visit { dir: top.dir, nodes: top.nodes, next: top.next + 1 };
            let rest = below.push(moved);
            assert(level_of(top).items[top.next as int] == node.child);
            assert(levels_at(rest) =~= levels.drop_last().push(level_of(moved)));
            assert(rest.drop_last() =~= below);
            assert(rest.last() == moved);
            let tail = listed(top.dir, top.nodes, top.next + 1);
            assert(remaining(rest) == tail + remaining(below));
            if node.child.is_dir {
                let entry = Entry { path: normalized(path), mode: FileMode::Dir };
                assert(after.found + held(path, node.holds) + remaining(rest) =~= found + ((
                seq![entry] + held(path, node.holds) + tail) + remaining(below)));
            } else if node.child.is_file {
                let entry = Entry { path: normalized(path), mode: FileMode::File };
                lemma_tour_advance(rest, found.push(entry));
                assert(found.push(entry) + remaining(rest) =~= found + ((seq![entry] + tail)
                    + remaining(below)));
            } else {
                lemma_tour_advance(rest, found);
            }
        }
    }
}

/// The tour starts as the walk does, and its outcome is the depth-first
/// listing of what the root holds.
pub proof fn lemma_tour_start(root: Seq<char>, holds: Option<Seq<Node>>)
    ensures
        walk_of(tour_start(root, holds)) == (Walk {
            stack: Seq::empty(),
            pending: Some(root),
            found: Seq::empty(),
        }),
        outcome(tour_start(root, holds)) == held(root, holds),
{
    let start = tour_start(root, holds);
    assert(levels_at(start.visits) =~= Seq::<Level>::empty());
    assert(outcome(start) =~= held(root, holds));
}

/// Each answer from the tree takes the walk where its own step takes it,
/// and leaves the outcome as it was. When the walk is over, it has recorded
/// the outcome.
pub proof fn lemma_tour_step(tour: Tour)
    ensures
        walk_of(tour_step(tour)) == walk_step(walk_of(tour), answer(tour)),
        outcome(tour_step(tour)) == outcome(tour),
        tour.asked is Some && tour_step(tour).asked is None ==> tour_step(tour).found == outcome(
            tour,
        ),
{
    match tour.asked {
        None => {},
        Some(asked) => {
            match asked.1 {
                Some(nodes) => {
                    let entered = tour.visits.push(Visit { dir: asked.0, nodes, next: 0 });
                    lemma_tour_advance(entered, tour.found);
                    assert(levels_at(entered) =~= levels_at(tour.visits).push(
                        Level { dir: asked.0, items: children_at(nodes), next: 0 },
                    ));
                    assert(entered.drop_last() =~= tour.visits);
                    assert(tour.found + remaining(entered) =~= outcome(tour));
                },
                None => {
                    lemma_tour_advance(tour.visits, tour.found);
                    assert(tour.found + remaining(tour.visits) =~= outcome(tour));
                },
            }
            let after = tour_step(tour);
            if after.asked is None {
                assert(after.found + Seq::<Entry>::empty() + remaining(after.visits)
                    =~= after.found);
            }
        },
    }
}

} // verus!
