//! Sorting by rank: a merge sort over anything that says which of two of its
//! values may stand first.

use vstd::prelude::*;
use vstd::multiset::Multiset;
use vstd::seq_lib::lemma_multiset_commutative;
use vstd::seq_lib::to_multiset_build;

verus! {

/// A type whose values are ranked: of any two, one may stand before the
/// other, and standing before carries over a value in between.
pub trait Ranked: Sized {
    /// `self` may stand before `other` in a sorted sequence.
    spec fn ranks_before(&self, other: &Self) -> bool;

    /// Of two values, one may stand before the other.
    proof fn lemma_rank_total(a: &Self, b: &Self)
        ensures
            a.ranks_before(b) || b.ranks_before(a),
    ;

    /// What may stand before a value may stand before all that it may stand
    /// before.
    proof fn lemma_rank_transitive(a: &Self, b: &Self, c: &Self)
        requires
            a.ranks_before(b),
            b.ranks_before(c),
        ensures
            a.ranks_before(c),
    ;

    /// Whether `self` may stand before `other`.
    fn before(&self, other: &Self) -> (first: bool)
        ensures
            first == self.ranks_before(other),
    ;
}

/// Each value of `items` may stand before all that follow it.
pub open spec fn ranked<T: Ranked>(items: Seq<T>) -> bool {
    forall|i: int, j: int|
        #![trigger items[i], items[j]]
        0 <= i < j < items.len() ==> items[i].ranks_before(&items[j])
}

/// Each value of `items` may stand before all that precede it.
pub open spec fn falling<T: Ranked>(items: Seq<T>) -> bool {
    forall|i: int, j: int|
        #![trigger items[i], items[j]]
        0 <= i < j < items.len() ==> items[j].ranks_before(&items[i])
}

/// Each value of `low` may stand before each of `high`.
pub open spec fn all_before<T: Ranked>(low: Seq<T>, high: Seq<T>) -> bool {
    forall|i: int, j: int|
        #![trigger low[i], high[j]]
        0 <= i < low.len() && 0 <= j < high.len() ==> low[i].ranks_before(&high[j])
}

/// A sequence without values holds nothing, counted as a multiset too.
proof fn lemma_nothing_in_empty<T>(items: Seq<T>)
    requires
        items.len() == 0,
    ensures
        items.to_multiset() == Multiset::<T>::empty(),
{
    items.to_multiset_ensures();
    assert forall|a: T| items.to_multiset().count(a) == 0 by {
        assert(!items.contains(a));
    }
    assert(items.to_multiset() =~= Multiset::<T>::empty());
}

/// Every value of a ranked sequence may stand before its last.
proof fn lemma_before_last<T: Ranked>(items: Seq<T>, i: int)
    requires
        ranked(items),
        0 <= i < items.len(),
    ensures
        items[i].ranks_before(&items[items.len() - 1]),
{
    if i == items.len() - 1 {
        T::lemma_rank_total(&items[i], &items[i]);
    }
}

/// Moves the last value of `from`, which all of `from` and of `other` may
/// stand before, to the end of `down`.
fn move_last<T: Ranked>(from: &mut Vec<T>, other: &Vec<T>, down: &mut Vec<T>)
    requires
        old(from)@.len() > 0,
        ranked(old(from)@),
        falling(old(down)@),
        all_before(old(from)@, old(down)@),
        all_before(other@, old(down)@),
        forall|i: int|
            0 <= i < other@.len() ==> (#[trigger] other@[i]).ranks_before(
                &old(from)@[old(from)@.len() - 1],
            ),
    ensures
        final(from)@ == old(from)@.drop_last(),
        final(down)@ == old(down)@.push(old(from)@.last()),
        ranked(final(from)@),
        falling(final(down)@),
        all_before(final(from)@, final(down)@),
        all_before(other@, final(down)@),
        final(from)@.to_multiset().add(final(down)@.to_multiset()) == old(from)@.to_multiset().add(
            old(down)@.to_multiset(),
        ),
{
    let ghost source = from@;
    let ghost target = down@;
    let top = from.pop().unwrap();
    down.push(top);
    proof {
        assert(source =~= from@.push(top));
        to_multiset_build(from@, top);
        to_multiset_build(target, top);
        assert(from@.to_multiset().add(down@.to_multiset()) =~= source.to_multiset().add(
            target.to_multiset(),
        ));
        assert forall|i: int, j: int| 0 <= i < j < from@.len() implies from@[i].ranks_before(
            &from@[j],
        ) by {
            assert(from@[i] == source[i] && from@[j] == source[j]);
        }
        assert forall|i: int, j: int| 0 <= i < j < down@.len() implies down@[j].ranks_before(
            &down@[i],
        ) by {
            assert(down@[i] == target[i]);
            if j < target.len() {
                assert(down@[j] == target[j]);
            } else {
                assert(source[source.len() - 1].ranks_before(&target[i]));
            }
        }
        assert forall|i: int, j: int|
            0 <= i < from@.len() && 0 <= j < down@.len() implies from@[i].ranks_before(
            &down@[j],
        ) by {
            assert(from@[i] == source[i]);
            if j < target.len() {
                assert(down@[j] == target[j]);
                assert(source[i].ranks_before(&target[j]));
            } else {
                lemma_before_last(source, i);
            }
        }
        assert forall|i: int, j: int|
            0 <= i < other@.len() && 0 <= j < down@.len() implies other@[i].ranks_before(
            &down@[j],
        ) by {
            if j < target.len() {
                assert(down@[j] == target[j]);
                assert(other@[i].ranks_before(&target[j]));
            }
        }
    }
}

/// Merges two ranked vectors into one.
fn merge<T: Ranked>(left: Vec<T>, right: Vec<T>) -> (merged: Vec<T>)
    requires
        ranked(left@),
        ranked(right@),
    ensures
        ranked(merged@),
        merged@.to_multiset() == left@.to_multiset().add(right@.to_multiset()),
{
    let ghost all = left@.to_multiset().add(right@.to_multiset());
    let mut left = left;
    let mut right = right;
    let mut down: Vec<T> = Vec::new();
    proof {
        lemma_nothing_in_empty(down@);
        assert(all.add(Multiset::<T>::empty()) =~= all);
    }
    while left.len() > 0 || right.len() > 0
        invariant
            ranked(left@),
            ranked(right@),
            falling(down@),
            all_before(left@, down@),
            all_before(right@, down@),
            left@.to_multiset().add(right@.to_multiset()).add(down@.to_multiset()) == all,
        decreases left.len() + right.len(),
    {
        let ghost l = left@;
        let ghost r = right@;
        let ghost d = down@;
        let from_right = if left.len() == 0 {
            true
        } else if right.len() == 0 {
            false
        } else {
            left[left.len() - 1].before(&right[right.len() - 1])
        };
        if from_right {
            proof {
                assert forall|i: int| 0 <= i < l.len() implies (#[trigger] l[i]).ranks_before(
                    &r[r.len() - 1],
                ) by {
                    lemma_before_last(l, i);
                    T::lemma_rank_transitive(&l[i], &l[l.len() - 1], &r[r.len() - 1]);
                }
            }
            move_last(&mut right, &left, &mut down);
        } else {
            proof {
                assert forall|i: int| 0 <= i < r.len() implies (#[trigger] r[i]).ranks_before(
                    &l[l.len() - 1],
                ) by {
                    lemma_before_last(r, i);
                    T::lemma_rank_total(&l[l.len() - 1], &r[r.len() - 1]);
                    T::lemma_rank_transitive(&r[i], &r[r.len() - 1], &l[l.len() - 1]);
                }
            }
            move_last(&mut left, &right, &mut down);
        }
        proof {
            let now = left@.to_multiset().add(right@.to_multiset()).add(down@.to_multiset());
            assert forall|a: T| now.count(a) == all.count(a) by {
                if from_right {
                    assert(right@.to_multiset().add(down@.to_multiset()).count(a)
                        == r.to_multiset().add(d.to_multiset()).count(a));
                } else {
                    assert(left@.to_multiset().add(down@.to_multiset()).count(a)
                        == l.to_multiset().add(d.to_multiset()).count(a));
                }
                assert(l.to_multiset().add(r.to_multiset()).add(d.to_multiset()).count(a)
                    == all.count(a));
            }
            assert(now =~= all);
        }
    }
    let mut merged: Vec<T> = Vec::new();
    proof {
        lemma_nothing_in_empty(left@);
        lemma_nothing_in_empty(right@);
        lemma_nothing_in_empty(merged@);
        assert(Multiset::<T>::empty().add(Multiset::<T>::empty()).add(down@.to_multiset())
            =~= down@.to_multiset());
        assert(Multiset::<T>::empty().add(down@.to_multiset()) =~= down@.to_multiset());
    }
    while down.len() > 0
        invariant
            ranked(merged@),
            falling(down@),
            all_before(merged@, down@),
            merged@.to_multiset().add(down@.to_multiset()) == all,
        decreases down.len(),
    {
        let ghost m = merged@;
        let ghost d = down@;
        let low = down.pop().unwrap();
        merged.push(low);
        proof {
            assert(d =~= down@.push(low));
            to_multiset_build(down@, low);
            to_multiset_build(m, low);
            assert(merged@.to_multiset().add(down@.to_multiset()) =~= all);
            assert forall|i: int, j: int| 0 <= i < j < merged@.len() implies merged@[i].ranks_before(
                &merged@[j],
            ) by {
                assert(merged@[i] == m[i]);
                if j < m.len() {
                    assert(merged@[j] == m[j]);
                } else {
                    assert(m[i].ranks_before(&d[d.len() - 1]));
                }
            }
            assert forall|i: int, j: int| 0 <= i < j < down@.len() implies down@[j].ranks_before(
                &down@[i],
            ) by {
                assert(down@[i] == d[i] && down@[j] == d[j]);
            }
            assert forall|i: int, j: int|
                0 <= i < merged@.len() && 0 <= j < down@.len() implies merged@[i].ranks_before(
                &down@[j],
            ) by {
                assert(down@[j] == d[j]);
                if i < m.len() {
                    assert(merged@[i] == m[i]);
                    assert(m[i].ranks_before(&d[j]));
                } else {
                    assert(d[d.len() - 1].ranks_before(&d[j]));
                }
            }
        }
    }
    proof {
        lemma_nothing_in_empty(down@);
        assert(merged@.to_multiset().add(Multiset::<T>::empty()) =~= merged@.to_multiset());
    }
    merged
}

/// Sorts `items` by rank: the result holds the same values, each as often
/// as `items` does, and each may stand before all that follow it.
pub fn sort_ranked<T: Ranked>(items: Vec<T>) -> (sorted: Vec<T>)
    ensures
        ranked(sorted@),
        sorted@.to_multiset() == items@.to_multiset(),
        sorted@.len() == items@.len(),
    decreases items@.len(),
{
    let ghost all = items@;
    let mut left = items;
    if left.len() <= 1 {
        return left;
    }
    let half: usize = left.len() / 2;
    let right = left.split_off(half);
    proof {
        assert(all =~= left@ + right@);
        lemma_multiset_commutative(left@, right@);
    }
    let left = sort_ranked(left);
    let right = sort_ranked(right);
    let sorted = merge(left, right);
    proof {
        sorted@.to_multiset_ensures();
        all.to_multiset_ensures();
    }
    sorted
}

/// Two sequences that hold the same values equally often still do so after
/// each value is replaced by what `f` makes of it.
pub proof fn lemma_map_keeps_multiset<A, B>(first: Seq<A>, second: Seq<A>, f: spec_fn(A) -> B)
    requires
        first.to_multiset() == second.to_multiset(),
    ensures
        first.map_values(f).to_multiset() == second.map_values(f).to_multiset(),
    decreases first.len(),
{
    first.to_multiset_ensures();
    second.to_multiset_ensures();
    if first.len() == 0 {
        assert(first.map_values(f) =~= second.map_values(f));
    } else {
        let x = first.last();
        let front = first.drop_last();
        assert(first =~= front.push(x));
        to_multiset_build(front, x);
        assert(first.contains(x));
        assert(first.to_multiset().count(x) > 0);
        assert(second.to_multiset().count(x) > 0);
        assert(second.contains(x));
        let at = choose|at: int| 0 <= at < second.len() && second[at] == x;
        let others = second.remove(at);
        assert(front.to_multiset() =~= first.to_multiset().remove(x));
        assert(others.to_multiset() =~= second.to_multiset().remove(x));
        lemma_map_keeps_multiset(front, others, f);
        let mapped = second.map_values(f);
        assert(first.map_values(f) =~= front.map_values(f).push(f(x)));
        to_multiset_build(front.map_values(f), f(x));
        assert(others.map_values(f) =~= mapped.remove(at));
        mapped.to_multiset_ensures();
        assert(mapped.contains(mapped[at]));
        assert(mapped.to_multiset().count(mapped[at]) > 0);
        assert(mapped.to_multiset() =~= mapped.remove(at).to_multiset().insert(f(x)));
        assert(first.map_values(f).to_multiset() =~= second.map_values(f).to_multiset());
    }
}

} // verus!
