//! Stable sorting under a total preorder.
//!
//! A total preorder ranks any two items but may rank different items alike.
//! The stable sort of a sequence puts the ranks in ascending order and keeps
//! items of one rank in the order in which they came. That fixes the result:
//! see `lemma_stable_sort_unique` in the module `stability`.

use crate::merging::{
    lemma_merge_done, lemma_merge_takes_left, lemma_merge_takes_right, lemma_stable_sort_of_halves,
    merged_so_far,
};
use crate::stability::{
    lemma_filter_none, lemma_stable_sort_is_stable_sorted, lemma_stable_sorted,
    lemma_stable_sorted_of_sorted,
};
use vstd::prelude::*;
use vstd::relations::*;

verus! {

/// Any two items are ranked, one way or the other, and the ranking is
/// transitive.
pub open spec fn total_preorder<A>(le: spec_fn(A, A) -> bool) -> bool {
    strongly_connected(le) && transitive(le)
}

/// The items that `le` ranks like `x`.
pub open spec fn peer_of<A>(le: spec_fn(A, A) -> bool, x: A) -> spec_fn(A) -> bool {
    |y: A| le(x, y) && le(y, x)
}

/// The items of `s` that rank like `x`, in the order in which `s` holds them.
pub open spec fn peers<A>(s: Seq<A>, le: spec_fn(A, A) -> bool, x: A) -> Seq<A> {
    s.filter(peer_of(le, x))
}

/// `out` is `inp` sorted stably: ranks ascend, and the items of each rank are
/// those of `inp`, in the order of `inp`.
pub open spec fn stable_sort_of<A>(out: Seq<A>, inp: Seq<A>, le: spec_fn(A, A) -> bool) -> bool {
    &&& sorted_by(out, le)
    &&& forall|x: A| #[trigger] peers(out, le, x) == peers(inp, le, x)
}

/// The stable sort of `s`.
pub open spec fn stable_sorted<A>(s: Seq<A>, le: spec_fn(A, A) -> bool) -> Seq<A> {
    choose|out: Seq<A>| stable_sort_of(out, s, le)
}

/// An item with a place in a ranking of what it stands for.
pub trait Ranked: DeepView + Sized {
    /// `a` ranks at or below `b`.
    spec fn rank_le(a: Self::V, b: Self::V) -> bool;

    /// The ranking is a total preorder.
    proof fn lemma_rank_le_total_preorder()
        ensures
            forall|a: Self::V, b: Self::V| #[trigger] Self::rank_le(a, b) || Self::rank_le(b, a),
            forall|a: Self::V, b: Self::V, c: Self::V|
                #[trigger] Self::rank_le(a, b) && #[trigger] Self::rank_le(b, c)
                    ==> Self::rank_le(a, c),
    ;

    /// Decides whether `self` ranks strictly below `other`.
    fn ranks_below(&self, other: &Self) -> (r: bool)
        ensures
            r == !Self::rank_le(other.deep_view(), self.deep_view()),
    ;
}

/// The ranking of `T` as a relation.
pub open spec fn ranking<T: Ranked>() -> spec_fn(T::V, T::V) -> bool {
    |a: T::V, b: T::V| T::rank_le(a, b)
}

/// The ranking of `T` is a total preorder.
pub proof fn lemma_ranking_total_preorder<T: Ranked>()
    ensures
        total_preorder(ranking::<T>()),
{
    T::lemma_rank_le_total_preorder();
    let le = ranking::<T>();
    assert forall|x: T::V, y: T::V| #[trigger] le(x, y) || #[trigger] le(y, x) by {
        assert(T::rank_le(x, y) || T::rank_le(y, x));
    }
    assert forall|x: T::V, y: T::V, z: T::V| #[trigger] le(x, y) && #[trigger] le(y, z) implies le(
        x,
        z,
    ) by {
        assert(T::rank_le(x, y) && T::rank_le(y, z));
    }
}

/// The items in the opposite order.
fn reversed<T>(items: Vec<T>) -> (turned: Vec<T>)
    ensures
        turned@ == items@.reverse(),
{
    let ghost all = items@;
    let mut rest = items;
    let mut turned: Vec<T> = Vec::new();
    while rest.len() > 0
        invariant
            rest@ == all.take(rest.len() as int),
            rest.len() <= all.len(),
            turned@ == all.skip(rest.len() as int).reverse(),
        decreases rest.len(),
    {
        let ghost n = rest.len() as int;
        let item = rest.pop().unwrap();
        turned.push(item);
        proof {
            assert(rest@ =~= all.take(n - 1));
            assert(turned@ =~= all.skip(n - 1).reverse());
        }
    }
    proof {
        assert(all.skip(0) =~= all);
    }
    turned
}

/// Merges two sorted vectors into one, taking of two items that rank alike
/// the one of `left` first.
fn merge<T: Ranked>(left: Vec<T>, right: Vec<T>) -> (merged: Vec<T>)
    requires
        sorted_by(left.deep_view(), ranking::<T>()),
        sorted_by(right.deep_view(), ranking::<T>()),
    ensures
        stable_sort_of(merged.deep_view(), left.deep_view() + right.deep_view(), ranking::<T>()),
{
    let ghost le = ranking::<T>();
    let ghost a = left.deep_view();
    let ghost b = right.deep_view();
    let ghost left_items = left@;
    let ghost right_items = right@;
    // the items that are left to take, the next one at the end
    let mut left_rest = reversed(left);
    let mut right_rest = reversed(right);
    let mut merged: Vec<T> = Vec::new();
    proof {
        lemma_ranking_total_preorder::<T>();
        assert(merged.deep_view() =~= Seq::<T::V>::empty());
        assert(a.take(0) =~= Seq::<T::V>::empty());
        assert(b.take(0) =~= Seq::<T::V>::empty());
        assert forall|z: T::V| #[trigger]
            peers(merged.deep_view(), le, z) == peers(a.take(0), le, z) + peers(
                b.take(0),
                le,
                z,
            ) by {
            lemma_filter_none(Seq::<T::V>::empty(), peer_of(le, z));
            assert(Seq::<T::V>::empty() + Seq::<T::V>::empty() =~= Seq::<T::V>::empty());
        }
        assert(left_items.skip(0) =~= left_items);
        assert(right_items.skip(0) =~= right_items);
    }
    while left_rest.len() > 0 || right_rest.len() > 0
        invariant
            le == ranking::<T>(),
            total_preorder(le),
            sorted_by(a, le),
            sorted_by(b, le),
            a.len() == left_items.len(),
            b.len() == right_items.len(),
            forall|k: int| 0 <= k < a.len() ==> a[k] == (#[trigger] left_items[k]).deep_view(),
            forall|k: int| 0 <= k < b.len() ==> b[k] == (#[trigger] right_items[k]).deep_view(),
            left_rest.len() <= a.len(),
            right_rest.len() <= b.len(),
            left_rest@ == left_items.skip(a.len() - left_rest.len()).reverse(),
            right_rest@ == right_items.skip(b.len() - right_rest.len()).reverse(),
            merged_so_far(
                merged.deep_view(),
                a,
                b,
                a.len() - left_rest.len(),
                b.len() - right_rest.len(),
                le,
            ),
        decreases left_rest.len() + right_rest.len(),
    {
        let ghost so_far = merged.deep_view();
        let ghost i = a.len() - left_rest.len();
        let ghost j = b.len() - right_rest.len();
        proof {
            if left_rest.len() > 0 {
                assert(left_rest@[left_rest.len() - 1] == left_items[i]);
            }
            if right_rest.len() > 0 {
                assert(right_rest@[right_rest.len() - 1] == right_items[j]);
            }
        }
        let from_right = left_rest.len() == 0 || (right_rest.len() > 0 && right_rest[right_rest.len()
            - 1].ranks_below(&left_rest[left_rest.len() - 1]));
        if from_right {
            proof {
                lemma_merge_takes_right(so_far, a, b, i, j, le);
            }
            let item = right_rest.pop().unwrap();
            merged.push(item);
            proof {
                assert(merged.deep_view() =~= so_far.push(b[j]));
                assert(right_rest@ =~= right_items.skip(j + 1).reverse());
            }
        } else {
            proof {
                lemma_merge_takes_left(so_far, a, b, i, j, le);
            }
            let item = left_rest.pop().unwrap();
            merged.push(item);
            proof {
                assert(merged.deep_view() =~= so_far.push(a[i]));
                assert(left_rest@ =~= left_items.skip(i + 1).reverse());
            }
        }
    }
    proof {
        lemma_merge_done(merged.deep_view(), a, b, le);
    }
    merged
}

/// Sorts `items` by rank, keeping items of one rank in the order in which
/// they came. A merge sort: the number of comparisons grows as the length
/// times its logarithm.
pub fn stable_sort<T: Ranked>(items: Vec<T>) -> (sorted: Vec<T>)
    ensures
        sorted.deep_view() == stable_sorted(items.deep_view(), ranking::<T>()),
    decreases items.len(),
{
    let ghost le = ranking::<T>();
    let ghost whole = items.deep_view();
    proof {
        lemma_ranking_total_preorder::<T>();
    }
    if items.len() < 2 {
        proof {
            lemma_stable_sorted_of_sorted(whole, le);
        }
        return items;
    }
    let mut left = items;
    let middle: usize = left.len() / 2;
    let right = left.split_off(middle);
    proof {
        assert(left.deep_view() =~= whole.take(middle as int));
        assert(right.deep_view() =~= whole.skip(middle as int));
        assert(whole =~= left.deep_view() + right.deep_view());
    }
    let ghost left_half = left.deep_view();
    let ghost right_half = right.deep_view();
    let left = stable_sort(left);
    let right = stable_sort(right);
    proof {
        lemma_stable_sorted(left_half, le);
        lemma_stable_sorted(right_half, le);
    }
    let sorted = merge(left, right);
    proof {
        lemma_stable_sort_of_halves(sorted.deep_view(), left_half, right_half, whole, le);
        lemma_stable_sort_is_stable_sorted(sorted.deep_view(), whole, le);
    }
    sorted
}

} // verus!
