//! Why merging two sorted sequences, the left one first among equals,
//! sorts them stably.

use crate::sorting::{peer_of, peers, stable_sort_of, stable_sorted, total_preorder};
use crate::stability::{lemma_filter_none, lemma_stable_sorted};
use vstd::prelude::*;
use vstd::relations::*;

verus! {

/// How far a merge of the sorted sequences `a` and `b` has come when it has
/// taken the first `i` items of `a` and the first `j` of `b` into `out`:
/// `out` is sorted and ranks nothing above what is next in `a` or in `b`;
/// what was taken of `b` ranks below what is next in `a`; and in every rank
/// `out` holds what was taken of `a`, then what was taken of `b`.
pub open spec fn merged_so_far<A>(
    out: Seq<A>,
    a: Seq<A>,
    b: Seq<A>,
    i: int,
    j: int,
    le: spec_fn(A, A) -> bool,
) -> bool {
    &&& 0 <= i <= a.len()
    &&& 0 <= j <= b.len()
    &&& sorted_by(out, le)
    &&& forall|k: int| 0 <= k < out.len() && i < a.len() ==> le(#[trigger] out[k], a[i])
    &&& forall|k: int| 0 <= k < out.len() && j < b.len() ==> le(#[trigger] out[k], b[j])
    &&& forall|k: int| 0 <= k < j && i < a.len() ==> !le(a[i], #[trigger] b[k])
    &&& forall|z: A| #[trigger]
        peers(out, le, z) == peers(a.take(i), le, z) + peers(b.take(j), le, z)
}

/// Filtering a sequence with one item more.
proof fn lemma_filter_push<A>(s: Seq<A>, x: A, pred: spec_fn(A) -> bool)
    ensures
        s.push(x).filter(pred) == if pred(x) {
            s.filter(pred).push(x)
        } else {
            s.filter(pred)
        },
{
    reveal(Seq::filter);
    assert(s.push(x).drop_last() =~= s);
}

/// A merge may take the next item of `a` when `b` has none left or its next
/// item does not rank below it.
pub proof fn lemma_merge_takes_left<A>(
    out: Seq<A>,
    a: Seq<A>,
    b: Seq<A>,
    i: int,
    j: int,
    le: spec_fn(A, A) -> bool,
)
    requires
        total_preorder(le),
        sorted_by(a, le),
        sorted_by(b, le),
        merged_so_far(out, a, b, i, j, le),
        i < a.len(),
        j < b.len() ==> le(a[i], b[j]),
    ensures
        merged_so_far(out.push(a[i]), a, b, i + 1, j, le),
{
    let x = a[i];
    let grown = out.push(x);
    assert forall|k: int, l: int| 0 <= k < l < grown.len() implies #[trigger] le(
        grown[k],
        grown[l],
    ) by {
        if l < out.len() {
            assert(le(out[k], out[l]));
        } else {
            assert(le(out[k], a[i]));
        }
    }
    assert forall|k: int| 0 <= k < grown.len() && i + 1 < a.len() implies le(
        #[trigger] grown[k],
        a[i + 1],
    ) by {
        assert(le(a[i], a[i + 1]));
        if k < out.len() {
            assert(le(out[k], a[i]));
        }
    }
    assert forall|k: int| 0 <= k < grown.len() && j < b.len() implies le(
        #[trigger] grown[k],
        b[j],
    ) by {
        if k < out.len() {
            assert(le(out[k], b[j]));
        }
    }
    assert forall|k: int| 0 <= k < j && i + 1 < a.len() implies !le(a[i + 1], #[trigger] b[k]) by {
        assert(le(a[i], a[i + 1]));
        assert(!le(a[i], b[k]));
    }
    assert forall|z: A| #[trigger]
        peers(grown, le, z) == peers(a.take(i + 1), le, z) + peers(b.take(j), le, z) by {
        let pred = peer_of(le, z);
        lemma_filter_push(out, x, pred);
        lemma_filter_push(a.take(i), x, pred);
        assert(a.take(i + 1) =~= a.take(i).push(x));
        assert(peers(out, le, z) == peers(a.take(i), le, z) + peers(b.take(j), le, z));
        if pred(x) {
            // what was taken of `b` ranks below `x`, so it holds no peer of `z`
            let taken = b.take(j);
            assert forall|k: int| 0 <= k < taken.len() implies !pred(#[trigger] taken[k]) by {
                assert(!le(a[i], b[k]));
                if pred(taken[k]) {
                    assert(le(x, z) && le(z, b[k]));
                }
            }
            lemma_filter_none(taken, pred);
            assert((a.take(i).filter(pred) + taken.filter(pred)).push(x) =~= a.take(i).filter(
                pred,
            ).push(x) + taken.filter(pred));
        }
    }
}

/// A merge may take the next item of `b` when `a` has none left or its next
/// item ranks above it.
pub proof fn lemma_merge_takes_right<A>(
    out: Seq<A>,
    a: Seq<A>,
    b: Seq<A>,
    i: int,
    j: int,
    le: spec_fn(A, A) -> bool,
)
    requires
        total_preorder(le),
        sorted_by(a, le),
        sorted_by(b, le),
        merged_so_far(out, a, b, i, j, le),
        j < b.len(),
        i < a.len() ==> !le(a[i], b[j]),
    ensures
        merged_so_far(out.push(b[j]), a, b, i, j + 1, le),
{
    let y = b[j];
    let grown = out.push(y);
    assert forall|k: int, l: int| 0 <= k < l < grown.len() implies #[trigger] le(
        grown[k],
        grown[l],
    ) by {
        if l < out.len() {
            assert(le(out[k], out[l]));
        } else {
            assert(le(out[k], b[j]));
        }
    }
    assert forall|k: int| 0 <= k < grown.len() && i < a.len() implies le(
        #[trigger] grown[k],
        a[i],
    ) by {
        if k < out.len() {
            assert(le(out[k], a[i]));
        } else {
            assert(le(a[i], b[j]) || le(b[j], a[i]));
        }
    }
    assert forall|k: int| 0 <= k < grown.len() && j + 1 < b.len() implies le(
        #[trigger] grown[k],
        b[j + 1],
    ) by {
        assert(le(b[j], b[j + 1]));
        if k < out.len() {
            assert(le(out[k], b[j]));
        }
    }
    assert forall|z: A| #[trigger]
        peers(grown, le, z) == peers(a.take(i), le, z) + peers(b.take(j + 1), le, z) by {
        let pred = peer_of(le, z);
        lemma_filter_push(out, y, pred);
        lemma_filter_push(b.take(j), y, pred);
        assert(b.take(j + 1) =~= b.take(j).push(y));
        assert(peers(out, le, z) == peers(a.take(i), le, z) + peers(b.take(j), le, z));
        if pred(y) {
            assert((a.take(i).filter(pred) + b.take(j).filter(pred)).push(y) =~= a.take(i).filter(
                pred,
            ) + b.take(j).filter(pred).push(y));
        }
    }
}

/// A merge that has taken everything is the stable sort of `a` followed by
/// `b`.
pub proof fn lemma_merge_done<A>(out: Seq<A>, a: Seq<A>, b: Seq<A>, le: spec_fn(A, A) -> bool)
    requires
        merged_so_far(out, a, b, a.len() as int, b.len() as int, le),
    ensures
        stable_sort_of(out, a + b, le),
{
    assert(a.take(a.len() as int) =~= a);
    assert(b.take(b.len() as int) =~= b);
    assert forall|z: A| #[trigger] peers(out, le, z) == peers(a + b, le, z) by {
        Seq::filter_distributes_over_add(a, b, peer_of(le, z));
        assert(peers(out, le, z) == peers(a.take(a.len() as int), le, z) + peers(
            b.take(b.len() as int),
            le,
            z,
        ));
    }
}

/// Sorting two halves and sorting the two results in a row sorts the whole.
pub proof fn lemma_stable_sort_of_halves<A>(
    out: Seq<A>,
    left: Seq<A>,
    right: Seq<A>,
    whole: Seq<A>,
    le: spec_fn(A, A) -> bool,
)
    requires
        total_preorder(le),
        stable_sort_of(out, stable_sorted(left, le) + stable_sorted(right, le), le),
        whole == left + right,
    ensures
        stable_sort_of(out, whole, le),
{
    lemma_stable_sorted(left, le);
    lemma_stable_sorted(right, le);
    assert forall|z: A| #[trigger] peers(out, le, z) == peers(whole, le, z) by {
        let pred = peer_of(le, z);
        Seq::filter_distributes_over_add(stable_sorted(left, le), stable_sorted(right, le), pred);
        Seq::filter_distributes_over_add(left, right, pred);
        assert(peers(out, le, z) == peers(
            stable_sorted(left, le) + stable_sorted(right, le),
            le,
            z,
        ));
        assert(peers(stable_sorted(left, le), le, z) == peers(left, le, z));
        assert(peers(stable_sorted(right, le), le, z) == peers(right, le, z));
    }
}

} // verus!
