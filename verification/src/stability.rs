//! What holds of stable sorts: every sequence has one and only one, it
//! holds the items of the sequence, and it does not depend on the order of
//! a sequence whose ranks tell its items apart.

use crate::sorting::{peer_of, peers, stable_sort_of, stable_sorted, total_preorder};
use vstd::prelude::*;
use vstd::relations::*;

verus! {

/// A sequence without an item of some kind filters to nothing.
pub proof fn lemma_filter_none<A>(s: Seq<A>, pred: spec_fn(A) -> bool)
    requires
        forall|i: int| 0 <= i < s.len() ==> !pred(#[trigger] s[i]),
    ensures
        s.filter(pred) == Seq::<A>::empty(),
    decreases s.len(),
{
    reveal(Seq::filter);
    if s.len() > 0 {
        lemma_filter_none(s.drop_last(), pred);
    }
}

/// Filtering a sequence whose first item passes keeps that item first.
proof fn lemma_filter_first<A>(s: Seq<A>, pred: spec_fn(A) -> bool)
    requires
        s.len() > 0,
    ensures
        s.filter(pred) == if pred(s[0]) {
            seq![s[0]] + s.drop_first().filter(pred)
        } else {
            s.drop_first().filter(pred)
        },
{
    let head = seq![s[0]];
    assert(s =~= head + s.drop_first());
    Seq::filter_distributes_over_add(head, s.drop_first(), pred);
    assert(head.filter(pred) == if pred(s[0]) { head } else { Seq::<A>::empty() }) by {
        reveal_with_fuel(Seq::filter, 2);
        assert(head.drop_last() =~= Seq::<A>::empty());
        assert(Seq::<A>::empty().push(s[0]) =~= head);
    }
    assert(Seq::<A>::empty() + s.drop_first().filter(pred) =~= s.drop_first().filter(pred));
}

/// Sorted sequences that agree on the items of every rank are equal.
pub proof fn lemma_sorted_determined_by_peers<A>(a: Seq<A>, b: Seq<A>, le: spec_fn(A, A) -> bool)
    requires
        total_preorder(le),
        sorted_by(a, le),
        sorted_by(b, le),
        forall|x: A| #[trigger] peers(a, le, x) == peers(b, le, x),
    ensures
        a == b,
    decreases a.len(),
{
    if a.len() == 0 {
        if b.len() > 0 {
            let y = b[0];
            assert(le(y, y));
            lemma_filter_first(b, peer_of(le, y));
            lemma_filter_none(a, peer_of(le, y));
            assert(peers(b, le, y).len() > 0);
            assert(peers(a, le, y) == peers(b, le, y));
        }
        assert(a =~= b);
    } else {
        let x = a[0];
        assert(le(x, x));
        lemma_filter_first(a, peer_of(le, x));
        assert(peers(a, le, x).len() > 0 && peers(a, le, x)[0] == x);
        assert(peers(a, le, x) == peers(b, le, x));
        // `b` holds a peer of `x`, so it is not empty
        assert(b.len() > 0) by {
            if b.len() == 0 {
                lemma_filter_none(b, peer_of(le, x));
            }
        }
        let y = b[0];
        assert(le(y, y));
        lemma_filter_first(b, peer_of(le, y));
        assert(peers(b, le, y)[0] == y);
        assert(peers(a, le, y) == peers(b, le, y));
        // the first items rank alike: each sequence holds a peer of the
        // other's first item, at or behind its own first item
        assert(peer_of(le, x)(y)) by {
            let pa = peers(a, le, y);
            a.lemma_filter_pred(peer_of(le, y), 0);
            assert(a.contains(pa[0])) by {
                lemma_filter_members(a, peer_of(le, y), 0);
            }
            let i = choose|i: int| 0 <= i < a.len() && a[i] == pa[0];
            assert(le(x, a[i])) by {
                if i > 0 {
                    assert(le(a[0], a[i]));
                }
            }
            let pb = peers(b, le, x);
            b.lemma_filter_pred(peer_of(le, x), 0);
            assert(b.contains(pb[0])) by {
                lemma_filter_members(b, peer_of(le, x), 0);
            }
            let j = choose|j: int| 0 <= j < b.len() && b[j] == pb[0];
            assert(le(y, b[j])) by {
                if j > 0 {
                    assert(le(b[0], b[j]));
                }
            }
            assert(le(x, pa[0]) && le(pa[0], y));
            assert(le(y, pb[0]) && le(pb[0], x));
        }
        assert(peers(b, le, x)[0] == y) by {
            lemma_filter_first(b, peer_of(le, x));
        }
        assert(x == y);

        let ta = a.drop_first();
        let tb = b.drop_first();
        assert forall|z: A| #[trigger] peers(ta, le, z) == peers(tb, le, z) by {
            lemma_filter_first(a, peer_of(le, z));
            lemma_filter_first(b, peer_of(le, z));
            assert(peers(a, le, z) == peers(b, le, z));
            if peer_of(le, z)(x) {
                assert((seq![x] + peers(ta, le, z)).drop_first() =~= peers(ta, le, z));
                assert((seq![x] + peers(tb, le, z)).drop_first() =~= peers(tb, le, z));
            }
        }
        assert(sorted_by(ta, le)) by {
            assert forall|i: int, j: int| 0 <= i < j < ta.len() implies #[trigger] le(
                ta[i],
                ta[j],
            ) by {
                assert(le(a[i + 1], a[j + 1]));
            }
        }
        assert(sorted_by(tb, le)) by {
            assert forall|i: int, j: int| 0 <= i < j < tb.len() implies #[trigger] le(
                tb[i],
                tb[j],
            ) by {
                assert(le(b[i + 1], b[j + 1]));
            }
        }
        lemma_sorted_determined_by_peers(ta, tb, le);
        assert(a =~= seq![x] + ta);
        assert(b =~= seq![y] + tb);
    }
}

/// Every item that a filter lets through is an item of the sequence.
proof fn lemma_filter_members<A>(s: Seq<A>, pred: spec_fn(A) -> bool, i: int)
    requires
        0 <= i < s.filter(pred).len(),
    ensures
        s.contains(s.filter(pred)[i]),
    decreases s.len(),
{
    reveal(Seq::filter);
    if s.len() > 0 {
        let front = s.drop_last();
        if i < front.filter(pred).len() {
            lemma_filter_members(front, pred, i);
            let k = choose|k: int| 0 <= k < front.len() && front[k] == front.filter(pred)[i];
            assert(s[k] == s.filter(pred)[i]);
        } else {
            assert(s[s.len() - 1] == s.filter(pred)[i]);
        }
    }
}

/// A sequence has at most one stable sort.
pub proof fn lemma_stable_sort_unique<A>(
    a: Seq<A>,
    b: Seq<A>,
    s: Seq<A>,
    le: spec_fn(A, A) -> bool,
)
    requires
        total_preorder(le),
        stable_sort_of(a, s, le),
        stable_sort_of(b, s, le),
    ensures
        a == b,
{
    assert forall|x: A| #[trigger] peers(a, le, x) == peers(b, le, x) by {
        assert(peers(a, le, x) == peers(s, le, x));
        assert(peers(b, le, x) == peers(s, le, x));
    }
    lemma_sorted_determined_by_peers(a, b, le);
}

/// Putting `x` in front of the first item of `out` that does not rank below
/// it sorts `x` in as the earliest item of its rank.
pub proof fn lemma_insert_extends_stable_sort<A>(
    out: Seq<A>,
    rest: Seq<A>,
    x: A,
    p: int,
    le: spec_fn(A, A) -> bool,
)
    requires
        total_preorder(le),
        stable_sort_of(out, rest, le),
        0 <= p <= out.len(),
        forall|i: int| 0 <= i < p ==> !le(x, #[trigger] out[i]),
        forall|i: int| p <= i < out.len() ==> le(x, #[trigger] out[i]),
    ensures
        stable_sort_of(out.insert(p, x), seq![x] + rest, le),
{
    let grown = out.insert(p, x);
    let below = out.take(p);
    let above = out.skip(p);
    assert forall|i: int, j: int| 0 <= i < j < grown.len() implies #[trigger] le(
        grown[i],
        grown[j],
    ) by {
        if i == p {
            assert(le(x, out[j - 1]));
        } else if j == p {
            assert(le(x, out[i]) || le(out[i], x));
        } else {
            let oi = if i < p { i } else { i - 1 };
            let oj = if j < p { j } else { j - 1 };
            assert(le(out[oi], out[oj]));
        }
    }
    assert forall|z: A| #[trigger] peers(grown, le, z) == peers(seq![x] + rest, le, z) by {
        let pred = peer_of(le, z);
        assert(grown =~= below + seq![x] + above);
        assert(out =~= below + above);
        Seq::filter_distributes_over_add(below + seq![x], above, pred);
        Seq::filter_distributes_over_add(below, seq![x], pred);
        Seq::filter_distributes_over_add(below, above, pred);
        Seq::filter_distributes_over_add(seq![x], rest, pred);
        assert(peers(out, le, z) == peers(rest, le, z));
        if pred(x) {
            assert forall|i: int| 0 <= i < below.len() implies !pred(#[trigger] below[i]) by {
                assert(!le(x, out[i]));
                if pred(below[i]) {
                    assert(le(x, z) && le(z, out[i]));
                }
            }
            lemma_filter_none(below, pred);
            assert(below.filter(pred) + seq![x].filter(pred) =~= seq![x].filter(pred));
            assert(below.filter(pred) + above.filter(pred) =~= above.filter(pred));
        } else {
            assert forall|i: int| 0 <= i < 1 implies !pred(#[trigger] seq![x][i]) by {}
            lemma_filter_none(seq![x], pred);
            assert(below.filter(pred) + seq![x].filter(pred) =~= below.filter(pred));
            assert(seq![x].filter(pred) + rest.filter(pred) =~= rest.filter(pred));
        }
    }
}

/// In a sorted sequence the items that rank below `x` come first: the result
/// is where they end.
pub proof fn lemma_insertion_point<A>(out: Seq<A>, x: A, le: spec_fn(A, A) -> bool) -> (p: int)
    requires
        total_preorder(le),
        sorted_by(out, le),
    ensures
        0 <= p <= out.len(),
        forall|i: int| 0 <= i < p ==> !le(x, #[trigger] out[i]),
        forall|i: int| p <= i < out.len() ==> le(x, #[trigger] out[i]),
    decreases out.len(),
{
    if out.len() == 0 {
        0
    } else if le(x, out[0]) {
        assert forall|i: int| 0 <= i < out.len() implies le(x, #[trigger] out[i]) by {
            if i > 0 {
                assert(le(out[0], out[i]));
            }
        }
        0
    } else {
        let tail = out.drop_first();
        assert forall|i: int, j: int| 0 <= i < j < tail.len() implies #[trigger] le(
            tail[i],
            tail[j],
        ) by {
            assert(le(out[i + 1], out[j + 1]));
        }
        let q = lemma_insertion_point(tail, x, le);
        assert forall|i: int| 0 <= i < q + 1 implies !le(x, #[trigger] out[i]) by {
            if i > 0 {
                assert(!le(x, tail[i - 1]));
            }
        }
        assert forall|i: int| q + 1 <= i < out.len() implies le(x, #[trigger] out[i]) by {
            assert(le(x, tail[i - 1]));
        }
        q + 1
    }
}

/// Every sequence has a stable sort, so `stable_sorted` is one.
pub proof fn lemma_stable_sorted<A>(s: Seq<A>, le: spec_fn(A, A) -> bool)
    requires
        total_preorder(le),
    ensures
        stable_sort_of(stable_sorted(s, le), s, le),
    decreases s.len(),
{
    if s.len() == 0 {
        assert(stable_sort_of(s, s, le));
    } else {
        let tail = s.drop_first();
        lemma_stable_sorted(tail, le);
        let out = stable_sorted(tail, le);
        let p = lemma_insertion_point(out, s[0], le);
        lemma_insert_extends_stable_sort(out, tail, s[0], p, le);
        assert(s =~= seq![s[0]] + tail);
        assert(stable_sort_of(out.insert(p, s[0]), s, le));
    }
}

/// What satisfies `stable_sort_of` is `stable_sorted`.
pub proof fn lemma_stable_sort_is_stable_sorted<A>(out: Seq<A>, s: Seq<A>, le: spec_fn(A, A) -> bool)
    requires
        total_preorder(le),
        stable_sort_of(out, s, le),
    ensures
        out == stable_sorted(s, le),
{
    lemma_stable_sort_unique(out, stable_sorted(s, le), s, le);
}

/// A filter keeps every copy of a value that it lets through.
proof fn lemma_filter_keeps_count<A>(s: Seq<A>, pred: spec_fn(A) -> bool, v: A)
    requires
        pred(v),
    ensures
        s.filter(pred).to_multiset().count(v) == s.to_multiset().count(v),
    decreases s.len(),
{
    reveal(Seq::filter);
    if s.len() > 0 {
        let front = s.drop_last();
        lemma_filter_keeps_count(front, pred, v);
        assert(s =~= front.push(s.last()));
        front.to_multiset_ensures();
        front.filter(pred).to_multiset_ensures();
    }
}

/// A stable sort holds the items of its input, each as often as the input
/// does.
pub proof fn lemma_stable_sort_permutes<A>(out: Seq<A>, s: Seq<A>, le: spec_fn(A, A) -> bool)
    requires
        total_preorder(le),
        stable_sort_of(out, s, le),
    ensures
        out.to_multiset() == s.to_multiset(),
        out.len() == s.len(),
{
    assert forall|v: A| out.to_multiset().count(v) == s.to_multiset().count(v) by {
        assert(le(v, v));
        assert(peers(out, le, v) == peers(s, le, v));
        lemma_filter_keeps_count(out, peer_of(le, v), v);
        lemma_filter_keeps_count(s, peer_of(le, v), v);
    }
    assert(out.to_multiset() =~= s.to_multiset());
    out.to_multiset_ensures();
    s.to_multiset_ensures();
}

/// A filter that lets through one value only yields that value, as often as
/// the sequence holds it.
proof fn lemma_filter_of_one_value<A>(s: Seq<A>, pred: spec_fn(A) -> bool, v: A)
    requires
        pred(v),
        forall|i: int| 0 <= i < s.len() && pred(#[trigger] s[i]) ==> s[i] == v,
    ensures
        s.filter(pred) == Seq::new(s.to_multiset().count(v), |i: int| v),
    decreases s.len(),
{
    reveal(Seq::filter);
    if s.len() == 0 {
        s.to_multiset_ensures();
        assert(s.to_multiset().len() == 0);
        assert(s.filter(pred) =~= Seq::new(s.to_multiset().count(v), |i: int| v));
    } else {
        let front = s.drop_last();
        lemma_filter_of_one_value(front, pred, v);
        assert(s =~= front.push(s.last()));
        front.to_multiset_ensures();
        assert(s.to_multiset() =~= front.to_multiset().insert(s.last()));
        assert(s.filter(pred) =~= Seq::new(s.to_multiset().count(v), |i: int| v));
    }
}

/// The stable sort does not depend on the order of the input, as long as
/// the input holds no two different items of one rank.
pub proof fn lemma_stable_sorted_of_rearranged<A>(a: Seq<A>, b: Seq<A>, le: spec_fn(A, A) -> bool)
    requires
        total_preorder(le),
        a.to_multiset() == b.to_multiset(),
        forall|i: int, j: int|
            0 <= i < a.len() && 0 <= j < a.len() && #[trigger] le(a[i], a[j]) && le(a[j], a[i])
                ==> a[i] == a[j],
    ensures
        stable_sorted(a, le) == stable_sorted(b, le),
{
    lemma_stable_sorted(a, le);
    lemma_stable_sorted(b, le);
    let sa = stable_sorted(a, le);
    let sb = stable_sorted(b, le);
    a.to_multiset_ensures();
    b.to_multiset_ensures();
    assert forall|x: A| #[trigger] peers(sa, le, x) == peers(sb, le, x) by {
        let pred = peer_of(le, x);
        assert(peers(sa, le, x) == peers(a, le, x));
        assert(peers(sb, le, x) == peers(b, le, x));
        // what `b` holds, `a` holds too
        assert forall|j: int| 0 <= j < b.len() implies a.contains(#[trigger] b[j]) by {
            assert(b.contains(b[j]));
            assert(b.to_multiset().count(b[j]) > 0);
        }
        if exists|i: int| 0 <= i < a.len() && pred(a[i]) {
            let i = choose|i: int| 0 <= i < a.len() && pred(a[i]);
            let v = a[i];
            assert forall|k: int| 0 <= k < a.len() && pred(#[trigger] a[k]) implies a[k] == v by {
                assert(le(a[k], x) && le(x, a[i]));
                assert(le(a[i], x) && le(x, a[k]));
                assert(le(a[k], a[i]) && le(a[i], a[k]));
            }
            assert forall|j: int| 0 <= j < b.len() && pred(#[trigger] b[j]) implies b[j] == v by {
                assert(a.contains(b[j]));
                let k = choose|k: int| 0 <= k < a.len() && a[k] == b[j];
                assert(pred(a[k]));
            }
            lemma_filter_of_one_value(a, pred, v);
            lemma_filter_of_one_value(b, pred, v);
        } else {
            assert forall|j: int| 0 <= j < b.len() implies !pred(#[trigger] b[j]) by {
                assert(a.contains(b[j]));
                let k = choose|k: int| 0 <= k < a.len() && a[k] == b[j];
                assert(!pred(a[k]));
            }
            lemma_filter_none(a, pred);
            lemma_filter_none(b, pred);
        }
    }
    lemma_sorted_determined_by_peers(sa, sb, le);
}

/// Sorting what is sorted changes nothing.
pub proof fn lemma_stable_sorted_of_sorted<A>(s: Seq<A>, le: spec_fn(A, A) -> bool)
    requires
        total_preorder(le),
        sorted_by(s, le),
    ensures
        stable_sorted(s, le) == s,
{
    assert(stable_sort_of(s, s, le));
    lemma_stable_sort_is_stable_sorted(s, s, le);
}

/// Sequences that hold the same items, each as often as the other does,
/// still do so after one function was applied to every item.
pub proof fn lemma_map_values_of_rearranged<A, B>(a: Seq<A>, b: Seq<A>, f: spec_fn(A) -> B)
    requires
        a.to_multiset() == b.to_multiset(),
    ensures
        a.map_values(f).to_multiset() == b.map_values(f).to_multiset(),
    decreases a.len(),
{
    a.to_multiset_ensures();
    b.to_multiset_ensures();
    if a.len() == 0 {
        assert(b.len() == 0);
        assert(a.map_values(f) =~= b.map_values(f));
    } else {
        let last = a.last();
        let front = a.drop_last();
        assert(a.contains(last));
        assert(b.to_multiset().count(last) > 0);
        let k = choose|k: int| 0 <= k < b.len() && b[k] == last;
        let others = b.remove(k);
        assert(front =~= a.remove(a.len() - 1));
        assert(front.to_multiset() =~= others.to_multiset());
        lemma_map_values_of_rearranged(front, others, f);
        let fa = a.map_values(f);
        let fb = b.map_values(f);
        assert(front.map_values(f) =~= fa.remove(a.len() - 1));
        assert(others.map_values(f) =~= fb.remove(k));
        fa.to_multiset_ensures();
        fb.to_multiset_ensures();
        assert(fa[a.len() - 1] == fb[k]);
        assert(fa.to_multiset() =~= fa.remove(a.len() - 1).to_multiset().insert(f(last)));
        assert(fb.to_multiset() =~= fb.remove(k).to_multiset().insert(f(last)));
    }
}

} // verus!
