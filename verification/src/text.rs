//! Text: its lexicographic order, and joining pieces of it.
//!
//! The order goes by Unicode scalar value. This is the order in which the
//! standard library compares strings: UTF-8 keeps the order of the scalar
//! values, so comparing bytes and comparing characters agree.

use crate::sorting::{lemma_ranking_total_preorder, ranking, stable_sorted, Ranked};
use crate::stability::{lemma_stable_sort_permutes, lemma_stable_sorted};
use vstd::prelude::*;
use vstd::std_specs::iter::IteratorSpec;
use vstd::string::*;

verus! {

/// The position of a character in the Unicode code charts.
pub open spec fn scalar(c: char) -> int {
    c as u32 as int
}

/// `a` comes strictly before `b`: at the first position where the two differ
/// `a` holds the smaller character, or `a` ends there and `b` goes on.
pub open spec fn text_lt(a: Seq<char>, b: Seq<char>) -> bool
    decreases a.len(),
{
    if b.len() == 0 {
        false
    } else if a.len() == 0 {
        true
    } else if a[0] != b[0] {
        scalar(a[0]) < scalar(b[0])
    } else {
        text_lt(a.drop_first(), b.drop_first())
    }
}

/// `a` comes before `b` or equals it.
pub open spec fn text_le(a: Seq<char>, b: Seq<char>) -> bool {
    !text_lt(b, a)
}

/// No text comes before itself, and of two texts at most one comes before
/// the other.
pub proof fn lemma_text_lt_asymmetric(a: Seq<char>, b: Seq<char>)
    ensures
        !(text_lt(a, b) && text_lt(b, a)),
    decreases a.len(),
{
    if a.len() > 0 && b.len() > 0 && a[0] == b[0] {
        lemma_text_lt_asymmetric(a.drop_first(), b.drop_first());
    }
}

/// Two texts of which neither comes before the other are the same text.
pub proof fn lemma_text_lt_connected(a: Seq<char>, b: Seq<char>)
    requires
        !text_lt(a, b),
        !text_lt(b, a),
    ensures
        a == b,
    decreases a.len(),
{
    if a.len() > 0 && b.len() > 0 {
        // neither first character is the smaller one, so they are the same
        assert(a[0] == b[0]) by {
            vstd::utf8::char_u32_cast(a[0], a[0] as u32);
            vstd::utf8::char_u32_cast(b[0], b[0] as u32);
        }
        lemma_text_lt_connected(a.drop_first(), b.drop_first());
        assert(a =~= seq![a[0]] + a.drop_first());
        assert(b =~= seq![b[0]] + b.drop_first());
    } else {
        assert(a =~= b);
    }
}

/// The strict order is transitive.
pub proof fn lemma_text_lt_transitive(a: Seq<char>, b: Seq<char>, c: Seq<char>)
    requires
        text_lt(a, b),
        text_lt(b, c),
    ensures
        text_lt(a, c),
    decreases a.len(),
{
    if a.len() > 0 && a[0] == b[0] && b[0] == c[0] {
        lemma_text_lt_transitive(a.drop_first(), b.drop_first(), c.drop_first());
    }
}

/// `text_le` is transitive.
pub proof fn lemma_text_le_transitive(a: Seq<char>, b: Seq<char>, c: Seq<char>)
    requires
        text_le(a, b),
        text_le(b, c),
    ensures
        text_le(a, c),
{
    if text_lt(c, a) {
        if text_lt(b, c) {
            lemma_text_lt_transitive(b, c, a);
        } else {
            lemma_text_lt_connected(b, c);
        }
    }
}

/// Decides `text_lt` on two strings, reading each at most once.
pub fn str_lt(a: &str, b: &str) -> (r: bool)
    ensures
        r == text_lt(a@, b@),
{
    broadcast use group_string_axioms;

    let mut rest_a = a.chars();
    let mut rest_b = b.chars();
    loop
        invariant
            rest_a.decrease() is Some,
            text_lt(a@, b@) == text_lt(rest_a.remaining(), rest_b.remaining()),
        decreases rest_a.decrease()->0,
    {
        let next_a = rest_a.next();
        let next_b = rest_b.next();
        match (next_a, next_b) {
            (_, None) => {
                return false;
            },
            (None, Some(_)) => {
                return true;
            },
            (Some(x), Some(y)) => {
                if x != y {
                    return (x as u32) < (y as u32);
                }
            },
        }
    }
}

/// The parts in a row, with the separator between each two neighbours.
pub open spec fn joined(parts: Seq<Seq<char>>, separator: Seq<char>) -> Seq<char>
    decreases parts.len(),
{
    if parts.len() == 0 {
        Seq::empty()
    } else if parts.len() == 1 {
        parts[0]
    } else {
        parts[0] + separator + joined(parts.drop_first(), separator)
    }
}

/// Joining one part more puts the separator and the part at the end, and
/// the part alone where there was none before.
pub proof fn lemma_joined_push(parts: Seq<Seq<char>>, separator: Seq<char>, part: Seq<char>)
    ensures
        joined(parts.push(part), separator) == if parts.len() == 0 {
            part
        } else {
            joined(parts, separator) + separator + part
        },
    decreases parts.len(),
{
    let grown = parts.push(part);
    if parts.len() == 0 {
    } else if parts.len() == 1 {
        assert(grown.drop_first() =~= seq![part]);
        assert(joined(grown.drop_first(), separator) == part);
    } else {
        lemma_joined_push(parts.drop_first(), separator, part);
        assert(grown.drop_first() =~= parts.drop_first().push(part));
        assert(parts[0] + separator + (joined(parts.drop_first(), separator) + separator + part)
            =~= parts[0] + separator + joined(parts.drop_first(), separator) + separator + part);
    }
}

/// Puts the parts in a row, with the separator between each two
/// neighbours.
pub fn join(parts: &Vec<String>, separator: &str) -> (text: String)
    ensures
        text@ == joined(parts.deep_view(), separator@),
{
    let ghost all = parts.deep_view();
    let mut text = String::new();
    let mut i: usize = 0;
    while i < parts.len()
        invariant
            i <= parts.len(),
            all == parts.deep_view(),
            text@ == joined(all.take(i as int), separator@),
        decreases parts.len() - i,
    {
        if i > 0 {
            text.append(separator);
        }
        text.append(parts[i].as_str());
        proof {
            lemma_joined_push(all.take(i as int), separator@, all[i as int]);
            assert(all.take(i + 1) =~= all.take(i as int).push(all[i as int]));
        }
        i += 1;
    }
    proof {
        assert(all.take(parts.len() as int) =~= all);
    }
    text
}

/// Strings rank in lexicographic order.
impl Ranked for String {
    open spec fn rank_le(a: Seq<char>, b: Seq<char>) -> bool {
        text_le(a, b)
    }

    proof fn lemma_rank_le_total_preorder() {
        assert forall|a: Seq<char>, b: Seq<char>| #[trigger]
            Self::rank_le(a, b) || Self::rank_le(b, a) by {
            lemma_text_lt_asymmetric(a, b);
        }
        assert forall|a: Seq<char>, b: Seq<char>, c: Seq<char>| #[trigger]
            Self::rank_le(a, b) && #[trigger] Self::rank_le(b, c) implies Self::rank_le(a, c) by {
            lemma_text_le_transitive(a, b, c);
        }
    }

    fn ranks_below(&self, other: &Self) -> (r: bool) {
        str_lt(self.as_str(), other.as_str())
    }
}

/// The names are in ascending lexicographic order.
pub open spec fn names_in_order(names: Seq<Seq<char>>) -> bool {
    forall|i: int, j: int| 0 <= i < j < names.len() ==> text_le(names[i], names[j])
}

/// The names in ascending lexicographic order.
pub open spec fn sorted_names(names: Seq<Seq<char>>) -> Seq<Seq<char>> {
    stable_sorted(names, ranking::<String>())
}

/// `sorted_names` is in order and holds each name as often as `names` does.
pub proof fn lemma_sorted_names(names: Seq<Seq<char>>)
    ensures
        names_in_order(sorted_names(names)),
        sorted_names(names).to_multiset() == names.to_multiset(),
        sorted_names(names).len() == names.len(),
{
    let le = ranking::<String>();
    lemma_ranking_total_preorder::<String>();
    lemma_stable_sorted(names, le);
    lemma_stable_sort_permutes(sorted_names(names), names, le);
    let out = sorted_names(names);
    assert forall|i: int, j: int| 0 <= i < j < out.len() implies text_le(out[i], out[j]) by {
        assert(le(out[i], out[j]));
    }
}

/// Names in order that hold each name as often as `names` does are
/// `sorted_names(names)`: there is one way to put names in order.
pub proof fn lemma_sorted_names_unique(out: Seq<Seq<char>>, names: Seq<Seq<char>>)
    requires
        names_in_order(out),
        out.to_multiset() == names.to_multiset(),
    ensures
        out == sorted_names(names),
{
    let le = ranking::<String>();
    lemma_ranking_total_preorder::<String>();
    lemma_stable_sorted(names, le);
    let target = sorted_names(names);
    lemma_stable_sort_permutes(target, names, le);
    assert(vstd::relations::sorted_by(out, le));
    assert(vstd::relations::total_ordering(le)) by {
        assert forall|x: Seq<char>| #[trigger] le(x, x) by {
            lemma_text_lt_asymmetric(x, x);
        }
        assert forall|x: Seq<char>, y: Seq<char>| #[trigger] le(x, y) && #[trigger] le(
            y,
            x,
        ) implies x == y by {
            lemma_text_lt_connected(x, y);
        }
    }
    vstd::seq_lib::lemma_sorted_unique(out, target, le);
}

} // verus!
