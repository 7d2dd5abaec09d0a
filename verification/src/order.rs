//! The order of texts, and stable sorting.

use vstd::prelude::*;

verus! {

// ---------------------------------------------------------------------------
// Texts
// ---------------------------------------------------------------------------

/// `a` comes before `b` or is equal to it, by the code points of the first characters in which
/// they differ.
pub open spec fn text_le(a: Seq<char>, b: Seq<char>) -> bool
    decreases a.len(),
{
    if a.len() == 0 {
        true
    } else if b.len() == 0 {
        false
    } else {
        a[0] < b[0] || (a[0] == b[0] && text_le(a.skip(1), b.skip(1)))
    }
}

pub proof fn lemma_text_le_reflexive(a: Seq<char>)
    ensures
        text_le(a, a),
    decreases a.len(),
{
    if a.len() > 0 {
        lemma_text_le_reflexive(a.skip(1));
    }
}

pub proof fn lemma_text_le_total(a: Seq<char>, b: Seq<char>)
    ensures
        text_le(a, b) || text_le(b, a),
    decreases a.len(),
{
    if a.len() > 0 && b.len() > 0 {
        lemma_text_le_total(a.skip(1), b.skip(1));
    }
}

pub proof fn lemma_text_le_transitive(a: Seq<char>, b: Seq<char>, c: Seq<char>)
    requires
        text_le(a, b),
        text_le(b, c),
    ensures
        text_le(a, c),
    decreases a.len(),
{
    if a.len() > 0 && b.len() > 0 && c.len() > 0 && a[0] == b[0] && b[0] == c[0] {
        lemma_text_le_transitive(a.skip(1), b.skip(1), c.skip(1));
    }
}

pub proof fn lemma_text_le_antisymmetric(a: Seq<char>, b: Seq<char>)
    requires
        text_le(a, b),
        text_le(b, a),
    ensures
        a == b,
    decreases a.len(),
{
    if a.len() > 0 {
        lemma_text_le_antisymmetric(a.skip(1), b.skip(1));
        assert(a =~= seq![a[0]] + a.skip(1));
        assert(b =~= seq![b[0]] + b.skip(1));
    } else {
        assert(a =~= b);
    }
}

/// Tells whether `a` comes before `b` or is equal to it, as the order of strings has it.
pub(crate) fn not_after(a: &[char], b: &[char]) -> (r: bool)
    ensures
        r == text_le(a@, b@),
{
    let mut i: usize = 0;
    assert(a@.skip(0) =~= a@);
    assert(b@.skip(0) =~= b@);
    while i < a.len() && i < b.len()
        invariant
            i <= a@.len(),
            i <= b@.len(),
            text_le(a@, b@) == text_le(a@.skip(i as int), b@.skip(i as int)),
        decreases a@.len() - i,
    {
        let ghost s = a@.skip(i as int);
        let ghost t = b@.skip(i as int);
        assert(s[0] == a@[i as int] && t[0] == b@[i as int]);
        assert(s.skip(1) =~= a@.skip(i + 1));
        assert(t.skip(1) =~= b@.skip(i + 1));
        if a[i] < b[i] {
            return true;
        }
        if b[i] < a[i] {
            return false;
        }
        i += 1;
    }
    a.len() <= i
}

// ---------------------------------------------------------------------------
// Stable sorting
// ---------------------------------------------------------------------------

/// The items of `s` that rank as `x` does, in their order.
pub open spec fn ranked_as<V>(s: Seq<V>, x: V, le: spec_fn(V, V) -> bool) -> Seq<V> {
    s.filter(|e: V| le(e, x) && le(x, e))
}

/// No item comes before one that ranks lower.
pub open spec fn sorted<V>(s: Seq<V>, le: spec_fn(V, V) -> bool) -> bool {
    forall|i: int, j: int| 0 <= i < j < s.len() ==> le(#[trigger] s[i], #[trigger] s[j])
}

/// `out` holds the items of `inp`, sorted, with those of the same rank in the order that they had.
pub open spec fn stably_sorted<V>(out: Seq<V>, inp: Seq<V>, le: spec_fn(V, V) -> bool) -> bool {
    &&& sorted(out, le)
    &&& forall|x: V| #[trigger] ranked_as(out, x, le) == ranked_as(inp, x, le)
    &&& out.len() == inp.len()
}

/// The stable sort of a list, which is unique where `le` is a ranking.
pub open spec fn stable_sort_of<V>(inp: Seq<V>, le: spec_fn(V, V) -> bool) -> Seq<V> {
    choose|out: Seq<V>| stably_sorted(out, inp, le)
}

/// `le` ranks any two items, and ranks them consistently.
pub open spec fn is_ranking<V>(le: spec_fn(V, V) -> bool) -> bool {
    &&& forall|a: V| #[trigger] le(a, a)
    &&& forall|a: V, b: V| #[trigger] le(a, b) || le(b, a)
    &&& forall|a: V, b: V, c: V| #[trigger] le(a, b) && #[trigger] le(b, c) ==> le(a, c)
}

/// The views of the items of a list.
pub open spec fn views<T: View>(s: Seq<T>) -> Seq<T::V> {
    s.map_values(|t: T| t@)
}

/// Putting an item in front of the first that does not rank below it keeps a list sorted, and
/// puts the item in front of those of its rank.
proof fn lemma_insert<V>(s: Seq<V>, p: int, x: V, le: spec_fn(V, V) -> bool)
    requires
        is_ranking(le),
        sorted(s, le),
        0 <= p <= s.len(),
        forall|i: int| 0 <= i < p ==> !le(x, #[trigger] s[i]),
        p < s.len() ==> le(x, s[p]),
    ensures
        sorted(s.insert(p, x), le),
        forall|k: V|
            #[trigger] ranked_as(s.insert(p, x), k, le) == ranked_as(seq![x], k, le) + ranked_as(
                s,
                k,
                le,
            ),
{
    let t = s.insert(p, x);
    assert forall|i: int, j: int| 0 <= i < j < t.len() implies le(
        #[trigger] t[i],
        #[trigger] t[j],
    ) by {
        if j < p {
            assert(le(s[i], s[j]));
        } else if j == p {
            assert(!le(x, s[i]));
            assert(le(s[i], x) || le(x, s[i]));
        } else if i < p {
            assert(le(s[i], s[j - 1]));
        } else if i == p {
            if j - 1 > p {
                assert(le(s[p], s[j - 1]));
            }
        } else {
            assert(le(s[i - 1], s[j - 1]));
        }
    }
    assert forall|k: V| #[trigger] ranked_as(t, k, le) == ranked_as(seq![x], k, le) + ranked_as(
        s,
        k,
        le,
    ) by {
        let pred = |e: V| le(e, k) && le(k, e);
        let a = s.take(p);
        let b = s.skip(p);
        assert(t =~= a + seq![x] + b);
        assert(s =~= a + b);
        Seq::filter_distributes_over_add(a + seq![x], b, pred);
        Seq::filter_distributes_over_add(a, seq![x], pred);
        Seq::filter_distributes_over_add(a, b, pred);
        if pred(x) {
            assert forall|i: int| 0 <= i < a.len() implies !pred(#[trigger] a[i]) by {
                assert(!le(x, s[i]));
                if le(k, s[i]) {
                    assert(le(x, k));
                }
            }
            lemma_filter_none(a, pred);
            assert(a.filter(pred) + seq![x].filter(pred) + b.filter(pred) =~= seq![x].filter(pred)
                + (a.filter(pred) + b.filter(pred)));
        } else {
            lemma_filter_none(seq![x], pred);
            assert(a.filter(pred) + seq![x].filter(pred) + b.filter(pred) =~= seq![x].filter(pred)
                + (a.filter(pred) + b.filter(pred)));
        }
    }
}

proof fn lemma_filter_none<V>(s: Seq<V>, pred: spec_fn(V) -> bool)
    requires
        forall|i: int| 0 <= i < s.len() ==> !pred(#[trigger] s[i]),
    ensures
        s.filter(pred) == Seq::<V>::empty(),
    decreases s.len(),
{
    reveal(Seq::filter);
    if s.len() > 0 {
        let t = s.drop_last();
        assert forall|i: int| 0 <= i < t.len() implies !pred(#[trigger] t[i]) by {
            assert(!pred(s[i]));
        }
        lemma_filter_none(t, pred);
        assert(!pred(s[s.len() - 1]));
    }
    assert(s.filter(pred) =~= Seq::<V>::empty());
}

/// Sorts a list and keeps items of the same rank in their order. `not_above(a, b)` tells whether
/// `a` ranks no higher than `b`.
pub(crate) fn stable_sort<T: View, F: Fn(&T, &T) -> bool>(
    items: Vec<T>,
    not_above: F,
    Ghost(le): Ghost<spec_fn(T::V, T::V) -> bool>,
) -> (out: Vec<T>)
    requires
        is_ranking(le),
        forall|a: &T, b: &T| not_above.requires((a, b)),
        forall|a: &T, b: &T, r: bool| not_above.ensures((a, b), r) ==> r == le(a@, b@),
    ensures
        stably_sorted(views(out@), views(items@), le),
        views(out@) == stable_sort_of(views(items@), le),
{
    let ghost all = views(items@);
    let mut items = items;
    let mut out: Vec<T> = Vec::new();
    assert(all.skip(all.len() as int) =~= views(out@));
    loop
        invariant
            is_ranking(le),
            forall|a: &T, b: &T| not_above.requires((a, b)),
            forall|a: &T, b: &T, r: bool| not_above.ensures((a, b), r) ==> r == le(a@, b@),
            views(items@) == all.take(items@.len() as int),
            items@.len() <= all.len(),
            stably_sorted(views(out@), all.skip(items@.len() as int), le),
        ensures
            stably_sorted(views(out@), all, le),
        decreases items@.len(),
    {
        let ghost n = items@.len() as int;
        let ghost before = views(items@);
        match items.pop() {
            None => {
                assert(all.skip(0) =~= all);
                break;
            },
            Some(x) => {
                assert(views(items@) =~= all.take(n - 1));
                assert(before[n - 1] == x@);
                assert(all[n - 1] == x@);
                let ghost sorted_before = views(out@);
                let mut p: usize = 0;
                while p < out.len() && !not_above(&x, &out[p])
                    invariant
                        forall|a: &T, b: &T| not_above.requires((a, b)),
                        forall|a: &T, b: &T, r: bool|
                            not_above.ensures((a, b), r) ==> r == le(a@, b@),
                        p <= out@.len(),
                        sorted_before == views(out@),
                        forall|i: int| 0 <= i < p ==> !le(x@, #[trigger] sorted_before[i]),
                    ensures
                        p <= out@.len(),
                        forall|i: int| 0 <= i < p ==> !le(x@, #[trigger] sorted_before[i]),
                        p < out@.len() ==> le(x@, sorted_before[p as int]),
                    decreases out@.len() - p,
                {
                    p += 1;
                }
                proof {
                    lemma_insert(sorted_before, p as int, x@, le);
                    assert(views(out@.insert(p as int, x)) =~= sorted_before.insert(
                        p as int,
                        x@,
                    ));
                    let rest = all.skip(n);
                    assert(all.skip(n - 1) =~= seq![x@] + rest);
                    assert forall|k: T::V| #[trigger] ranked_as(
                        sorted_before.insert(p as int, x@),
                        k,
                        le,
                    ) == ranked_as(all.skip(n - 1), k, le) by {
                        Seq::filter_distributes_over_add(
                            seq![x@],
                            rest,
                            |e: T::V| le(e, k) && le(k, e),
                        );
                        assert(ranked_as(sorted_before, k, le) == ranked_as(rest, k, le));
                    }
                }
                out.insert(p, x);
            },
        }
    }
    proof {
        law_stable_sort_is_unique(views(out@), stable_sort_of(all, le), all, le);
    }
    out
}

/// Sorting leaves nothing open: two lists that are both the stable sort of a third are equal.
pub proof fn law_stable_sort_is_unique<V>(
    a: Seq<V>,
    b: Seq<V>,
    inp: Seq<V>,
    le: spec_fn(V, V) -> bool,
)
    requires
        is_ranking(le),
        stably_sorted(a, inp, le),
        stably_sorted(b, inp, le),
    ensures
        a == b,
{
    assert forall|x: V| #[trigger] ranked_as(a, x, le) == ranked_as(b, x, le) by {
        assert(ranked_as(a, x, le) == ranked_as(inp, x, le));
        assert(ranked_as(b, x, le) == ranked_as(inp, x, le));
    }
    lemma_same_ranks_same_list(a, b, le);
}

/// Every list has a stable sort.
pub proof fn lemma_stable_sort_exists<V>(inp: Seq<V>, le: spec_fn(V, V) -> bool)
    requires
        is_ranking(le),
    ensures
        stably_sorted(stable_sort_of(inp, le), inp, le),
{
    let out = lemma_sorting(inp, le);
    assert(stably_sorted(out, inp, le));
}

/// A stable sort of a list, item by item from the back.
proof fn lemma_sorting<V>(inp: Seq<V>, le: spec_fn(V, V) -> bool) -> (out: Seq<V>)
    requires
        is_ranking(le),
    ensures
        stably_sorted(out, inp, le),
    decreases inp.len(),
{
    if inp.len() == 0 {
        inp
    } else {
        let x = inp[0];
        let rest = inp.skip(1);
        let s = lemma_sorting(rest, le);
        let p = lemma_place(s, x, le, 0);
        lemma_insert(s, p, x, le);
        let out = s.insert(p, x);
        assert(inp =~= seq![x] + rest);
        assert forall|k: V| #[trigger] ranked_as(out, k, le) == ranked_as(inp, k, le) by {
            Seq::filter_distributes_over_add(seq![x], rest, |e: V| le(e, k) && le(k, e));
            assert(ranked_as(s, k, le) == ranked_as(rest, k, le));
        }
        out
    }
}

/// The first position whose item does not rank below `x`.
proof fn lemma_place<V>(s: Seq<V>, x: V, le: spec_fn(V, V) -> bool, from: int) -> (p: int)
    requires
        0 <= from <= s.len(),
        forall|i: int| 0 <= i < from ==> !le(x, #[trigger] s[i]),
    ensures
        0 <= p <= s.len(),
        forall|i: int| 0 <= i < p ==> !le(x, #[trigger] s[i]),
        p < s.len() ==> le(x, s[p]),
    decreases s.len() - from,
{
    if from == s.len() || le(x, s[from]) {
        from
    } else {
        lemma_place(s, x, le, from + 1)
    }
}

/// A list that is in order stays as it is when it is sorted.
pub proof fn law_sorted_list_stays<V>(inp: Seq<V>, le: spec_fn(V, V) -> bool)
    requires
        is_ranking(le),
        forall|i: int, j: int| 0 <= i < j < inp.len() ==> le(#[trigger] inp[i], #[trigger] inp[j]),
    ensures
        stable_sort_of(inp, le) == inp,
{
    lemma_stable_sort_exists(inp, le);
    law_stable_sort_is_unique(stable_sort_of(inp, le), inp, inp, le);
}

/// Two neighbours of different rank may change places before a list is sorted.
pub proof fn law_neighbours_may_change_places<V>(
    front: Seq<V>,
    a: V,
    b: V,
    rest: Seq<V>,
    le: spec_fn(V, V) -> bool,
)
    requires
        is_ranking(le),
        !(le(a, b) && le(b, a)),
    ensures
        stable_sort_of(front + seq![a, b] + rest, le) == stable_sort_of(
            front + seq![b, a] + rest,
            le,
        ),
{
    let inp = front + seq![a, b] + rest;
    let other = front + seq![b, a] + rest;
    let out = stable_sort_of(inp, le);
    lemma_stable_sort_exists(inp, le);
    lemma_stable_sort_exists(other, le);
    assert forall|x: V| #[trigger] ranked_as(out, x, le) == ranked_as(other, x, le) by {
        let pred = |e: V| le(e, x) && le(x, e);
        assert(ranked_as(out, x, le) == ranked_as(inp, x, le));
        Seq::filter_distributes_over_add(front + seq![a, b], rest, pred);
        Seq::filter_distributes_over_add(front, seq![a, b], pred);
        Seq::filter_distributes_over_add(front + seq![b, a], rest, pred);
        Seq::filter_distributes_over_add(front, seq![b, a], pred);
        assert(seq![a, b] =~= seq![a] + seq![b]);
        assert(seq![b, a] =~= seq![b] + seq![a]);
        Seq::filter_distributes_over_add(seq![a], seq![b], pred);
        Seq::filter_distributes_over_add(seq![b], seq![a], pred);
        lemma_filter_one(a, pred);
        lemma_filter_one(b, pred);
        assert(seq![a, b].filter(pred) =~= seq![b, a].filter(pred));
    }
    law_stable_sort_is_unique(out, stable_sort_of(other, le), other, le);
}

proof fn lemma_filter_one<V>(x: V, pred: spec_fn(V) -> bool)
    ensures
        seq![x].filter(pred) == (if pred(x) {
            seq![x]
        } else {
            seq![]
        }),
{
    reveal(Seq::filter);
    let s = seq![x];
    assert(s.drop_last() =~= seq![]);
    assert(s.drop_last().filter(pred) =~= seq![]);
    assert(s.filter(pred) =~= if pred(x) {
        seq![x]
    } else {
        seq![]
    });
}

/// Sorting neither loses an item nor brings one in.
pub proof fn law_sort_keeps_items<V>(inp: Seq<V>, le: spec_fn(V, V) -> bool, x: V)
    requires
        is_ranking(le),
    ensures
        stable_sort_of(inp, le).contains(x) == inp.contains(x),
        stable_sort_of(inp, le).len() == inp.len(),
{
    let out = stable_sort_of(inp, le);
    lemma_stable_sort_exists(inp, le);
    assert(ranked_as(out, x, le) == ranked_as(inp, x, le));
    lemma_ranked_as_itself(out, x, le);
    lemma_ranked_as_itself(inp, x, le);
}

/// The items that rank as one does hold it as often as the list does.
proof fn lemma_ranked_count<V>(s: Seq<V>, x: V, le: spec_fn(V, V) -> bool)
    requires
        is_ranking(le),
    ensures
        ranked_as(s, x, le).to_multiset().count(x) == s.to_multiset().count(x),
    decreases s.len(),
{
    broadcast use vstd::seq_lib::group_to_multiset_ensures;

    reveal(Seq::filter);
    if s.len() > 0 {
        let rest = s.drop_last();
        assert(s =~= rest.push(s.last()));
        assert(le(x, x));
        lemma_ranked_count(rest, x, le);
    } else {
        assert(ranked_as(s, x, le) =~= s);
    }
}

/// A sorted list holds the items of the list that was sorted, each as often.
pub proof fn law_sort_is_permutation<V>(inp: Seq<V>, le: spec_fn(V, V) -> bool)
    requires
        is_ranking(le),
    ensures
        stable_sort_of(inp, le).to_multiset() == inp.to_multiset(),
{
    let out = stable_sort_of(inp, le);
    lemma_stable_sort_exists(inp, le);
    assert forall|x: V| out.to_multiset().count(x) == inp.to_multiset().count(x) by {
        lemma_ranked_count(out, x, le);
        lemma_ranked_count(inp, x, le);
        assert(ranked_as(out, x, le) == ranked_as(inp, x, le));
    }
    assert(out.to_multiset() =~= inp.to_multiset());
}

/// An item is among those that rank as it does.
proof fn lemma_ranked_as_itself<V>(s: Seq<V>, x: V, le: spec_fn(V, V) -> bool)
    requires
        is_ranking(le),
    ensures
        ranked_as(s, x, le).contains(x) == s.contains(x),
{
    let pred = |e: V| le(e, x) && le(x, e);
    assert(le(x, x));
    assert(pred(x));
    if s.contains(x) {
        let i = choose|i: int| 0 <= i < s.len() && s[i] == x;
        s.lemma_filter_contains(pred, i);
    }
    if s.filter(pred).contains(x) {
        s.lemma_filter_contains_rev(pred, x);
    }
}

/// The first item is the first of its rank.
proof fn lemma_first_of_rank<V>(s: Seq<V>, x: V, le: spec_fn(V, V) -> bool)
    requires
        s.len() > 0,
    ensures
        le(s[0], x) && le(x, s[0]) ==> ranked_as(s, x, le) == seq![s[0]] + ranked_as(
            s.skip(1),
            x,
            le,
        ),
        !(le(s[0], x) && le(x, s[0])) ==> ranked_as(s, x, le) == ranked_as(s.skip(1), x, le),
{
    let pred = |e: V| le(e, x) && le(x, e);
    let one = seq![s[0]];
    assert(s =~= one + s.skip(1));
    Seq::filter_distributes_over_add(one, s.skip(1), pred);
    reveal(Seq::filter);
    assert(one.drop_last() =~= Seq::<V>::empty());
    assert(one.drop_last().filter(pred) =~= Seq::<V>::empty());
    if pred(s[0]) {
        assert(one.filter(pred) =~= one);
    } else {
        assert(one.filter(pred) =~= Seq::<V>::empty());
        assert(Seq::<V>::empty() + s.skip(1).filter(pred) =~= s.skip(1).filter(pred));
    }
}

/// An item of a rank that is found in a sorted list stands behind an item that ranks no higher.
proof fn lemma_rank_bounds_first<V>(s: Seq<V>, x: V, le: spec_fn(V, V) -> bool)
    requires
        is_ranking(le),
        sorted(s, le),
        ranked_as(s, x, le).len() > 0,
    ensures
        s.len() > 0,
        le(s[0], x),
{
    let pred = |e: V| le(e, x) && le(x, e);
    if forall|i: int| 0 <= i < s.len() ==> !pred(#[trigger] s[i]) {
        lemma_filter_none(s, pred);
    } else {
        let i = choose|i: int| 0 <= i < s.len() && pred(#[trigger] s[i]);
        if i > 0 {
            assert(le(s[0], s[i]));
        }
    }
}

proof fn lemma_same_ranks_same_list<V>(a: Seq<V>, b: Seq<V>, le: spec_fn(V, V) -> bool)
    requires
        is_ranking(le),
        sorted(a, le),
        sorted(b, le),
        forall|x: V| #[trigger] ranked_as(a, x, le) == ranked_as(b, x, le),
    ensures
        a == b,
    decreases a.len(),
{
    if a.len() == 0 {
        if b.len() > 0 {
            lemma_first_of_rank(b, b[0], le);
            assert(le(b[0], b[0]));
            assert(ranked_as(b, b[0], le).len() > 0);
            assert(ranked_as(a, b[0], le) == ranked_as(b, b[0], le));
            lemma_rank_bounds_first(a, b[0], le);
        }
        assert(a =~= b);
    } else {
        let x = a[0];
        assert(le(x, x));
        lemma_first_of_rank(a, x, le);
        assert(ranked_as(a, x, le)[0] == x);
        assert(ranked_as(a, x, le) == ranked_as(b, x, le));
        lemma_rank_bounds_first(b, x, le);
        let y = b[0];
        assert(le(y, y));
        lemma_first_of_rank(b, y, le);
        assert(ranked_as(b, y, le)[0] == y);
        assert(ranked_as(a, y, le) == ranked_as(b, y, le));
        lemma_rank_bounds_first(a, y, le);
        lemma_first_of_rank(b, x, le);
        assert(ranked_as(b, x, le)[0] == y);
        let ta = a.skip(1);
        let tb = b.skip(1);
        assert(sorted(ta, le)) by {
            assert forall|i: int, j: int| 0 <= i < j < ta.len() implies le(
                #[trigger] ta[i],
                #[trigger] ta[j],
            ) by {
                assert(le(a[i + 1], a[j + 1]));
            }
        }
        assert(sorted(tb, le)) by {
            assert forall|i: int, j: int| 0 <= i < j < tb.len() implies le(
                #[trigger] tb[i],
                #[trigger] tb[j],
            ) by {
                assert(le(b[i + 1], b[j + 1]));
            }
        }
        assert forall|k: V| #[trigger] ranked_as(ta, k, le) == ranked_as(tb, k, le) by {
            lemma_first_of_rank(a, k, le);
            lemma_first_of_rank(b, k, le);
            assert(ranked_as(a, k, le) == ranked_as(b, k, le));
            if le(x, k) && le(k, x) {
                assert(ranked_as(ta, k, le) =~= ranked_as(a, k, le).skip(1));
                assert(ranked_as(tb, k, le) =~= ranked_as(b, k, le).skip(1));
            }
        }
        lemma_same_ranks_same_list(ta, tb, le);
        assert(a =~= seq![x] + ta);
        assert(b =~= seq![y] + tb);
    }
}

} // verus!
