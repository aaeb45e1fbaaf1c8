//! Small facts about filtered and mapped sequences that the reconciler's
//! proofs lean on.

use vstd::prelude::*;

verus! {

/// Filtering after a push keeps the old result and at most the new element.
pub(crate) proof fn lemma_filter_push<T>(s: Seq<T>, x: T, pred: spec_fn(T) -> bool)
    ensures
        s.push(x).filter(pred) == if pred(x) {
            s.filter(pred).push(x)
        } else {
            s.filter(pred)
        },
{
    reveal(Seq::filter);
    assert(s.push(x).drop_last() =~= s);
    assert(s.push(x).last() == x);
}

/// Every element of a filtered sequence comes from the original.
pub(crate) proof fn lemma_filter_subset<T>(s: Seq<T>, pred: spec_fn(T) -> bool)
    ensures
        forall|i: int|
            0 <= i < s.filter(pred).len() ==> s.contains(#[trigger] s.filter(pred)[i]),
    decreases s.len(),
{
    reveal(Seq::filter);
    if s.len() != 0 {
        lemma_filter_subset(s.drop_last(), pred);
        let f = s.filter(pred);
        let fd = s.drop_last().filter(pred);
        assert forall|i: int| 0 <= i < f.len() implies s.contains(#[trigger] f[i]) by {
            if pred(s.last()) && i == f.len() - 1 {
                assert(s[s.len() - 1] == f[i]);
            } else {
                assert(f[i] == fd[i]);
                assert(s.drop_last().contains(fd[i]));
                let j = choose|j: int| 0 <= j < s.drop_last().len() && s.drop_last()[j] == fd[i];
                assert(s[j] == fd[i]);
            }
        }
    }
}

/// A predicate that holds everywhere filters nothing out.
pub(crate) proof fn lemma_filter_all<T>(s: Seq<T>, pred: spec_fn(T) -> bool)
    requires
        forall|i: int| 0 <= i < s.len() ==> pred(#[trigger] s[i]),
    ensures
        s.filter(pred) == s,
    decreases s.len(),
{
    reveal(Seq::filter);
    if s.len() != 0 {
        lemma_filter_all(s.drop_last(), pred);
        assert(s.drop_last().push(s.last()) =~= s);
    }
}

/// A predicate that holds nowhere filters everything out.
pub(crate) proof fn lemma_filter_none<T>(s: Seq<T>, pred: spec_fn(T) -> bool)
    requires
        forall|i: int| 0 <= i < s.len() ==> !pred(#[trigger] s[i]),
    ensures
        s.filter(pred) == Seq::<T>::empty(),
    decreases s.len(),
{
    reveal(Seq::filter);
    if s.len() == 0 {
        assert(s =~= Seq::<T>::empty());
    } else {
        lemma_filter_none(s.drop_last(), pred);
    }
}

/// Predicates that agree on the elements filter alike.
pub(crate) proof fn lemma_filter_equiv<T>(s: Seq<T>, p1: spec_fn(T) -> bool, p2: spec_fn(T) -> bool)
    requires
        forall|i: int| 0 <= i < s.len() ==> (p1(#[trigger] s[i]) <==> p2(s[i])),
    ensures
        s.filter(p1) == s.filter(p2),
    decreases s.len(),
{
    reveal(Seq::filter);
    if s.len() != 0 {
        lemma_filter_equiv(s.drop_last(), p1, p2);
    }
}

/// Mapping does not change a filtered count when the predicates correspond.
pub(crate) proof fn lemma_map_filter_len<A, B>(
    s: Seq<A>,
    f: spec_fn(A) -> B,
    p1: spec_fn(A) -> bool,
    p2: spec_fn(B) -> bool,
)
    requires
        forall|i: int| 0 <= i < s.len() ==> (p1(#[trigger] s[i]) <==> p2(f(s[i]))),
    ensures
        s.map_values(f).filter(p2).len() == s.filter(p1).len(),
    decreases s.len(),
{
    reveal(Seq::filter);
    if s.len() == 0 {
        assert(s.map_values(f).len() == 0);
    } else {
        lemma_map_filter_len(s.drop_last(), f, p1, p2);
        assert(s.map_values(f).drop_last() =~= s.drop_last().map_values(f));
        assert(s.map_values(f).last() == f(s.last()));
    }
}

/// Both predicates at once.
pub open spec fn and_pred<T>(p1: spec_fn(T) -> bool, p2: spec_fn(T) -> bool) -> spec_fn(T) -> bool {
    |x: T| p1(x) && p2(x)
}

/// Filtering twice is filtering by the conjunction.
pub(crate) proof fn lemma_filter_filter<T>(s: Seq<T>, p1: spec_fn(T) -> bool, p2: spec_fn(T) -> bool)
    ensures
        s.filter(p1).filter(p2) == s.filter(and_pred(p1, p2)),
    decreases s.len(),
{
    reveal(Seq::filter);
    if s.len() != 0 {
        lemma_filter_filter(s.drop_last(), p1, p2);
        if p1(s.last()) {
            lemma_filter_push(s.drop_last().filter(p1), s.last(), p2);
        }
    }
}

/// No two elements share a key under `f`.
pub open spec fn keys_distinct<T>(s: Seq<T>, f: spec_fn(T) -> int) -> bool {
    forall|i: int, j: int| 0 <= i < j < s.len() ==> f(s[i]) != f(s[j])
}

/// Filtering keeps keys distinct.
pub(crate) proof fn lemma_filter_keys_distinct<T>(s: Seq<T>, pred: spec_fn(T) -> bool, f: spec_fn(T) -> int)
    requires
        keys_distinct(s, f),
    ensures
        keys_distinct(s.filter(pred), f),
    decreases s.len(),
{
    reveal(Seq::filter);
    if s.len() != 0 {
        assert(keys_distinct(s.drop_last(), f)) by {
            assert forall|i: int, j: int|
                0 <= i < j < s.drop_last().len() implies f(s.drop_last()[i]) != f(
                s.drop_last()[j],
            ) by {
                assert(s.drop_last()[i] == s[i] && s.drop_last()[j] == s[j]);
            }
        }
        lemma_filter_keys_distinct(s.drop_last(), pred, f);
        lemma_filter_subset(s.drop_last(), pred);
        let g = s.filter(pred);
        let gd = s.drop_last().filter(pred);
        assert forall|i: int, j: int| 0 <= i < j < g.len() implies f(g[i]) != f(g[j]) by {
            if pred(s.last()) && j == g.len() - 1 {
                assert(g[i] == gd[i]);
                assert(s.drop_last().contains(gd[i]));
                let m = choose|m: int|
                    0 <= m < s.drop_last().len() && s.drop_last()[m] == gd[i];
                assert(s[m] == gd[i]);
                assert(g[j] == s.last());
                assert(f(s[m]) != f(s[s.len() - 1]));
            } else {
                assert(g[i] == gd[i] && g[j] == gd[j]);
            }
        }
    }
}

} // verus!
