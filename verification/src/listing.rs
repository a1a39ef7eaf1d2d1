//! What lists that were filtered and put in order hold.

use vstd::prelude::*;

use crate::ranking;
use crate::ranking::Ranked;
use crate::tables;

verus! {

/// What is kept is there and fits, and all of it.
pub proof fn lemma_kept_contains<T>(s: Seq<T>, p: spec_fn(T) -> bool, x: T)
    ensures
        tables::kept(s, p).contains(x) <==> s.contains(x) && p(x),
{
    let k = tables::kept(s, p);
    tables::lemma_kept(s, p);
    if k.contains(x) {
        let i = choose|i: int| 0 <= i < k.len() && k[i] == x;
        assert(p(k[i]));
    }
    if s.contains(x) && p(x) {
        let i = choose|i: int| 0 <= i < s.len() && s[i] == x;
        assert(p(s[i]));
    }
}

/// What is kept occurs as often as it did, and nothing else occurs.
pub proof fn lemma_kept_count<T>(s: Seq<T>, p: spec_fn(T) -> bool, x: T)
    ensures
        tables::kept(s, p).to_multiset().count(x) == if p(x) {
            s.to_multiset().count(x)
        } else {
            0
        },
    decreases s.len(),
{
    broadcast use vstd::seq_lib::group_to_multiset_ensures;

    if s.len() > 0 {
        lemma_kept_count(s.drop_last(), p, x);
        assert(s =~= s.drop_last().push(s.last()));
    }
}

/// What is kept is what the filter of the sequence gives.
pub proof fn lemma_kept_is_filter<T>(s: Seq<T>, p: spec_fn(T) -> bool)
    ensures
        tables::kept(s, p) == s.filter(p),
    decreases s.len(),
{
    reveal(Seq::filter);
    if s.len() > 0 {
        lemma_kept_is_filter(s.drop_last(), p);
    }
}

/// A list in order holds what the list held.
pub proof fn lemma_ranked_contains<T: Ranked>(s: Seq<T>, x: T)
    ensures
        ranking::ranked(s).contains(x) <==> s.contains(x),
{
    broadcast use vstd::seq_lib::group_to_multiset_ensures;

    ranking::law_ranked(s);
    assert(ranking::ranked(s).to_multiset().count(x) == s.to_multiset().count(x));
}

/// As much of a list fits as of any reordering of it.
pub proof fn lemma_kept_as_many<T>(s: Seq<T>, t: Seq<T>, p: spec_fn(T) -> bool)
    requires
        s.to_multiset() == t.to_multiset(),
    ensures
        tables::kept(s, p).to_multiset() == tables::kept(t, p).to_multiset(),
        tables::kept(s, p).len() == tables::kept(t, p).len(),
{
    broadcast use vstd::seq_lib::group_to_multiset_ensures;

    let a = tables::kept(s, p);
    let b = tables::kept(t, p);
    assert forall|x: T| a.to_multiset().count(x) == b.to_multiset().count(x) by {
        lemma_kept_count(s, p, x);
        lemma_kept_count(t, p, x);
    }
    assert(a.to_multiset() =~= b.to_multiset());
    assert(a.to_multiset().len() == a.len());
    assert(b.to_multiset().len() == b.len());
}

/// To keep twice is to keep what fits both times.
pub proof fn lemma_kept_twice<T>(
    s: Seq<T>,
    p: spec_fn(T) -> bool,
    q: spec_fn(T) -> bool,
    both: spec_fn(T) -> bool,
)
    requires
        forall|x: T| #[trigger] both(x) <==> p(x) && q(x),
    ensures
        tables::kept(tables::kept(s, p), q) == tables::kept(s, both),
    decreases s.len(),
{
    if s.len() > 0 {
        lemma_kept_twice(s.drop_last(), p, q, both);
        let rest = tables::kept(s.drop_last(), p);
        if p(s.last()) {
            assert(rest.push(s.last()).drop_last() =~= rest);
        }
        assert(both(s.last()) <==> p(s.last()) && q(s.last()));
    }
}

/// Two lists of one multiset hold the same.
pub proof fn lemma_same_members<T>(s: Seq<T>, t: Seq<T>)
    requires
        s.to_multiset() == t.to_multiset(),
    ensures
        s.len() == t.len(),
        forall|i: int| 0 <= i < t.len() ==> s.contains(#[trigger] t[i]),
        forall|i: int| 0 <= i < s.len() ==> t.contains(#[trigger] s[i]),
        forall|x: T| #[trigger] s.contains(x) <==> t.contains(x),
{
    broadcast use vstd::seq_lib::group_to_multiset_ensures;

    assert forall|x: T| #[trigger] s.contains(x) <==> t.contains(x) by {
        assert(s.contains(x) <==> s.to_multiset().count(x) > 0);
        assert(t.contains(x) <==> t.to_multiset().count(x) > 0);
    }
    assert forall|i: int| 0 <= i < t.len() implies s.contains(#[trigger] t[i]) by {
        assert(t.contains(t[i]));
    }
    assert forall|i: int| 0 <= i < s.len() implies t.contains(#[trigger] s[i]) by {
        assert(s.contains(s[i]));
    }
    assert(s.to_multiset().len() == s.len());
    assert(t.to_multiset().len() == t.len());
}

} // verus!
