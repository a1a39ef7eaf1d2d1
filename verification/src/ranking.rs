//! Stable sorting by a strict order.

use vstd::prelude::*;

use crate::text;

verus! {

/// A type with an order by which lists of it are sorted.
pub trait Ranked: Sized {
    /// `self` stands strictly before `other`.
    spec fn before(self, other: Self) -> bool;

    /// Standing before is a strict weak order.
    proof fn lemma_order(a: Self, b: Self, c: Self)
        ensures
            !a.before(a),
            a.before(b) ==> !b.before(a),
            !a.before(b) && !b.before(c) ==> !a.before(c),
    ;

    fn is_before(&self, other: &Self) -> (r: bool)
        ensures
            r == self.before(*other),
    ;
}

/// `s` with `x` put behind the last element that does not stand after it.
pub open spec fn ranked_insert<T: Ranked>(s: Seq<T>, x: T) -> Seq<T>
    decreases s.len(),
{
    if s.len() == 0 || !x.before(s.last()) {
        s.push(x)
    } else {
        ranked_insert(s.drop_last(), x).push(s.last())
    }
}

/// The elements of `s` in order; equals keep the places they had to each other.
pub open spec fn ranked<T: Ranked>(s: Seq<T>) -> Seq<T>
    decreases s.len(),
{
    if s.len() == 0 {
        s
    } else {
        ranked_insert(ranked(s.drop_last()), s.last())
    }
}

/// No element stands after a later one.
pub open spec fn in_order<T: Ranked>(s: Seq<T>) -> bool {
    forall|i: int, j: int| 0 <= i < j < s.len() ==> !(#[trigger] s[j]).before(#[trigger] s[i])
}

proof fn lemma_insert_in_order<T: Ranked>(s: Seq<T>, x: T)
    requires
        in_order(s),
    ensures
        in_order(ranked_insert(s, x)),
        ranked_insert(s, x).len() == s.len() + 1,
        forall|i: int| 0 <= i < s.len() + 1 ==> s.push(x).contains(#[trigger] ranked_insert(s, x)[i]),
    decreases s.len(),
{
    if s.len() == 0 || !x.before(s.last()) {
        let t = s.push(x);
        assert forall|i: int, j: int| 0 <= i < j < t.len() implies !(#[trigger] t[j]).before(
            #[trigger] t[i],
        ) by {
            if j == s.len() && i < s.len() - 1 {
                T::lemma_order(x, s.last(), s[i]);
            }
        }
    } else {
        let rest = s.drop_last();
        lemma_insert_in_order(rest, x);
        let inner = ranked_insert(rest, x);
        let t = inner.push(s.last());
        assert forall|i: int| 0 <= i < inner.len() implies !s.last().before(#[trigger] inner[i]) by {
            assert(rest.push(x).contains(inner[i]));
            let k = choose|k: int| 0 <= k < rest.push(x).len() && rest.push(x)[k] == inner[i];
            if k == rest.len() {
                T::lemma_order(x, s.last(), x);
            }
        }
        assert forall|i: int| 0 <= i < t.len() implies s.push(x).contains(#[trigger] t[i]) by {
            if i < inner.len() {
                assert(rest.push(x).contains(inner[i]));
                let k = choose|k: int| 0 <= k < rest.push(x).len() && rest.push(x)[k] == inner[i];
                if k < rest.len() {
                    assert(s.push(x)[k] == t[i]);
                } else {
                    assert(s.push(x)[s.len() as int] == t[i]);
                }
            } else {
                assert(s.push(x)[s.len() - 1] == t[i]);
            }
        }
    }
}

proof fn lemma_insert_multiset<T: Ranked>(s: Seq<T>, x: T)
    ensures
        ranked_insert(s, x).to_multiset() == s.to_multiset().insert(x),
    decreases s.len(),
{
    broadcast use vstd::seq_lib::group_to_multiset_ensures;

    if s.len() > 0 && x.before(s.last()) {
        let rest = s.drop_last();
        lemma_insert_multiset(rest, x);
        assert(s =~= rest.push(s.last()));
        assert(rest.to_multiset().insert(x).insert(s.last()) =~= rest.to_multiset().insert(
            s.last(),
        ).insert(x));
    }
}

/// Sorting puts a list in order and neither adds, drops nor changes an element.
pub proof fn law_ranked<T: Ranked>(s: Seq<T>)
    ensures
        in_order(ranked(s)),
        ranked(s).to_multiset() == s.to_multiset(),
        ranked(s).len() == s.len(),
    decreases s.len(),
{
    if s.len() > 0 {
        broadcast use vstd::seq_lib::group_to_multiset_ensures;

        law_ranked(s.drop_last());
        lemma_insert_in_order(ranked(s.drop_last()), s.last());
        lemma_insert_multiset(ranked(s.drop_last()), s.last());
        assert(s =~= s.drop_last().push(s.last()));
    }
}

/// Put `x` in its place.
fn insert_ranked<T: Ranked>(v: &mut Vec<T>, x: T)
    ensures
        final(v)@ == ranked_insert(old(v)@, x),
{
    let ghost whole = v@;
    let mut at: usize = v.len();
    proof {
        assert(whole.take(whole.len() as int) =~= whole);
        assert(ranked_insert(whole, x) =~= ranked_insert(whole, x) + whole.skip(whole.len() as int));
    }
    while at > 0 && x.is_before(&v[at - 1])
        invariant
            at <= v@.len(),
            v@ == whole,
            ranked_insert(whole, x) == ranked_insert(whole.take(at as int), x) + whole.skip(
                at as int,
            ),
        decreases at,
    {
        proof {
            let head = whole.take(at as int);
            assert(head.last() == whole[at - 1]);
            assert(head.drop_last() =~= whole.take(at - 1));
            assert(ranked_insert(head.drop_last(), x).push(head.last()) + whole.skip(at as int)
                =~= ranked_insert(head.drop_last(), x) + whole.skip(at - 1));
        }
        at = at - 1;
    }
    proof {
        let head = whole.take(at as int);
        assert(at > 0 ==> head.last() == whole[at - 1]);
        assert(ranked_insert(head, x) == head.push(x));
        assert(head.push(x) + whole.skip(at as int) =~= whole.insert(at as int, x));
    }
    v.insert(at, x);
}

/// The elements of `v` in order.
pub fn sort_ranked<T: Ranked>(v: Vec<T>) -> (r: Vec<T>)
    ensures
        r@ == ranked(v@),
{
    let ghost whole = v@;
    let mut out: Vec<T> = Vec::new();
    proof {
        assert(whole.take(0) =~= Seq::<T>::empty());
    }
    for x in it: v
        invariant
            it.seq() == whole,
            out@ == ranked(whole.take(it.index() as int)),
    {
        proof {
            let n = it.index() as int;
            assert(whole.take(n + 1).drop_last() =~= whole.take(n));
            assert(whole.take(n + 1).last() == x);
        }
        insert_ranked(&mut out, x);
    }
    proof {
        assert(whole.take(whole.len() as int) =~= whole);
    }
    out
}

/// Strings stand in the order of their texts.
impl Ranked for String {
    open spec fn before(self, other: Self) -> bool {
        text::text_less(self@, other@)
    }

    proof fn lemma_order(a: Self, b: Self, c: Self) {
        text::lemma_text_order(a@, b@, c@);
        text::lemma_text_order(b@, c@, a@);
        text::lemma_text_order(c@, a@, b@);
        text::lemma_text_order(a@, c@, b@);
    }

    fn is_before(&self, other: &Self) -> (r: bool) {
        text::less(self.as_str(), other.as_str())
    }
}

/// A sorted list of texts with `x` put behind the last that is not after it.
pub open spec fn text_insert(s: Seq<Seq<char>>, x: Seq<char>) -> Seq<Seq<char>>
    decreases s.len(),
{
    if s.len() == 0 || !text::text_less(x, s.last()) {
        s.push(x)
    } else {
        text_insert(s.drop_last(), x).push(s.last())
    }
}

/// The texts in order.
pub open spec fn sorted_texts(s: Seq<Seq<char>>) -> Seq<Seq<char>>
    decreases s.len(),
{
    if s.len() == 0 {
        s
    } else {
        text_insert(sorted_texts(s.drop_last()), s.last())
    }
}

proof fn lemma_text_insert(s: Seq<Seq<char>>, x: Seq<char>)
    ensures
        text_insert(s, x).len() == s.len() + 1,
        forall|y: Seq<char>| #[trigger] text_insert(s, x).contains(y) <==> y == x || s.contains(y),
    decreases s.len(),
{
    let out = text_insert(s, x);
    if s.len() == 0 || !text::text_less(x, s.last()) {
        assert(out[s.len() as int] == x);
        assert forall|y: Seq<char>| y == x || s.contains(y) implies #[trigger] out.contains(y) by {
            if s.contains(y) {
                let i = choose|i: int| 0 <= i < s.len() && s[i] == y;
                assert(out[i] == y);
            }
        }
    } else {
        let rest = text_insert(s.drop_last(), x);
        lemma_text_insert(s.drop_last(), x);
        assert(out == rest.push(s.last()));
        assert(out[rest.len() as int] == s.last());
        assert forall|y: Seq<char>| #[trigger] out.contains(y) implies y == x || s.contains(y) by {
            let i = choose|i: int| 0 <= i < out.len() && out[i] == y;
            if i < rest.len() {
                assert(rest.contains(y));
                if y != x {
                    let j = choose|j: int| 0 <= j < s.drop_last().len() && s.drop_last()[j] == y;
                    assert(s[j] == y);
                }
            } else {
                assert(s[s.len() - 1] == y);
            }
        }
        assert forall|y: Seq<char>| y == x || s.contains(y) implies #[trigger] out.contains(y) by {
            if y != x && y != s.last() {
                let j = choose|j: int| 0 <= j < s.len() && s[j] == y;
                assert(s.drop_last()[j] == y);
                assert(s.drop_last().contains(y));
            }
            if y != s.last() {
                assert(rest.contains(y));
                let i = choose|i: int| 0 <= i < rest.len() && rest[i] == y;
                assert(out[i] == y);
            }
        }
    }
}

/// The texts stand in order; equal ones may stand side by side.
pub open spec fn texts_in_order(s: Seq<Seq<char>>) -> bool {
    forall|i: int, j: int|
        0 <= i < j < s.len() ==> !text::text_less(#[trigger] s[j], #[trigger] s[i])
}

proof fn lemma_text_insert_in_order(s: Seq<Seq<char>>, x: Seq<char>)
    requires
        texts_in_order(s),
    ensures
        texts_in_order(text_insert(s, x)),
        text_insert(s, x).to_multiset() == s.to_multiset().insert(x),
    decreases s.len(),
{
    broadcast use vstd::seq_lib::group_to_multiset_ensures;

    let out = text_insert(s, x);
    if s.len() == 0 || !text::text_less(x, s.last()) {
        assert forall|i: int, j: int| 0 <= i < j < out.len() implies !text::text_less(
            #[trigger] out[j],
            #[trigger] out[i],
        ) by {
            if j == s.len() {
                let last = s.last();
                assert(i < s.len() - 1 ==> !text::text_less(s[s.len() - 1], s[i]));
                text::lemma_text_order(x, s[i], last);
                text::lemma_text_order(s[i], last, x);
            }
        }
    } else {
        let rest = s.drop_last();
        let inner = text_insert(rest, x);
        lemma_text_insert_in_order(rest, x);
        lemma_text_insert(rest, x);
        assert(s =~= rest.push(s.last()));
        assert forall|i: int, j: int| 0 <= i < j < out.len() implies !text::text_less(
            #[trigger] out[j],
            #[trigger] out[i],
        ) by {
            if j == inner.len() {
                assert(inner.contains(inner[i]));
                if inner[i] != x {
                    let k = choose|k: int| 0 <= k < rest.len() && rest[k] == inner[i];
                    assert(!text::text_less(s[s.len() - 1], s[k]));
                } else {
                    text::lemma_text_order(x, s.last(), x);
                }
            } else {
                assert(out[i] == inner[i] && out[j] == inner[j]);
            }
        }
        assert(out.to_multiset() =~= s.to_multiset().insert(x));
    }
}

/// Sorting keeps the texts, as often as they occur, and puts them in order.
pub proof fn law_sorted_texts(s: Seq<Seq<char>>)
    ensures
        sorted_texts(s).len() == s.len(),
        texts_in_order(sorted_texts(s)),
        sorted_texts(s).to_multiset() == s.to_multiset(),
        forall|y: Seq<char>| #[trigger] sorted_texts(s).contains(y) <==> s.contains(y),
    decreases s.len(),
{
    if s.len() > 0 {
        law_sorted_texts(s.drop_last());
        lemma_text_insert(sorted_texts(s.drop_last()), s.last());
        lemma_text_insert_in_order(sorted_texts(s.drop_last()), s.last());
        s.drop_last().to_multiset_ensures();
        assert(s =~= s.drop_last().push(s.last()));
        assert forall|y: Seq<char>| #[trigger] sorted_texts(s).contains(y) <==> s.contains(y) by {
            let rest = sorted_texts(s.drop_last());
            assert(sorted_texts(s).contains(y) <==> y == s.last() || rest.contains(y));
            if s.contains(y) && y != s.last() {
                let i = choose|i: int| 0 <= i < s.len() && s[i] == y;
                assert(s.drop_last()[i] == y);
                assert(s.drop_last().contains(y));
            }
            if s.drop_last().contains(y) {
                let i = choose|i: int| 0 <= i < s.drop_last().len() && s.drop_last()[i] == y;
                assert(s[i] == y);
            }
            if y == s.last() {
                assert(s[s.len() - 1] == y);
            }
        }
    }
}

/// Inserting a new text keeps sorted texts strictly sorted.
proof fn lemma_insert_strict(s: Seq<Seq<char>>, x: Seq<char>)
    requires
        forall|i: int, j: int|
            0 <= i < j < s.len() ==> text::text_less(#[trigger] s[i], #[trigger] s[j]),
        !s.contains(x),
    ensures
        forall|i: int, j: int|
            0 <= i < j < s.len() + 1 ==> text::text_less(
                #[trigger] text_insert(s, x)[i],
                #[trigger] text_insert(s, x)[j],
            ),
    decreases s.len(),
{
    let out = text_insert(s, x);
    lemma_text_insert(s, x);
    if s.len() == 0 || !text::text_less(x, s.last()) {
        assert forall|i: int, j: int| 0 <= i < j < out.len() implies text::text_less(
            #[trigger] out[i],
            #[trigger] out[j],
        ) by {
            if j == s.len() {
                assert(s.contains(s.last()));
                text::lemma_text_order(s.last(), x, x);
                text::lemma_text_order(s[i], s.last(), x);
            }
        }
    } else {
        let rest = s.drop_last();
        assert forall|y: Seq<char>| rest.contains(y) implies s.contains(y) by {
            let k = choose|k: int| 0 <= k < rest.len() && rest[k] == y;
            assert(s[k] == y);
        }
        lemma_insert_strict(rest, x);
        lemma_text_insert(rest, x);
        let inner = text_insert(rest, x);
        assert forall|i: int, j: int| 0 <= i < j < out.len() implies text::text_less(
            #[trigger] out[i],
            #[trigger] out[j],
        ) by {
            if j == inner.len() {
                assert(inner.contains(inner[i]));
                if inner[i] != x {
                    let k = choose|k: int| 0 <= k < rest.len() && rest[k] == inner[i];
                    assert(s[k] == inner[i]);
                }
            }
        }
    }
}

/// Distinct texts are strictly sorted once sorted.
pub proof fn law_sorted_strictly(s: Seq<Seq<char>>)
    requires
        forall|i: int, j: int| 0 <= i < j < s.len() ==> #[trigger] s[i] != #[trigger] s[j],
    ensures
        forall|i: int, j: int|
            0 <= i < j < s.len() ==> text::text_less(
                #[trigger] sorted_texts(s)[i],
                #[trigger] sorted_texts(s)[j],
            ),
    decreases s.len(),
{
    if s.len() > 0 {
        let rest = s.drop_last();
        law_sorted_strictly(rest);
        law_sorted_texts(rest);
        assert(!rest.contains(s.last()));
        lemma_insert_strict(sorted_texts(rest), s.last());
    }
}

proof fn lemma_insert_texts(s: Seq<String>, x: String)
    ensures
        text::texts(ranked_insert(s, x)) == text_insert(text::texts(s), x@),
    decreases s.len(),
{
    let t = text::texts(s);
    if s.len() > 0 {
        assert(t.last() == s.last()@);
        assert(t.drop_last() =~= text::texts(s.drop_last()));
    }
    if s.len() == 0 || !x.before(s.last()) {
        assert(text::texts(s.push(x)) =~= t.push(x@));
    } else {
        lemma_insert_texts(s.drop_last(), x);
        assert(text::texts(ranked_insert(s.drop_last(), x).push(s.last())) =~= text::texts(
            ranked_insert(s.drop_last(), x),
        ).push(s.last()@));
    }
}

proof fn lemma_ranked_texts(s: Seq<String>)
    ensures
        text::texts(ranked(s)) == sorted_texts(text::texts(s)),
    decreases s.len(),
{
    if s.len() == 0 {
        assert(text::texts(ranked(s)) =~= sorted_texts(text::texts(s)));
    } else {
        lemma_ranked_texts(s.drop_last());
        lemma_insert_texts(ranked(s.drop_last()), s.last());
        assert(text::texts(s).drop_last() =~= text::texts(s.drop_last()));
        assert(text::texts(s).last() == s.last()@);
    }
}

/// The strings in the order of their texts.
pub fn sort_texts(v: Vec<String>) -> (r: Vec<String>)
    ensures
        text::texts(r@) == sorted_texts(text::texts(v@)),
{
    proof {
        lemma_ranked_texts(v@);
    }
    sort_ranked(v)
}

// ------------------------------------------------------------------ by a given order

/// `s` with `x` put behind the last element that does not stand after it.
pub open spec fn inserted_by<V>(s: Seq<V>, x: V, less: spec_fn(V, V) -> bool) -> Seq<V>
    decreases s.len(),
{
    if s.len() == 0 || !less(x, s.last()) {
        s.push(x)
    } else {
        inserted_by(s.drop_last(), x, less).push(s.last())
    }
}

/// The elements of `s` in a given order; equals keep the places they had to each other.
pub open spec fn sorted_by<V>(s: Seq<V>, less: spec_fn(V, V) -> bool) -> Seq<V>
    decreases s.len(),
{
    if s.len() == 0 {
        s
    } else {
        inserted_by(sorted_by(s.drop_last(), less), s.last(), less)
    }
}

/// A strict weak order.
pub open spec fn is_order<V>(less: spec_fn(V, V) -> bool) -> bool {
    &&& forall|a: V| !#[trigger] less(a, a)
    &&& forall|a: V, b: V| #[trigger] less(a, b) ==> !less(b, a)
    &&& forall|a: V, b: V, c: V|
        !#[trigger] less(a, b) && !#[trigger] less(b, c) ==> !less(a, c)
}

/// No element stands after a later one.
pub open spec fn in_order_by<V>(s: Seq<V>, less: spec_fn(V, V) -> bool) -> bool {
    forall|i: int, j: int| 0 <= i < j < s.len() ==> !less(#[trigger] s[j], #[trigger] s[i])
}

proof fn lemma_inserted_by<V>(s: Seq<V>, x: V, less: spec_fn(V, V) -> bool)
    requires
        is_order(less),
        in_order_by(s, less),
    ensures
        in_order_by(inserted_by(s, x, less), less),
        inserted_by(s, x, less).len() == s.len() + 1,
        inserted_by(s, x, less).to_multiset() == s.to_multiset().insert(x),
    decreases s.len(),
{
    broadcast use vstd::seq_lib::group_to_multiset_ensures;

    let r = inserted_by(s, x, less);
    if s.len() == 0 || !less(x, s.last()) {
        assert forall|i: int, j: int| 0 <= i < j < r.len() implies !less(
            #[trigger] r[j],
            #[trigger] r[i],
        ) by {
            if j == s.len() {
                if i < s.len() - 1 {
                    assert(!less(s[s.len() - 1], s[i]));
                    assert(!less(x, s[s.len() - 1]));
                }
            }
        }
    } else {
        let rest = s.drop_last();
        let q = inserted_by(rest, x, less);
        lemma_inserted_by(rest, x, less);
        assert(s =~= rest.push(s.last()));
        assert(rest.to_multiset().insert(x).insert(s.last()) =~= rest.to_multiset().insert(
            s.last(),
        ).insert(x));
        assert forall|i: int, j: int| 0 <= i < j < r.len() implies !less(
            #[trigger] r[j],
            #[trigger] r[i],
        ) by {
            if j == q.len() {
                let y = q[i];
                assert(q.contains(y));
                assert(q.to_multiset().count(y) > 0);
                if y != x {
                    assert(rest.to_multiset().count(y) > 0);
                    assert(rest.contains(y));
                    let k = choose|k: int| 0 <= k < rest.len() && rest[k] == y;
                    assert(!less(s[s.len() - 1], s[k]));
                } else {
                    assert(less(x, s.last()));
                }
            }
        }
    }
}

/// Sorting by an order puts a list in that order and neither adds, drops nor changes an
/// element.
pub proof fn law_sorted_by<V>(s: Seq<V>, less: spec_fn(V, V) -> bool)
    requires
        is_order(less),
    ensures
        in_order_by(sorted_by(s, less), less),
        sorted_by(s, less).len() == s.len(),
        sorted_by(s, less).to_multiset() == s.to_multiset(),
    decreases s.len(),
{
    if s.len() > 0 {
        broadcast use vstd::seq_lib::group_to_multiset_ensures;

        law_sorted_by(s.drop_last(), less);
        lemma_inserted_by(sorted_by(s.drop_last(), less), s.last(), less);
        assert(s =~= s.drop_last().push(s.last()));
    }
}

} // verus!
