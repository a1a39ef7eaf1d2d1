//! Tables whose rows stand in the order of their ids.

use vstd::prelude::*;

use crate::tables;
use crate::text;

verus! {

/// A row with an id.
pub trait Row: Sized {
    /// What a row says.
    type Shown;

    spec fn shown(self) -> Self::Shown;

    spec fn key(v: Self::Shown) -> Seq<char>;

    fn id(&self) -> (r: &str)
        ensures
            r@ == Self::key(self.shown()),
    ;

    fn is_same(&self, other: &Self) -> (r: bool)
        ensures
            r == (self.shown() == other.shown()),
    ;
}

/// What the rows say.
pub open spec fn rows<T: Row>(s: Seq<T>) -> Seq<T::Shown> {
    s.map_values(|x: T| x.shown())
}

/// The ids stand in strict order, so none occurs twice.
pub open spec fn by_id<T: Row>(s: Seq<T::Shown>) -> bool {
    forall|i: int, j: int|
        0 <= i < j < s.len() ==> text::text_less(
            T::key(#[trigger] s[i]),
            T::key(#[trigger] s[j]),
        )
}

pub open spec fn with_id<T: Row>(id: Seq<char>) -> spec_fn(T::Shown) -> bool {
    |v: T::Shown| T::key(v) == id
}

/// The index of the row with an id, or the number of rows.
pub open spec fn index_of<T: Row>(s: Seq<T::Shown>, id: Seq<char>) -> int {
    tables::first_index(s, with_id::<T>(id))
}

pub open spec fn has_id<T: Row>(s: Seq<T::Shown>, id: Seq<char>) -> bool {
    index_of::<T>(s, id) < s.len()
}

/// The rows with one put in its place, over one of the same id.
pub open spec fn put<T: Row>(s: Seq<T::Shown>, v: T::Shown) -> Seq<T::Shown>
    decreases s.len(),
{
    if s.len() == 0 || text::text_less(T::key(s.last()), T::key(v)) {
        s.push(v)
    } else if T::key(s.last()) == T::key(v) {
        s.drop_last().push(v)
    } else {
        put::<T>(s.drop_last(), v).push(s.last())
    }
}

/// The rows with several put in, one after the other.
pub open spec fn put_all<T: Row>(s: Seq<T::Shown>, vs: Seq<T::Shown>) -> Seq<T::Shown>
    decreases vs.len(),
{
    if vs.len() == 0 {
        s
    } else {
        put::<T>(put_all::<T>(s, vs.drop_last()), vs.last())
    }
}

/// The index of the row with an id, or the number of rows.
pub fn find<T: Row>(table: &[T], id: &str) -> (r: usize)
    ensures
        r == index_of::<T>(rows(table@), id@),
        r <= table@.len(),
        r < table@.len() ==> T::key(table@[r as int].shown()) == id@,
{
    let ghost all = rows(table@);
    let ghost p = with_id::<T>(id@);
    let mut i: usize = 0;
    while i < table.len()
        invariant
            i <= table@.len(),
            all == rows(table@),
            p == with_id::<T>(id@),
            forall|k: int| 0 <= k < i ==> !p(#[trigger] all[k]),
        decreases table.len() - i,
    {
        if text::same(table[i].id(), id) {
            proof {
                assert(p(all[i as int]));
                tables::lemma_first_index_is(all, p, i as int);
            }
            return i;
        }
        i = i + 1;
    }
    proof {
        tables::lemma_first_index_is(all, p, i as int);
    }
    i
}

proof fn lemma_put_shape<T: Row>(s: Seq<T::Shown>, v: T::Shown, n: int)
    requires
        0 <= n <= s.len(),
        forall|k: int|
            n <= k < s.len() ==> text::text_less(T::key(v), T::key(#[trigger] s[k])),
        n > 0 ==> !text::text_less(T::key(v), T::key(s[n - 1])),
    ensures
        put::<T>(s, v) == if n > 0 && T::key(s[n - 1]) == T::key(v) {
            s.update(n - 1, v)
        } else {
            s.insert(n, v)
        },
    decreases s.len() - n,
{
    if s.len() > 0 && n < s.len() {
        let rest = s.drop_last();
        text::lemma_text_order(T::key(v), T::key(s.last()), T::key(v));
        assert(s.last() == s[s.len() - 1]);
        assert forall|k: int| n <= k < rest.len() implies text::text_less(
            T::key(v),
            T::key(#[trigger] rest[k]),
        ) by {
            assert(rest[k] == s[k]);
        }
        lemma_put_shape::<T>(rest, v, n);
        if n > 0 && T::key(s[n - 1]) == T::key(v) {
            assert(rest.update(n - 1, v).push(s.last()) =~= s.update(n - 1, v));
        } else {
            assert(rest.insert(n, v).push(s.last()) =~= s.insert(n, v));
        }
    } else {
        if n > 0 {
            text::lemma_text_order(T::key(v), T::key(s[n - 1]), T::key(v));
            if T::key(s[n - 1]) == T::key(v) {
                assert(s.drop_last().push(v) =~= s.update(n - 1, v));
            } else {
                text::lemma_text_order(T::key(s[n - 1]), T::key(v), T::key(v));
                assert(s.push(v) =~= s.insert(n, v));
            }
        } else {
            assert(s.push(v) =~= s.insert(n, v));
        }
    }
}

/// Put a row in its place, over one of the same id.
pub fn place<T: Row>(table: &mut Vec<T>, row: T)
    ensures
        rows(final(table)@) == put::<T>(rows(old(table)@), row.shown()),
{
    let ghost before = rows(table@);
    let ghost v = row.shown();
    let mut n: usize = table.len();
    while n > 0 && text::less(row.id(), table[n - 1].id())
        invariant
            n <= table@.len(),
            v == row.shown(),
            before == rows(table@),
            forall|k: int|
                n <= k < before.len() ==> text::text_less(T::key(v), T::key(#[trigger] before[k])),
        decreases n,
    {
        n = n - 1;
    }
    proof {
        assert(n > 0 ==> before[n - 1] == table@[n - 1].shown());
        lemma_put_shape::<T>(before, v, n as int);
    }
    if n > 0 && text::same(row.id(), table[n - 1].id()) {
        table.set(n - 1, row);
        proof {
            assert(rows(table@) =~= before.update(n - 1, v));
        }
    } else {
        table.insert(n, row);
        proof {
            assert(rows(table@) =~= before.insert(n as int, v));
        }
    }
}

/// A row put in is there, the others are where they were, and the ids stay in order.
pub proof fn law_put<T: Row>(s: Seq<T::Shown>, v: T::Shown)
    requires
        by_id::<T>(s),
    ensures
        by_id::<T>(put::<T>(s, v)),
        forall|x: T::Shown| #[trigger]
            put::<T>(s, v).contains(x) <==> x == v || (s.contains(x) && T::key(x) != T::key(v)),
    decreases s.len(),
{
    let out = put::<T>(s, v);
    if s.len() == 0 || text::text_less(T::key(s.last()), T::key(v)) {
        assert forall|i: int, j: int| 0 <= i < j < out.len() implies text::text_less(
            T::key(#[trigger] out[i]),
            T::key(#[trigger] out[j]),
        ) by {
            if j == s.len() {
                text::lemma_text_order(T::key(s[i]), T::key(s.last()), T::key(v));
            }
        }
        assert(out[s.len() as int] == v);
        assert forall|x: T::Shown| #[trigger] out.contains(x) <==> x == v || (s.contains(x)
            && T::key(x) != T::key(v)) by {
            if s.contains(x) {
                let i = choose|i: int| 0 <= i < s.len() && s[i] == x;
                assert(out[i] == x);
                text::lemma_text_order(T::key(s[i]), T::key(s.last()), T::key(v));
                text::lemma_text_order(T::key(v), T::key(v), T::key(v));
            }
        }
    } else if T::key(s.last()) == T::key(v) {
        assert forall|x: T::Shown| #[trigger] out.contains(x) <==> x == v || (s.contains(x)
            && T::key(x) != T::key(v)) by {
            assert(out[s.len() - 1] == v);
            if s.contains(x) && T::key(x) != T::key(v) {
                let i = choose|i: int| 0 <= i < s.len() && s[i] == x;
                assert(out[i] == x);
            }
            if out.contains(x) && x != v {
                let i = choose|i: int| 0 <= i < out.len() && out[i] == x;
                assert(s[i] == x);
                text::lemma_text_order(T::key(s[i]), T::key(s.last()), T::key(v));
            }
        }
    } else {
        let rest = s.drop_last();
        law_put::<T>(rest, v);
        let inner = put::<T>(rest, v);
        text::lemma_text_order(T::key(s.last()), T::key(v), T::key(v));
        assert(text::text_less(T::key(v), T::key(s.last())));
        assert forall|i: int, j: int| 0 <= i < j < out.len() implies text::text_less(
            T::key(#[trigger] out[i]),
            T::key(#[trigger] out[j]),
        ) by {
            if j == inner.len() {
                assert(inner.contains(inner[i]));
                if inner[i] != v {
                    let k = choose|k: int| 0 <= k < rest.len() && rest[k] == inner[i];
                    assert(s[k] == inner[i]);
                }
            }
        }
        assert forall|x: T::Shown| #[trigger] out.contains(x) <==> x == v || (s.contains(x)
            && T::key(x) != T::key(v)) by {
            assert(out[inner.len() as int] == s.last());
            if out.contains(x) {
                let i = choose|i: int| 0 <= i < out.len() && out[i] == x;
                if i < inner.len() {
                    assert(inner.contains(x));
                    if x != v {
                        let k = choose|k: int| 0 <= k < rest.len() && rest[k] == x;
                        assert(s[k] == x);
                    }
                } else {
                    assert(s[s.len() - 1] == x);
                    text::lemma_text_order(T::key(v), T::key(v), T::key(v));
                }
            }
            if x == v || (s.contains(x) && T::key(x) != T::key(v)) {
                if x != v && x != s.last() {
                    let k = choose|k: int| 0 <= k < s.len() && s[k] == x;
                    assert(rest[k] == x);
                    assert(rest.contains(x));
                }
                if x == v || x != s.last() {
                    assert(inner.contains(x));
                    let i = choose|i: int| 0 <= i < inner.len() && inner[i] == x;
                    assert(out[i] == x);
                }
            }
        }
    }
}

/// Whether two tables say the same.
pub fn same_rows<T: Row>(a: &[T], b: &[T]) -> (r: bool)
    ensures
        r == (rows(a@) == rows(b@)),
{
    if a.len() != b.len() {
        proof {
            assert(rows(a@).len() == a@.len());
            assert(rows(b@).len() == b@.len());
        }
        return false;
    }
    let mut i: usize = 0;
    while i < a.len()
        invariant
            i <= a@.len(),
            a@.len() == b@.len(),
            forall|k: int| 0 <= k < i ==> (#[trigger] rows(a@)[k]) == rows(b@)[k],
        decreases a.len() - i,
    {
        if !a[i].is_same(&b[i]) {
            proof {
                assert(rows(a@)[i as int] != rows(b@)[i as int]);
            }
            return false;
        }
        i = i + 1;
    }
    proof {
        assert(rows(a@) =~= rows(b@));
    }
    true
}

/// Whether the rows of a table stand in the order of their ids.
pub fn in_order<T: Row>(table: &[T]) -> (r: bool)
    ensures
        r == by_id::<T>(rows(table@)),
{
    let ghost all = rows(table@);
    let mut i: usize = 1;
    while i < table.len()
        invariant
            1 <= i,
            i <= table@.len() || table@.len() == 0,
            all == rows(table@),
            by_id::<T>(all.take(if i <= table@.len() { i as int } else { 0 })),
        decreases table.len() - i,
    {
        if !text::less(table[i - 1].id(), table[i].id()) {
            proof {
                assert(T::key(all[i - 1]) == T::key(table@[i - 1].shown()));
                assert(T::key(all[i as int]) == T::key(table@[i as int].shown()));
            }
            return false;
        }
        proof {
            let shorter = all.take(i as int);
            let longer = all.take(i as int + 1);
            assert(longer[i - 1] == table@[i - 1].shown());
            assert(longer[i as int] == table@[i as int].shown());
            assert forall|a: int, b: int| 0 <= a < b < longer.len() implies text::text_less(
                T::key(#[trigger] longer[a]),
                T::key(#[trigger] longer[b]),
            ) by {
                if b < i {
                    assert(shorter[a] == longer[a] && shorter[b] == longer[b]);
                } else if a < i - 1 {
                    assert(shorter[a] == longer[a] && shorter[i - 1] == longer[i - 1]);
                    text::lemma_text_order(
                        T::key(longer[a]),
                        T::key(longer[i - 1]),
                        T::key(longer[b]),
                    );
                }
            }
        }
        i = i + 1;
    }
    proof {
        if table@.len() > 0 {
            assert(all.take(all.len() as int) =~= all);
        }
    }
    true
}

} // verus!
