//! What a search keeps to, over all documents, options and candidates.

use vstd::prelude::*;

use crate::listing;
use crate::ranking;
use crate::records::SearchOptions;
use crate::search;
use crate::search::Candidate;
use crate::search::ResultOrder;
use crate::search::ResultView;
use crate::search_index;
use crate::search_index::Document;
use crate::search_match::ExactHit;
use crate::search_text;
use crate::tables;
use crate::text;

verus! {

// ---------------------------------------------------------------------------- filters

/// The tag stands in the list of tags, with a space or the end of the list on both sides.
pub open spec fn carries_tag(tags: Seq<char>, tag: Seq<char>) -> bool {
    let whole = seq![' '] + tags + seq![' '];
    exists|i: int|
        0 <= i && i + tag.len() + 2 <= whole.len() && whole[i] == ' ' && whole[i + tag.len() + 1]
            == ' ' && #[trigger] whole.subrange(i + 1, i + 1 + tag.len()) == tag
}

/// The document has all that is asked for.
pub open spec fn meets(options: SearchOptions, d: Document) -> bool {
    &&& d.archived ==> options.include_archived
    &&& options.source matches Some(wanted) ==> d.source_kind@ == wanted@
    &&& options.status matches Some(wanted) ==> (d.status matches Some(status) && status@
        == wanted@)
    &&& options.lane matches Some(wanted) ==> (d.lane matches Some(lane) && lane@ == wanted@)
    &&& forall|i: int|
        0 <= i < options.tags@.len() ==> carries_tag(d.tags@, (#[trigger] options.tags@[i])@)
    &&& options.after matches Some(earliest) ==> earliest <= d.updated_at
    &&& options.before matches Some(latest) ==> d.updated_at <= latest
}

proof fn lemma_carries_tag(tags: Seq<char>, tag: Seq<char>)
    ensures
        search_index::is_tagged(tags, tag) <==> carries_tag(tags, tag),
{
    reveal_strlit(" ");
    let space = " "@;
    assert(space =~= seq![' ']);
    let whole = seq![' '] + tags + seq![' '];
    let hay = space + tags + space;
    let needle = space + tag + space;
    assert(hay =~= whole);
    assert(needle.len() == tag.len() + 2);
    if search_index::is_tagged(tags, tag) {
        let i = choose|i: int| #[trigger] text::occurs_at(hay, needle, i);
        let part = hay.subrange(i, i + needle.len());
        assert(part == needle);
        assert(part[0] == needle[0] && part[tag.len() as int + 1] == needle[tag.len() as int + 1]);
        assert(whole.subrange(i + 1, i + 1 + tag.len()) =~= tag) by {
            assert forall|k: int| 0 <= k < tag.len() implies whole[i + 1 + k] == tag[k] by {
                assert(part[k + 1] == needle[k + 1]);
            }
        }
    }
    if carries_tag(tags, tag) {
        let i = choose|i: int|
            0 <= i && i + tag.len() + 2 <= whole.len() && whole[i] == ' ' && whole[i + tag.len()
                + 1] == ' ' && #[trigger] whole.subrange(i + 1, i + 1 + tag.len()) == tag;
        let inner = whole.subrange(i + 1, i + 1 + tag.len());
        assert(hay.subrange(i, i + needle.len()) =~= needle) by {
            assert forall|k: int| 0 <= k < needle.len() implies hay[i + k] == needle[k] by {
                if 0 < k <= tag.len() {
                    assert(inner[k - 1] == tag[k - 1]);
                }
            }
        }
        assert(text::occurs_at(hay, needle, i));
    }
}

proof fn lemma_meets(options: SearchOptions, d: Document)
    ensures
        search_index::is_selected(options)(d) <==> meets(options, d),
{
    assert forall|i: int| 0 <= i < options.tags@.len() implies (search_index::is_tagged(
        d.tags@,
        (#[trigger] options.tags@[i])@,
    ) <==> carries_tag(d.tags@, options.tags@[i]@)) by {
        lemma_carries_tag(d.tags@, options.tags@[i]@);
    }
}

/// The documents that a search looks at are those that have all that is asked for, each as
/// often as it is there.
pub proof fn law_searched_documents_meet_the_filters(
    documents: Seq<Document>,
    options: SearchOptions,
)
    ensures
        forall|d: Document| #[trigger]
            tables::kept(documents, search_index::is_selected(options)).contains(d) <==> (
            documents.contains(d) && meets(options, d)),
        forall|d: Document| #[trigger]
            tables::kept(documents, search_index::is_selected(options)).to_multiset().count(d)
                == (if meets(options, d) {
                documents.to_multiset().count(d)
            } else {
                0nat
            }),
{
    let p = search_index::is_selected(options);
    assert forall|d: Document| #[trigger] tables::kept(documents, p).contains(d) <==> (
    documents.contains(d) && meets(options, d)) by {
        listing::lemma_kept_contains(documents, p, d);
        lemma_meets(options, d);
    }
    assert forall|d: Document| #[trigger]
        tables::kept(documents, p).to_multiset().count(d) == (if meets(options, d) {
            documents.to_multiset().count(d)
        } else {
            0nat
        }) by {
        listing::lemma_kept_count(documents, p, d);
        lemma_meets(options, d);
    }
}

// ---------------------------------------------------------------------------- results

/// The result says of a document what the document says.
pub open spec fn shows(x: ResultView, board: Seq<char>, c: Candidate) -> bool {
    let d = c.document;
    &&& x.board == board
    &&& x.source_kind == d.source_kind@
    &&& x.source_id == d.source_id@
    &&& x.task_id == (match d.task_id {
        Some(id) => Some(id@),
        None => None,
    })
    &&& x.title == d.title@
    &&& x.status == (match d.status {
        Some(status) => Some(status@),
        None => None,
    })
    &&& x.lane == (match d.lane {
        Some(lane) => Some(lane@),
        None => None,
    })
    &&& x.created_at == d.created_at
    &&& x.updated_at == d.updated_at
    &&& x.archived == d.archived
    &&& x.rank == c.rank
    &&& x.citation == "kanban://"@ + board + "/"@ + d.source_kind@ + "/"@ + d.source_id@
}

/// Something speaks for a candidate: it holds the query, or a word of it where the query is
/// no generated id, and then the full text or the meaning may speak for it as well.
pub open spec fn speaks_for(query: Seq<char>, x: ResultView, c: Candidate) -> bool {
    match x.exact {
        ExactHit::Words { hits, of } => !search_text::is_generated_id(query) && (hits > 0
            || c.lexical || c.semantic),
        _ => true,
    }
}

pub(crate) proof fn lemma_results(
    board: Seq<char>,
    query: Seq<char>,
    candidates: Seq<Candidate>,
    n: int,
)
    requires
        0 <= n <= candidates.len() <= usize::MAX,
    ensures
        ({
            let all = search::results_up_to(board, query, candidates, n);
            &&& forall|i: int|
                0 <= i < all.len() ==> {
                    let x = #[trigger] all[i];
                    &&& 0 <= x.index < n
                    &&& shows(x, board, candidates[x.index as int])
                    &&& speaks_for(query, x, candidates[x.index as int])
                    &&& x == search::result_of(
                        board,
                        query,
                        candidates[x.index as int],
                        x.index,
                    )
                }
            &&& forall|i: int, j: int|
                0 <= i < j < all.len() ==> (#[trigger] all[i]).index < (#[trigger] all[j]).index
            &&& forall|k: int|
                0 <= k < n && search::is_shown(query, #[trigger] candidates[k]) ==> exists|i: int|
                    0 <= i < all.len() && (#[trigger] all[i]).index == k
        }),
    decreases n,
{
    let all = search::results_up_to(board, query, candidates, n);
    if n > 0 {
        lemma_results(board, query, candidates, n - 1);
        let before = search::results_up_to(board, query, candidates, n - 1);
        assert forall|i: int| 0 <= i < all.len() implies {
            let x = #[trigger] all[i];
            &&& 0 <= x.index < n
            &&& shows(x, board, candidates[x.index as int])
            &&& speaks_for(query, x, candidates[x.index as int])
            &&& x == search::result_of(board, query, candidates[x.index as int], x.index)
        } by {
            if i < before.len() {
                assert(all[i] == before[i]);
            }
        }
        assert forall|i: int, j: int| 0 <= i < j < all.len() implies (#[trigger] all[i]).index < (
        #[trigger] all[j]).index by {
            assert(all[i] == before[i]);
            if j < before.len() {
                assert(all[j] == before[j]);
            }
        }
        assert forall|k: int|
            0 <= k < n && search::is_shown(query, #[trigger] candidates[k]) implies exists|i: int|
            0 <= i < all.len() && (#[trigger] all[i]).index == k by {
            if k < n - 1 {
                let i = choose|i: int| 0 <= i < before.len() && (#[trigger] before[i]).index == k;
                assert(all[i].index == k);
            } else {
                assert(all[all.len() - 1].index == k);
            }
        }
    }
}

/// A search gives at most as many results as asked for. Each shows one of the candidates,
/// for which something speaks, as its document has it, and no candidate is shown twice. The
/// highest rank stands first, of equals the latest, then the one whose citation is less.
pub proof fn law_results_show_candidates(
    board: Seq<char>,
    options: SearchOptions,
    candidates: Seq<Candidate>,
)
    requires
        candidates.len() <= usize::MAX,
    ensures
        ({
            let all = search::board_results(board, options, candidates);
            &&& all.len() <= options.limit
            &&& forall|i: int|
                0 <= i < all.len() ==> {
                    let x = #[trigger] all[i];
                    &&& 0 <= x.index < candidates.len()
                    &&& shows(x, board, candidates[x.index as int])
                    &&& speaks_for(options.query@, x, candidates[x.index as int])
                }
            &&& forall|i: int, j: int|
                0 <= i < j < all.len() ==> (#[trigger] all[i]).index != (#[trigger] all[j]).index
            &&& forall|i: int, j: int|
                0 <= i < j < all.len() ==> {
                    let a = #[trigger] all[i];
                    let b = #[trigger] all[j];
                    a.rank > b.rank || a.rank == b.rank && (a.updated_at > b.updated_at
                        || a.updated_at == b.updated_at && !text::text_less(
                        b.citation,
                        a.citation,
                    ))
                }
        }),
{
    let whole = search::results_up_to(
        board,
        options.query@,
        candidates,
        candidates.len() as int,
    );
    let less = search::stands_before(ResultOrder::Board);
    let sorted = ranking::sorted_by(whole, less);
    let all = search::board_results(board, options, candidates);
    lemma_results(board, options.query@, candidates, candidates.len() as int);
    search::law_results_are_ordered(whole, ResultOrder::Board);
    listing::lemma_same_members(whole, sorted);
    tables::lemma_reordered_distinct(whole, sorted, |x: ResultView| x.index);
    let key = |x: ResultView| x.index;
    assert forall|i: int, j: int| 0 <= i < j < all.len() implies (#[trigger] all[i]).index != (
    #[trigger] all[j]).index by {
        assert(all[i] == sorted[i] && all[j] == sorted[j]);
        assert(key(sorted[i]) != key(sorted[j]));
    }
    assert forall|i: int| 0 <= i < all.len() implies {
        let x = #[trigger] all[i];
        &&& 0 <= x.index < candidates.len()
        &&& shows(x, board, candidates[x.index as int])
        &&& speaks_for(options.query@, x, candidates[x.index as int])
    } by {
        assert(all[i] == sorted[i]);
        assert(whole.contains(sorted[i]));
    }
    assert forall|i: int, j: int| 0 <= i < j < all.len() implies {
        let a = #[trigger] all[i];
        let b = #[trigger] all[j];
        a.rank > b.rank || a.rank == b.rank && (a.updated_at > b.updated_at || a.updated_at
            == b.updated_at && !text::text_less(b.citation, a.citation))
    } by {
        assert(all[i] == sorted[i] && all[j] == sorted[j]);
        assert(!less(sorted[j], sorted[i]));
    }
}

} // verus!
