//! How well a document answers a query, what no search leaves out, what a search of the
//! rules shows, and what a receipt keeps.

use vstd::prelude::*;

use crate::listing;
use crate::outside;
use crate::ranking;
use crate::records::SearchOptions;
use crate::records::UnreadableBoard;
use crate::rules::Rule;
use crate::search;
use crate::search::Candidate;
use crate::search::ResultOrder;
use crate::search::ResultView;
use crate::search::RuleCandidate;
use crate::search::SearchReceipt;
use crate::search_index;
use crate::search_index::Document;
use crate::search_laws;
use crate::search_match;
use crate::search_match::ExactHit;
use crate::search_text;
use crate::tables;
use crate::text;

verus! {

// ---------------------------------------------------------------------------- exact hits

/// The text stands somewhere in the other.
pub open spec fn holds(hay: Seq<char>, needle: Seq<char>) -> bool {
    exists|i: int|
        0 <= i && i + needle.len() <= hay.len() && #[trigger] hay.subrange(i, i + needle.len())
            == needle
}

pub(crate) proof fn lemma_holds(hay: Seq<char>, needle: Seq<char>)
    ensures
        text::contains_text(hay, needle) <==> holds(hay, needle),
{
    if text::contains_text(hay, needle) {
        let i = choose|i: int| #[trigger] text::occurs_at(hay, needle, i);
        assert(hay.subrange(i, i + needle.len()) == needle);
    }
    if holds(hay, needle) {
        let i = choose|i: int|
            0 <= i && i + needle.len() <= hay.len() && #[trigger] hay.subrange(i, i + needle.len())
                == needle;
        assert(text::occurs_at(hay, needle, i));
    }
}

/// So many of the words stand in the text.
pub open spec fn count_held(hay: Seq<char>, words: Seq<Seq<char>>) -> nat {
    words.filter(|word: Seq<char>| holds(hay, word)).len()
}

proof fn lemma_count_held(hay: Seq<char>, words: Seq<Seq<char>>)
    ensures
        tables::kept(words, search_match::occurs_in(hay)).len() == count_held(hay, words),
{
    let p = search_match::occurs_in(hay);
    let q = |word: Seq<char>| holds(hay, word);
    assert forall|word: Seq<char>| p(word) == #[trigger] q(word) by {
        lemma_holds(hay, word);
    }
    assert(p =~= q);
    listing::lemma_kept_is_filter(words, p);
}

/// What a query finds in a document, by its id, its title and its text, all in small
/// letters: the whole query in the first place that holds it, else how many of its words
/// stand anywhere.
pub open spec fn is_hit(
    hit: ExactHit,
    id: Seq<char>,
    title: Seq<char>,
    body: Seq<char>,
    query: Seq<char>,
    words: Seq<Seq<char>>,
) -> bool {
    let in_title = query.len() > 0 && holds(title, query);
    let in_body = query.len() > 0 && holds(body, query);
    match hit {
        ExactHit::SourceId => id == query,
        ExactHit::Title => id != query && query.len() > 0 && title == query,
        ExactHit::TitleStart => id != query && query.len() > 0 && title != query && title.len()
            >= query.len() && title.take(query.len() as int) == query,
        ExactHit::TitlePart => id != query && in_title && !(title.len() >= query.len()
            && title.take(query.len() as int) == query),
        ExactHit::Body => id != query && !in_title && in_body,
        ExactHit::Words { hits, of } => id != query && !in_title && !in_body && hits == count_held(
            id + seq!['\n'] + title + seq!['\n'] + body,
            words,
        ) && of == words.len(),
    }
}

proof fn lemma_hit(
    id: Seq<char>,
    title: Seq<char>,
    body: Seq<char>,
    query: Seq<char>,
    words: Seq<Seq<char>>,
)
    requires
        words.len() <= usize::MAX,
    ensures
        is_hit(
            search_match::hit_of(id, title, body, query, words),
            id,
            title,
            body,
            query,
            words,
        ),
{
    reveal_strlit("\n");
    assert("\n"@ =~= seq!['\n']);
    lemma_holds(title, query);
    lemma_holds(body, query);
    let hay = id + seq!['\n'] + title + seq!['\n'] + body;
    lemma_count_held(hay, words);
    tables::lemma_kept(words, search_match::occurs_in(hay));
    let q = |word: Seq<char>| holds(hay, word);
    words.lemma_filter_len(q);
    if query.is_prefix_of(title) {
        assert(title.take(query.len() as int) =~= query);
        assert(title.subrange(0, 0int + query.len()) =~= query);
    }
    if title.len() >= query.len() && title.take(query.len() as int) == query {
        assert(query.is_prefix_of(title)) by {
            assert(title.take(query.len() as int) =~= title.subrange(0, query.len() as int));
        }
        if title.len() == query.len() {
            assert(title =~= query);
        }
    }
    if title == query {
        assert(title.subrange(0, 0int + query.len()) =~= query);
    }
}

/// A document answers a query by the first place that holds the query as a whole: its id, its
/// title, or its text with its tags. Where none does, it answers by how many words of the
/// query stand in it. A query that is a generated id is looked for without the tags.
pub proof fn law_document_answers_by_what_it_holds(d: Document, query: Seq<char>)
    requires
        search_text::words_of(query).len() <= usize::MAX,
    ensures
        is_hit(
            search_match::document_hit(d, query),
            outside::lowercase(d.source_id@),
            outside::lowercase(d.title@),
            if search_text::is_generated_id(query) {
                outside::lowercase(d.body@)
            } else {
                outside::lowercase(d.body@ + seq!['\n'] + d.tags@)
            },
            outside::lowercase(query),
            search_text::words_of(query),
        ),
{
    reveal_strlit("\n");
    assert("\n"@ =~= seq!['\n']);
    let body = if search_text::is_generated_id(query) {
        outside::lowercase(d.body@)
    } else {
        outside::lowercase(d.body@ + seq!['\n'] + d.tags@)
    };
    lemma_hit(
        outside::lowercase(d.source_id@),
        outside::lowercase(d.title@),
        body,
        outside::lowercase(query),
        search_text::words_of(query),
    );
}

// ---------------------------------------------------------------------------- completeness

/// Something speaks for the candidate.
pub open spec fn is_answer(query: Seq<char>, c: Candidate) -> bool {
    match search_match::document_hit(c.document, query) {
        ExactHit::Words { hits, of } => !search_text::is_generated_id(query) && (hits > 0
            || c.lexical || c.semantic),
        _ => true,
    }
}

/// A search leaves nothing out: a candidate for which something speaks is shown, unless as
/// many as asked for are shown that rank at least as high.
pub proof fn law_nothing_is_left_out(
    board: Seq<char>,
    options: SearchOptions,
    candidates: Seq<Candidate>,
    k: int,
)
    requires
        candidates.len() <= usize::MAX,
        0 <= k < candidates.len(),
        is_answer(options.query@, candidates[k]),
    ensures
        ({
            let all = search::board_results(board, options, candidates);
            ||| exists|i: int| 0 <= i < all.len() && (#[trigger] all[i]).index == k
            ||| all.len() == options.limit && forall|i: int|
                0 <= i < all.len() ==> (#[trigger] all[i]).rank > candidates[k].rank || (
                all[i].rank == candidates[k].rank && all[i].updated_at
                    >= candidates[k].document.updated_at)
        }),
{
    let query = options.query@;
    let n = candidates.len() as int;
    let whole = search::results_up_to(board, query, candidates, n);
    let less = search::stands_before(ResultOrder::Board);
    let sorted = ranking::sorted_by(whole, less);
    let all = search::board_results(board, options, candidates);
    search_laws::lemma_results(board, query, candidates, n);
    search::law_results_are_ordered(whole, ResultOrder::Board);
    listing::lemma_same_members(whole, sorted);
    assert(search::is_shown(query, candidates[k]));
    let m = choose|m: int| 0 <= m < whole.len() && (#[trigger] whole[m]).index == k;
    assert(sorted.contains(whole[m]));
    let s = choose|s: int| 0 <= s < sorted.len() && sorted[s] == whole[m];
    if s < all.len() {
        assert(all[s].index == k);
    } else {
        assert(all.len() == options.limit);
        assert(search_laws::shows(whole[m], board, candidates[k]));
        assert forall|i: int| 0 <= i < all.len() implies (#[trigger] all[i]).rank
            > candidates[k].rank || (all[i].rank == candidates[k].rank && all[i].updated_at
            >= candidates[k].document.updated_at) by {
            assert(all[i] == sorted[i]);
            assert(!less(sorted[s], sorted[i]));
        }
    }
}

/// A search is carried out only where it asks for something, for one result at least and not
/// too many, and for a receipt of a fair size.
pub proof fn law_unfair_searches_are_refused(options: SearchOptions, ceiling: usize)
    ensures
        search::options_refusal(options, ceiling) is None <==> text::trimmed(
            options.query@,
        ).len() > 0 && 1 <= options.limit <= ceiling && 256 <= options.max_chars <= 100_000,
{
    text::lemma_trimmed_blank(options.query@);
}

// ---------------------------------------------------------------------------- rules

/// The rule carries the tag.
pub open spec fn rule_carries(rule: Rule, tag: Seq<char>) -> bool {
    exists|k: int| 0 <= k < rule.tags@.len() && (#[trigger] rule.tags@[k])@ == tag
}

/// The rule has all that is asked for.
pub open spec fn rule_meets(options: SearchOptions, rule: Rule) -> bool {
    &&& rule.archived ==> options.include_archived
    &&& forall|i: int|
        0 <= i < options.tags@.len() ==> rule_carries(rule, (#[trigger] options.tags@[i])@)
    &&& options.after matches Some(earliest) ==> earliest <= rule.updated_at
    &&& options.before matches Some(latest) ==> rule.updated_at <= latest
    &&& options.status matches Some(wanted) ==> wanted@ == (if rule.archived {
        "retired"@
    } else {
        "active"@
    })
}

proof fn lemma_rule_meets(options: SearchOptions, rule: Rule)
    ensures
        search::selects_rule(options, rule) <==> rule_meets(options, rule),
{
    let tags = text::texts(rule.tags@);
    assert forall|i: int| 0 <= i < options.tags@.len() implies (tags.contains(
        (#[trigger] options.tags@[i])@,
    ) <==> rule_carries(rule, options.tags@[i]@)) by {
        if tags.contains(options.tags@[i]@) {
            let k = choose|k: int| 0 <= k < tags.len() && tags[k] == options.tags@[i]@;
            assert(rule.tags@[k]@ == options.tags@[i]@);
        }
        if rule_carries(rule, options.tags@[i]@) {
            let k = choose|k: int|
                0 <= k < rule.tags@.len() && (#[trigger] rule.tags@[k])@ == options.tags@[i]@;
            assert(tags[k] == options.tags@[i]@);
        }
    }
}

/// The result says of a rule what the rule says.
pub open spec fn shows_rule(x: ResultView, c: RuleCandidate) -> bool {
    &&& x.source_kind == "rule"@
    &&& x.source_id == c.rule.id@
    &&& x.task_id is None && x.lane is None
    &&& x.status == Some(
        if c.rule.archived {
            "retired"@
        } else {
            "active"@
        },
    )
    &&& x.tags == text::texts(c.rule.tags@)
    &&& x.created_at == c.rule.created_at
    &&& x.updated_at == c.rule.updated_at
    &&& x.archived == c.rule.archived
    &&& x.rank == c.rank
}

/// Something speaks for the rule: it holds the query, or a word of it where the query is no
/// generated id, and then the meaning may speak for it as well.
pub open spec fn is_rule_answer(query: Seq<char>, hit: ExactHit, c: RuleCandidate) -> bool {
    match hit {
        ExactHit::Words { hits, of } => !search_text::is_generated_id(query) && (hits > 0
            || c.semantic),
        _ => true,
    }
}

proof fn lemma_rules(options: SearchOptions, candidates: Seq<RuleCandidate>, n: int)
    requires
        0 <= n <= candidates.len() <= usize::MAX,
    ensures
        ({
            let all = search::rules_up_to(options, candidates, n);
            &&& forall|i: int|
                0 <= i < all.len() ==> {
                    let x = #[trigger] all[i];
                    &&& 0 <= x.index < n
                    &&& shows_rule(x, candidates[x.index as int])
                    &&& rule_meets(options, candidates[x.index as int].rule)
                    &&& is_rule_answer(options.query@, x.exact, candidates[x.index as int])
                }
            &&& forall|k: int|
                0 <= k < n && rule_meets(options, (#[trigger] candidates[k]).rule)
                    && is_rule_answer(
                    options.query@,
                    search::rule_hit(candidates[k].rule, options.query@),
                    candidates[k],
                ) ==> has_index(all, k)
        }),
    decreases n,
{
    let all = search::rules_up_to(options, candidates, n);
    if n > 0 {
        lemma_rules(options, candidates, n - 1);
        lemma_rule_meets(options, candidates[n - 1].rule);
        let before = search::rules_up_to(options, candidates, n - 1);
        assert forall|i: int| 0 <= i < all.len() implies {
            let x = #[trigger] all[i];
            &&& 0 <= x.index < n
            &&& shows_rule(x, candidates[x.index as int])
            &&& rule_meets(options, candidates[x.index as int].rule)
            &&& is_rule_answer(options.query@, x.exact, candidates[x.index as int])
        } by {
            if i < before.len() {
                assert(all[i] == before[i]);
            }
        }
        assert forall|k: int|
            0 <= k < n && rule_meets(options, (#[trigger] candidates[k]).rule) && is_rule_answer(
                options.query@,
                search::rule_hit(candidates[k].rule, options.query@),
                candidates[k],
            ) implies has_index(all, k) by {
            if k < n - 1 {
                assert(has_index(before, k));
                let i = choose|i: int| 0 <= i < before.len() && (#[trigger] before[i]).index == k;
                assert(all[i].index == k);
            } else {
                assert(all[all.len() - 1].index == k);
            }
        }
    }
}

/// One of the results shows the candidate at the place.
pub open spec fn has_index(all: Seq<ResultView>, k: int) -> bool {
    exists|i: int| 0 <= i < all.len() && (#[trigger] all[i]).index == k
}

/// A search of the rules shows just rules that have all that is asked for and for which
/// something speaks, as they are, the highest rank first, and at most as many as asked for.
/// It leaves such a rule out only where as many are shown that rank at least as high. Where
/// another kind of source or a lane is asked for, it shows none.
pub proof fn law_rule_results_show_rules(options: SearchOptions, candidates: Seq<RuleCandidate>)
    requires
        candidates.len() <= usize::MAX,
    ensures
        ({
            let all = search::rule_results(options, candidates);
            &&& options.lane is Some || (options.source matches Some(kind) && kind@ != "rule"@)
                ==> all.len() == 0
            &&& all.len() <= options.limit
            &&& forall|i: int|
                0 <= i < all.len() ==> {
                    let x = #[trigger] all[i];
                    &&& 0 <= x.index < candidates.len()
                    &&& shows_rule(x, candidates[x.index as int])
                    &&& rule_meets(options, candidates[x.index as int].rule)
                    &&& is_rule_answer(options.query@, x.exact, candidates[x.index as int])
                }
            &&& forall|i: int, j: int|
                0 <= i < j < all.len() ==> (#[trigger] all[i]).rank >= (#[trigger] all[j]).rank
            &&& options.lane is None && (options.source is None || options.source->0@ == "rule"@)
                ==> forall|k: int|
                0 <= k < candidates.len() && rule_meets(options, (#[trigger] candidates[k]).rule)
                    && is_rule_answer(
                    options.query@,
                    search::rule_hit(candidates[k].rule, options.query@),
                    candidates[k],
                ) ==> has_index(all, k) || all.len() == options.limit && none_ranks_below(
                    all,
                    candidates[k].rank,
                )
        }),
{
    let n = candidates.len() as int;
    let whole = search::rules_up_to(options, candidates, n);
    let less = search::stands_before(ResultOrder::Rules);
    let sorted = ranking::sorted_by(whole, less);
    let all = search::rule_results(options, candidates);
    lemma_rules(options, candidates, n);
    search::law_results_are_ordered(whole, ResultOrder::Rules);
    listing::lemma_same_members(whole, sorted);
    if search::asks_for_rules(options) {
        assert forall|i: int| 0 <= i < all.len() implies {
            let x = #[trigger] all[i];
            &&& 0 <= x.index < candidates.len()
            &&& shows_rule(x, candidates[x.index as int])
            &&& rule_meets(options, candidates[x.index as int].rule)
            &&& is_rule_answer(options.query@, x.exact, candidates[x.index as int])
        } by {
            assert(all[i] == sorted[i]);
            assert(whole.contains(sorted[i]));
        }
        assert forall|i: int, j: int| 0 <= i < j < all.len() implies (#[trigger] all[i]).rank >= (
        #[trigger] all[j]).rank by {
            assert(all[i] == sorted[i] && all[j] == sorted[j]);
            assert(!less(sorted[j], sorted[i]));
        }
        assert forall|k: int|
            0 <= k < candidates.len() && rule_meets(options, (#[trigger] candidates[k]).rule)
                && is_rule_answer(
                options.query@,
                search::rule_hit(candidates[k].rule, options.query@),
                candidates[k],
            ) implies has_index(all, k) || all.len() == options.limit && none_ranks_below(
            all,
            candidates[k].rank,
        ) by {
            assert(has_index(whole, k));
            let m = choose|m: int| 0 <= m < whole.len() && (#[trigger] whole[m]).index == k;
            assert(shows_rule(whole[m], candidates[k]));
            assert(sorted.contains(whole[m]));
            let s = choose|s: int| 0 <= s < sorted.len() && sorted[s] == whole[m];
            if s < all.len() {
                assert(all[s].index == k);
            } else {
                assert forall|i: int| 0 <= i < all.len() implies (#[trigger] all[i]).rank
                    >= candidates[k].rank by {
                    assert(all[i] == sorted[i]);
                    assert(!less(sorted[s], sorted[i]));
                }
            }
        }
    }
}

pub open spec fn none_ranks_below(all: Seq<ResultView>, rank: i64) -> bool {
    forall|i: int| 0 <= i < all.len() ==> (#[trigger] all[i]).rank >= rank
}

/// A rule answers a query by its id, else by its body as a whole, else by the words of the
/// query that stand in its body; all in small letters.
pub proof fn law_rule_answers_by_what_it_holds(rule: Rule, query: Seq<char>)
    requires
        search_text::words_of(query).len() <= usize::MAX,
    ensures
        ({
            let hit = search::rule_hit(rule, query);
            let small = outside::lowercase(query);
            let body = outside::lowercase(rule.body@);
            &&& hit == ExactHit::SourceId <==> outside::lowercase(rule.id@) == small
            &&& hit == ExactHit::Body <==> outside::lowercase(rule.id@) != small && holds(
                body,
                small,
            )
            &&& outside::lowercase(rule.id@) != small && !holds(body, small) ==> hit is Words
                && hit->hits == count_held(body, search_text::words_of(query)) && hit->of
                == search_text::words_of(query).len()
        }),
{
    let body = outside::lowercase(rule.body@);
    let words = search_text::words_of(query);
    lemma_holds(body, outside::lowercase(query));
    lemma_count_held(body, words);
    let q = |word: Seq<char>| holds(body, word);
    words.lemma_filter_len(q);
}

// ---------------------------------------------------------------------------- receipts

/// The result is the other one; but its snippet may be cut, and then ends in an ellipsis.
pub open spec fn is_cut_from(x: ResultView, whole: ResultView) -> bool {
    &&& x == (ResultView { snippet: x.snippet, ..whole })
    &&& x.snippet == whole.snippet || (x.snippet.len() > 0 && x.snippet.len()
        <= whole.snippet.len() && x.snippet.last() == '…' && x.snippet.drop_last()
        == whole.snippet.take(x.snippet.len() - 1))
}

/// What the results of a receipt take: title, citation and snippet, and 80 for the rest.
pub open spec fn cost(s: Seq<ResultView>) -> nat
    decreases s.len(),
{
    if s.len() == 0 {
        0
    } else {
        cost(s.drop_last()) + s.last().title.len() + s.last().citation.len()
            + s.last().snippet.len() + 80
    }
}

proof fn lemma_cost(first: ResultView, rest: Seq<ResultView>)
    ensures
        cost(seq![first] + rest) == first.title.len() + first.citation.len()
            + first.snippet.len() + 80 + cost(rest),
    decreases rest.len(),
{
    let all = seq![first] + rest;
    if rest.len() == 0 {
        assert(all.drop_last() =~= Seq::<ResultView>::empty());
        assert(cost(all.drop_last()) == 0);
        assert(all.last() == first);
    } else {
        lemma_cost(first, rest.drop_last());
        assert(all.drop_last() =~= seq![first] + rest.drop_last());
        assert(all.last() == rest.last());
    }
}

proof fn lemma_fitting(s: Seq<ResultView>, chars: nat, max_chars: nat)
    requires
        chars <= max_chars,
    ensures
        ({
            let (kept, total) = search::fitting(s, chars, max_chars);
            &&& kept.len() <= s.len()
            &&& forall|i: int| 0 <= i < kept.len() ==> is_cut_from(#[trigger] kept[i], s[i])
            &&& total == chars + cost(kept)
            &&& total <= max_chars
            &&& kept.len() < s.len() ==> total + s[kept.len() as int].title.len()
                + s[kept.len() as int].citation.len() + 80 >= max_chars
        }),
    decreases s.len(),
{
    if s.len() > 0 && chars + search::fixed_cost(s[0]) < max_chars {
        let fixed = search::fixed_cost(s[0]);
        let available = (max_chars - chars - fixed) as nat;
        let snippet = search::fitted(s[0].snippet, available);
        let first = ResultView { snippet, ..s[0] };
        lemma_fitting(s.skip(1), chars + fixed + snippet.len(), max_chars);
        let (rest, total) = search::fitting(
            s.skip(1),
            chars + fixed + snippet.len(),
            max_chars,
        );
        let kept = seq![first] + rest;
        lemma_cost(first, rest);
        if s[0].snippet.len() > available {
            assert(snippet.drop_last() =~= s[0].snippet.take(snippet.len() - 1));
        }
        assert forall|i: int| 0 <= i < kept.len() implies is_cut_from(#[trigger] kept[i], s[i]) by {
            if i > 0 {
                assert(kept[i] == rest[i - 1]);
                assert(s.skip(1)[i - 1] == s[i]);
            }
        }
        if kept.len() < s.len() {
            assert(s.skip(1)[rest.len() as int] == s[kept.len() as int]);
        }
    }
}

/// A receipt holds the results that rank highest, in order, at most as many as asked for and
/// as fit: each as it was found, at most its snippet cut. It says how much they take, which
/// is no more than asked for, and whether any result is left out.
pub proof fn law_receipt_keeps_the_best(
    r: SearchReceipt,
    query: Seq<char>,
    boards: Vec<String>,
    missing_boards: Vec<String>,
    unreadable_boards: Vec<UnreadableBoard>,
    results: Seq<ResultView>,
    limit: usize,
    max_chars: usize,
    now: i64,
)
    requires
        search::is_receipt(
            r,
            query,
            boards,
            missing_boards,
            unreadable_boards,
            results,
            limit,
            max_chars,
            now,
        ),
    ensures
        r.query@ == query,
        r.boards == boards && r.missing_boards == missing_boards && r.unreadable_boards
            == unreadable_boards,
        r.embedding_model@ == search_index::EMBEDDING_MODEL@,
        r.generated_at == now,
        r.results@.len() <= limit,
        r.result_chars == cost(search::result_views(r.results@)),
        r.result_chars <= max_chars,
        r.truncated <==> r.results@.len() < results.len(),
        forall|i: int|
            0 <= i < r.results@.len() ==> is_kept(#[trigger] r.results@[i]@, results),
        forall|i: int, j: int|
            0 <= i < j < r.results@.len() ==> (#[trigger] r.results@[i]).rank > (
            #[trigger] r.results@[j]).rank || (r.results@[i].rank == r.results@[j].rank
                && !text::text_less(r.results@[j].citation@, r.results@[i].citation@)),
{
    let less = search::stands_before(ResultOrder::Receipt);
    let sorted = ranking::sorted_by(results, less);
    let first = search::first_results(sorted, limit);
    search::law_results_are_ordered(results, ResultOrder::Receipt);
    listing::lemma_same_members(results, sorted);
    lemma_fitting(first, 0, max_chars as nat);
    let kept = search::result_views(r.results@);
    assert forall|i: int| 0 <= i < r.results@.len() implies is_kept(
        #[trigger] r.results@[i]@,
        results,
    ) by {
        assert(kept[i] == r.results@[i]@);
        assert(is_cut_from(kept[i], first[i]));
        assert(first[i] == sorted[i]);
        assert(results.contains(sorted[i]));
        let k = choose|k: int| 0 <= k < results.len() && results[k] == sorted[i];
        assert(is_cut_from(r.results@[i]@, results[k]));
    }
    assert forall|i: int, j: int| 0 <= i < j < r.results@.len() implies (
    #[trigger] r.results@[i]).rank > (#[trigger] r.results@[j]).rank || (r.results@[i].rank
        == r.results@[j].rank && !text::text_less(
        r.results@[j].citation@,
        r.results@[i].citation@,
    )) by {
        assert(kept[i] == r.results@[i]@ && kept[j] == r.results@[j]@);
        assert(is_cut_from(kept[i], first[i]) && is_cut_from(kept[j], first[j]));
        assert(first[i] == sorted[i] && first[j] == sorted[j]);
        assert(!less(sorted[j], sorted[i]));
    }
}

/// The result is one of these, at most its snippet cut.
pub open spec fn is_kept(x: ResultView, results: Seq<ResultView>) -> bool {
    exists|k: int| 0 <= k < results.len() && is_cut_from(x, #[trigger] results[k])
}

} // verus!
