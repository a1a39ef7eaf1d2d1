//! Searching: which documents and rules answer a query, in which order, and how much of
//! them fits.

use vstd::prelude::*;

use crate::clock;
use crate::ranking;
use crate::records::SearchOptions;
use crate::records::UnreadableBoard;
use crate::rules::Rule;
use crate::search_index;
use crate::search_index::Document;
use crate::search_index::EMBEDDING_MODEL;
use crate::search_match;
use crate::search_match::ExactHit;
use crate::search_match::SNIPPET_CHARS;
use crate::search_text;
use crate::tables;
use crate::outside;
use crate::text;
use crate::text::Error;

verus! {

// ----------------------------------------------------------------------------- results

/// One result. Its rank is a number that orders as its score does; `index` finds the
/// candidate again.
#[derive(Debug)]
pub struct SearchResult {
    pub board: String,
    pub source_kind: String,
    pub source_id: String,
    pub task_id: Option<String>,
    pub title: String,
    pub snippet: String,
    pub status: Option<String>,
    pub lane: Option<String>,
    pub tags: Vec<String>,
    pub created_at: i64,
    pub updated_at: i64,
    pub archived: bool,
    pub exact: ExactHit,
    pub rank: i64,
    pub index: usize,
    pub citation: String,
}

/// What a result says.
pub struct ResultView {
    pub board: Seq<char>,
    pub source_kind: Seq<char>,
    pub source_id: Seq<char>,
    pub task_id: Option<Seq<char>>,
    pub title: Seq<char>,
    pub snippet: Seq<char>,
    pub status: Option<Seq<char>>,
    pub lane: Option<Seq<char>>,
    pub tags: Seq<Seq<char>>,
    pub created_at: i64,
    pub updated_at: i64,
    pub archived: bool,
    pub exact: ExactHit,
    pub rank: i64,
    pub index: usize,
    pub citation: Seq<char>,
}

impl View for SearchResult {
    type V = ResultView;

    open spec fn view(&self) -> ResultView {
        ResultView {
            board: self.board@,
            source_kind: self.source_kind@,
            source_id: self.source_id@,
            task_id: text::text_of(self.task_id),
            title: self.title@,
            snippet: self.snippet@,
            status: text::text_of(self.status),
            lane: text::text_of(self.lane),
            tags: text::texts(self.tags@),
            created_at: self.created_at,
            updated_at: self.updated_at,
            archived: self.archived,
            exact: self.exact,
            rank: self.rank,
            index: self.index,
            citation: self.citation@,
        }
    }
}

pub open spec fn result_views(s: Seq<SearchResult>) -> Seq<ResultView> {
    s.map_values(|x: SearchResult| x@)
}

// ------------------------------------------------------------------------------ orders

/// The orders that results are put in.
#[derive(Debug, Clone, Copy, PartialEq, Eq, Structural)]
pub enum ResultOrder {
    /// The highest rank first, then the latest, then by citation.
    Board,
    /// The highest rank first.
    Rules,
    /// The highest rank first, then by citation.
    Receipt,
}

pub open spec fn stands_before(order: ResultOrder) -> spec_fn(ResultView, ResultView) -> bool {
    |a: ResultView, b: ResultView|
        {
            if a.rank != b.rank {
                a.rank > b.rank
            } else {
                match order {
                    ResultOrder::Rules => false,
                    ResultOrder::Receipt => text::text_less(a.citation, b.citation),
                    ResultOrder::Board => if a.updated_at != b.updated_at {
                        a.updated_at > b.updated_at
                    } else {
                        text::text_less(a.citation, b.citation)
                    },
                }
            }
        }
}

/// Each of them is an order, so results come out in it.
pub proof fn law_results_are_ordered(s: Seq<ResultView>, order: ResultOrder)
    ensures
        ranking::in_order_by(
            ranking::sorted_by(s, stands_before(order)),
            stands_before(order),
        ),
        ranking::sorted_by(s, stands_before(order)).to_multiset() == s.to_multiset(),
        ranking::sorted_by(s, stands_before(order)).len() == s.len(),
{
    let less = stands_before(order);
    assert forall|a: ResultView| !#[trigger] less(a, a) by {
        text::lemma_text_order(a.citation, a.citation, a.citation);
    }
    assert forall|a: ResultView, b: ResultView| #[trigger] less(a, b) implies !less(b, a) by {
        text::lemma_text_order(a.citation, b.citation, a.citation);
    }
    assert forall|a: ResultView, b: ResultView, c: ResultView|
        !#[trigger] less(a, b) && !#[trigger] less(b, c) implies !less(a, c) by {
        text::lemma_text_order(a.citation, b.citation, c.citation);
        text::lemma_text_order(c.citation, b.citation, a.citation);
        text::lemma_text_order(a.citation, c.citation, b.citation);
        text::lemma_text_order(b.citation, c.citation, a.citation);
        text::lemma_text_order(b.citation, a.citation, c.citation);
    }
    ranking::law_sorted_by(s, less);
}

fn is_before(a: &SearchResult, b: &SearchResult, order: ResultOrder) -> (r: bool)
    ensures
        r == stands_before(order)(a@, b@),
{
    if a.rank != b.rank {
        return a.rank > b.rank;
    }
    match order {
        ResultOrder::Rules => false,
        ResultOrder::Receipt => text::less(a.citation.as_str(), b.citation.as_str()),
        ResultOrder::Board => if a.updated_at != b.updated_at {
            a.updated_at > b.updated_at
        } else {
            text::less(a.citation.as_str(), b.citation.as_str())
        },
    }
}

fn insert_result(v: &mut Vec<SearchResult>, x: SearchResult, order: ResultOrder)
    ensures
        result_views(final(v)@) == ranking::inserted_by(
            result_views(old(v)@),
            x@,
            stands_before(order),
        ),
{
    let ghost less = stands_before(order);
    let ghost start = v@;
    let ghost whole = result_views(v@);
    let mut at: usize = v.len();
    proof {
        assert(whole.take(whole.len() as int) =~= whole);
        assert(ranking::inserted_by(whole, x@, less) =~= ranking::inserted_by(whole, x@, less)
            + whole.skip(whole.len() as int));
    }
    while at > 0 && is_before(&x, &v[at - 1], order)
        invariant
            at <= v@.len(),
            v@ == start,
            whole == result_views(start),
            less == stands_before(order),
            ranking::inserted_by(whole, x@, less) == ranking::inserted_by(
                whole.take(at as int),
                x@,
                less,
            ) + whole.skip(at as int),
        decreases at,
    {
        proof {
            let head = whole.take(at as int);
            assert(head.last() == whole[at - 1]);
            assert(head.drop_last() =~= whole.take(at - 1));
            assert(ranking::inserted_by(head.drop_last(), x@, less).push(head.last())
                + whole.skip(at as int) =~= ranking::inserted_by(head.drop_last(), x@, less)
                + whole.skip(at - 1));
        }
        at = at - 1;
    }
    proof {
        let head = whole.take(at as int);
        assert(at > 0 ==> head.last() == whole[at - 1]);
        assert(ranking::inserted_by(head, x@, less) == head.push(x@));
        assert(head.push(x@) + whole.skip(at as int) =~= whole.insert(at as int, x@));
        assert(result_views(start.insert(at as int, x)) =~= whole.insert(at as int, x@));
    }
    v.insert(at, x);
}

/// Results in an order.
pub fn sort_results(v: Vec<SearchResult>, order: ResultOrder) -> (r: Vec<SearchResult>)
    ensures
        result_views(r@) == ranking::sorted_by(result_views(v@), stands_before(order)),
{
    let ghost less = stands_before(order);
    let ghost all = v@;
    let ghost whole = result_views(v@);
    let mut out: Vec<SearchResult> = Vec::new();
    proof {
        assert(whole.take(0) =~= Seq::<ResultView>::empty());
        assert(result_views(out@) =~= seq![]);
    }
    for x in it: v
        invariant
            it.seq() == all,
            whole == result_views(all),
            less == stands_before(order),
            result_views(out@) == ranking::sorted_by(whole.take(it.index() as int), less),
    {
        proof {
            let n = it.index() as int;
            assert(whole.take(n + 1).drop_last() =~= whole.take(n));
            assert(whole.take(n + 1).last() == x@);
        }
        insert_result(&mut out, x, order);
    }
    proof {
        assert(whole.take(whole.len() as int) =~= whole);
    }
    out
}

/// At most so many of some results.
pub open spec fn first_results(s: Seq<ResultView>, limit: usize) -> Seq<ResultView> {
    if s.len() > limit {
        s.take(limit as int)
    } else {
        s
    }
}

fn limit_results(v: Vec<SearchResult>, limit: usize) -> (r: Vec<SearchResult>)
    ensures
        result_views(r@) == first_results(result_views(v@), limit),
{
    let ghost all = result_views(v@);
    let mut out = v;
    if out.len() > limit {
        out.truncate(limit);
        proof {
            assert(result_views(out@) =~= all.take(limit as int));
        }
    }
    out
}

// ----------------------------------------------------------------------------- a board

/// One document, and whether the tags of its row permit reading it.
#[derive(Debug)]
pub struct Guarded {
    pub document: Document,
    pub permitted: bool,
}

/// The document may be read: it is permitted, or nothing is enforced.
pub open spec fn may_be_read(enforcing: bool) -> spec_fn(Guarded) -> bool {
    |g: Guarded| !enforcing || g.permitted
}

/// The documents that may be read, in their order.
pub open spec fn readable(guarded: Seq<Guarded>, enforcing: bool) -> Seq<Document> {
    tables::kept(guarded, may_be_read(enforcing)).map_values(|g: Guarded| g.document)
}

/// The documents that may be read. What may not is dropped here, before anything of it
/// is counted, scored or shown.
pub fn readable_documents(guarded: Vec<Guarded>, enforcing: bool) -> (r: Vec<Document>)
    ensures
        r@ == readable(guarded@, enforcing),
{
    let ghost all = guarded@;
    let mut out: Vec<Document> = Vec::new();
    proof {
        assert(all.take(0) =~= seq![]);
        assert(out@ =~= readable(all.take(0), enforcing));
    }
    for g in it: guarded
        invariant
            it.seq() == all,
            out@ == readable(all.take(it.index() as int), enforcing),
    {
        let ghost n = it.index() as int;
        let ghost before = tables::kept(all.take(n), may_be_read(enforcing));
        proof {
            tables::lemma_kept_step(all, may_be_read(enforcing), n);
            assert(all[n] == g);
        }
        if !enforcing || g.permitted {
            out.push(g.document);
            proof {
                assert(before.push(g).map_values(|g: Guarded| g.document) =~= before.map_values(
                    |g: Guarded| g.document,
                ).push(g.document));
            }
        }
    }
    proof {
        assert(all.take(all.len() as int) =~= all);
    }
    out
}

/// Every document that is read is one that may be.
pub proof fn law_only_readable_documents_are_read(
    guarded: Seq<Guarded>,
    enforcing: bool,
    i: int,
)
    requires
        0 <= i < readable(guarded, enforcing).len(),
    ensures
        exists|k: int|
            0 <= k < guarded.len() && may_be_read(enforcing)(#[trigger] guarded[k])
                && guarded[k].document == readable(guarded, enforcing)[i],
{
    let kept = tables::kept(guarded, may_be_read(enforcing));
    tables::lemma_kept(guarded, may_be_read(enforcing));
    assert(guarded.contains(kept[i]));
    let k = choose|k: int| 0 <= k < guarded.len() && guarded[k] == kept[i];
    assert(may_be_read(enforcing)(guarded[k]));
}

/// Whether a document that may not be read is there makes no difference to what is read.
pub proof fn law_denied_document_is_as_if_absent(
    guarded: Seq<Guarded>,
    enforcing: bool,
    denied: Guarded,
    i: int,
)
    requires
        0 <= i <= guarded.len(),
        !may_be_read(enforcing)(denied),
    ensures
        readable(guarded.insert(i, denied), enforcing) == readable(guarded, enforcing),
    decreases guarded.len(),
{
    let p = may_be_read(enforcing);
    let all = guarded.insert(i, denied);
    if i == guarded.len() {
        assert(all.drop_last() =~= guarded);
    } else {
        let rest = guarded.drop_last();
        law_denied_document_is_as_if_absent(rest, enforcing, denied, i);
        assert(all.drop_last() =~= rest.insert(i, denied));
        assert(all.last() == guarded.last());
        lemma_readable_step(guarded, enforcing);
        lemma_readable_step(all, enforcing);
    }
}

proof fn lemma_readable_step(guarded: Seq<Guarded>, enforcing: bool)
    requires
        guarded.len() > 0,
    ensures
        readable(guarded, enforcing) == if may_be_read(enforcing)(guarded.last()) {
            readable(guarded.drop_last(), enforcing).push(guarded.last().document)
        } else {
            readable(guarded.drop_last(), enforcing)
        },
{
    let before = tables::kept(guarded.drop_last(), may_be_read(enforcing));
    assert(before.push(guarded.last()).map_values(|g: Guarded| g.document) =~= before.map_values(
        |g: Guarded| g.document,
    ).push(guarded.last().document));
}

/// Two indexes that differ only in documents that may not be read, however many and
/// wherever they stand, give the same counts and the same results, whatever the documents
/// that may be read are scored with.
pub proof fn law_denied_documents_leave_no_trace(
    board: Seq<char>,
    options: SearchOptions,
    a: Seq<Guarded>,
    b: Seq<Guarded>,
    enforcing: bool,
    scored: spec_fn(Seq<Document>) -> Seq<Candidate>,
    counts: Option<search_match::CorpusCounts>,
)
    requires
        tables::kept(a, may_be_read(enforcing)) == tables::kept(b, may_be_read(enforcing)),
    ensures
        readable(a, enforcing) == readable(b, enforcing),
        search_match::are_permitted_counts(counts, readable(a, enforcing), options.query@)
            <==> search_match::are_permitted_counts(
            counts,
            readable(b, enforcing),
            options.query@,
        ),
        board_results(board, options, scored(readable(a, enforcing))) == board_results(
            board,
            options,
            scored(readable(b, enforcing)),
        ),
{
}

/// One document that may be read, with what was found out about it: whether the
/// full-text match speaks for it, whether its meaning is close, and its rank.
#[derive(Debug)]
pub struct Candidate {
    pub document: Document,
    pub lexical: bool,
    pub semantic: bool,
    pub rank: i64,
}

/// What a search is refused with.
pub open spec fn options_refusal(options: SearchOptions, ceiling: usize) -> Option<Seq<char>> {
    if text::is_blank(options.query@) {
        Some("search query is required"@)
    } else if options.limit == 0 || options.limit > ceiling {
        Some("search limit must be between 1 and "@ + text::digits(ceiling as nat))
    } else if options.max_chars < 256 || options.max_chars > 100_000 {
        Some("search max chars must be between 256 and 100000"@)
    } else {
        None
    }
}

/// Whether a search may be made at all.
pub fn check_options(options: &SearchOptions, ceiling: usize) -> (r: Result<(), Error>)
    ensures
        match options_refusal(*options, ceiling) {
            Some(m) => text::refused(r, m),
            None => r is Ok,
        },
{
    proof {
        text::lemma_trimmed_blank(options.query@);
    }
    if text::trim(options.query.as_str()).is_empty() {
        return text::refuse("search query is required".to_owned());
    }
    if options.limit == 0 || options.limit > ceiling {
        let shown = text::show_u64(ceiling as u64);
        return text::refuse(
            "search limit must be between 1 and ".to_owned().concat(shown.as_str()),
        );
    }
    if options.max_chars < 256 || options.max_chars > 100_000 {
        return text::refuse("search max chars must be between 256 and 100000".to_owned());
    }
    Ok(())
}

pub open spec fn citation_of(board: Seq<char>, kind: Seq<char>, id: Seq<char>) -> Seq<char> {
    "kanban://"@ + board + "/"@ + kind + "/"@ + id
}

/// A candidate is shown.
pub open spec fn is_shown(query: Seq<char>, c: Candidate) -> bool {
    search_match::is_eligible(
        query,
        search_match::document_hit(c.document, query),
        c.lexical,
        c.semantic,
    )
}

/// The result that a candidate is shown as.
pub open spec fn result_of(
    board: Seq<char>,
    query: Seq<char>,
    c: Candidate,
    index: usize,
) -> ResultView {
    let d = c.document;
    ResultView {
        board,
        source_kind: d.source_kind@,
        source_id: d.source_id@,
        task_id: text::text_of(d.task_id),
        title: d.title@,
        snippet: search_match::snippet_of(d, search_text::words_of(query)),
        status: text::text_of(d.status),
        lane: text::text_of(d.lane),
        tags: search_text::runs_of(d.tags@),
        created_at: d.created_at,
        updated_at: d.updated_at,
        archived: d.archived,
        exact: search_match::document_hit(d, query),
        rank: c.rank,
        index,
        citation: citation_of(board, d.source_kind@, d.source_id@),
    }
}

/// The results of the first candidates, in their order.
pub open spec fn results_up_to(
    board: Seq<char>,
    query: Seq<char>,
    candidates: Seq<Candidate>,
    n: int,
) -> Seq<ResultView>
    decreases n,
{
    if n <= 0 {
        seq![]
    } else {
        let before = results_up_to(board, query, candidates, n - 1);
        if is_shown(query, candidates[n - 1]) {
            before.push(result_of(board, query, candidates[n - 1], (n - 1) as usize))
        } else {
            before
        }
    }
}

/// What a search of a board gives.
pub open spec fn board_results(
    board: Seq<char>,
    options: SearchOptions,
    candidates: Seq<Candidate>,
) -> Seq<ResultView> {
    first_results(
        ranking::sorted_by(
            results_up_to(board, options.query@, candidates, candidates.len() as int),
            stands_before(ResultOrder::Board),
        ),
        options.limit,
    )
}

fn show_candidate(
    board: &str,
    query: &str,
    words: &[String],
    exact: ExactHit,
    c: Candidate,
    index: usize,
) -> (r: SearchResult)
    requires
        text::texts(words@) == search_text::words_of(query@),
        exact == search_match::document_hit(c.document, query@),
    ensures
        r@ == result_of(board@, query@, c, index),
{
    let d = c.document;
    let snippet = search_match::snippet(&d, words);
    let tags = search_text::split_whitespace(d.tags.as_str());
    let citation = "kanban://".to_owned().concat(board).concat("/").concat(
        d.source_kind.as_str(),
    ).concat("/").concat(d.source_id.as_str());
    SearchResult {
        board: board.to_owned(),
        source_kind: d.source_kind,
        source_id: d.source_id,
        task_id: d.task_id,
        title: d.title,
        snippet,
        status: d.status,
        lane: d.lane,
        tags,
        created_at: d.created_at,
        updated_at: d.updated_at,
        archived: d.archived,
        exact,
        rank: c.rank,
        index,
        citation,
    }
}

/// Ranks and builds the results of a board from the documents that may be read.
pub fn search(
    board: &str,
    options: &SearchOptions,
    ceiling: usize,
    candidates: Vec<Candidate>,
) -> (r: Result<Vec<SearchResult>, Error>)
    ensures
        match options_refusal(*options, ceiling) {
            Some(m) => text::refused(r, m),
            None => r is Ok && result_views(r->Ok_0@) == board_results(
                board@,
                *options,
                candidates@,
            ),
        },
{
    if let Err(e) = check_options(options, ceiling) {
        return Err(e);
    }
    let query = options.query.as_str();
    let words = search_text::words(query);
    let ghost all = candidates@;
    let mut results: Vec<SearchResult> = Vec::new();
    let mut index: usize = 0;
    let count: usize = candidates.len();
    proof {
        assert(result_views(results@) =~= seq![]);
    }
    for c in it: candidates
        invariant
            it.seq() == all,
            count == all.len(),
            index == it.index(),
            query@ == options.query@,
            text::texts(words@) == search_text::words_of(query@),
            result_views(results@) == results_up_to(board@, query@, all, it.index() as int),
    {
        let ghost before = result_views(results@);
        let ghost n = it.index() as int;
        let exact = search_match::exact_hit(&c.document, query);
        if search_match::result_is_eligible(query, exact, c.lexical, c.semantic) {
            let result = show_candidate(board, query, words.as_slice(), exact, c, index);
            results.push(result);
            proof {
                assert(result_views(results@) =~= before.push(result@));
            }
        }
        proof {
            assert(n < all.len());
        }
        index = index + 1;
    }
    let sorted = sort_results(results, ResultOrder::Board);
    Ok(limit_results(sorted, options.limit))
}

/// Every result is that of a candidate.
pub proof fn law_results_are_of_candidates(
    board: Seq<char>,
    query: Seq<char>,
    candidates: Seq<Candidate>,
    n: int,
)
    requires
        0 <= n <= candidates.len(),
    ensures
        forall|i: int|
            0 <= i < results_up_to(board, query, candidates, n).len() ==> {
                let k = (#[trigger] results_up_to(board, query, candidates, n)[i]).index as int;
                candidates.len() <= usize::MAX ==> 0 <= k < n && results_up_to(board, query, candidates, n)[i] == result_of(
                    board,
                    query,
                    candidates[k],
                    k as usize,
                )
            },
    decreases n,
{
    if n > 0 {
        law_results_are_of_candidates(board, query, candidates, n - 1);
    }
}

// -------------------------------------------------------------------------------- rules

/// One rule with what was found out about it: whether its meaning is close, and its
/// rank.
#[derive(Debug)]
pub struct RuleCandidate {
    pub rule: Rule,
    pub semantic: bool,
    pub rank: i64,
}

pub open spec fn rule_status(rule: Rule) -> Seq<char> {
    if rule.archived {
        "retired"@
    } else {
        "active"@
    }
}

/// The options select a rule.
pub open spec fn selects_rule(options: SearchOptions, rule: Rule) -> bool {
    &&& options.include_archived || !rule.archived
    &&& forall|i: int|
        0 <= i < options.tags@.len() ==> text::texts(rule.tags@).contains(
            (#[trigger] options.tags@[i])@,
        )
    &&& options.after is Some ==> rule.updated_at >= options.after->0
    &&& options.before is Some ==> rule.updated_at <= options.before->0
    &&& search_index::fits(options.status, Some(rule_status(rule)))
}

/// How a rule holds a query.
pub open spec fn rule_hit(rule: Rule, query: Seq<char>) -> ExactHit {
    let body = outside::lowercase(rule.body@);
    if outside::lowercase(rule.id@) == outside::lowercase(query) {
        ExactHit::SourceId
    } else if text::contains_text(body, outside::lowercase(query)) {
        ExactHit::Body
    } else {
        search_match::word_hits(body, search_text::words_of(query))
    }
}

/// How a rule holds a query.
pub fn rule_exact_hit(rule: &Rule, query: &str) -> (r: ExactHit)
    ensures
        r == rule_hit(*rule, query@),
{
    let lowered = outside::to_lower(query);
    let id = outside::to_lower(rule.id.as_str());
    if text::same(id.as_str(), lowered.as_str()) {
        return ExactHit::SourceId;
    }
    let body = outside::to_lower(rule.body.as_str());
    if text::contains(body.as_str(), lowered.as_str()) {
        return ExactHit::Body;
    }
    let words = search_text::words(query);
    search_match::count_words(body.as_str(), words.as_slice())
}

pub open spec fn first_line(body: Seq<char>) -> Seq<char> {
    if text::lines_of(body).len() > 0 {
        text::lines_of(body)[0]
    } else {
        "rule"@
    }
}

pub open spec fn rule_snippet(body: Seq<char>) -> Seq<char> {
    search_text::squeezed(
        if body.len() > SNIPPET_CHARS {
            body.take(SNIPPET_CHARS as int)
        } else {
            body
        },
    )
}

pub open spec fn is_rule_shown(options: SearchOptions, c: RuleCandidate) -> bool {
    selects_rule(options, c.rule) && search_match::is_eligible(
        options.query@,
        rule_hit(c.rule, options.query@),
        false,
        c.semantic,
    )
}

pub open spec fn rule_result(query: Seq<char>, c: RuleCandidate, index: usize) -> ResultView {
    ResultView {
        board: "rules"@,
        source_kind: "rule"@,
        source_id: c.rule.id@,
        task_id: None,
        title: first_line(c.rule.body@),
        snippet: rule_snippet(c.rule.body@),
        status: Some(rule_status(c.rule)),
        lane: None,
        tags: text::texts(c.rule.tags@),
        created_at: c.rule.created_at,
        updated_at: c.rule.updated_at,
        archived: c.rule.archived,
        exact: rule_hit(c.rule, query),
        rank: c.rank,
        index,
        citation: "kanban://rules/rule/"@ + c.rule.id@,
    }
}

pub open spec fn rules_up_to(options: SearchOptions, candidates: Seq<RuleCandidate>, n: int) -> Seq<
    ResultView,
>
    decreases n,
{
    if n <= 0 {
        seq![]
    } else {
        let before = rules_up_to(options, candidates, n - 1);
        if is_rule_shown(options, candidates[n - 1]) {
            before.push(rule_result(options.query@, candidates[n - 1], (n - 1) as usize))
        } else {
            before
        }
    }
}

/// Rules are searched at all: only where no other source and no lane is asked for.
pub open spec fn asks_for_rules(options: SearchOptions) -> bool {
    search_index::fits(options.source, Some("rule"@)) && options.lane is None
}

/// What a search of the rules gives.
pub open spec fn rule_results(options: SearchOptions, candidates: Seq<RuleCandidate>) -> Seq<
    ResultView,
> {
    if asks_for_rules(options) {
        first_results(
            ranking::sorted_by(
                rules_up_to(options, candidates, candidates.len() as int),
                stands_before(ResultOrder::Rules),
            ),
            options.limit,
        )
    } else {
        seq![]
    }
}

fn has_all(tags: &[String], wanted: &[String]) -> (r: bool)
    ensures
        r == (forall|i: int|
            0 <= i < wanted@.len() ==> text::texts(tags@).contains((#[trigger] wanted@[i])@)),
{
    let mut i: usize = 0;
    while i < wanted.len()
        invariant
            i <= wanted@.len(),
            forall|k: int|
                0 <= k < i ==> text::texts(tags@).contains((#[trigger] wanted@[k])@),
        decreases wanted.len() - i,
    {
        if !text::holds(tags, wanted[i].as_str()) {
            proof {
                assert(!text::texts(tags@).contains(wanted@[i as int]@));
            }
            return false;
        }
        i = i + 1;
    }
    true
}

fn rule_selected(options: &SearchOptions, rule: &Rule) -> (r: bool)
    ensures
        r == selects_rule(*options, *rule),
{
    let status = if rule.archived {
        "retired"
    } else {
        "active"
    };
    let in_status = match &options.status {
        Some(wanted) => text::same(wanted.as_str(), status),
        None => true,
    };
    let in_time = match options.after {
        Some(after) => rule.updated_at >= after,
        None => true,
    } && match options.before {
        Some(before) => rule.updated_at <= before,
        None => true,
    };
    (options.include_archived || !rule.archived) && has_all(
        rule.tags.as_slice(),
        options.tags.as_slice(),
    ) && in_time && in_status
}

fn show_rule(query: &str, exact: ExactHit, c: RuleCandidate, index: usize) -> (r: SearchResult)
    requires
        exact == rule_hit(c.rule, query@),
    ensures
        r@ == rule_result(query@, c, index),
{
    let rule = c.rule;
    let lines = text::lines(rule.body.as_str());
    proof {
        assert(text::texts(lines@).len() == lines@.len());
    }
    let title = if lines.len() > 0 {
        proof {
            assert(text::texts(lines@)[0] == lines@[0]@);
        }
        lines[0].clone()
    } else {
        "rule".to_owned()
    };
    let n: usize = rule.body.as_str().unicode_len();
    let snippet = if n > SNIPPET_CHARS {
        let head = rule.body.as_str().substring_char(0, SNIPPET_CHARS);
        proof {
            assert(head@ =~= rule.body@.take(SNIPPET_CHARS as int));
        }
        search_text::squeeze(head)
    } else {
        search_text::squeeze(rule.body.as_str())
    };
    let status = if rule.archived {
        "retired".to_owned()
    } else {
        "active".to_owned()
    };
    let citation = "kanban://rules/rule/".to_owned().concat(rule.id.as_str());
    SearchResult {
        board: "rules".to_owned(),
        source_kind: "rule".to_owned(),
        source_id: rule.id,
        task_id: None,
        title,
        snippet,
        status: Some(status),
        lane: None,
        tags: rule.tags,
        created_at: rule.created_at,
        updated_at: rule.updated_at,
        archived: rule.archived,
        exact,
        rank: c.rank,
        index,
        citation,
    }
}

/// Ranks and builds the results of the rules.
pub fn search_rules(candidates: Vec<RuleCandidate>, options: &SearchOptions) -> (r: Vec<
    SearchResult,
>)
    ensures
        result_views(r@) == rule_results(*options, candidates@),
{
    let source_fits = match &options.source {
        Some(wanted) => text::same(wanted.as_str(), "rule"),
        None => true,
    };
    let mut results: Vec<SearchResult> = Vec::new();
    proof {
        assert(result_views(results@) =~= seq![]);
    }
    if !source_fits || options.lane.is_some() {
        return results;
    }
    let query = options.query.as_str();
    let ghost all = candidates@;
    let count: usize = candidates.len();
    let mut index: usize = 0;
    for c in it: candidates
        invariant
            it.seq() == all,
            count == all.len(),
            index == it.index(),
            query@ == options.query@,
            result_views(results@) == rules_up_to(*options, all, it.index() as int),
    {
        let ghost before = result_views(results@);
        let ghost n = it.index() as int;
        if rule_selected(options, &c.rule) {
            let exact = rule_exact_hit(&c.rule, query);
            if search_match::result_is_eligible(query, exact, false, c.semantic) {
                let result = show_rule(query, exact, c, index);
                results.push(result);
                proof {
                    assert(result_views(results@) =~= before.push(result@));
                }
            }
        }
        proof {
            assert(n < all.len());
        }
        index = index + 1;
    }
    let sorted = sort_results(results, ResultOrder::Rules);
    limit_results(sorted, options.limit)
}

// ------------------------------------------------------------------------------ receipts

/// What a search answers with.
#[derive(Debug)]
pub struct SearchReceipt {
    pub query: String,
    pub embedding_model: String,
    pub boards: Vec<String>,
    pub missing_boards: Vec<String>,
    pub unreadable_boards: Vec<UnreadableBoard>,
    pub results: Vec<SearchResult>,
    pub result_chars: usize,
    pub truncated: bool,
    pub generated_at: i64,
}

/// What a result costs besides its snippet.
pub open spec fn fixed_cost(x: ResultView) -> nat {
    x.title.len() + x.citation.len() + 80
}

/// A snippet cut to what is available.
pub open spec fn fitted(snippet: Seq<char>, available: nat) -> Seq<char> {
    if snippet.len() > available {
        snippet.take(available - 1).push('…')
    } else {
        snippet
    }
}

/// The results that fit behind those that took so many characters, with their snippets
/// cut to fit, and how many characters that makes.
pub open spec fn fitting(s: Seq<ResultView>, chars: nat, max_chars: nat) -> (Seq<ResultView>, nat)
    decreases s.len(),
{
    if s.len() == 0 || chars + fixed_cost(s[0]) >= max_chars {
        (seq![], chars)
    } else {
        let fixed = fixed_cost(s[0]);
        let snippet = fitted(s[0].snippet, (max_chars - chars - fixed) as nat);
        let first = ResultView { snippet, ..s[0] };
        let (rest, total) = fitting(s.skip(1), chars + fixed + snippet.len(), max_chars);
        (seq![first] + rest, total)
    }
}

/// A receipt never takes more than what was asked for.
pub proof fn law_receipt_fits(s: Seq<ResultView>, chars: nat, max_chars: nat)
    requires
        chars <= max_chars,
    ensures
        fitting(s, chars, max_chars).1 <= max_chars,
        fitting(s, chars, max_chars).0.len() <= s.len(),
    decreases s.len(),
{
    if s.len() > 0 && chars + fixed_cost(s[0]) < max_chars {
        let fixed = fixed_cost(s[0]);
        let available = (max_chars - chars - fixed) as nat;
        let snippet = fitted(s[0].snippet, available);
        assert(snippet.len() <= available);
        law_receipt_fits(s.skip(1), chars + fixed + snippet.len(), max_chars);
    }
}

/// The results of a receipt, and their characters.
pub open spec fn receipt_results(results: Seq<ResultView>, limit: usize, max_chars: usize) -> (
    Seq<ResultView>,
    nat,
) {
    fitting(
        first_results(
            ranking::sorted_by(results, stands_before(ResultOrder::Receipt)),
            limit,
        ),
        0,
        max_chars as nat,
    )
}

fn fit_snippet(snippet: String, available: usize) -> (r: String)
    requires
        available > 0,
    ensures
        r@ == fitted(snippet@, available as nat),
{
    let n: usize = snippet.as_str().unicode_len();
    if n > available {
        let mut out = snippet.as_str().substring_char(0, available - 1).to_owned();
        out.push('…');
        proof {
            assert(out@ =~= snippet@.take(available - 1).push('…'));
        }
        out
    } else {
        snippet
    }
}

fn fit_results(results: Vec<SearchResult>, max_chars: usize) -> (r: (Vec<SearchResult>, usize))
    ensures
        (result_views(r.0@), r.1 as nat) == fitting(
            result_views(results@),
            0,
            max_chars as nat,
        ),
{
    let ghost all = results@;
    let ghost whole = result_views(results@);
    let mut kept: Vec<SearchResult> = Vec::new();
    let mut chars: usize = 0;
    let mut full = false;
    proof {
        assert(whole.skip(0) =~= whole);
        let t = fitting(whole, 0, max_chars as nat);
        assert(result_views(kept@) + t.0 =~= t.0);
    }
    for x in it: results
        invariant
            it.seq() == all,
            whole == result_views(all),
            chars <= max_chars,
            full ==> fitting(whole, 0, max_chars as nat) == (result_views(kept@), chars as nat),
            !full ==> fitting(whole, 0, max_chars as nat) == ({
                let t = fitting(
                    whole.skip(it.index() as int),
                    chars as nat,
                    max_chars as nat,
                );
                (result_views(kept@) + t.0, t.1)
            }),
    {
        let ghost n = it.index() as int;
        let ghost rest = whole.skip(n);
        if !full {
            let title: u128 = x.title.as_str().unicode_len() as u128;
            let citation: u128 = x.citation.as_str().unicode_len() as u128;
            let fixed: u128 = title + citation + 80;
            proof {
                assert(rest[0] == x@);
                assert(rest.skip(1) =~= whole.skip(n + 1));
                assert(fixed == fixed_cost(x@));
            }
            if chars as u128 + fixed >= max_chars as u128 {
                full = true;
                proof {
                    assert(result_views(kept@) + seq![] =~= result_views(kept@));
                }
            } else {
                let ghost before = result_views(kept@);
                let ghost was = x@;
                let available: usize = max_chars - chars - fixed as usize;
                let snippet = fit_snippet(x.snippet, available);
                let taken: usize = snippet.as_str().unicode_len();
                let cut = SearchResult {
                    board: x.board,
                    source_kind: x.source_kind,
                    source_id: x.source_id,
                    task_id: x.task_id,
                    title: x.title,
                    snippet,
                    status: x.status,
                    lane: x.lane,
                    tags: x.tags,
                    created_at: x.created_at,
                    updated_at: x.updated_at,
                    archived: x.archived,
                    exact: x.exact,
                    rank: x.rank,
                    index: x.index,
                    citation: x.citation,
                };
                kept.push(cut);
                proof {
                    assert(result_views(kept@) =~= before.push(cut@));
                    assert(cut@ == (ResultView { snippet: snippet@, ..was }));
                    let t = fitting(
                        whole.skip(n + 1),
                        (chars + fixed + taken) as nat,
                        max_chars as nat,
                    );
                    assert(before + (seq![cut@] + t.0) =~= result_views(kept@) + t.0);
                }
                chars = chars + fixed as usize + taken;
            }
        }
    }
    proof {
        if !full {
            assert(whole.skip(whole.len() as int) =~= seq![]);
            assert(result_views(kept@) + seq![] =~= result_views(kept@));
        }
    }
    (kept, chars)
}

/// A receipt says what the results and the boards were, at a time.
pub open spec fn is_receipt(
    r: SearchReceipt,
    query: Seq<char>,
    boards: Vec<String>,
    missing_boards: Vec<String>,
    unreadable_boards: Vec<UnreadableBoard>,
    results: Seq<ResultView>,
    limit: usize,
    max_chars: usize,
    now: i64,
) -> bool {
    let (kept, chars) = receipt_results(results, limit, max_chars);
    &&& r.query@ == query
    &&& r.embedding_model@ == EMBEDDING_MODEL@
    &&& r.boards == boards
    &&& r.missing_boards == missing_boards
    &&& r.unreadable_boards == unreadable_boards
    &&& result_views(r.results@) == kept
    &&& r.result_chars == chars
    &&& r.truncated == (kept.len() < results.len())
    &&& r.generated_at == now
}

/// The receipt of a search at a time.
pub fn bound_receipt_at(
    query: &str,
    boards: Vec<String>,
    missing_boards: Vec<String>,
    unreadable_boards: Vec<UnreadableBoard>,
    results: Vec<SearchResult>,
    limit: usize,
    max_chars: usize,
    now: i64,
) -> (r: SearchReceipt)
    ensures
        is_receipt(
            r,
            query@,
            boards,
            missing_boards,
            unreadable_boards,
            result_views(results@),
            limit,
            max_chars,
            now,
        ),
{
    let initially: usize = results.len();
    let sorted = sort_results(results, ResultOrder::Receipt);
    let limited = limit_results(sorted, limit);
    let (kept, chars) = fit_results(limited, max_chars);
    let truncated = kept.len() < initially;
    proof {
        assert(result_views(kept@).len() == kept@.len());
        assert(result_views(results@).len() == initially);
    }
    SearchReceipt {
        query: query.to_owned(),
        embedding_model: EMBEDDING_MODEL.to_owned(),
        boards,
        missing_boards,
        unreadable_boards,
        results: kept,
        result_chars: chars,
        truncated,
        generated_at: now,
    }
}

/// The receipt of a search: the best results first, at most so many, and no more of
/// them than fits.
pub fn bound_receipt(
    query: &str,
    boards: Vec<String>,
    missing_boards: Vec<String>,
    unreadable_boards: Vec<UnreadableBoard>,
    results: Vec<SearchResult>,
    limit: usize,
    max_chars: usize,
) -> (r: SearchReceipt)
    ensures
        exists|now: i64|
            is_receipt(
                r,
                query@,
                boards,
                missing_boards,
                unreadable_boards,
                result_views(results@),
                limit,
                max_chars,
                now,
            ),
{
    let now: i64 = clock::now_ms();
    bound_receipt_at(
        query,
        boards,
        missing_boards,
        unreadable_boards,
        results,
        limit,
        max_chars,
        now,
    )
}

} // verus!
